//! Turns a command-line-style string into typed flag values: the tokens are
//! grouped under their `--flag`, and each flag's values are classified as a
//! boolean, integer, float or string, or a list of one of those, and converted.
use vstd::prelude::*;

pub mod classify;
pub mod collection;
pub mod command;
pub mod literal;
pub mod text;

pub use classify::{classify, convert, remove_list_string_ends, ArgType, ArgValue, ParseError};
pub use collection::{Bucket, TypedCollection};
pub use command::{accumulate_flags, parse_custom_command};

verus! {

} // verus!
