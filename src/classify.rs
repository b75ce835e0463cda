//! The type-inference engine: deciding which type a list of raw values has, and
//! converting the values to it.
use vstd::prelude::*;
use crate::literal::{
    bool_lit_value, int_lit_value, is_bool_lit, is_bool_literal, is_float_lit, is_float_literal,
    is_int_lit, is_true_literal, parse_int_literal,
};
use crate::literal::lemma_literals_have_no_space;
use crate::text::{
    is_ws, join_sp, join_space, lemma_join_shape, lemma_trim_fixed, lemma_trim_shape, split_commas,
    split_on, trim, trim_str, views,
};

verus! {

/// The type a list of raw values is classified as.
#[derive(Clone, Copy, Debug, PartialEq, Eq, Structural)]
pub enum ArgType {
    Boolean,
    String,
    Integer,
    Float,
    ListBoolean,
    ListInteger,
    ListFloat,
    BracedListString,
    BracedListInteger,
    BracedListFloat,
}

/// Why a command could not be parsed.
#[derive(Clone, Copy, Debug, PartialEq, Eq, Structural)]
pub enum ParseError {
    /// A flag's value list holds nothing once blanks (and, for a bracketed list,
    /// the brackets) are removed.
    EmptyValueList,
    /// A value that classification accepted did not convert; never returned.
    ConversionInvariantViolation,
    /// The command could not be split into tokens; never returned.
    UnparseableCommand,
}

/// What a converted value is, mathematically. Floats are kept as their literal text.
pub enum ValueModel {
    Boolean(bool),
    Str(Seq<char>),
    Integer(int),
    Float(Seq<char>),
    ListBoolean(Seq<bool>),
    ListInteger(Seq<int>),
    ListFloat(Seq<Seq<char>>),
    ListString(Seq<Seq<char>>),
}

/// A converted value. Floats are kept as their literal text, which is a valid
/// `f64` literal.
#[derive(Debug, PartialEq)]
pub enum ArgValue {
    Boolean(bool),
    Str(String),
    Integer(i64),
    Float(String),
    ListBoolean(Vec<bool>),
    ListInteger(Vec<i64>),
    ListFloat(Vec<String>),
    ListString(Vec<String>),
}

impl View for ArgValue {
    type V = ValueModel;

    open spec fn view(&self) -> ValueModel {
        match self {
            ArgValue::Boolean(b) => ValueModel::Boolean(*b),
            ArgValue::Str(s) => ValueModel::Str(s@),
            ArgValue::Integer(n) => ValueModel::Integer(*n as int),
            ArgValue::Float(s) => ValueModel::Float(s@),
            ArgValue::ListBoolean(l) => ValueModel::ListBoolean(l@),
            ArgValue::ListInteger(l) => ValueModel::ListInteger(l@.map_values(|x: i64| x as int)),
            ArgValue::ListFloat(l) => ValueModel::ListFloat(views(l@)),
            ArgValue::ListString(l) => ValueModel::ListString(views(l@)),
        }
    }
}

/// The values trimmed, with those that are then empty left out.
pub open spec fn clean(v: Seq<Seq<char>>) -> Seq<Seq<char>>
    decreases v.len(),
{
    if v.len() == 0 {
        seq![]
    } else {
        let p = clean(v.drop_last());
        let t = trim(v.last());
        if t.len() > 0 {
            p.push(t)
        } else {
            p
        }
    }
}

/// `p` without one leading `[` and one trailing `]`, where present.
pub open spec fn strip_brackets(p: Seq<char>) -> Seq<char> {
    let a = if p.len() > 0 && p[0] == '[' {
        p.drop_first()
    } else {
        p
    };
    if a.len() > 0 && a.last() == ']' {
        a.drop_last()
    } else {
        a
    }
}

/// A piece of a bracketed list: trimmed, stripped of its brackets, trimmed again.
pub open spec fn piece(p: Seq<char>) -> Seq<char> {
    trim(strip_brackets(trim(p)))
}

/// The pieces turned by `piece`, with the empty ones left out.
pub open spec fn clean_pieces(v: Seq<Seq<char>>) -> Seq<Seq<char>>
    decreases v.len(),
{
    if v.len() == 0 {
        seq![]
    } else {
        let p = clean_pieces(v.drop_last());
        let t = piece(v.last());
        if t.len() > 0 {
            p.push(t)
        } else {
            p
        }
    }
}

/// The elements of a bracketed list: the values joined with spaces, split on
/// commas, each piece cleaned.
pub open spec fn unbrace(v: Seq<Seq<char>>) -> Seq<Seq<char>> {
    clean_pieces(split_on(join_sp(v), ','))
}

/// The first value, trimmed, begins with `[` and the last one, trimmed, ends with `]`.
pub open spec fn is_list(v: Seq<Seq<char>>) -> bool {
    v.len() > 0 && trim(v[0]).len() > 0 && trim(v[0])[0] == '[' && trim(v.last()).len() > 0
        && trim(v.last()).last() == ']'
}

pub open spec fn all_bool(v: Seq<Seq<char>>) -> bool {
    forall|i: int| 0 <= i < v.len() ==> is_bool_lit(#[trigger] v[i])
}

pub open spec fn all_int(v: Seq<Seq<char>>) -> bool {
    forall|i: int| 0 <= i < v.len() ==> is_int_lit(#[trigger] v[i])
}

pub open spec fn all_float(v: Seq<Seq<char>>) -> bool {
    forall|i: int| 0 <= i < v.len() ==> is_float_lit(#[trigger] v[i])
}

/// The type of a list of raw values, decided in a fixed order: bracketed lists
/// first, then booleans, integers, floats, and strings last.
pub open spec fn spec_classify(values: Seq<Seq<char>>) -> Result<ArgType, ParseError> {
    let c = clean(values);
    if c.len() == 0 {
        Err(ParseError::EmptyValueList)
    } else if is_list(c) {
        let p = unbrace(c);
        if p.len() == 0 {
            Err(ParseError::EmptyValueList)
        } else if all_int(p) {
            Ok(ArgType::BracedListInteger)
        } else if all_float(p) {
            Ok(ArgType::BracedListFloat)
        } else {
            Ok(ArgType::BracedListString)
        }
    } else if all_bool(c) {
        if c.len() == 1 {
            Ok(ArgType::Boolean)
        } else {
            Ok(ArgType::ListBoolean)
        }
    } else if all_int(c) {
        if c.len() == 1 {
            Ok(ArgType::Integer)
        } else {
            Ok(ArgType::ListInteger)
        }
    } else if all_float(c) {
        if c.len() == 1 {
            Ok(ArgType::Float)
        } else {
            Ok(ArgType::ListFloat)
        }
    } else {
        Ok(ArgType::String)
    }
}

/// The value a list of raw values converts to under its classification.
pub open spec fn spec_convert(values: Seq<Seq<char>>) -> Result<ValueModel, ParseError> {
    let c = clean(values);
    let p = unbrace(c);
    match spec_classify(values) {
        Err(e) => Err(e),
        Ok(t) => Ok(
            match t {
                ArgType::Boolean => ValueModel::Boolean(bool_lit_value(c[0])),
                ArgType::String => ValueModel::Str(join_sp(c)),
                ArgType::Integer => ValueModel::Integer(int_lit_value(c[0])),
                ArgType::Float => ValueModel::Float(c[0]),
                ArgType::ListBoolean => ValueModel::ListBoolean(
                    c.map_values(|s: Seq<char>| bool_lit_value(s)),
                ),
                ArgType::ListInteger => ValueModel::ListInteger(
                    c.map_values(|s: Seq<char>| int_lit_value(s)),
                ),
                ArgType::ListFloat => ValueModel::ListFloat(c),
                ArgType::BracedListString => ValueModel::ListString(p),
                ArgType::BracedListInteger => ValueModel::ListInteger(
                    p.map_values(|s: Seq<char>| int_lit_value(s)),
                ),
                ArgType::BracedListFloat => ValueModel::ListFloat(p),
            },
        ),
    }
}

/// The values trimmed, with those that are then empty left out.
pub fn clean_values(value: &Vec<String>) -> (r: Vec<String>)
    ensures
        views(r@) == clean(views(value@)),
{
    let mut r: Vec<String> = Vec::new();
    let mut i: usize = 0;
    while i < value.len()
        invariant
            i <= value@.len(),
            views(r@) == clean(views(value@).subrange(0, i as int)),
        decreases value@.len() - i,
    {
        assert(views(value@).subrange(0, i + 1).drop_last() =~= views(value@).subrange(
            0,
            i as int,
        ));
        let t = trim_str(value[i].as_str());
        if t.as_str().unicode_len() > 0 {
            let ghost before = r@;
            r.push(t);
            assert(views(r@) =~= views(before).push(t@));
        }
        i = i + 1;
    }
    assert(views(value@).subrange(0, value@.len() as int) =~= views(value@));
    r
}

/// `p` trimmed, stripped of one leading `[` and one trailing `]`, trimmed again.
fn clean_piece(p: &str) -> (r: String)
    ensures
        r@ == piece(p@),
{
    let t = trim_str(p);
    let n = t.as_str().unicode_len();
    let mut from: usize = 0;
    let mut to: usize = n;
    if n > 0 && t.as_str().get_char(0) == '[' {
        from = 1;
    }
    if to > from && t.as_str().get_char(to - 1) == ']' {
        to = to - 1;
    }
    proof {
        let a = if t@.len() > 0 && t@[0] == '[' {
            t@.drop_first()
        } else {
            t@
        };
        assert(a =~= t@.subrange(from as int, n as int));
        if a.len() > 0 && a.last() == ']' {
            assert(a.drop_last() =~= t@.subrange(from as int, to as int));
        } else {
            assert(a =~= t@.subrange(from as int, to as int));
        }
    }
    let inner = t.as_str().substring_char(from, to);
    trim_str(inner)
}

/// The elements of a bracketed list: the values joined with spaces, split on
/// commas, each piece trimmed and stripped of one `[` and one `]`, empty pieces
/// left out.
pub fn remove_list_string_ends(value: &Vec<String>) -> (r: Vec<String>)
    ensures
        views(r@) == unbrace(views(value@)),
{
    let joined = join_space(value);
    let parts = split_commas(joined.as_str());
    let mut r: Vec<String> = Vec::new();
    let mut i: usize = 0;
    while i < parts.len()
        invariant
            i <= parts@.len(),
            views(parts@) == split_on(join_sp(views(value@)), ','),
            views(r@) == clean_pieces(views(parts@).subrange(0, i as int)),
        decreases parts@.len() - i,
    {
        assert(views(parts@).subrange(0, i + 1).drop_last() =~= views(parts@).subrange(
            0,
            i as int,
        ));
        let t = clean_piece(parts[i].as_str());
        if t.as_str().unicode_len() > 0 {
            let ghost before = r@;
            r.push(t);
            assert(views(r@) =~= views(before).push(t@));
        }
        i = i + 1;
    }
    assert(views(parts@).subrange(0, parts@.len() as int) =~= views(parts@));
    r
}

/// Whether the first value, trimmed, begins with `[` and the last one, trimmed,
/// ends with `]`.
pub fn is_list_type(value: &Vec<String>) -> (r: bool)
    ensures
        r == is_list(views(value@)),
        r == (value@.len() > 0 && trim(value@[0]@).len() > 0 && trim(value@[0]@)[0] == '['
            && trim(value@.last()@).len() > 0 && trim(value@.last()@).last() == ']'),
{
    if value.len() == 0 {
        return false;
    }
    let first = trim_str(value[0].as_str());
    let last = trim_str(value[value.len() - 1].as_str());
    let nf = first.as_str().unicode_len();
    let nl = last.as_str().unicode_len();
    assert(views(value@)[0] == value@[0]@);
    assert(views(value@).last() == value@.last()@);
    nf > 0 && first.as_str().get_char(0) == '[' && nl > 0 && last.as_str().get_char(nl - 1) == ']'
}

/// Whether every value is `true` or `false`.
pub fn can_parse_as_bool(value: &Vec<String>) -> (r: bool)
    ensures
        r == all_bool(views(value@)),
{
    let mut i: usize = 0;
    while i < value.len()
        invariant
            i <= value@.len(),
            forall|k: int| 0 <= k < i ==> is_bool_lit(#[trigger] views(value@)[k]),
        decreases value@.len() - i,
    {
        if !is_bool_literal(value[i].as_str()) {
            assert(!is_bool_lit(views(value@)[i as int]));
            return false;
        }
        i = i + 1;
    }
    true
}

/// Whether every value is an integer literal.
pub fn can_parse_as_int(value: &Vec<String>) -> (r: bool)
    ensures
        r == all_int(views(value@)),
{
    let mut i: usize = 0;
    while i < value.len()
        invariant
            i <= value@.len(),
            forall|k: int| 0 <= k < i ==> is_int_lit(#[trigger] views(value@)[k]),
        decreases value@.len() - i,
    {
        if parse_int_literal(value[i].as_str()).is_none() {
            assert(!is_int_lit(views(value@)[i as int]));
            return false;
        }
        i = i + 1;
    }
    true
}

/// Whether every value is a floating-point literal.
pub fn can_parse_as_float(value: &Vec<String>) -> (r: bool)
    ensures
        r == all_float(views(value@)),
{
    let mut i: usize = 0;
    while i < value.len()
        invariant
            i <= value@.len(),
            forall|k: int| 0 <= k < i ==> is_float_lit(#[trigger] views(value@)[k]),
        decreases value@.len() - i,
    {
        if !is_float_literal(value[i].as_str()) {
            assert(!is_float_lit(views(value@)[i as int]));
            return false;
        }
        i = i + 1;
    }
    true
}

/// The boolean each value denotes, or `None` where one is not a boolean literal.
pub fn parse_list_bool(value: &Vec<String>) -> (r: Option<Vec<bool>>)
    ensures
        r.is_some() == all_bool(views(value@)),
        r matches Some(l) ==> l@ == views(value@).map_values(|s: Seq<char>| bool_lit_value(s)),
{
    let mut r: Vec<bool> = Vec::new();
    let mut i: usize = 0;
    while i < value.len()
        invariant
            i <= value@.len(),
            forall|k: int| 0 <= k < i ==> is_bool_lit(#[trigger] views(value@)[k]),
            r@ == views(value@).subrange(0, i as int).map_values(
                |s: Seq<char>| bool_lit_value(s),
            ),
        decreases value@.len() - i,
    {
        if !is_bool_literal(value[i].as_str()) {
            assert(!is_bool_lit(views(value@)[i as int]));
            return None;
        }
        r.push(is_true_literal(value[i].as_str()));
        i = i + 1;
        assert(r@ =~= views(value@).subrange(0, i as int).map_values(
            |s: Seq<char>| bool_lit_value(s),
        ));
    }
    assert(views(value@).subrange(0, value@.len() as int) =~= views(value@));
    Some(r)
}

/// The integer each value denotes, or `None` where one is not an integer literal.
pub fn parse_list_int(value: &Vec<String>) -> (r: Option<Vec<i64>>)
    ensures
        r.is_some() == all_int(views(value@)),
        r matches Some(l) ==> l@.map_values(|x: i64| x as int) == views(value@).map_values(
            |s: Seq<char>| int_lit_value(s),
        ),
{
    let mut r: Vec<i64> = Vec::new();
    let mut i: usize = 0;
    while i < value.len()
        invariant
            i <= value@.len(),
            forall|k: int| 0 <= k < i ==> is_int_lit(#[trigger] views(value@)[k]),
            r@.len() == i,
            forall|k: int| 0 <= k < i ==> r@[k] as int == int_lit_value(#[trigger] views(value@)[k]),
        decreases value@.len() - i,
    {
        match parse_int_literal(value[i].as_str()) {
            Some(n) => {
                r.push(n);
            },
            None => {
                assert(!is_int_lit(views(value@)[i as int]));
                return None;
            },
        }
        i = i + 1;
    }
    assert(r@.map_values(|x: i64| x as int) =~= views(value@).map_values(
        |s: Seq<char>| int_lit_value(s),
    ));
    Some(r)
}

/// The type of a list of raw values.
pub fn classify(value: &Vec<String>) -> (r: Result<ArgType, ParseError>)
    ensures
        r == spec_classify(views(value@)),
{
    let c = clean_values(value);
    let n = c.len();
    if n == 0 {
        return Err(ParseError::EmptyValueList);
    }
    if is_list_type(&c) {
        let p = remove_list_string_ends(&c);
        if p.len() == 0 {
            Err(ParseError::EmptyValueList)
        } else if can_parse_as_int(&p) {
            Ok(ArgType::BracedListInteger)
        } else if can_parse_as_float(&p) {
            Ok(ArgType::BracedListFloat)
        } else {
            Ok(ArgType::BracedListString)
        }
    } else if can_parse_as_bool(&c) {
        if n == 1 {
            Ok(ArgType::Boolean)
        } else {
            Ok(ArgType::ListBoolean)
        }
    } else if can_parse_as_int(&c) {
        if n == 1 {
            Ok(ArgType::Integer)
        } else {
            Ok(ArgType::ListInteger)
        }
    } else if can_parse_as_float(&c) {
        if n == 1 {
            Ok(ArgType::Float)
        } else {
            Ok(ArgType::ListFloat)
        }
    } else {
        Ok(ArgType::String)
    }
}

/// A list of raw values converted to the type it is classified as.
pub fn convert(value: &Vec<String>) -> (r: Result<ArgValue, ParseError>)
    ensures
        match r {
            Ok(v) => spec_convert(views(value@)) == Ok::<ValueModel, ParseError>(v@),
            Err(e) => spec_convert(views(value@)) == Err::<ValueModel, ParseError>(e),
        },
        r matches Err(e) ==> e == ParseError::EmptyValueList,
{
    let t = match classify(value) {
        Ok(t) => t,
        Err(e) => {
            return Err(e);
        },
    };
    let c = clean_values(value);
    let ghost cv = views(c@);
    match t {
        ArgType::Boolean => {
            let b = is_true_literal(c[0].as_str());
            Ok(ArgValue::Boolean(b))
        },
        ArgType::String => Ok(ArgValue::Str(join_space(&c))),
        ArgType::Integer => {
            assert(is_int_lit(cv[0]));
            match parse_int_literal(c[0].as_str()) {
                Some(n) => Ok(ArgValue::Integer(n)),
                None => Err(ParseError::ConversionInvariantViolation),
            }
        },
        ArgType::Float => {
            let s = c[0].clone();
            Ok(ArgValue::Float(s))
        },
        ArgType::ListBoolean => match parse_list_bool(&c) {
            Some(l) => Ok(ArgValue::ListBoolean(l)),
            None => Err(ParseError::ConversionInvariantViolation),
        },
        ArgType::ListInteger => match parse_list_int(&c) {
            Some(l) => Ok(ArgValue::ListInteger(l)),
            None => Err(ParseError::ConversionInvariantViolation),
        },
        ArgType::ListFloat => Ok(ArgValue::ListFloat(c)),
        ArgType::BracedListString => Ok(ArgValue::ListString(remove_list_string_ends(&c))),
        ArgType::BracedListInteger => {
            let p = remove_list_string_ends(&c);
            match parse_list_int(&p) {
                Some(l) => Ok(ArgValue::ListInteger(l)),
                None => Err(ParseError::ConversionInvariantViolation),
            }
        },
        ArgType::BracedListFloat => Ok(ArgValue::ListFloat(remove_list_string_ends(&c))),
    }
}

/// Cleaned values are non-empty and have no whitespace at either end.
pub proof fn lemma_clean_shape(v: Seq<Seq<char>>)
    ensures
        forall|i: int|
            0 <= i < clean(v).len() ==> (#[trigger] clean(v)[i]).len() > 0 && !is_ws(
                clean(v)[i][0],
            ) && !is_ws(clean(v)[i].last()),
    decreases v.len(),
{
    if v.len() > 0 {
        let p = clean(v.drop_last());
        lemma_clean_shape(v.drop_last());
        lemma_trim_shape(v.last());
        assert forall|i: int| 0 <= i < p.len() implies clean(v)[i] == p[i] by {
            if trim(v.last()).len() > 0 {
                assert(p.push(trim(v.last()))[i] == p[i]);
            }
        }
    }
}

/// Joining the values of a list classified as a string and classifying the one
/// joined value again gives a string once more.
pub proof fn lemma_string_rejoin(values: Seq<Seq<char>>)
    requires
        spec_classify(values) == Ok::<ArgType, ParseError>(ArgType::String),
    ensures
        spec_classify(seq![join_sp(clean(values))]) == Ok::<ArgType, ParseError>(ArgType::String),
{
    let c = clean(values);
    lemma_clean_shape(values);
    lemma_join_shape(c);
    let s = join_sp(c);
    lemma_trim_fixed(s);
    let one = seq![s];
    assert(one.drop_last() =~= Seq::<Seq<char>>::empty());
    assert(clean(one.drop_last()) == Seq::<Seq<char>>::empty());
    assert(one.last() == s);
    assert(clean(one) =~= seq![s]);
    if c.len() >= 2 {
        let p = choose|p: int| 0 <= p < s.len() && s[p] == ' ';
        lemma_literals_have_no_space(s, p);
        assert(!all_bool(one) && !all_int(one) && !all_float(one)) by {
            assert(one[0] == s);
        }
    } else {
        assert(one =~= c);
    }
}

/// A bracketed list classifies and converts the same whether its text is spread
/// over several values or joined into one.
pub proof fn lemma_braced_rejoin(values: Seq<Seq<char>>)
    requires
        is_list(clean(values)),
    ensures
        spec_classify(seq![join_sp(clean(values))]) == spec_classify(values),
        spec_convert(seq![join_sp(clean(values))]) == spec_convert(values),
{
    let c = clean(values);
    lemma_clean_shape(values);
    lemma_join_shape(c);
    let s = join_sp(c);
    lemma_trim_fixed(s);
    let one = seq![s];
    assert(one.drop_last() =~= Seq::<Seq<char>>::empty());
    assert(clean(one.drop_last()) == Seq::<Seq<char>>::empty());
    assert(one.last() == s);
    assert(clean(one) =~= seq![s]);
    assert(join_sp(clean(one)) == s);
    assert(unbrace(clean(one)) == unbrace(c));
}

} // verus!
