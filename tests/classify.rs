use rust_arg_parser::classify::{is_list_type, parse_list_bool};
use rust_arg_parser::literal::{is_float_literal, parse_int_literal};
use rust_arg_parser::{classify, convert, remove_list_string_ends, ArgType, ArgValue, ParseError};

fn strings(v: &[&str]) -> Vec<String> {
    v.iter().map(|s| s.to_string()).collect()
}

#[test]
fn single_true_is_boolean() {
    assert_eq!(classify(&strings(&["true"])), Ok(ArgType::Boolean));
}

#[test]
fn two_booleans_are_list_boolean() {
    assert_eq!(classify(&strings(&["true", "false"])), Ok(ArgType::ListBoolean));
}

#[test]
fn upper_case_true_is_string() {
    assert_eq!(classify(&strings(&["TRUE"])), Ok(ArgType::String));
}

#[test]
fn integers_are_list_integer() {
    assert_eq!(classify(&strings(&["3", "4", "5"])), Ok(ArgType::ListInteger));
}

#[test]
fn mixed_int_float_is_list_float() {
    assert_eq!(classify(&strings(&["3", "4.5"])), Ok(ArgType::ListFloat));
}

#[test]
fn single_integer_and_single_float() {
    assert_eq!(classify(&strings(&["-42"])), Ok(ArgType::Integer));
    assert_eq!(classify(&strings(&["2.5"])), Ok(ArgType::Float));
}

#[test]
fn braced_integers() {
    let v = strings(&["[1,2,3]"]);
    assert_eq!(classify(&v), Ok(ArgType::BracedListInteger));
    assert_eq!(remove_list_string_ends(&v), strings(&["1", "2", "3"]));
    assert_eq!(convert(&v), Ok(ArgValue::ListInteger(vec![1, 2, 3])));
}

#[test]
fn braced_list_split_over_tokens() {
    let split = strings(&["[", "1,", "2", ",3", "]"]);
    let whole = strings(&["[1,2,3]"]);
    assert_eq!(classify(&split), classify(&whole));
    assert_eq!(remove_list_string_ends(&split), strings(&["1", "2", "3"]));
    assert_eq!(convert(&split), convert(&whole));
}

#[test]
fn braced_floats_and_strings() {
    assert_eq!(classify(&strings(&["[1.5,", "2]"])), Ok(ArgType::BracedListFloat));
    assert_eq!(
        convert(&strings(&["[1.5,", "2]"])),
        Ok(ArgValue::ListFloat(strings(&["1.5", "2"])))
    );
    assert_eq!(classify(&strings(&["[a,", "b", "c]"])), Ok(ArgType::BracedListString));
    assert_eq!(
        convert(&strings(&["[a,", "b", "c]"])),
        Ok(ArgValue::ListString(strings(&["a", "b c"])))
    );
}

#[test]
fn one_bracket_stripped_per_piece() {
    assert_eq!(remove_list_string_ends(&strings(&["[[1,2]]"])), strings(&["[1", "2]"]));
    assert_eq!(classify(&strings(&["[[1,2]]"])), Ok(ArgType::BracedListString));
}

#[test]
fn empty_brackets_are_an_error() {
    assert_eq!(classify(&strings(&["[]"])), Err(ParseError::EmptyValueList));
    assert_eq!(classify(&strings(&["[", "]"])), Err(ParseError::EmptyValueList));
    assert_eq!(classify(&strings(&["[,,]"])), Err(ParseError::EmptyValueList));
}

#[test]
fn blank_values_are_an_error() {
    assert_eq!(classify(&strings(&[])), Err(ParseError::EmptyValueList));
    assert_eq!(classify(&strings(&["  ", "\t"])), Err(ParseError::EmptyValueList));
}

#[test]
fn values_are_trimmed_and_blanks_dropped() {
    assert_eq!(classify(&strings(&[" 7 ", "", " 8"])), Ok(ArgType::ListInteger));
    assert_eq!(convert(&strings(&[" 7 ", "", " 8"])), Ok(ArgValue::ListInteger(vec![7, 8])));
}

#[test]
fn string_values_are_joined() {
    assert_eq!(classify(&strings(&["hello", "world"])), Ok(ArgType::String));
    assert_eq!(convert(&strings(&["hello", "world"])), Ok(ArgValue::Str("hello world".to_string())));
}

#[test]
fn rejoined_string_stays_string() {
    let v = strings(&["hello", "3", "true"]);
    assert_eq!(classify(&v), Ok(ArgType::String));
    assert_eq!(classify(&strings(&["hello 3 true"])), Ok(ArgType::String));
    let w = strings(&["1", "2x"]);
    assert_eq!(classify(&w), Ok(ArgType::String));
    assert_eq!(classify(&strings(&["1 2x"])), Ok(ArgType::String));
}

#[test]
fn boolean_check_comes_before_numbers() {
    assert_eq!(classify(&strings(&["true", "2"])), Ok(ArgType::String));
    assert_eq!(convert(&strings(&["true", "false"])), Ok(ArgValue::ListBoolean(vec![true, false])));
    assert_eq!(convert(&strings(&["false"])), Ok(ArgValue::Boolean(false)));
}

#[test]
fn integer_limits() {
    assert_eq!(parse_int_literal("9223372036854775807"), Some(i64::MAX));
    assert_eq!(parse_int_literal("-9223372036854775808"), Some(i64::MIN));
    assert_eq!(parse_int_literal("9223372036854775808"), None);
    assert_eq!(parse_int_literal("-9223372036854775809"), None);
    assert_eq!(parse_int_literal("007"), Some(7));
    assert_eq!(parse_int_literal("-"), None);
    assert_eq!(parse_int_literal(""), None);
    assert_eq!(parse_int_literal("+5"), None);
    assert_eq!(parse_int_literal("1_000"), None);
    assert_eq!(classify(&strings(&["9223372036854775808"])), Ok(ArgType::Float));
}

#[test]
fn float_literal_forms() {
    for s in ["1", "1.", ".5", "-2.5e10", "1E-3", "+3", "inf", "-Infinity", "NaN", "2e+7"] {
        assert!(is_float_literal(s), "{}", s);
        assert!(s.parse::<f64>().is_ok(), "{}", s);
    }
    for s in [".", "e5", "1e", "1.2.3", "abc", "", "+", "1e+", "- 1", "infin"] {
        assert!(!is_float_literal(s), "{}", s);
        assert!(s.parse::<f64>().is_err(), "{}", s);
    }
}

#[test]
fn float_conversion_keeps_literal_text() {
    assert_eq!(convert(&strings(&["2.5"])), Ok(ArgValue::Float("2.5".to_string())));
    assert_eq!(
        convert(&strings(&["1", "-2.5e3"])),
        Ok(ArgValue::ListFloat(strings(&["1", "-2.5e3"])))
    );
}

#[test]
fn list_detection_trims_the_ends() {
    assert!(is_list_type(&strings(&[" [a]"])));
    assert!(is_list_type(&strings(&["  [1,", "2]\t"])));
    assert!(!is_list_type(&strings(&["[1", "2"])));
    assert!(!is_list_type(&strings(&["1]"])));
    assert!(!is_list_type(&strings(&[])));
    assert_eq!(classify(&strings(&[" [a]"])), Ok(ArgType::BracedListString));
}

#[test]
fn boolean_list_conversion_reports_non_booleans() {
    assert_eq!(parse_list_bool(&strings(&["true", "false"])), Some(vec![true, false]));
    assert_eq!(parse_list_bool(&strings(&["true", "yes"])), None);
    assert_eq!(parse_list_bool(&strings(&[])), Some(vec![]));
}
