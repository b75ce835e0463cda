use rust_arg_parser::{accumulate_flags, parse_custom_command, ArgValue, Bucket, ParseError};

fn strings(v: &[&str]) -> Vec<String> {
    v.iter().map(|s| s.to_string()).collect()
}

#[test]
fn flags_of_each_kind() {
    let c = parse_custom_command("--verbose --name Alice --count 3", &strings(&["verbose"])).unwrap();
    assert_eq!(c.get("verbose"), Some(&ArgValue::Boolean(true)));
    assert_eq!(c.get("name"), Some(&ArgValue::Str("Alice".to_string())));
    assert_eq!(c.get("count"), Some(&ArgValue::Integer(3)));
    assert_eq!(c.entries().len(), 3);
}

#[test]
fn last_occurrence_wins() {
    let c = parse_custom_command("--x 1 --x 2", &strings(&[])).unwrap();
    assert_eq!(c.get("x"), Some(&ArgValue::Integer(2)));
    assert_eq!(c.entries().len(), 1);
    let c = parse_custom_command("--x 1 2 --x hello", &strings(&[])).unwrap();
    assert_eq!(c.get("x"), Some(&ArgValue::Str("hello".to_string())));
}

#[test]
fn blank_command_is_empty() {
    for cmd in ["", "   ", " \t\n "] {
        let c = parse_custom_command(cmd, &strings(&["verbose"])).unwrap();
        assert!(c.is_empty());
        assert!(c.entries().is_empty());
    }
}

#[test]
fn flag_without_values_is_dropped() {
    let c = parse_custom_command("--name Bob --empty", &strings(&[])).unwrap();
    assert_eq!(c.get("empty"), None);
    assert_eq!(c.get("name"), Some(&ArgValue::Str("Bob".to_string())));
    assert_eq!(c.entries().len(), 1);
    let c = parse_custom_command("--empty --n 4", &strings(&[])).unwrap();
    assert_eq!(c.get("empty"), None);
    assert_eq!(c.get("n"), Some(&ArgValue::Integer(4)));
}

#[test]
fn values_without_a_flag_are_dropped() {
    let c = parse_custom_command("stray --verbose loose --name Ann Lee", &strings(&["verbose"])).unwrap();
    assert_eq!(c.get("verbose"), Some(&ArgValue::Boolean(true)));
    assert_eq!(c.get("name"), Some(&ArgValue::Str("Ann Lee".to_string())));
    assert_eq!(c.entries().len(), 2);
}

#[test]
fn list_flags() {
    let c = parse_custom_command(
        "--ints 1 2 3 --floats 1.5 2 --bools true false --words [a, b] --nums [4,5]",
        &strings(&[]),
    )
    .unwrap();
    assert_eq!(c.get("ints"), Some(&ArgValue::ListInteger(vec![1, 2, 3])));
    assert_eq!(c.get("floats"), Some(&ArgValue::ListFloat(strings(&["1.5", "2"]))));
    assert_eq!(c.get("bools"), Some(&ArgValue::ListBoolean(vec![true, false])));
    assert_eq!(c.get("words"), Some(&ArgValue::ListString(strings(&["a", "b"]))));
    assert_eq!(c.get("nums"), Some(&ArgValue::ListInteger(vec![4, 5])));
}

#[test]
fn empty_braced_list_aborts_the_parse() {
    let r = parse_custom_command("--a 1 --b [ ] --c x", &strings(&[]));
    assert_eq!(r.err(), Some(ParseError::EmptyValueList));
    let r = parse_custom_command("--b [] --b 2", &strings(&[]));
    assert_eq!(r.unwrap().get("b"), Some(&ArgValue::Integer(2)));
}

#[test]
fn boolean_flag_given_again_replaces_values() {
    let c = parse_custom_command("--v 5 --v", &strings(&["v"])).unwrap();
    assert_eq!(c.get("v"), Some(&ArgValue::Boolean(true)));
}

#[test]
fn odd_flag_names() {
    let c = parse_custom_command("-- 1 ---x y", &strings(&[])).unwrap();
    assert_eq!(c.get(""), Some(&ArgValue::Integer(1)));
    assert_eq!(c.get("-x"), Some(&ArgValue::Str("y".to_string())));
}

#[test]
fn accumulated_raw_values() {
    let raw = accumulate_flags("--a 1  2 --b --a 3 --c", &strings(&["b"]));
    assert_eq!(raw.len(), 2);
    let a = raw.iter().find(|e| e.0 == "a").unwrap();
    assert_eq!(a.1, strings(&["3"]));
    let b = raw.iter().find(|e| e.0 == "b").unwrap();
    assert_eq!(b.1, strings(&["true"]));
}

#[test]
fn buckets_partition_the_flags() {
    let c = parse_custom_command(
        "--v --n 1 --m 2 --s a b --f 0.5 --l [x,y] --li 1 2 --lf 1 2.5 --lb false true",
        &strings(&["v"]),
    )
    .unwrap();
    let mut ints = c.bucket_keys(Bucket::Integers);
    ints.sort();
    assert_eq!(ints, strings(&["m", "n"]));
    assert_eq!(c.bucket_keys(Bucket::Booleans), strings(&["v"]));
    assert_eq!(c.bucket_keys(Bucket::Strings), strings(&["s"]));
    assert_eq!(c.bucket_keys(Bucket::Floats), strings(&["f"]));
    assert_eq!(c.bucket_keys(Bucket::ListStrings), strings(&["l"]));
    assert_eq!(c.bucket_keys(Bucket::ListIntegers), strings(&["li"]));
    assert_eq!(c.bucket_keys(Bucket::ListFloats), strings(&["lf"]));
    assert_eq!(c.bucket_keys(Bucket::ListBooleans), strings(&["lb"]));
}

#[test]
fn blank_command_has_empty_buckets() {
    let c = parse_custom_command(" ", &strings(&[])).unwrap();
    for b in [
        Bucket::Booleans,
        Bucket::Strings,
        Bucket::Integers,
        Bucket::Floats,
        Bucket::ListStrings,
        Bucket::ListIntegers,
        Bucket::ListFloats,
        Bucket::ListBooleans,
    ] {
        assert!(c.bucket_keys(b).is_empty());
    }
}

#[test]
fn last_occurrence_replaces_earlier_lists() {
    let c = parse_custom_command("--x 1 2 3 --y a --x 4.5 6 --z", &strings(&[])).unwrap();
    let alone = parse_custom_command("--x 4.5 6", &strings(&[])).unwrap();
    assert_eq!(c.get("x"), alone.get("x"));
    assert_eq!(c.get("x"), Some(&ArgValue::ListFloat(strings(&["4.5", "6"]))));
}
