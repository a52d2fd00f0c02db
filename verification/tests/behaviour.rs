use tinyresp::{
    parse, parse_message, parse_value, ErrorKind, ParseError, Sign, ToHashMapError, Value,
    ValueSet,
};

fn failure(kind: ErrorKind, position: usize) -> ParseError {
    ParseError { kind, position }
}

#[test]
fn bulk_string_takes_exactly_its_length() {
    assert_eq!(parse_message("$2\r\n\r\n\r\n"), Ok(("", Value::BulkString("\r\n"))));
    assert_eq!(
        parse_message("$12\r\nab\r\ncd\r\nef\r\n\r\n"),
        Ok(("", Value::BulkString("ab\r\ncd\r\nef\r\n")))
    );
    assert_eq!(
        parse_value("$3\r\na\rb\r\n+next\r\n"),
        Ok(("+next\r\n", Value::BulkString("a\rb")))
    );
}

#[test]
fn bulk_string_length_counts_bytes() {
    assert_eq!(parse_message("$2\r\n\u{e9}\r\n"), Ok(("", Value::BulkString("\u{e9}"))));
    assert_eq!(parse_message("$1\r\n\u{e9}\r\n"), Err(failure(ErrorKind::Length, 4)));
    assert_eq!(
        parse_message("!4\r\n\u{1f600}\r\n"),
        Ok(("", Value::BulkError("\u{1f600}")))
    );
}

#[test]
fn bulk_string_length_must_match() {
    assert_eq!(parse_message("$10\r\n12345\r\n"), Err(failure(ErrorKind::Length, 5)));
    assert_eq!(parse_message("$3\r\n12345\r\n"), Err(failure(ErrorKind::Length, 4)));
    assert_eq!(parse_message("$5\r\n12345"), Err(failure(ErrorKind::Length, 4)));
    assert_eq!(parse_message("$5\r\n12345\n"), Err(failure(ErrorKind::Length, 4)));
}

#[test]
fn length_prefix_must_be_a_number_of_32_bits() {
    assert_eq!(parse_message("$\r\n\r\n"), Err(failure(ErrorKind::Length, 1)));
    assert_eq!(parse_message("$abc\r\n"), Err(failure(ErrorKind::Length, 1)));
    assert_eq!(parse_message("$4294967296\r\n"), Err(failure(ErrorKind::Length, 1)));
    assert_eq!(
        parse_message("$99999999999999999999999999\r\n"),
        Err(failure(ErrorKind::Length, 1))
    );
    assert_eq!(parse_message("$4294967295\r\nabc\r\n"), Err(failure(ErrorKind::Length, 13)));
    assert_eq!(parse_message("$003\r\nabc\r\n"), Ok(("", Value::BulkString("abc"))));
    assert_eq!(parse_message("$3\nabc\r\n"), Err(failure(ErrorKind::Grammar, 2)));
}

#[test]
fn null_has_three_spellings_and_no_other() {
    assert_eq!(parse_message("$-1\r\n"), Ok(("", Value::Null)));
    assert_eq!(parse_message("*-1\r\n"), Ok(("", Value::Null)));
    assert_eq!(parse_message("_\r\n"), Ok(("", Value::Null)));
    assert_eq!(parse_message("$-1\r\n"), parse_message("_\r\n"));
    assert_eq!(parse_message("*-1\r\n"), parse_message("_\r\n"));
    assert_eq!(parse_message("$-2\r\n"), Err(failure(ErrorKind::Length, 1)));
    assert_eq!(parse_message("*-2\r\n"), Err(failure(ErrorKind::Length, 1)));
    assert_eq!(parse_message("$-10\r\n"), Err(failure(ErrorKind::Length, 1)));
    assert_eq!(parse_message("!-1\r\n"), Err(failure(ErrorKind::Length, 1)));
    assert_eq!(parse_message("%-1\r\n"), Err(failure(ErrorKind::Length, 1)));
    assert_eq!(parse_message("~-1\r\n"), Err(failure(ErrorKind::Length, 1)));
    assert_eq!(parse_message(">-1\r\n"), Err(failure(ErrorKind::Length, 1)));
    assert_eq!(parse_message("=-1\r\n"), Err(failure(ErrorKind::Length, 1)));
    assert_eq!(parse_message("$-1\n"), Err(failure(ErrorKind::Length, 1)));
    assert_eq!(parse_message("_x\r\n"), Err(failure(ErrorKind::Grammar, 1)));
    assert_eq!(parse_message("_"), Err(failure(ErrorKind::Grammar, 1)));
}

#[test]
fn double_is_stored_as_rendered() {
    assert_eq!(parse_message(",1.50\r\n"), Ok(("", Value::Double("1.5".to_string()))));
    assert_eq!(parse_message(",1e2\r\n"), Ok(("", Value::Double("100".to_string()))));
    assert_eq!(parse_message(",+2.5\r\n"), Ok(("", Value::Double("2.5".to_string()))));
    assert_eq!(parse_message(",-0.25\r\n"), Ok(("", Value::Double("-0.25".to_string()))));
    assert_eq!(parse_message(",.5\r\n"), Ok(("", Value::Double("0.5".to_string()))));
    assert_eq!(parse_message(",NAN\r\n"), Ok(("", Value::Double("NaN".to_string()))));
    assert_eq!(parse_message(",Inf\r\n"), Ok(("", Value::Double("inf".to_string()))));
    assert_eq!(
        parse_value(",3.25\r\n:1\r\n"),
        Ok((":1\r\n", Value::Double("3.25".to_string())))
    );
}

#[test]
fn double_spellings_of_infinity_agree() {
    let plain = parse_message(",inf\r\n");
    let signed = parse_message(",+inf\r\n");
    assert_eq!(plain, signed);
    assert_eq!(plain, Ok(("", Value::Double("inf".to_string()))));
    assert_eq!(parse_message(",-inf\r\n"), Ok(("", Value::Double("-inf".to_string()))));
    assert_eq!(parse_message(",nan\r\n"), Ok(("", Value::Double("NaN".to_string()))));
}

#[test]
fn double_must_be_a_number_and_end_its_line() {
    assert_eq!(parse_message(",abc\r\n"), Err(failure(ErrorKind::Grammar, 1)));
    assert_eq!(parse_message(",\r\n"), Err(failure(ErrorKind::Grammar, 1)));
    assert_eq!(parse_message(",1.5x\r\n"), Err(failure(ErrorKind::Grammar, 4)));
    assert_eq!(parse_message(",+infinity\r\n"), Err(failure(ErrorKind::Grammar, 5)));
    assert_eq!(parse_message(",-inf"), Err(failure(ErrorKind::Grammar, 5)));
    assert_eq!(parse_message(",1.5\n"), Err(failure(ErrorKind::Grammar, 4)));
}

#[test]
fn set_holds_each_element_once() {
    let (rest, value) = parse_message("~5\r\n:1\r\n:2\r\n:1\r\n:3\r\n:2\r\n").unwrap();
    assert_eq!(rest, "");
    let set = value.as_set().unwrap();
    assert_eq!(set.len(), 3);
    assert_eq!(
        value,
        Value::SetOf(ValueSet::from_values(vec![
            Value::Integer(1),
            Value::Integer(2),
            Value::Integer(3)
        ]))
    );
}

#[test]
fn set_does_not_depend_on_wire_order() {
    assert_eq!(
        parse_message("~3\r\n:3\r\n:1\r\n:2\r\n"),
        parse_message("~3\r\n:1\r\n:2\r\n:3\r\n")
    );
    let (_, value) = parse_message("~3\r\n:3\r\n+a\r\n:-5\r\n").unwrap();
    assert_eq!(
        value.as_set().unwrap().values(),
        &vec![Value::SimpleString("a"), Value::Integer(-5), Value::Integer(3)]
    );
}

#[test]
fn set_compares_elements_at_every_depth() {
    let (_, value) =
        parse_message("~3\r\n*2\r\n:1\r\n+a\r\n*2\r\n:1\r\n+b\r\n*2\r\n:1\r\n+a\r\n").unwrap();
    let set = value.as_set().unwrap();
    assert_eq!(set.len(), 2);
    assert!(set.contains(&Value::Array(vec![Value::Integer(1), Value::SimpleString("a")])));
    assert!(set.contains(&Value::Array(vec![Value::Integer(1), Value::SimpleString("b")])));
    assert!(!set.contains(&Value::Array(vec![Value::Integer(1)])));
    assert!(!set.contains(&Value::Pushes(vec![Value::Integer(1), Value::SimpleString("a")])));
}

#[test]
fn set_of_nothing_is_empty() {
    let (_, value) = parse_message("~0\r\n").unwrap();
    assert!(value.is_set());
    assert!(value.as_set().unwrap().is_empty());
    assert_eq!(value, Value::SetOf(ValueSet::new()));
}

#[test]
fn value_set_insert_reports_new_elements() {
    let mut set = ValueSet::new();
    assert!(set.is_empty());
    assert!(set.insert(Value::Integer(2)));
    assert!(set.insert(Value::Integer(1)));
    assert!(!set.insert(Value::Integer(2)));
    assert!(set.insert(Value::BulkString("x")));
    assert_eq!(set.len(), 3);
    assert!(set.contains(&Value::Integer(1)));
    assert!(!set.contains(&Value::Integer(3)));
    assert_eq!(
        set.values(),
        &vec![Value::Integer(1), Value::Integer(2), Value::BulkString("x")]
    );
}

#[test]
fn map_pairs_keep_wire_order() {
    let (rest, value) = parse_message("%3\r\n+b\r\n:1\r\n+a\r\n:2\r\n+c\r\n:3\r\n").unwrap();
    assert_eq!(rest, "");
    let (keys, values) = value.as_map().unwrap();
    assert_eq!(keys.len(), 3);
    assert_eq!(values.len(), 3);
    assert_eq!(
        keys,
        &vec![Value::SimpleString("b"), Value::SimpleString("a"), Value::SimpleString("c")]
    );
    assert_eq!(values, &vec![Value::Integer(1), Value::Integer(2), Value::Integer(3)]);
}

#[test]
fn map_keys_need_not_be_texts() {
    assert_eq!(
        parse_message("%2\r\n:1\r\n+one\r\n*0\r\n_\r\n"),
        Ok((
            "",
            Value::MapOf(
                vec![Value::Integer(1), Value::Array(vec![])],
                vec![Value::SimpleString("one"), Value::Null]
            )
        ))
    );
}

#[test]
fn map_needs_a_value_for_every_key() {
    assert_eq!(parse_message("%1\r\n+a\r\n"), Err(failure(ErrorKind::Grammar, 8)));
    assert_eq!(parse_message("%0\r\n"), Ok(("", Value::MapOf(vec![], vec![]))));
}

#[test]
fn lookup_by_key_succeeds_if_every_key_is_a_text() {
    let (_, value) =
        parse_message("%3\r\n+a\r\n:1\r\n$1\r\nb\r\n:2\r\n=5\r\ntxt:c\r\n:3\r\n").unwrap();
    let map = value.try_to_hashmap().unwrap();
    assert_eq!(map.len(), 3);
    assert!(!map.is_empty());
    assert_eq!(map.get("a"), Some(&Value::Integer(1)));
    assert_eq!(map.get("b"), Some(&Value::Integer(2)));
    assert_eq!(map.get("c"), Some(&Value::Integer(3)));
    assert_eq!(map.get("d"), None);
    assert!(map.contains_key("a"));
    assert!(!map.contains_key("txt"));
}

#[test]
fn lookup_by_key_names_the_first_key_without_text() {
    let (_, value) =
        parse_message("%3\r\n+a\r\n:1\r\n:5\r\n:2\r\n#t\r\n:3\r\n").unwrap();
    match value.try_to_hashmap() {
        Err(ToHashMapError::KeyNotString(key)) => assert_eq!(key, &Value::Integer(5)),
        _ => panic!("a key without text was accepted"),
    }
}

#[test]
fn lookup_by_key_keeps_the_last_of_equal_keys() {
    let (_, value) = parse_message("%3\r\n+a\r\n:1\r\n+b\r\n:2\r\n-a\r\n:3\r\n").unwrap();
    let map = value.try_to_hashmap().unwrap();
    assert_eq!(map.len(), 2);
    assert_eq!(map.get("a"), Some(&Value::Integer(3)));
    assert_eq!(map.get("b"), Some(&Value::Integer(2)));
    let mut pairs = map.pairs();
    pairs.sort();
    assert_eq!(pairs, vec![("a", &Value::Integer(3)), ("b", &Value::Integer(2))]);
}

#[test]
fn lookup_by_key_is_for_maps_only() {
    assert!(matches!(Value::Null.try_to_hashmap(), Err(ToHashMapError::NotAMap)));
    assert!(matches!(Value::Array(vec![]).try_to_hashmap(), Err(ToHashMapError::NotAMap)));
    let empty = Value::MapOf(vec![], vec![]);
    assert!(empty.try_to_hashmap().unwrap().is_empty());
}

#[test]
fn trailing_bytes_are_rejected() {
    assert_eq!(parse_message("+OK\r\n"), Ok(("", Value::SimpleString("OK"))));
    assert_eq!(parse_message("+OK\r\nEXTRA"), Err(failure(ErrorKind::Trailing, 5)));
    assert_eq!(parse_message("+OK\r\n\r\n"), Err(failure(ErrorKind::Trailing, 5)));
    assert_eq!(parse_message("*1\r\n:1\r\n:2\r\n"), Err(failure(ErrorKind::Trailing, 8)));
    assert_eq!(parse_value("+OK\r\nEXTRA"), Ok(("EXTRA", Value::SimpleString("OK"))));
}

#[test]
fn round_trip_scenario() {
    assert_eq!(
        parse_message("*2\r\n$5\r\nhello\r\n$5\r\nworld\r\n"),
        Ok(("", Value::Array(vec![Value::BulkString("hello"), Value::BulkString("world")])))
    );
    assert_eq!(
        parse_message("%2\r\n+first\r\n:1\r\n+second\r\n:2\r\n"),
        Ok((
            "",
            Value::MapOf(
                vec![Value::SimpleString("first"), Value::SimpleString("second")],
                vec![Value::Integer(1), Value::Integer(2)]
            )
        ))
    );
    let (_, set) = parse_message("~3\r\n:1\r\n:2\r\n:3\r\n").unwrap();
    let set = set.as_set().unwrap();
    assert_eq!(set.len(), 3);
    assert!(set.contains(&Value::Integer(1)));
    assert!(set.contains(&Value::Integer(2)));
    assert!(set.contains(&Value::Integer(3)));
    let null = parse_message("$-1\r\n").unwrap().1;
    assert_eq!(parse_message("*-1\r\n").unwrap().1, null);
    assert_eq!(parse_message("_\r\n").unwrap().1, null);
    assert!(null.is_null());
}

#[test]
fn markers_are_exact() {
    assert_eq!(parse_message(""), Err(failure(ErrorKind::Grammar, 0)));
    assert_eq!(parse_message("BOGUS"), Err(failure(ErrorKind::Grammar, 0)));
    assert_eq!(parse_message("\r\n"), Err(failure(ErrorKind::Grammar, 0)));
    assert_eq!(parse_message(" +OK\r\n"), Err(failure(ErrorKind::Grammar, 0)));
    assert_eq!(parse_message("\u{e9}+OK\r\n"), Err(failure(ErrorKind::Grammar, 0)));
    assert_eq!(parse_message("#T\r\n"), Err(failure(ErrorKind::Grammar, 1)));
}

#[test]
fn simple_lines_end_at_the_first_line_break() {
    assert_eq!(parse_message("+\r\n"), Ok(("", Value::SimpleString(""))));
    assert_eq!(parse_message("+O\nK\r\n"), Err(failure(ErrorKind::Grammar, 2)));
    assert_eq!(parse_message("+O\rK\r\n"), Err(failure(ErrorKind::Grammar, 2)));
    assert_eq!(parse_message("+OK"), Err(failure(ErrorKind::Grammar, 3)));
    assert_eq!(parse_message("+OK\r"), Err(failure(ErrorKind::Grammar, 3)));
    assert_eq!(parse_message("+OK\n"), Err(failure(ErrorKind::Grammar, 3)));
    assert_eq!(parse_message("-gr\u{fc}n\r\n"), Ok(("", Value::SimpleError("gr\u{fc}n"))));
}

#[test]
fn integers_have_64_bits() {
    assert_eq!(
        parse_message(":9223372036854775807\r\n"),
        Ok(("", Value::Integer(i64::MAX)))
    );
    assert_eq!(
        parse_message(":-9223372036854775808\r\n"),
        Ok(("", Value::Integer(i64::MIN)))
    );
    assert_eq!(parse_message(":9223372036854775808\r\n"), Err(failure(ErrorKind::Grammar, 1)));
    assert_eq!(parse_message(":-9223372036854775809\r\n"), Err(failure(ErrorKind::Grammar, 1)));
    assert_eq!(parse_message(":+5\r\n"), Ok(("", Value::Integer(5))));
    assert_eq!(parse_message(":-0\r\n"), Ok(("", Value::Integer(0))));
    assert_eq!(parse_message(":007\r\n"), Ok(("", Value::Integer(7))));
    assert_eq!(parse_message(":\r\n"), Err(failure(ErrorKind::Grammar, 1)));
    assert_eq!(parse_message(":-\r\n"), Err(failure(ErrorKind::Grammar, 1)));
    assert_eq!(parse_message(":12a\r\n"), Err(failure(ErrorKind::Grammar, 3)));
    assert_eq!(parse_message(": 12\r\n"), Err(failure(ErrorKind::Grammar, 1)));
}

#[test]
fn bignumber_keeps_sign_and_digits() {
    assert_eq!(parse_message("(+0012\r\n"), Ok(("", Value::BigNumber("+0012"))));
    assert_eq!(parse_message("(\r\n"), Err(failure(ErrorKind::Grammar, 1)));
    assert_eq!(parse_message("(+\r\n"), Err(failure(ErrorKind::Grammar, 1)));
    assert_eq!(parse_message("(+1234-1234\r\n"), Err(failure(ErrorKind::Grammar, 6)));
    assert_eq!(parse_message("(12.5\r\n"), Err(failure(ErrorKind::Grammar, 3)));
}

#[test]
fn verbatim_string_has_tag_separator_and_text() {
    assert_eq!(parse_message("=4\r\ntxt:\r\n"), Ok(("", Value::VerbatimString("txt", ""))));
    assert_eq!(
        parse_message("=8\r\nmkd:a\r\nb\r\n"),
        Ok(("", Value::VerbatimString("mkd", "a\r\nb")))
    );
    assert_eq!(parse_message("=3\r\ntxt\r\n"), Err(failure(ErrorKind::Length, 4)));
    assert_eq!(parse_message("=0\r\n\r\n"), Err(failure(ErrorKind::Length, 4)));
    assert_eq!(parse_message("=5\r\ntxt;1\r\n"), Err(failure(ErrorKind::Grammar, 7)));
    assert_eq!(parse_message("=6\r\ntxt:1\r\n"), Err(failure(ErrorKind::Length, 4)));
}

#[test]
fn aggregates_hold_as_many_values_as_declared() {
    assert_eq!(parse_message("*2\r\n:1\r\n"), Err(failure(ErrorKind::Grammar, 8)));
    assert_eq!(parse_message("*2\r\n:1\r\n#x\r\n"), Err(failure(ErrorKind::Grammar, 9)));
    assert_eq!(parse_message(">1\r\n$3\r\nab\r\n"), Err(failure(ErrorKind::Length, 8)));
    assert_eq!(parse_message("*1\r\n*1\r\n*1\r\n:x\r\n"), Err(failure(ErrorKind::Grammar, 13)));
    assert_eq!(parse_message(">0\r\n"), Ok(("", Value::Pushes(vec![]))));
    assert_eq!(
        parse_message("*1\r\n>1\r\n~1\r\n%1\r\n_\r\n#t\r\n"),
        Ok((
            "",
            Value::Array(vec![Value::Pushes(vec![Value::SetOf(ValueSet::from_values(vec![
                Value::MapOf(vec![Value::Null], vec![Value::Boolean(true)])
            ]))])])
        ))
    );
}

#[test]
fn failures_are_reported_as_text() {
    assert_eq!(parse("BOGUS"), Err("input does not match the grammar at byte 0".to_string()));
    assert_eq!(
        parse("$7\r\nabc\r\n"),
        Err("length prefix does not match what follows it at byte 4".to_string())
    );
    assert_eq!(
        parse("+0123456789\r\nX"),
        Err("input remains behind the value at byte 13".to_string())
    );
    assert_eq!(
        failure(ErrorKind::Grammar, 1020).message(),
        "input does not match the grammar at byte 1020"
    );
    assert_eq!(parse(":12\r\n"), Ok(Value::Integer(12)));
}

#[test]
fn values_are_ordered_by_variant_then_payload() {
    let ordered = vec![
        Value::SimpleString("b"),
        Value::SimpleError("a"),
        Value::Integer(-1),
        Value::Integer(7),
        Value::BulkString(""),
        Value::BulkString("a"),
        Value::BulkString("ab"),
        Value::BulkString("b"),
        Value::Array(vec![]),
        Value::Array(vec![Value::Integer(1)]),
        Value::Array(vec![Value::Integer(1), Value::Null]),
        Value::Array(vec![Value::Integer(2)]),
        Value::Null,
        Value::Boolean(false),
        Value::Boolean(true),
        Value::Double("1.5".to_string()),
        Value::BigNumber("1"),
        Value::BulkError("x"),
        Value::VerbatimString("mkd", "z"),
        Value::VerbatimString("txt", "a"),
        Value::MapOf(vec![Value::Null], vec![Value::Integer(2)]),
        Value::MapOf(vec![Value::Boolean(true)], vec![Value::Integer(1)]),
        Value::SetOf(ValueSet::new()),
        Value::SetOf(ValueSet::from_values(vec![Value::Null])),
        Value::Pushes(vec![]),
    ];
    for i in 0..ordered.len() {
        for j in 0..ordered.len() {
            let expected = if i < j {
                Sign::Less
            } else if i == j {
                Sign::Equal
            } else {
                Sign::Greater
            };
            assert_eq!(ordered[i].compare(&ordered[j]), expected);
            assert_eq!(ordered[i] == ordered[j], i == j);
            assert_eq!(ordered[i] < ordered[j], i < j);
            assert_eq!(ordered[i].cmp(&ordered[j]), i.cmp(&j));
        }
    }
}

#[test]
fn clones_are_equal_to_what_they_copy() {
    let (_, value) =
        parse_message("*4\r\n~2\r\n:2\r\n:1\r\n%1\r\n+k\r\n,2.50\r\n=5\r\ntxt:x\r\n(12\r\n")
            .unwrap();
    let copy = value.clone();
    assert_eq!(copy, value);
    assert_eq!(value.as_array().unwrap()[0].as_set().unwrap().clone().len(), 2);
}

#[test]
fn accessors_tell_the_variants_apart() {
    assert_eq!(Value::VerbatimString("txt", "body").as_str(), Some("body"));
    assert_eq!(Value::Double("NaN".to_string()).as_str(), Some("NaN"));
    assert_eq!(Value::Integer(1).as_str(), None);
    assert_eq!(Value::Null.as_str(), None);
    assert_eq!(Value::Boolean(false).as_bool(), Some(false));
    assert_eq!(Value::Integer(i64::MIN).as_i64(), Some(i64::MIN));
    assert_eq!(Value::Boolean(true).as_i64(), None);
    let pushes = Value::Pushes(vec![Value::Integer(1)]);
    assert_eq!(pushes.as_array(), Some(&vec![Value::Integer(1)]));
    assert!(pushes.is_array_like());
    assert!(!pushes.is_array());
    assert_eq!(pushes.as_map(), None);
    assert_eq!(pushes.as_set(), None);
    assert!(!Value::Null.is_string_like());
    assert!(!Value::MapOf(vec![], vec![]).is_array_like());
}
