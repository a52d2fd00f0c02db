use tinyresp::{parse, parse_message, Value, ValueSet};

#[test]
fn test_parse_simple_string() {
    assert_eq!(
        parse_message("+OK\r\n"),
        Ok(("", Value::SimpleString("OK")))
    );
    assert!(parse_message("+O\nK\r\n").is_err());
    assert!(parse_message("+OK\r\nTHIS_SHOULD_NOT_BE_HERE").is_err());
}

#[test]
fn test_parse_simple_error() {
    assert_eq!(
        parse_message("-Error message\r\n"),
        Ok(("", Value::SimpleError("Error message")))
    );
    assert_eq!(
        parse_message("-ERR unknown command 'asdf'\r\n"),
        Ok(("", Value::SimpleError("ERR unknown command 'asdf'")))
    );
    assert_eq!(
        parse_message("-WRONGTYPE Operation against a key holding the wrong kind of value\r\n"),
        Ok((
            "",
            Value::SimpleError(
                "WRONGTYPE Operation against a key holding the wrong kind of value"
            )
        ))
    );
    assert!(parse_message("-Error\nmessage\r\n").is_err());
    assert!(parse_message("-Error message\r\nTHIS_SHOULD_NOT_BE_HERE").is_err());
}

#[test]
fn test_parse_integer() {
    assert_eq!(parse_message(":1000\r\n"), Ok(("", Value::Integer(1000))));
    assert_eq!(parse_message(":-1000\r\n"), Ok(("", Value::Integer(-1000))));
    assert!(parse_message(":1000\n").is_err());
    assert!(parse_message(":1000\r\nTHIS_SHOULD_NOT_BE_HERE").is_err());
}

#[test]
fn test_parse_bulk_string() {
    assert_eq!(
        parse_message("$5\r\nhello\r\n"),
        Ok(("", Value::BulkString("hello")))
    );
    assert_eq!(parse_message("$0\r\n\r\n"), Ok(("", Value::BulkString(""))));
    assert_eq!(parse_message("$-1\r\n"), Ok(("", Value::Null)));
    assert_eq!(
        parse_message("$10\r\nhello\r\nfoo\r\n"),
        Ok(("", Value::BulkString("hello\r\nfoo")))
    );
    assert!(parse_message("$-2\r\n").is_err());
    assert!(parse_message("$10\r\n12345\r\n").is_err());
    assert!(parse_message("$10\r\n12345\r\n").is_err());
}

#[test]
fn test_parse_bulk_error() {
    assert!(parse_message("!-1\r\n").is_err());

    assert_eq!(
        parse_message("!21\r\nSYNTAX invalid syntax\r\n"),
        Ok(("", Value::BulkError("SYNTAX invalid syntax")))
    );

    assert_eq!(
        parse_message("!5\r\nhello\r\n"),
        Ok(("", Value::BulkError("hello")))
    );
    assert_eq!(parse_message("!0\r\n\r\n"), Ok(("", Value::BulkError(""))));

    assert_eq!(
        parse_message("!10\r\nhello\r\nfoo\r\n"),
        Ok(("", Value::BulkError("hello\r\nfoo")))
    );
    assert!(parse_message("!-2\r\n").is_err());
    assert!(parse_message("!10\r\n12345\r\n").is_err());
    assert!(parse_message("!10\r\n12345\r\n").is_err());
}

#[test]
fn test_parse_array() {
    assert_eq!(parse_message("*-1\r\n"), Ok(("", Value::Null)));
    assert_eq!(parse_message("*0\r\n"), Ok(("", Value::Array(Vec::new()))));
    assert_eq!(
        parse_message("*2\r\n$5\r\nhello\r\n$5\r\nworld\r\n"),
        Ok((
            "",
            Value::Array(vec![Value::BulkString("hello"), Value::BulkString("world")])
        ))
    );
    assert_eq!(
        parse_message("*3\r\n:1\r\n:2\r\n:3\r\n"),
        Ok((
            "",
            Value::Array(vec![
                Value::Integer(1),
                Value::Integer(2),
                Value::Integer(3)
            ])
        ))
    );
    assert_eq!(
        parse_message("*5\r\n:1\r\n:2\r\n:3\r\n:4\r\n$5\r\nhello\r\n"),
        Ok((
            "",
            Value::Array(vec![
                Value::Integer(1),
                Value::Integer(2),
                Value::Integer(3),
                Value::Integer(4),
                Value::BulkString("hello")
            ])
        ))
    );
    assert_eq!(
        parse_message("*2\r\n*3\r\n:1\r\n:2\r\n:3\r\n*2\r\n+Hello\r\n-World\r\n"),
        Ok((
            "",
            Value::Array(vec![
                Value::Array(vec![
                    Value::Integer(1),
                    Value::Integer(2),
                    Value::Integer(3)
                ]),
                Value::Array(vec![
                    Value::SimpleString("Hello"),
                    Value::SimpleError("World")
                ])
            ])
        ))
    );
    assert_eq!(
        parse_message("*3\r\n$5\r\nhello\r\n$-1\r\n$5\r\nworld\r\n"),
        Ok((
            "",
            Value::Array(vec![
                Value::BulkString("hello"),
                Value::Null,
                Value::BulkString("world")
            ])
        ))
    );
}

#[test]
fn test_null() {
    assert_eq!(parse_message("_\r\n"), Ok(("", Value::Null)));
}

#[test]
fn test_bool() {
    assert_eq!(parse_message("#t\r\n"), Ok(("", Value::Boolean(true))));
    assert_eq!(parse_message("#f\r\n"), Ok(("", Value::Boolean(false))));
    assert!(parse_message("#x\r\n").is_err());
}

#[test]
fn test_double() {
    assert_eq!(
        parse_message(",1.23\r\n"),
        Ok(("", Value::Double("1.23".to_string())))
    );
    assert_eq!(
        parse_message(",10\r\n"),
        Ok(("", Value::Double("10".to_string())))
    );
    assert_eq!(
        parse_message(",inf\r\n"),
        Ok(("", Value::Double("inf".to_string())))
    );
    assert_eq!(
        parse_message(",+inf\r\n"),
        Ok(("", Value::Double("inf".to_string())))
    );
    assert_eq!(
        parse_message(",-inf\r\n"),
        Ok(("", Value::Double("-inf".to_string())))
    );
    assert_eq!(
        parse_message(",nan\r\n"),
        Ok(("", Value::Double("NaN".to_string())))
    );
}

#[test]
fn test_bignumber() {
    assert_eq!(
        parse_message("(3492890328409238509324850943850943825024385\r\n"),
        Ok((
            "",
            Value::BigNumber("3492890328409238509324850943850943825024385")
        ))
    );
    assert_eq!(
        parse_message("(+3492890328409238509324850943850943825024385\r\n"),
        Ok((
            "",
            Value::BigNumber("+3492890328409238509324850943850943825024385")
        ))
    );
    assert_eq!(
        parse_message("(-3492890328409238509324850943850943825024385\r\n"),
        Ok((
            "",
            Value::BigNumber("-3492890328409238509324850943850943825024385")
        ))
    );
    assert!(parse_message("(+1234-1234\r\n").is_err());
}

#[test]
fn test_verbatim_string() {
    assert_eq!(
        parse_message("=15\r\ntxt:Some string\r\n"),
        Ok(("", Value::VerbatimString("txt", "Some string")))
    );
    assert_eq!(
        parse_message("=5\r\ntxt:1\r\n"),
        Ok(("", Value::VerbatimString("txt", "1")))
    );
    assert_eq!(
        parse_message("=5\r\nraw:1\r\n"),
        Ok(("", Value::VerbatimString("raw", "1")))
    );
    assert!(parse_message("=5\r\nraw:1\r\nTHIS_SHOULD_NOT_BE_HERE").is_err());
}

#[test]
fn test_map() {
    assert_eq!(
        parse_message("%2\r\n+first\r\n:1\r\n+second\r\n:2\r\n"),
        Ok((
            "",
            Value::MapOf(
                vec![Value::SimpleString("first"), Value::SimpleString("second")],
                vec![Value::Integer(1), Value::Integer(2)]
            )
        ))
    );
}

#[test]
fn test_set() {
    assert_eq!(
        parse_message("~3\r\n:1\r\n:2\r\n:3\r\n"),
        Ok((
            "",
            Value::SetOf(ValueSet::from_values(vec![
                Value::Integer(1),
                Value::Integer(2),
                Value::Integer(3)
            ]))
        ))
    );
}

#[test]
fn test_pushes() {
    assert_eq!(
        parse_message(">3\r\n:1\r\n:2\r\n:3\r\n"),
        Ok((
            "",
            Value::Pushes(vec![
                Value::Integer(1),
                Value::Integer(2),
                Value::Integer(3)
            ])
        ))
    );
}

#[test]
fn test_parse() {
    let message = "*2\r\n$5\r\nhello\r\n$5\r\nworld\r\n";
    let value = parse(message).unwrap();
    assert_eq!(
        value,
        Value::Array(vec![Value::BulkString("hello"), Value::BulkString("world")])
    );

    let message = "BOGUS";
    assert!(parse(message).is_err());
}
