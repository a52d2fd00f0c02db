use tinyresp::{ToHashMapError, Value, ValueSet};

#[test]
fn test_is_simple_string() {
    let value = Value::SimpleString("hello");
    assert!(value.is_simple_string());

    // not a simple string
    let value = Value::SimpleError("hello");
    assert!(!value.is_simple_string());
}

#[test]
fn test_is_simple_error() {
    let value = Value::SimpleError("hello");
    assert!(value.is_simple_error());

    // not a simple error
    let value = Value::SimpleString("hello");
    assert!(!value.is_simple_error());
}

#[test]
fn test_is_integer() {
    let value = Value::Integer(42);
    assert!(value.is_integer());

    // not an integer
    let value = Value::SimpleString("hello");
    assert!(!value.is_integer());
}

#[test]
fn test_is_bulk_string() {
    let value = Value::BulkString("hello");
    assert!(value.is_bulk_string());

    // not a bulk string
    let value = Value::SimpleString("hello");
    assert!(!value.is_bulk_string());
}

#[test]
fn test_is_array() {
    let value = Value::Array(vec![]);
    assert!(value.is_array());

    // not an array
    let value = Value::SimpleString("hello");
    assert!(!value.is_array());
}

#[test]
fn test_is_null() {
    let value = Value::Null;
    assert!(value.is_null());

    // not null
    let value = Value::SimpleString("hello");
    assert!(!value.is_null());
}

#[test]
fn test_is_bool() {
    let value = Value::Boolean(true);
    assert!(value.is_bool());

    // not a boolean
    let value = Value::SimpleString("hello");
    assert!(!value.is_bool());
}

#[test]
fn test_is_double() {
    let value = Value::Double("3.14".to_string());
    assert!(value.is_double());

    // not a double
    let value = Value::SimpleString("hello");
    assert!(!value.is_double());
}

#[test]
fn test_is_bignumber() {
    let value = Value::BigNumber("1234567890");
    assert!(value.is_bignumber());

    // not a bignumber
    let value = Value::Array(vec![]);
    assert!(!value.is_bignumber());
}

#[test]
fn test_is_bulk_error() {
    let value = Value::BulkError("hello");
    assert!(value.is_bulk_error());

    // not a bulk error
    let value = Value::Array(vec![]);
    assert!(!value.is_bulk_error());
}

#[test]
fn test_is_verbatim_string() {
    let value = Value::VerbatimString("txt", "hello");
    assert!(value.is_verbatim_string());

    // not a verbatim string
    let value = Value::Array(vec![]);
    assert!(!value.is_verbatim_string());
}

#[test]
fn test_is_map() {
    let value = Value::MapOf(vec![], vec![]);
    assert!(value.is_map());

    // not a map
    let value = Value::Array(vec![]);
    assert!(!value.is_map());
}

#[test]
fn test_is_set() {
    let value = Value::SetOf(ValueSet::new());
    assert!(value.is_set());

    // not a set
    let value = Value::Array(vec![]);
    assert!(!value.is_set());
}

#[test]
fn test_is_pushes() {
    let value = Value::Pushes(vec![]);
    assert!(value.is_pushes());

    // not a pushes
    let value = Value::SimpleString("hello");
    assert!(!value.is_pushes());
}

#[test]
fn test_is_string_like() {
    let value = Value::SimpleString("hello");
    assert!(value.is_string_like());

    let value = Value::SimpleError("hello");
    assert!(value.is_string_like());

    let value = Value::BulkString("hello");
    assert!(value.is_string_like());

    let value = Value::BulkError("hello");
    assert!(value.is_string_like());

    let value = Value::Double("3.14".to_string());
    assert!(value.is_string_like());

    let value = Value::BigNumber("1234567890");
    assert!(value.is_string_like());

    let value = Value::VerbatimString("txt", "hello");
    assert!(value.is_string_like());

    // not a string-like
    let value = Value::Array(vec![]);
    assert!(!value.is_string_like());
}

#[test]
fn test_is_array_like() {
    let value = Value::Array(vec![]);
    assert!(value.is_array_like());

    let value = Value::Pushes(vec![]);
    assert!(value.is_array_like());

    // not an array-like
    let value = Value::SimpleString("hello");
    assert!(!value.is_array_like());
}

#[test]
fn test_as_str() {
    let value = Value::SimpleString("hello");
    assert_eq!(value.as_str(), Some("hello"));

    let value = Value::SimpleError("hello");
    assert_eq!(value.as_str(), Some("hello"));

    let value = Value::BulkString("hello");
    assert_eq!(value.as_str(), Some("hello"));

    let value = Value::Double("3.14".to_string());
    assert_eq!(value.as_str(), Some("3.14"));

    let value = Value::BigNumber("1234567890");
    assert_eq!(value.as_str(), Some("1234567890"));

    let value = Value::BulkError("hello");
    assert_eq!(value.as_str(), Some("hello"));

    let value = Value::VerbatimString("txt", "hello");
    assert_eq!(value.as_str(), Some("hello"));

    // not a string-like
    let value = Value::Array(vec![]);
    assert_eq!(value.as_str(), None);
}

#[test]
fn test_as_i64() {
    let value = Value::Integer(42);
    assert_eq!(value.as_i64(), Some(42));

    // not an integer
    let value = Value::SimpleString("hello");
    assert_eq!(value.as_i64(), None);
}

#[test]
fn test_as_bool() {
    let value = Value::Boolean(true);
    assert_eq!(value.as_bool(), Some(true));

    // not a boolean
    let value = Value::SimpleString("hello");
    assert_eq!(value.as_bool(), None);
}

#[test]
fn test_as_array() {
    let value = Value::Array(vec![]);
    assert_eq!(value.as_array(), Some(&vec![]));

    let value = Value::Pushes(vec![]);
    assert_eq!(value.as_array(), Some(&vec![]));

    // not an array
    let value = Value::SimpleString("hello");
    assert_eq!(value.as_array(), None);
}

#[test]
fn test_as_map() {
    let value = Value::MapOf(vec![], vec![]);
    assert_eq!(value.as_map(), Some((&vec![], &vec![])));

    // not a map
    let value = Value::Array(vec![]);
    assert_eq!(value.as_map(), None);
}

#[test]
fn test_as_set() {
    let value = Value::SetOf(ValueSet::new());
    assert_eq!(value.as_set(), Some(&ValueSet::new()));

    // not a set
    let value = Value::Array(vec![]);
    assert_eq!(value.as_set(), None);
}

#[test]
fn test_try_to_hashmap() {
    let value = Value::MapOf(
        vec![
            Value::SimpleString("key1"),
            Value::SimpleString("key2"),
            Value::SimpleString("key3"),
        ],
        vec![
            Value::SimpleString("value1"),
            Value::SimpleString("value2"),
            Value::SimpleString("value3"),
        ],
    );
    let map = value.try_to_hashmap().unwrap();
    assert_eq!(map.len(), 3);
    assert_eq!(map.get("key1").unwrap().as_str(), Some("value1"));
    assert_eq!(map.get("key2").unwrap().as_str(), Some("value2"));
    assert_eq!(map.get("key3").unwrap().as_str(), Some("value3"));

    // not a map
    let value = Value::SimpleString("hello");
    assert!(matches!(
        value.try_to_hashmap(),
        Err(ToHashMapError::NotAMap)
    ));

    // key is not a string-like
    let value = Value::MapOf(
        vec![Value::Array(vec![])],
        vec![Value::SimpleString("value")],
    );
    assert!(matches!(
        value.try_to_hashmap(),
        Err(ToHashMapError::KeyNotString(_))
    ));
}
