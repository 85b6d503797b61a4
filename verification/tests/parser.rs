use resp::error::Error;
use resp::parser::parse;
use resp::value::Value;

use std::collections::HashMap;

#[test]
fn parse_valid_bulk() {
    let result = parse("$2\r\n22\r\n").unwrap();
    assert_eq!(result, Value::BulkString(2, vec![b'2', b'2']));
}

#[test]
fn parse_valid_bulk_string() {
    let map = HashMap::from([
        ("$0\r\n\r\n", Value::BulkString(0, vec![])),
        ("$1\r\n1\r\n", Value::BulkString(1, vec![b'1'])),
    ]);

    for (k, v) in map {
        assert_eq!(parse(k).unwrap(), v);
    }
}

#[test]
fn parse_valid_array() {
    let map = HashMap::from([
        ("*0\r\n", Value::Array(0, vec![])),
        ("*1\r\n:1\r\n", Value::Array(1, vec![Value::Integer(1)])),
        (
            "*2\r\n:1\r\n:2\r\n",
            Value::Array(2, vec![Value::Integer(1), Value::Integer(2)]),
        ),
        (
            "*3\r\n:1\r\n:2\r\n$1\r\n0\r\n",
            Value::Array(
                3,
                vec![
                    Value::Integer(1),
                    Value::Integer(2),
                    Value::BulkString(1, vec![b'0']),
                ],
            ),
        ),
        (
            "*3\r\n$1\r\n1\r\n:2\r\n$1\r\n0\r\n",
            Value::Array(
                3,
                vec![
                    Value::BulkString(1, vec![b'1']),
                    Value::Integer(2),
                    Value::BulkString(1, vec![b'0']),
                ],
            ),
        ),
    ]);

    for (k, v) in map {
        assert_eq!(parse(k).unwrap(), v);
    }
}

#[test]
fn parse_valid_nested_array() {
    let map = HashMap::from([
        (
            "*1\r\n*1\r\n:1\r\n",
            Value::Array(1, vec![Value::Array(1, vec![Value::Integer(1)])]),
        ),
        (
            "*1\r\n*2\r\n:1\r\n:2\r\n",
            Value::Array(
                1,
                vec![Value::Array(2, vec![Value::Integer(1), Value::Integer(2)])],
            ),
        ),
        (
            "*2\r\n*2\r\n:1\r\n:2\r\n$5\r\nhi\r\n",
            Value::Array(
                2,
                vec![
                    Value::Array(2, vec![Value::Integer(1), Value::Integer(2)]),
                    Value::BulkString(5, vec![b'h', b'i']),
                ],
            ),
        ),
    ]);

    for (k, v) in map {
        assert_eq!(parse(k).unwrap(), v);
    }

    // A bulk string declared with zero takes its own line only, so the
    // empty line behind `$0` is read as the next element.
    assert_eq!(
        parse("*5\r\n*1\r\n:1\r\n:2\r\n$2\r\nhi\r\n*0\r\n*1\r\n*2\r\n$0\r\n\r\n$1\r\n \r\n"),
        Err(Error("invalid first char"))
    );
}
