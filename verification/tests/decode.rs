use resp::error::Error;
use resp::parser::{count_steps, parse, parse_recursive};
use resp::value::Value;

#[test]
fn simple_string_keeps_its_text() {
    assert_eq!(parse("+OK"), Ok(Value::SimpleString("OK")));
    assert_eq!(parse("+OK\r\n"), Ok(Value::SimpleString("OK")));
    assert_eq!(parse("+"), Ok(Value::SimpleString("")));
    assert_eq!(parse("+hello world\r\n"), Ok(Value::SimpleString("hello world")));
    assert_eq!(parse("+a\rb\nc"), Ok(Value::SimpleString("a\rb\nc")));
    assert_eq!(parse("+a\r\r\n"), Ok(Value::SimpleString("a\r")));
    assert_eq!(parse("+h\u{e9}llo \u{4e16}\u{754c}\r\n"), Ok(Value::SimpleString("h\u{e9}llo \u{4e16}\u{754c}")));
}

#[test]
fn simple_error_keeps_its_text() {
    assert_eq!(parse("-ERR"), Ok(Value::SimpleError("ERR")));
    assert_eq!(parse("-ERR unknown command\r\n"), Ok(Value::SimpleError("ERR unknown command")));
    assert_eq!(parse("--"), Ok(Value::SimpleError("-")));
}

#[test]
fn integer_keeps_its_number() {
    assert_eq!(parse(":0"), Ok(Value::Integer(0)));
    assert_eq!(parse(":-0"), Ok(Value::Integer(0)));
    assert_eq!(parse(":+17\r\n"), Ok(Value::Integer(17)));
    assert_eq!(parse(":007\r\n"), Ok(Value::Integer(7)));
    assert_eq!(parse(":9223372036854775807"), Ok(Value::Integer(i64::MAX)));
    assert_eq!(parse(":-9223372036854775808"), Ok(Value::Integer(i64::MIN)));
    assert_eq!(
        parse(":000000000000000000000000000000000000000012"),
        Ok(Value::Integer(12))
    );
}

#[test]
fn integer_out_of_range_is_refused() {
    assert_eq!(parse(":9223372036854775808"), Err(Error("invalid number")));
    assert_eq!(parse(":-9223372036854775809"), Err(Error("invalid number")));
    assert_eq!(parse(":99999999999999999999999999999"), Err(Error("invalid number")));
}

#[test]
fn malformed_integer_is_refused() {
    for s in [":", ":+", ":-", ":i", ":1 ", ": 1", ":1_0", ":--1", ":+-1", ":1.0", ":\u{661}"] {
        assert_eq!(parse(s), Err(Error("invalid number")), "{:?}", s);
    }
}

#[test]
fn malformed_length_is_refused() {
    for s in ["$", "*", "$-2", "*-1", "$+5", "*+1", "$x", "*1x", "$ 1", "$1 ", "$\u{661}"] {
        assert_eq!(parse(s), Err(Error("invalid length")), "{:?}", s);
    }
}

#[test]
fn length_that_does_not_fit_is_refused() {
    assert_eq!(
        parse("$340282366920938463463374607431768211456"),
        Err(Error("invalid length"))
    );
    assert_eq!(parse("*99999999999999999999999"), Err(Error("invalid length")));
    let most = format!("${}", usize::MAX);
    assert_eq!(parse(&most), Ok(Value::BulkString(usize::MAX, vec![])));
    let more = format!("${}0", usize::MAX);
    assert_eq!(parse(&more), Err(Error("invalid length")));
}

#[test]
fn wrong_first_character_is_refused() {
    for s in ["data", "invalid", " +OK", "\u{e9}", "\u{1f600}x", "1", "\r"] {
        assert_eq!(parse(s), Err(Error("invalid first char")), "{:?}", s);
    }
}

#[test]
fn empty_line_is_refused() {
    assert_eq!(parse(""), Err(Error("invalid first char")));
    assert_eq!(parse("\r\n"), Err(Error("invalid first char")));
    assert_eq!(parse("\r\n+OK\r\n"), Err(Error("invalid first char")));
    assert_eq!(parse("*1\r\n\r\n"), Err(Error("invalid first char")));
    assert_eq!(Value::init(""), Err(Error("invalid first char")));
}

#[test]
fn zero_length_bulk_string_is_null() {
    let v = parse("$0\r\n\r\n").unwrap();
    assert_eq!(v, Value::BulkString(0, vec![]));
    assert!(v.is_null());
}

#[test]
fn one_byte_bulk_string() {
    let v = parse("$1\r\n1\r\n").unwrap();
    assert_eq!(v, Value::BulkString(1, vec![b'1']));
    assert!(!v.is_null());
}

#[test]
fn bulk_string_takes_the_bytes_of_its_line() {
    assert_eq!(
        parse("$2\r\n\u{e9}\r\n"),
        Ok(Value::BulkString(2, vec![0xc3, 0xa9]))
    );
    assert_eq!(parse("$5\r\nhi\r\n"), Ok(Value::BulkString(5, vec![b'h', b'i'])));
    assert_eq!(parse("$1\r\nhello\r\n"), Ok(Value::BulkString(1, b"hello".to_vec())));
    assert_eq!(parse("$3\r\n\r\n"), Ok(Value::BulkString(3, vec![])));
    assert_eq!(parse("$2\r\nhi\r\n+more\r\n"), Ok(Value::BulkString(2, vec![b'h', b'i'])));
}

#[test]
fn bulk_string_without_a_payload_line_stays_empty() {
    assert_eq!(parse("$4"), Ok(Value::BulkString(4, vec![])));
    assert_eq!(parse("$4\r\n"), Ok(Value::BulkString(4, vec![])));
}

#[test]
fn last_line_needs_no_delimiter() {
    assert_eq!(parse("$2\r\nhi"), Ok(Value::BulkString(2, vec![b'h', b'i'])));
    assert_eq!(
        parse("*2\r\n:1\r\n:2"),
        Ok(Value::Array(2, vec![Value::Integer(1), Value::Integer(2)]))
    );
}

#[test]
fn empty_array_and_one_element_array() {
    let v = parse("*0").unwrap();
    assert_eq!(v, Value::Array(0, vec![]));
    assert!(v.is_null());
    assert_eq!(parse("*0\r\n"), Ok(Value::Array(0, vec![])));
    assert_eq!(parse("*0\r\n:1\r\n"), Ok(Value::Array(0, vec![])));
    assert_eq!(parse("*1\r\n:1\r\n"), Ok(Value::Array(1, vec![Value::Integer(1)])));
}

#[test]
fn nested_array() {
    assert_eq!(
        parse("*1\r\n*1\r\n:1\r\n"),
        Ok(Value::Array(1, vec![Value::Array(1, vec![Value::Integer(1)])]))
    );
}

#[test]
fn mixed_array() {
    assert_eq!(
        parse("*3\r\n:1\r\n:2\r\n$1\r\n0\r\n"),
        Ok(Value::Array(
            3,
            vec![Value::Integer(1), Value::Integer(2), Value::BulkString(1, vec![b'0'])]
        ))
    );
}

#[test]
fn deep_mixed_array() {
    let text = "*5\r\n*1\r\n:1\r\n:2\r\n$2\r\nhi\r\n*0\r\n*1\r\n*2\r\n$0\r\n$1\r\n \r\n";
    let v = parse(text).unwrap();
    assert_eq!(
        v,
        Value::Array(
            5,
            vec![
                Value::Array(1, vec![Value::Integer(1)]),
                Value::Integer(2),
                Value::BulkString(2, vec![b'h', b'i']),
                Value::Array(0, vec![]),
                Value::Array(
                    1,
                    vec![Value::Array(
                        2,
                        vec![Value::BulkString(0, vec![]), Value::BulkString(1, vec![b' '])]
                    )]
                ),
            ]
        )
    );
    assert_eq!(count_steps(&v), 12);
}

#[test]
fn deep_mixed_array_with_an_empty_line_behind_a_null_bulk_string() {
    let text = "*5\r\n*1\r\n:1\r\n:2\r\n$2\r\nhi\r\n*0\r\n*1\r\n*2\r\n$0\r\n\r\n$1\r\n \r\n";
    assert_eq!(parse(text), Err(Error("invalid first char")));
}

#[test]
fn array_stops_at_its_declared_count() {
    assert_eq!(
        parse("*2\r\n:1\r\n:2\r\n:3\r\n"),
        Ok(Value::Array(2, vec![Value::Integer(1), Value::Integer(2)]))
    );
    assert_eq!(
        parse("*2\r\n*1\r\n:1\r\n:2\r\n:3\r\n"),
        Ok(Value::Array(
            2,
            vec![Value::Array(1, vec![Value::Integer(1)]), Value::Integer(2)]
        ))
    );
}

#[test]
fn array_ends_short_when_the_lines_run_out() {
    assert_eq!(parse("*2\r\n:1\r\n"), Ok(Value::Array(2, vec![Value::Integer(1)])));
    assert_eq!(parse("*3\r\n:1\r\n"), Ok(Value::Array(3, vec![Value::Integer(1)])));
    assert_eq!(parse("*2"), Ok(Value::Array(2, vec![])));
    assert_eq!(parse("*2\r\n"), Ok(Value::Array(2, vec![])));
    assert_eq!(
        parse("*2\r\n$1\r\na\r\n"),
        Ok(Value::Array(2, vec![Value::BulkString(1, vec![b'a'])]))
    );
    assert_eq!(
        parse("*2\r\n$3\r\n"),
        Ok(Value::Array(2, vec![Value::BulkString(3, vec![])]))
    );
    assert_eq!(
        parse("*3\r\n*2\r\n:1\r\n"),
        Ok(Value::Array(3, vec![Value::Array(2, vec![Value::Integer(1)])]))
    );
}

#[test]
fn first_error_ends_the_decoding() {
    assert_eq!(parse("*2\r\n:1\r\n:x\r\n"), Err(Error("invalid number")));
    assert_eq!(parse("*2\r\n:x\r\n:1\r\n"), Err(Error("invalid number")));
    assert_eq!(parse("*1\r\n$x\r\n"), Err(Error("invalid length")));
    assert_eq!(parse("*1\r\n*1\r\nfoo\r\n"), Err(Error("invalid first char")));
    assert_eq!(parse("*x\r\n:1\r\n"), Err(Error("invalid length")));
    assert_eq!(parse("*2\r\n$0\r\n\r\n\r\n"), Err(Error("invalid first char")));
}

#[test]
fn null_bulk_string_counts_for_one_line() {
    assert_eq!(
        parse("*2\r\n$0\r\n:7\r\n"),
        Ok(Value::Array(2, vec![Value::BulkString(0, vec![]), Value::Integer(7)]))
    );
    assert_eq!(
        parse("*3\r\n$0\r\n:1\r\n:2\r\n"),
        Ok(Value::Array(
            3,
            vec![Value::BulkString(0, vec![]), Value::Integer(1), Value::Integer(2)]
        ))
    );
    assert_eq!(
        parse("*2\r\n:7\r\n$0\r\n\r\n"),
        Ok(Value::Array(2, vec![Value::Integer(7), Value::BulkString(0, vec![])]))
    );
    assert_eq!(parse("*2\r\n$0\r\n\r\n:7\r\n"), Err(Error("invalid first char")));
}

#[test]
fn null_array_counts_for_one_line() {
    assert_eq!(
        parse("*2\r\n*0\r\n:7\r\n"),
        Ok(Value::Array(2, vec![Value::Array(0, vec![]), Value::Integer(7)]))
    );
}

#[test]
fn parse_recursive_takes_line_and_rest() {
    assert_eq!(parse_recursive("+OK", ""), Ok(Value::SimpleString("OK")));
    assert_eq!(
        parse_recursive("$2", "hi\r\n"),
        Ok(Value::BulkString(2, vec![b'h', b'i']))
    );
    assert_eq!(
        parse_recursive("*2", ":1\r\n$1\r\nx\r\n"),
        Ok(Value::Array(2, vec![Value::Integer(1), Value::BulkString(1, vec![b'x'])]))
    );
    assert_eq!(parse_recursive("?", ":1\r\n"), Err(Error("invalid first char")));
}

#[test]
fn count_steps_by_kind() {
    assert_eq!(count_steps(&Value::SimpleString("a")), 1);
    assert_eq!(count_steps(&Value::SimpleError("a")), 1);
    assert_eq!(count_steps(&Value::Integer(-4)), 1);
    assert_eq!(count_steps(&Value::BulkString(2, vec![b'h', b'i'])), 2);
    assert_eq!(count_steps(&Value::BulkString(0, vec![])), 1);
    assert_eq!(count_steps(&Value::BulkString(0, vec![b'x'])), 1);
    assert_eq!(count_steps(&Value::BulkString(1, vec![])), 2);
    assert_eq!(
        count_steps(&Value::Array(
            2,
            vec![Value::BulkString(0, vec![]), Value::BulkString(1, vec![b'x'])]
        )),
        4
    );
    assert_eq!(count_steps(&Value::Array(0, vec![])), 1);
    assert_eq!(
        count_steps(&Value::Array(
            2,
            vec![Value::Integer(1), Value::BulkString(1, vec![b'x'])]
        )),
        4
    );
    assert_eq!(
        count_steps(&Value::Array(
            2,
            vec![
                Value::Array(2, vec![Value::Integer(1), Value::Integer(2)]),
                Value::Array(1, vec![Value::BulkString(1, vec![b'x'])]),
            ]
        )),
        7
    );
}

#[test]
fn is_null_by_kind() {
    assert!(Value::BulkString(0, vec![]).is_null());
    assert!(Value::Array(0, vec![]).is_null());
    assert!(!Value::BulkString(1, vec![]).is_null());
    assert!(!Value::Array(1, vec![]).is_null());
    assert!(!Value::BulkString(2, vec![b'h', b'i']).is_null());
    assert!(!Value::Array(1, vec![Value::Integer(1)]).is_null());
    assert!(!Value::SimpleString("").is_null());
    assert!(!Value::SimpleError("").is_null());
    assert!(!Value::Integer(0).is_null());
    assert!(Value::init("$0").unwrap().is_null());
    assert!(Value::init("*0").unwrap().is_null());
    assert!(!Value::init("$1").unwrap().is_null());
    assert!(!parse("$1\r\n\r\n").unwrap().is_null());
}

#[test]
fn init_reads_one_line_only() {
    assert_eq!(Value::init("$12"), Ok(Value::BulkString(12, vec![])));
    assert_eq!(Value::init("*007"), Ok(Value::Array(7, vec![])));
    assert_eq!(Value::init("+a\r\nb"), Ok(Value::SimpleString("a\r\nb")));
    assert_eq!(Value::init(":1\r\n"), Err(Error("invalid number")));
}
