use redis_lite::redis::resp::RESPDataTypes;
use redis_lite::redis::resp::RESPDataTypes::Array;
use redis_lite::redis::resp::RESPDataTypes::BulkString;
use redis_lite::redis::resp::RESPDataTypes::SimpleString;
use redis_lite::redis::resp::RESPParser;

fn create_parser(data: &str) -> RESPParser {
    RESPParser::new(data.as_bytes().to_vec())
}

#[test]
fn simple_string() {
    assert!(match create_parser("+OK\r\n").parse_simple_string() {
        Ok(SimpleString(string)) if &string == "OK" => true,
        _ => false,
    });
}

#[test]
fn bulk_string() {
    assert!(match create_parser("$5\r\nhello\r\n").parse_bulk_string() {
        Ok(BulkString(string)) if &string == "hello" => true,
        _ => false,
    });
}

#[test]
fn array() {
    let parsed_array = create_parser("*2\r\n$5\r\nhello\r\n$5\r\nworld\r\n").parse_array();

    assert!(if let Ok(Array(_)) = parsed_array {
        true
    } else {
        false
    });

    if let Ok(Array(mut elements)) = parsed_array {
        assert_eq!(elements.len(), 2);

        assert!(if let Some(BulkString(ref string)) = elements.pop() {
            if string == "world" {
                true
            } else {
                false
            }
        } else {
            false
        });

        assert!(if let Some(BulkString(ref string)) = elements.pop() {
            if string == "hello" {
                true
            } else {
                false
            }
        } else {
            false
        });
    }
}

fn text(value: &RESPDataTypes) -> String {
    match value {
        SimpleString(s) | BulkString(s) => s.clone(),
        RESPDataTypes::BulkError(s) | RESPDataTypes::SimpleError(s) => s.clone(),
        _ => panic!("not a text value"),
    }
}

#[test]
fn simple_string_with_plus_in_text_keeps_the_rest() {
    let mut parser = create_parser("+a+b\r\n+next\r\n");
    let value = parser.parse_simple_string().unwrap();
    assert_eq!(text(&value), "a+b");
    let next = parser.parse_simple_string().unwrap();
    assert_eq!(text(&next), "next");
}

#[test]
fn empty_simple_string() {
    let value = create_parser("+\r\n").parse_simple_string().unwrap();
    assert_eq!(text(&value), "");
}

#[test]
fn bulk_string_leaves_its_line_end_unread() {
    let mut parser = create_parser("$2\r\nhi+\r\n");
    let value = parser.parse_bulk_string().unwrap();
    assert_eq!(text(&value), "hi");
    // The bytes after the text stay unread: here they form a simple string.
    let rest = parser.parse_simple_string().unwrap();
    assert_eq!(text(&rest), "");
}

#[test]
fn bulk_string_length_counts_bytes_and_accepts_plus_sign() {
    let value = create_parser("$+6\r\nh\u{e9}llo\r\n").parse_bulk_string().unwrap();
    assert_eq!(text(&value), "h\u{e9}llo");
}

#[test]
fn bulk_string_may_hold_newlines() {
    let value = create_parser("$4\r\na\r\nb\r\n").parse_bulk_string().unwrap();
    assert_eq!(text(&value), "a\r\nb");
}

#[test]
fn empty_array() {
    match create_parser("*0\r\n").parse_array() {
        Ok(Array(elements)) => assert_eq!(elements.len(), 0),
        _ => panic!("expected an empty array"),
    }
}

#[test]
fn array_with_missing_element_is_null_error() {
    match create_parser("*1\r\n").parse_array() {
        Err(RESPDataTypes::Null) => {}
        _ => panic!("expected Err(Null)"),
    }
}

#[test]
fn decode_empty_input_is_null_error() {
    match RESPDataTypes::decode(b"") {
        Some(Err(RESPDataTypes::Null)) => {}
        _ => panic!("expected Err(Null)"),
    }
}

#[test]
fn decode_unknown_marker_is_null() {
    match RESPDataTypes::decode(b":1\r\n") {
        Some(Ok(RESPDataTypes::Null)) => {}
        _ => panic!("expected Ok(Null)"),
    }
}

#[test]
fn decode_bulk_string() {
    match RESPDataTypes::try_from(b"$5\r\nhello\r\n".as_slice()) {
        Ok(BulkString(s)) => assert_eq!(s, "hello"),
        _ => panic!("expected a bulk string"),
    }
}

#[test]
fn decode_request_array() {
    match RESPDataTypes::decode(b"*3\r\n$3\r\nset\r\n$1\r\nk\r\n$2\r\nv1\r\n") {
        Some(Ok(Array(elements))) => {
            let texts: Vec<String> = elements.iter().map(text).collect();
            assert_eq!(texts, vec!["set", "k", "v1"]);
        }
        _ => panic!("expected an array"),
    }
}

#[test]
fn decode_simple_string_after_marker_needs_second_plus() {
    // The reader consumes the marker and then expects the line to start with '+' again.
    assert!(RESPDataTypes::decode(b"+OK\r\n").is_none());
    match RESPDataTypes::decode(b"++OK\r\n") {
        Some(Ok(SimpleString(s))) => assert_eq!(s, "OK"),
        _ => panic!("expected a simple string"),
    }
}

#[test]
fn decode_gives_up_on_bad_input() {
    // A negative length is not a usize.
    assert!(RESPDataTypes::decode(b"$-1\r\n").is_none());
    // Too few bytes for the announced length.
    assert!(RESPDataTypes::decode(b"$10\r\nabc").is_none());
    // Text that is not UTF-8.
    assert!(RESPDataTypes::decode(b"$2\r\n\xff\xfe\r\n").is_none());
    // A length line without "\r\n" but with a bare "\n".
    assert!(RESPDataTypes::decode(b"$3\nabc").is_none());
}

#[test]
fn decode_array_element_error_ends_the_array() {
    // The element's two lines are empty: reading them gives Err(Null).
    match RESPDataTypes::decode(b"*2\r\n") {
        Some(Err(RESPDataTypes::Null)) => {}
        _ => panic!("expected Err(Null)"),
    }
}

#[test]
fn serialize_simple_string() {
    assert_eq!(SimpleString("OK".to_string()).serialize(), b"+OK\r\n".to_vec());
}

#[test]
fn serialize_simple_error() {
    assert_eq!(
        RESPDataTypes::SimpleError("ERR x".to_string()).serialize(),
        b"-ERR x\r\n".to_vec()
    );
}

#[test]
fn serialize_bulk_string_counts_utf8_bytes() {
    assert_eq!(
        BulkString("h\u{e9}llo".to_string()).serialize(),
        "$6\r\nh\u{e9}llo\r\n".as_bytes().to_vec()
    );
    assert_eq!(BulkString(String::new()).serialize(), b"$0\r\n\r\n".to_vec());
    let long = "x".repeat(12);
    assert_eq!(
        BulkString(long.clone()).serialize(),
        format!("$12\r\n{long}\r\n").into_bytes()
    );
}

#[test]
fn serialize_bulk_error() {
    assert_eq!(
        RESPDataTypes::BulkError("unknown command".to_string()).serialize(),
        b"!15\r\nunknown command\r\n".to_vec()
    );
}

#[test]
fn serialize_other_kinds_as_error_line() {
    assert_eq!(RESPDataTypes::Null.serialize(), b"-Error\r\n".to_vec());
    assert_eq!(RESPDataTypes::Integer(5).serialize(), b"-Error\r\n".to_vec());
    assert_eq!(Array(vec![]).serialize(), b"-Error\r\n".to_vec());
}

#[test]
fn write_appends_to_buffer() {
    let mut buffer = b"ab".to_vec();
    SimpleString("x".to_string()).write(&mut buffer);
    assert_eq!(buffer, b"ab+x\r\n".to_vec());
}

#[test]
fn written_bulk_string_reads_back() {
    for s in ["", "hello", "a\r\nb", "h\u{e9}llo w\u{f6}rld"] {
        let bytes = BulkString(s.to_string()).serialize();
        match RESPDataTypes::decode(&bytes) {
            Some(Ok(BulkString(back))) => assert_eq!(back, s),
            _ => panic!("round trip failed for {s:?}"),
        }
    }
}

#[test]
fn written_simple_string_reads_back_with_parser() {
    let bytes = SimpleString("hello world".to_string()).serialize();
    let mut parser = RESPParser::new(bytes);
    match parser.parse_simple_string() {
        Ok(SimpleString(back)) => assert_eq!(back, "hello world"),
        _ => panic!("round trip failed"),
    }
}
