use redis_lite::resp::{parse_input, parse_output, serialize_all, RespIn, RespOut};

fn round_trip(value: RespOut) {
    let bytes = value.serialize();
    let parsed = parse_output(&bytes).expect("the encoding parses");
    assert_eq!(parsed.serialize(), bytes);
}

#[test]
fn serialize_each_kind() {
    assert_eq!(RespOut::SimpleString("PONG".to_string()).serialize(), b"+PONG\r\n");
    assert_eq!(RespOut::Error("boom".to_string()).serialize(), b"-ERR boom\r\n");
    assert_eq!(RespOut::Integer(-42).serialize(), b":-42\r\n");
    assert_eq!(RespOut::BulkString("hey".to_string()).serialize(), b"$3\r\nhey\r\n");
    assert_eq!(RespOut::Null.serialize(), b"_\r\n");
    let array = RespOut::Array(vec![RespOut::Integer(1), RespOut::Null]);
    assert_eq!(array.serialize(), b"*2\r\n:1\r\n_\r\n");
}

#[test]
fn bulk_length_counts_bytes() {
    assert_eq!(RespOut::BulkString("é".to_string()).serialize(), "$2\r\né\r\n".as_bytes());
}

#[test]
fn round_trip_values() {
    round_trip(RespOut::SimpleString("OK".to_string()));
    round_trip(RespOut::Error("unknown command: foo".to_string()));
    round_trip(RespOut::Integer(i64::MIN));
    round_trip(RespOut::Integer(i64::MAX));
    round_trip(RespOut::BulkString("line one\r\nline two".to_string()));
    round_trip(RespOut::BulkString(String::new()));
    round_trip(RespOut::Null);
    round_trip(RespOut::Array(vec![]));
    round_trip(RespOut::Array(vec![
        RespOut::BulkString("a".to_string()),
        RespOut::Array(vec![RespOut::Integer(7), RespOut::SimpleString("x".to_string())]),
        RespOut::Null,
    ]));
}

#[test]
fn error_round_trip_drops_added_prefix() {
    match parse_output(b"-ERR boom\r\n") {
        Ok(RespOut::Error(e)) => assert_eq!(e, "boom"),
        _ => panic!("expected an error value"),
    }
    match parse_output(b"-WRONGTYPE bad\r\n") {
        Ok(RespOut::Error(e)) => assert_eq!(e, "WRONGTYPE bad"),
        _ => panic!("expected an error value"),
    }
}

#[test]
fn legacy_null_bulk_is_null() {
    assert!(matches!(parse_output(b"$-1\r\n"), Ok(RespOut::Null)));
    assert!(matches!(parse_output(b"_\r\n"), Ok(RespOut::Null)));
}

#[test]
fn parse_integers() {
    assert!(matches!(parse_output(b":+5\r\n"), Ok(RespOut::Integer(5))));
    assert!(matches!(parse_output(b":-9223372036854775808\r\n"), Ok(RespOut::Integer(i64::MIN))));
    assert!(parse_output(b":9223372036854775808\r\n").is_err());
    assert!(parse_output(b":12a\r\n").is_err());
    assert!(parse_output(b":\r\n").is_err());
}

#[test]
fn parse_request_of_bulk_strings() {
    match parse_input(b"*2\r\n$4\r\nECHO\r\n$3\r\nhey\r\n") {
        Ok(RespIn::Array(args)) => assert_eq!(args, vec!["ECHO".to_string(), "hey".to_string()]),
        Err(_) => panic!("expected a request"),
    }
}

#[test]
fn request_serialization_parses_back() {
    let req = RespIn::Array(vec!["SET".to_string(), "k".to_string(), "v\r\n".to_string()]);
    let bytes = req.serialize();
    assert_eq!(bytes, b"*3\r\n$3\r\nSET\r\n$1\r\nk\r\n$3\r\nv\r\n\r\n");
    match parse_input(&bytes) {
        Ok(RespIn::Array(args)) => assert_eq!(args, vec!["SET", "k", "v\r\n"]),
        Err(_) => panic!("expected a request"),
    }
}

#[test]
fn malformed_requests_are_refused() {
    assert!(parse_input(b"").is_err());
    assert!(parse_input(b"+PING\r\n").is_err());
    assert!(parse_input(b"*1\n$4\r\nPING\r\n").is_err());
    assert!(parse_input(b"*1\rx$4\r\nPING\r\n").is_err());
    assert!(parse_input(b"*1\r\n$-1\r\n").is_err());
    assert!(parse_input(b"*1\r\n$4\r\nPIN").is_err());
    assert!(parse_input(b"*1\r\n$4\r\nPINGxx").is_err());
    assert!(parse_input(b"*1\r\n+PING\r\n").is_err());
    assert!(parse_input(b"*x\r\n").is_err());
    assert!(parse_input(&[b'*', b'1', b'\r', b'\n', b'$', b'1', b'\r', b'\n', 0xff, b'\r', b'\n']).is_err());
}

#[test]
fn malformed_values_are_refused() {
    assert!(parse_output(b"+PO\nNG\r\n").is_err());
    assert!(parse_output(b"_").is_err());
    assert!(parse_output(b"?\r\n").is_err());
    assert!(parse_output(b"*2\r\n:1\r\n").is_err());
}

#[test]
fn trailing_bytes_are_not_read() {
    assert!(matches!(parse_output(b":1\r\n:2\r\n"), Ok(RespOut::Integer(1))));
}

#[test]
fn serialize_all_concatenates() {
    let values = vec![RespOut::SimpleString("OK".to_string()), RespOut::Integer(3)];
    assert_eq!(serialize_all(&values), b"+OK\r\n:3\r\n");
    assert_eq!(serialize_all(&Vec::new()), b"");
}
