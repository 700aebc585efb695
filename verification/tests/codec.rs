use respkv::resp::{parse_int, parse_msg, read_until_term, Decoded, Value};

fn bulk(bytes: &[u8]) -> Value {
    Value::BulkString(bytes.to_vec())
}

fn status(text: &[u8]) -> Value {
    Value::SimpleString(text.to_vec())
}

#[test]
fn serialise_status_exact_bytes() {
    assert_eq!(status(b"acknowledged").serialise(), b"+acknowledged\r\n".to_vec());
    assert_eq!(status(b"").serialise(), b"+\r\n".to_vec());
}

#[test]
fn serialise_bulk_exact_bytes() {
    assert_eq!(bulk(b"PING").serialise(), b"$4\r\nPING\r\n".to_vec());
    assert_eq!(bulk(b"").serialise(), b"$0\r\n\r\n".to_vec());
    assert_eq!(bulk(b"0123456789").serialise(), b"$10\r\n0123456789\r\n".to_vec());
}

#[test]
fn round_trip_status() {
    let bytes = status(b"acknowledged").serialise();
    match parse_msg(&bytes, 0) {
        Decoded::Found(Value::SimpleString(t), used) => {
            assert_eq!(t, b"acknowledged".to_vec());
            assert_eq!(used, bytes.len());
        }
        _ => panic!("expected a status frame"),
    }
}

#[test]
fn round_trip_bulk_binary_safe() {
    // embedded CR, LF and null bytes: the payload is read by declared
    // length, never by scanning for a terminator
    let payload = vec![13u8, 10, 0, 255, 13, 10];
    let bytes = bulk(&payload).serialise();
    let mut expect = b"$6\r\n".to_vec();
    expect.extend_from_slice(&payload);
    expect.extend_from_slice(b"\r\n");
    assert_eq!(bytes, expect);
    match parse_msg(&bytes, 0) {
        Decoded::Found(Value::BulkString(p), used) => {
            assert_eq!(p, payload);
            assert_eq!(used, bytes.len());
        }
        _ => panic!("expected a bulk string frame"),
    }
}

#[test]
fn incremental_feed_all_split_points() {
    let frame = b"*1\r\n$4\r\nPING\r\n";
    for cut in 0..frame.len() {
        match parse_msg(&frame[..cut], 0) {
            Decoded::Incomplete => {}
            _ => panic!("a proper prefix of length {} must be incomplete", cut),
        }
    }
    match parse_msg(frame, 0) {
        Decoded::Found(Value::Array(items), used) => {
            assert_eq!(used, frame.len());
            assert_eq!(items.len(), 1);
        }
        _ => panic!("the whole frame must parse"),
    }
}

#[test]
fn array_of_three_bulk_strings() {
    let frame = b"*3\r\n$3\r\nabc\r\n$5\r\nhello\r\n$0\r\n\r\n";
    match parse_msg(frame, 0) {
        Decoded::Found(Value::Array(items), used) => {
            assert_eq!(used, frame.len());
            assert_eq!(items.len(), 3);
            match &items[0] {
                Value::BulkString(b) => assert_eq!(b, &b"abc".to_vec()),
                _ => panic!("first element must be a bulk string"),
            }
            match &items[1] {
                Value::BulkString(b) => assert_eq!(b, &b"hello".to_vec()),
                _ => panic!("second element must be a bulk string"),
            }
            match &items[2] {
                Value::BulkString(b) => assert_eq!(b, &b"".to_vec()),
                _ => panic!("third element must be a zero-length bulk string"),
            }
        }
        _ => panic!("expected an array frame"),
    }
}

#[test]
fn malformed_count_is_an_error() {
    // garbage where the first element's marker should stand
    assert!(matches!(parse_msg(b"*2\r\nXX", 0), Decoded::Malformed));
}

#[test]
fn unknown_marker_is_an_error() {
    assert!(matches!(parse_msg(b"?hi\r\n", 0), Decoded::Malformed));
}

#[test]
fn negative_length_is_an_error() {
    assert!(matches!(parse_msg(b"$-1\r\n", 0), Decoded::Malformed));
    assert!(matches!(parse_msg(b"*-1\r\n", 0), Decoded::Malformed));
}

#[test]
fn length_with_sign_and_leading_zeros_is_accepted() {
    match parse_msg(b"$+3\r\nabc\r\n", 0) {
        Decoded::Found(Value::BulkString(b), used) => {
            assert_eq!(b, b"abc".to_vec());
            assert_eq!(used, 10);
        }
        _ => panic!("a plus-signed length is accepted"),
    }
    match parse_msg(b"$003\r\nabc\r\n", 0) {
        Decoded::Found(Value::BulkString(b), used) => {
            assert_eq!(b, b"abc".to_vec());
            assert_eq!(used, 11);
        }
        _ => panic!("leading zeros are accepted"),
    }
}

#[test]
fn oversized_length_is_an_error() {
    assert!(matches!(parse_msg(b"$99999999999999\r\n", 0), Decoded::Malformed));
}

#[test]
fn empty_buffer_is_incomplete() {
    assert!(matches!(parse_msg(b"", 0), Decoded::Incomplete));
}

#[test]
fn status_keeps_lone_terminator_halves() {
    // a lone CR inside the text does not end the line; only CR LF does
    match parse_msg(b"+a\rb\r\n", 0) {
        Decoded::Found(Value::SimpleString(t), used) => {
            assert_eq!(t, b"a\rb".to_vec());
            assert_eq!(used, 6);
        }
        _ => panic!("expected a status frame"),
    }
}

#[test]
fn nesting_deeper_than_the_limit_is_an_error() {
    let mut frame = Vec::new();
    for _ in 0..33 {
        frame.extend_from_slice(b"*1\r\n");
    }
    frame.extend_from_slice(b"+x\r\n");
    assert!(matches!(parse_msg(&frame, 0), Decoded::Malformed));
}

#[test]
fn nesting_at_the_limit_is_accepted() {
    let mut frame = Vec::new();
    for _ in 0..31 {
        frame.extend_from_slice(b"*1\r\n");
    }
    frame.extend_from_slice(b"+x\r\n");
    assert!(matches!(parse_msg(&frame, 0), Decoded::Found(_, _)));
}

#[test]
fn decode_at_an_offset() {
    let bytes = b"xxx+ok\r\n";
    match parse_msg(bytes, 3) {
        Decoded::Found(Value::SimpleString(t), used) => {
            assert_eq!(t, b"ok".to_vec());
            assert_eq!(used, 5);
        }
        _ => panic!("expected a status frame at offset 3"),
    }
}

#[test]
fn trailing_bytes_are_left_alone() {
    let bytes = b"+ok\r\n$2\r\nhi\r\n";
    match parse_msg(bytes, 0) {
        Decoded::Found(Value::SimpleString(t), used) => {
            assert_eq!(t, b"ok".to_vec());
            assert_eq!(used, 5);
        }
        _ => panic!("expected the first frame only"),
    }
}

#[test]
fn read_until_term_splits_at_first_terminator() {
    match read_until_term(b"abc\r\ndef") {
        Some((line, used)) => {
            assert_eq!(line, b"abc");
            assert_eq!(used, 5);
        }
        None => panic!("a terminator is present"),
    }
    assert!(read_until_term(b"abc").is_none());
    assert!(read_until_term(b"abc\r").is_none());
}

#[test]
fn parse_int_reads_length_fields() {
    assert_eq!(parse_int(b"0"), Some(0));
    assert_eq!(parse_int(b"42"), Some(42));
    assert_eq!(parse_int(b"007"), Some(7));
    assert_eq!(parse_int(b"+42"), Some(42));
    assert_eq!(parse_int(b"536870912"), Some(536870912));
    assert_eq!(parse_int(b"536870913"), None);
    assert_eq!(parse_int(b"-1"), None);
    assert_eq!(parse_int(b"-0"), None);
    assert_eq!(parse_int(b""), None);
    assert_eq!(parse_int(b"+"), None);
    assert_eq!(parse_int(b"12x"), None);
    assert_eq!(parse_int(b" 1"), None);
}
