use respkv::resp::Value;
use respkv::server::{dispatch, extract_command, process, unpack_bulk_str, CommandError, Step};
use respkv::storage::Storage;

fn bulk(bytes: &[u8]) -> Value {
    Value::BulkString(bytes.to_vec())
}

fn request(parts: &[&[u8]]) -> Value {
    let mut items = Vec::new();
    for p in parts {
        items.push(bulk(p));
    }
    Value::Array(items)
}

#[test]
fn ping_request_yields_acknowledged() {
    let mut store = Storage::new();
    match process(b"*1\r\n$4\r\nPING\r\n", &mut store) {
        Step::Reply { bytes, consumed } => {
            assert_eq!(bytes, b"+acknowledged\r\n".to_vec());
            assert_eq!(consumed, 14);
        }
        _ => panic!("a liveness check must be answered"),
    }
}

#[test]
fn set_then_get_round_trip() {
    let mut store = Storage::new();
    match process(b"*3\r\n$3\r\nSET\r\n$1\r\nk\r\n$1\r\nv\r\n", &mut store) {
        Step::Reply { bytes, consumed } => {
            assert_eq!(bytes, b"+stored\r\n".to_vec());
            assert_eq!(consumed, 27);
        }
        _ => panic!("the write must be answered"),
    }
    match process(b"*2\r\n$3\r\nGET\r\n$1\r\nk\r\n", &mut store) {
        Step::Reply { bytes, consumed } => {
            assert_eq!(bytes, b"$1\r\nv\r\n".to_vec());
            assert_eq!(consumed, 20);
        }
        _ => panic!("the read must be answered"),
    }
}

#[test]
fn get_of_missing_key_yields_the_absent_sentinel() {
    let mut store = Storage::new();
    match process(b"*2\r\n$3\r\nGET\r\n$1\r\nk\r\n", &mut store) {
        Step::Reply { bytes, .. } => assert_eq!(bytes, b"+absent\r\n".to_vec()),
        _ => panic!("a read of a missing key is still answered"),
    }
}

#[test]
fn echo_returns_its_argument_unchanged() {
    let mut store = Storage::new();
    match process(b"*2\r\n$4\r\nECHO\r\n$5\r\nhello\r\n", &mut store) {
        Step::Reply { bytes, .. } => assert_eq!(bytes, b"$5\r\nhello\r\n".to_vec()),
        _ => panic!("an echo must be answered"),
    }
}

#[test]
fn malformed_input_closes_without_a_reply() {
    let mut store = Storage::new();
    assert!(matches!(process(b"*2\r\nXX", &mut store), Step::Close));
}

#[test]
fn partial_input_asks_for_more() {
    let mut store = Storage::new();
    assert!(matches!(process(b"*1\r\n$4\r\nPI", &mut store), Step::NeedMore));
}

#[test]
fn unknown_command_closes_the_connection() {
    let mut store = Storage::new();
    assert!(matches!(
        process(b"*1\r\n$4\r\nQUIT\r\n", &mut store),
        Step::Close
    ));
}

#[test]
fn command_names_match_case_sensitively() {
    let mut store = Storage::new();
    assert!(matches!(
        process(b"*1\r\n$4\r\nping\r\n", &mut store),
        Step::Close
    ));
}

#[test]
fn dispatch_reports_each_error_exactly() {
    let mut store = Storage::new();
    assert_eq!(
        dispatch(&mut store, bulk(b"PING")).unwrap_err(),
        CommandError::NotArray
    );
    assert_eq!(
        dispatch(&mut store, Value::Array(Vec::new())).unwrap_err(),
        CommandError::EmptyRequest
    );
    assert_eq!(
        dispatch(&mut store, Value::Array(vec![Value::Array(Vec::new())])).unwrap_err(),
        CommandError::NotBulkString
    );
    assert_eq!(
        dispatch(&mut store, request(&[b"PING", b"x"])).unwrap_err(),
        CommandError::WrongArity
    );
    assert_eq!(
        dispatch(&mut store, request(&[b"ECHO"])).unwrap_err(),
        CommandError::WrongArity
    );
    assert_eq!(
        dispatch(&mut store, request(&[b"GET", b"a", b"b"])).unwrap_err(),
        CommandError::WrongArity
    );
    assert_eq!(
        dispatch(&mut store, request(&[b"SET", b"k"])).unwrap_err(),
        CommandError::WrongArity
    );
    assert_eq!(
        dispatch(&mut store, request(&[b"NOPE"])).unwrap_err(),
        CommandError::UnknownCommand
    );
    let nested = Value::Array(vec![bulk(b"ECHO"), Value::Array(Vec::new())]);
    assert_eq!(
        dispatch(&mut store, nested).unwrap_err(),
        CommandError::NotBulkString
    );
}

#[test]
fn dispatch_runs_the_store_commands() {
    let mut store = Storage::new();
    match dispatch(&mut store, request(&[b"SET", b"k", b"v"])) {
        Ok(Value::SimpleString(t)) => assert_eq!(t, b"stored".to_vec()),
        _ => panic!("a write is answered with the stored status"),
    }
    match dispatch(&mut store, request(&[b"GET", b"k"])) {
        Ok(Value::BulkString(v)) => assert_eq!(v, b"v".to_vec()),
        _ => panic!("a read returns the value as a bulk string"),
    }
}

#[test]
fn extract_command_splits_name_and_arguments() {
    match extract_command(request(&[b"GET", b"k"])) {
        Ok((name, args)) => {
            assert_eq!(name, b"GET".to_vec());
            assert_eq!(args.len(), 1);
            match &args[0] {
                Value::BulkString(b) => assert_eq!(b, &b"k".to_vec()),
                _ => panic!("the argument must come through unchanged"),
            }
        }
        Err(_) => panic!("a well-shaped request must split"),
    }
    assert_eq!(
        extract_command(bulk(b"GET")).unwrap_err(),
        CommandError::NotArray
    );
    assert_eq!(
        extract_command(Value::Array(Vec::new())).unwrap_err(),
        CommandError::EmptyRequest
    );
}

#[test]
fn unpack_bulk_str_rejects_other_shapes() {
    assert_eq!(unpack_bulk_str(bulk(b"x")).unwrap(), b"x".to_vec());
    assert_eq!(
        unpack_bulk_str(Value::SimpleString(b"x".to_vec())).unwrap_err(),
        CommandError::NotBulkString
    );
}

#[test]
fn pipelined_requests_are_consumed_in_order() {
    let mut store = Storage::new();
    let mut buffer = b"*1\r\n$4\r\nPING\r\n*2\r\n$4\r\nECHO\r\n$2\r\nhi\r\n".to_vec();
    match process(&buffer, &mut store) {
        Step::Reply { bytes, consumed } => {
            assert_eq!(bytes, b"+acknowledged\r\n".to_vec());
            buffer.drain(..consumed);
        }
        _ => panic!("the first request must be answered"),
    }
    match process(&buffer, &mut store) {
        Step::Reply { bytes, consumed } => {
            assert_eq!(bytes, b"$2\r\nhi\r\n".to_vec());
            assert_eq!(consumed, buffer.len());
        }
        _ => panic!("the second request must be answered"),
    }
}
