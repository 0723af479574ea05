use groundwire::lsp::transport::{read_message, write_message};
use serde_json::Value;

fn object(entries: Vec<(&str, Value)>) -> Value {
    let mut map = serde_json::Map::new();
    for (key, value) in entries {
        map.insert(key.to_string(), value);
    }
    Value::Object(map)
}

/// Round-trip: what we write must read back identical.
#[test]
fn round_trip_single_message() {
    let msg = object(vec![
        ("jsonrpc", Value::from("2.0")),
        ("id", Value::from(1)),
        ("method", Value::from("initialize")),
        ("params", object(vec![("hello", Value::from("world"))])),
    ]);

    let mut buffer: Vec<u8> = Vec::new();
    write_message(&mut buffer, &msg).unwrap();

    // The framing must be exactly: header, blank line, then the JSON body.
    let body = serde_json::to_vec(&msg).unwrap();
    let expected_header = format!("Content-Length: {}\r\n\r\n", body.len());
    assert!(buffer.starts_with(expected_header.as_bytes()));

    let mut cursor: usize = 0;
    let read_back = read_message(&buffer, &mut cursor).unwrap();
    assert_eq!(read_back, Some(msg));
}

/// Two messages back-to-back must split at the right boundary.
#[test]
fn reads_two_framed_messages_in_sequence() {
    let first = object(vec![("n", Value::from(1))]);
    let second = object(vec![("n", Value::from(2))]);

    let mut buffer: Vec<u8> = Vec::new();
    write_message(&mut buffer, &first).unwrap();
    write_message(&mut buffer, &second).unwrap();

    let mut cursor: usize = 0;
    assert_eq!(read_message(&buffer, &mut cursor).unwrap(), Some(first));
    assert_eq!(read_message(&buffer, &mut cursor).unwrap(), Some(second));
    // Nothing left: clean end of stream.
    assert_eq!(read_message(&buffer, &mut cursor).unwrap(), None);
}

/// A clean end of stream at a frame boundary is `Ok(None)`, not an error.
#[test]
fn empty_stream_is_clean_eof() {
    let mut cursor: usize = 0;
    assert_eq!(read_message(&b""[..], &mut cursor).unwrap(), None);
}
