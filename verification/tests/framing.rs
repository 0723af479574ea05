use groundwire::lsp::header::{header_step, FrameError, HeaderState, HeaderStep};
use groundwire::lsp::text::{parse_usize_at, push_decimal, trim_end_bound, trim_start_bound};
use groundwire::lsp::transport::{
    decode_body, encode_frame, read_frame, read_message, serialize_message, write_frame,
    write_message,
};
use serde_json::Value;

fn chars(s: &str) -> Vec<char> {
    s.chars().collect()
}

fn parse(s: &str) -> Option<usize> {
    let cs = chars(s);
    parse_usize_at(&cs, 0, cs.len())
}

#[test]
fn encode_frame_exact_bytes() {
    assert_eq!(encode_frame(b"{}"), b"Content-Length: 2\r\n\r\n{}".to_vec());
    assert_eq!(encode_frame(b""), b"Content-Length: 0\r\n\r\n".to_vec());
    let body = vec![b'x'; 1234];
    let frame = encode_frame(&body);
    assert!(frame.starts_with(b"Content-Length: 1234\r\n\r\n"));
    assert_eq!(frame.len(), "Content-Length: 1234\r\n\r\n".len() + 1234);
}

#[test]
fn write_frame_appends() {
    let mut out = b"abc".to_vec();
    write_frame(&mut out, b"[1]");
    assert_eq!(out, b"abcContent-Length: 3\r\n\r\n[1]".to_vec());
}

#[test]
fn read_frame_after_encode_with_prefix_and_rest() {
    let mut buf = b"junk".to_vec();
    buf.extend_from_slice(&encode_frame(b"hello"));
    let frame_end = buf.len();
    buf.extend_from_slice(b"Content-Length: 9");
    match read_frame(&buf, 4) {
        Ok(Some((body, next))) => {
            assert_eq!(body, b"hello".to_vec());
            assert_eq!(next, frame_end);
        }
        _ => panic!("frame not read back"),
    }
}

#[test]
fn read_frame_sequence_then_clean_end() {
    let mut buf = encode_frame(b"one");
    buf.extend_from_slice(&encode_frame(b"two!"));
    let (b1, p1) = read_frame(&buf, 0).unwrap().unwrap();
    assert_eq!(b1, b"one".to_vec());
    let (b2, p2) = read_frame(&buf, p1).unwrap().unwrap();
    assert_eq!(b2, b"two!".to_vec());
    assert_eq!(p2, buf.len());
    assert!(read_frame(&buf, p2).unwrap().is_none());
}

#[test]
fn other_headers_are_ignored() {
    let buf = b"Content-Type: application/vscode-jsonrpc\r\nContent-Length: 2\r\n\r\n{}".to_vec();
    let (body, next) = read_frame(&buf, 0).unwrap().unwrap();
    assert_eq!(body, b"{}".to_vec());
    assert_eq!(next, buf.len());
}

#[test]
fn lone_line_feeds_and_last_length_wins() {
    let buf = b"Content-Length: 7\nContent-Length:   +2  \n\n[]rest".to_vec();
    let (body, next) = read_frame(&buf, 0).unwrap().unwrap();
    assert_eq!(body, b"[]".to_vec());
    assert_eq!(next, buf.len() - 4);
}

#[test]
fn unicode_whitespace_is_trimmed() {
    let text = "Content-Length:\u{a0}3\u{3000}\r\n\u{2003}\r\n[1]";
    let (body, _) = read_frame(text.as_bytes(), 0).unwrap().unwrap();
    assert_eq!(body, b"[1]".to_vec());
}

#[test]
fn missing_content_length_is_an_error() {
    let buf = b"Content-Type: x\r\n\r\n{}".to_vec();
    assert!(matches!(read_frame(&buf, 0), Err(FrameError::MissingContentLength)));
    let lower = b"content-length: 2\r\n\r\n{}".to_vec();
    assert!(matches!(read_frame(&lower, 0), Err(FrameError::MissingContentLength)));
}

#[test]
fn end_of_stream_inside_header_is_an_error() {
    let buf = b"Content-Length: 2\r\n".to_vec();
    assert!(matches!(read_frame(&buf, 0), Err(FrameError::TruncatedHeader)));
}

#[test]
fn end_of_stream_after_other_headers_is_an_error() {
    let buf = b"Content-Type: x\r\n".to_vec();
    assert!(matches!(read_frame(&buf, 0), Err(FrameError::TruncatedHeader)));
    let mut cursor: usize = 0;
    assert!(matches!(read_message(&buf, &mut cursor), Err(FrameError::TruncatedHeader)));
    assert_eq!(cursor, 0);
}

#[test]
fn half_sent_bytes_are_no_clean_end() {
    assert!(matches!(read_frame(b"x", 0), Err(FrameError::TruncatedHeader)));
    assert!(matches!(read_frame(b"\r\n", 0), Err(FrameError::MissingContentLength)));
    let mut buf = encode_frame(b"{}");
    buf.extend_from_slice(b"Content");
    let (_, next) = read_frame(&buf, 0).unwrap().unwrap();
    assert!(matches!(read_frame(&buf, next), Err(FrameError::TruncatedHeader)));
    assert!(read_frame(&buf, buf.len()).unwrap().is_none());
}

#[test]
fn invalid_content_length_carries_the_value() {
    let buf = b"Content-Length:  12a \r\n\r\n".to_vec();
    match read_frame(&buf, 0) {
        Err(FrameError::InvalidContentLength(v)) => assert_eq!(v, chars("12a")),
        _ => panic!("expected an invalid Content-Length"),
    }
    let neg = b"Content-Length: -5\r\n\r\n".to_vec();
    match read_frame(&neg, 0) {
        Err(FrameError::InvalidContentLength(v)) => assert_eq!(v, chars("-5")),
        _ => panic!("expected an invalid Content-Length"),
    }
    let empty = b"Content-Length:\r\n\r\n".to_vec();
    match read_frame(&empty, 0) {
        Err(FrameError::InvalidContentLength(v)) => assert!(v.is_empty()),
        _ => panic!("expected an invalid Content-Length"),
    }
}

#[test]
fn short_body_is_an_error() {
    let buf = b"Content-Length: 5\r\n\r\nabc".to_vec();
    assert!(matches!(read_frame(&buf, 0), Err(FrameError::TruncatedBody)));
}

#[test]
fn header_line_must_be_utf8() {
    let buf = b"X-Bad: \xff\xfe\r\nContent-Length: 2\r\n\r\n{}".to_vec();
    assert!(matches!(read_frame(&buf, 0), Err(FrameError::InvalidUtf8)));
}

#[test]
fn invalid_json_body_is_an_error_and_keeps_position() {
    let buf = encode_frame(b"{not json");
    let mut cursor: usize = 0;
    match read_message(&buf, &mut cursor) {
        Err(FrameError::InvalidJson(e)) => {
            let direct = serde_json::from_slice::<Value>(b"{not json").unwrap_err();
            assert_eq!(e.to_string(), direct.to_string());
        }
        _ => panic!("expected invalid JSON"),
    }
    assert_eq!(cursor, 0);
}

#[test]
fn decode_body_parses_json() {
    assert_eq!(decode_body(b" [1, 2] ").unwrap(), Value::from(vec![1, 2]));
    assert!(matches!(decode_body(b"[1, 2"), Err(FrameError::InvalidJson(_))));
    assert!(matches!(decode_body(b""), Err(FrameError::InvalidJson(_))));
}

#[test]
fn serialize_message_gives_json_text() {
    let v = Value::from(vec![Value::from("a"), Value::Null]);
    assert_eq!(serialize_message(&v).unwrap(), b"[\"a\",null]".to_vec());
}

#[test]
fn decode_body_gives_the_parsed_value() {
    let text = b"{\"a\": [true, null, 2.5, \"x\"]}";
    assert_eq!(decode_body(text).unwrap(), serde_json::from_slice::<Value>(text).unwrap());
}

#[test]
fn write_message_frames_the_json() {
    let mut out: Vec<u8> = Vec::new();
    write_message(&mut out, &Value::Bool(true)).unwrap();
    assert_eq!(out, b"Content-Length: 4\r\n\r\ntrue".to_vec());
}

fn state(started: bool, content_length: Option<usize>) -> HeaderState {
    HeaderState { started, content_length }
}

#[test]
fn header_step_decisions() {
    assert!(matches!(header_step(HeaderState::new(), None), Ok(HeaderStep::Closed)));
    assert!(matches!(header_step(state(true, None), None), Err(FrameError::TruncatedHeader)));
    assert!(matches!(header_step(state(true, Some(3)), None), Err(FrameError::TruncatedHeader)));
    assert_eq!(
        header_step(HeaderState::new(), Some("Content-Length: 42\r\n")).unwrap(),
        HeaderStep::Continue(state(true, Some(42)))
    );
    assert_eq!(
        header_step(HeaderState::new(), Some("Content-Type: utf-8\r\n")).unwrap(),
        HeaderStep::Continue(state(true, None))
    );
    assert_eq!(
        header_step(state(true, Some(1)), Some("Content-Type: utf-8\r\n")).unwrap(),
        HeaderStep::Continue(state(true, Some(1)))
    );
    assert_eq!(header_step(state(true, Some(9)), Some("\r\n")).unwrap(), HeaderStep::Body(9));
    assert_eq!(header_step(state(true, Some(9)), Some(" \t\n")).unwrap(), HeaderStep::Body(9));
    assert!(matches!(
        header_step(HeaderState::new(), Some("\r\n")),
        Err(FrameError::MissingContentLength)
    ));
    assert!(matches!(header_step(state(true, None), Some("")), Err(FrameError::MissingContentLength)));
}

#[test]
fn parse_follows_str_parse() {
    assert_eq!(parse("0"), Some(0));
    assert_eq!(parse("+17"), Some(17));
    assert_eq!(parse("007"), Some(7));
    assert_eq!(parse("+"), None);
    assert_eq!(parse(""), None);
    assert_eq!(parse("1_000"), None);
    assert_eq!(parse(" 1"), None);
    assert_eq!(parse("١"), None);
    let max = usize::MAX.to_string();
    assert_eq!(parse(&max), Some(usize::MAX));
    let over = format!("{}0", max);
    assert_eq!(parse(&over), None);
    assert_eq!(parse("99999999999999999999999999x"), None);
    for s in ["12", "+3", "x", "-1", "18446744073709551616", "4294967296"] {
        assert_eq!(parse(s), s.parse::<usize>().ok());
    }
}

#[test]
fn decimal_rendering_and_parse_round_trip() {
    for n in [0usize, 7, 10, 99, 100, 65535, usize::MAX] {
        let mut out: Vec<char> = vec!['#'];
        push_decimal(&mut out, n);
        let text: String = out[1..].iter().collect();
        assert_eq!(text, n.to_string());
        assert_eq!(parse_usize_at(&out, 1, out.len()), Some(n));
    }
}

#[test]
fn trimming_matches_str_trim() {
    for s in ["  a b \r\n", "\u{85}x\u{2028}", "   ", "", "q", "\u{200b}z\u{200b}"] {
        let cs = chars(s);
        let end = trim_end_bound(&cs, 0, cs.len());
        let kept: String = cs[..end].iter().collect();
        assert_eq!(kept, s.trim_end());
        let start = trim_start_bound(&cs, 0, end);
        let both: String = cs[start..end].iter().collect();
        assert_eq!(both, s.trim());
    }
}

#[test]
fn serialize_message_gives_utf8() {
    let v = Value::from("é→✓");
    let bytes = serialize_message(&v).unwrap();
    assert_eq!(std::str::from_utf8(&bytes).unwrap(), "\"é→✓\"");
}
