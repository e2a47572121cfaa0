use cppembedder::transport::{frame_message, is_frame_decided, read_frame, TransportError};

fn frame_of(text: &str) -> Vec<u8> {
    frame_message(&text.as_bytes().to_vec())
}

#[test]
fn frame_layout_is_header_blank_line_body() {
    let framed = frame_of("{\"id\":1}");
    assert_eq!(framed, b"Content-Length: 8\n\n{\"id\":1}".to_vec());
}

#[test]
fn json_message_round_trips_through_framing() {
    let mut obj = serde_json::Map::new();
    obj.insert(
        "jsonrpc".to_string(),
        serde_json::Value::String("2.0".to_string()),
    );
    obj.insert("id".to_string(), serde_json::Value::from(1u64));
    obj.insert(
        "method".to_string(),
        serde_json::Value::String("initialize".to_string()),
    );
    let message = serde_json::Value::Object(obj);
    let body = serde_json::to_vec(&message).unwrap();

    let framed = frame_message(&body);
    let (received, next) = read_frame(&framed, 0).unwrap();
    assert_eq!(received, body);
    assert_eq!(next, framed.len());

    let decoded: serde_json::Value = serde_json::from_slice(&received).unwrap();
    assert_eq!(decoded, message);
}

#[test]
fn empty_body_round_trips() {
    let framed = frame_message(&Vec::new());
    let (received, next) = read_frame(&framed, 0).unwrap();
    assert_eq!(received, Vec::<u8>::new());
    assert_eq!(next, framed.len());
}

#[test]
fn crlf_and_lf_headers_parse_to_the_same_body() {
    let crlf = b"Content-Length: 5\r\n\r\nhello".to_vec();
    let lf = b"Content-Length: 5\n\nhello".to_vec();
    let (body_crlf, _) = read_frame(&crlf, 0).unwrap();
    let (body_lf, _) = read_frame(&lf, 0).unwrap();
    assert_eq!(body_crlf, body_lf);
    assert_eq!(body_crlf, b"hello".to_vec());
}

#[test]
fn unknown_headers_are_ignored() {
    let stream = b"X-Extra: yes\nContent-Length: 2\nX-More: 1\n\nok".to_vec();
    let (body, _) = read_frame(&stream, 0).unwrap();
    assert_eq!(body, b"ok".to_vec());
}

#[test]
fn missing_content_length_is_an_error() {
    let stream = b"X-Extra: yes\n\nbody".to_vec();
    assert_eq!(read_frame(&stream, 0), Err(TransportError::MissingLength));
}

#[test]
fn empty_stream_reports_missing_length() {
    assert_eq!(
        read_frame(&Vec::new(), 0),
        Err(TransportError::MissingLength)
    );
}

#[test]
fn unparsable_content_length_is_an_error() {
    let stream = b"Content-Length: abc\n\nbody".to_vec();
    assert_eq!(read_frame(&stream, 0), Err(TransportError::MalformedLength));
}

#[test]
fn short_body_is_an_error() {
    let stream = b"Content-Length: 10\n\nabc".to_vec();
    assert_eq!(read_frame(&stream, 0), Err(TransportError::TruncatedBody));
}

#[test]
fn a_partial_frame_is_not_yet_decided() {
    let full = b"Content-Length: 5\n\nhello".to_vec();
    for cut in 0..full.len() {
        let partial = full[..cut].to_vec();
        assert!(!is_frame_decided(&partial, 0), "cut at {}", cut);
    }
    assert!(is_frame_decided(&full, 0));
}

#[test]
fn a_terminated_bad_length_line_is_decided() {
    let stream = b"Content-Length: abc\n".to_vec();
    assert!(is_frame_decided(&stream, 0));
    assert_eq!(read_frame(&stream, 0), Err(TransportError::MalformedLength));
}

#[test]
fn headers_closed_without_length_are_decided() {
    let stream = b"X-Extra: yes\n\n".to_vec();
    assert!(is_frame_decided(&stream, 0));
    assert_eq!(read_frame(&stream, 0), Err(TransportError::MissingLength));
}

#[test]
fn consecutive_frames_are_read_in_sequence() {
    let mut stream = frame_of("first");
    stream.extend_from_slice(&frame_of("second!"));
    let (body1, next1) = read_frame(&stream, 0).unwrap();
    assert_eq!(body1, b"first".to_vec());
    let (body2, next2) = read_frame(&stream, next1).unwrap();
    assert_eq!(body2, b"second!".to_vec());
    assert_eq!(next2, stream.len());
}
