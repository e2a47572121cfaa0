use cppembedder::session::{
    is_matching_response, read_matching_response, MessageMeta, Session, SessionPhase,
    DOCUMENT_SYMBOL_REQUEST_ID, INITIALIZE_REQUEST_ID, SHUTDOWN_REQUEST_ID,
};
use cppembedder::transport::{frame_message, TransportError};

fn frame_of(text: &str) -> Vec<u8> {
    frame_message(&text.as_bytes().to_vec())
}

#[test]
fn request_identifiers_are_fixed() {
    assert_eq!(INITIALIZE_REQUEST_ID, 1);
    assert_eq!(DOCUMENT_SYMBOL_REQUEST_ID, 2);
    assert_eq!(SHUTDOWN_REQUEST_ID, 9999);
}

#[test]
fn matching_needs_the_identifier_and_a_result() {
    let hit = MessageMeta {
        id: Some(2),
        has_result: true,
    };
    let wrong_id = MessageMeta {
        id: Some(3),
        has_result: true,
    };
    let no_result = MessageMeta {
        id: Some(2),
        has_result: false,
    };
    let notification = MessageMeta {
        id: None,
        has_result: false,
    };
    assert!(is_matching_response(&hit, 2));
    assert!(!is_matching_response(&wrong_id, 2));
    assert!(!is_matching_response(&no_result, 2));
    assert!(!is_matching_response(&notification, 2));
}

#[test]
fn unmatched_messages_are_discarded_until_the_response_arrives() {
    let mut stream = frame_of("{\"jsonrpc\":\"2.0\",\"method\":\"window/logMessage\"}");
    stream.extend_from_slice(&frame_of("{\"jsonrpc\":\"2.0\",\"id\":7,\"result\":null}"));
    let wanted = "{\"jsonrpc\":\"2.0\",\"id\":2,\"result\":[1,2,3]}";
    stream.extend_from_slice(&frame_of(wanted));
    let (body, next) = read_matching_response(&stream, 0, 2).unwrap();
    assert_eq!(body, wanted.as_bytes().to_vec());
    assert_eq!(next, stream.len());
}

#[test]
fn a_response_without_result_is_not_taken() {
    let mut stream = frame_of("{\"jsonrpc\":\"2.0\",\"id\":2}");
    let wanted = "{\"jsonrpc\":\"2.0\",\"id\":2,\"result\":{}}";
    stream.extend_from_slice(&frame_of(wanted));
    let (body, _) = read_matching_response(&stream, 0, 2).unwrap();
    assert_eq!(body, wanted.as_bytes().to_vec());
}

#[test]
fn a_stream_that_ends_without_the_response_errors() {
    let stream = frame_of("{\"jsonrpc\":\"2.0\",\"id\":1,\"result\":{}}");
    assert_eq!(
        read_matching_response(&stream, 0, 2),
        Err(TransportError::MissingLength)
    );
}

#[test]
fn a_frame_that_is_not_json_errors() {
    let stream = frame_of("this is not json");
    assert_eq!(
        read_matching_response(&stream, 0, 2),
        Err(TransportError::InvalidBody)
    );
}

#[test]
fn the_session_passes_through_its_phases_in_order() {
    let mut s = Session::new();
    assert_eq!(s.phase, SessionPhase::Uninitialized);
    assert_eq!(s.expected_response_id(), None);
    s.initialize_sent();
    assert_eq!(s.phase, SessionPhase::Initializing);
    assert_eq!(s.expected_response_id(), Some(INITIALIZE_REQUEST_ID));
    s.initialized();
    assert_eq!(s.phase, SessionPhase::Ready);
    assert_eq!(s.expected_response_id(), None);
    s.query_sent();
    assert_eq!(s.phase, SessionPhase::QueryingFile);
    assert_eq!(s.expected_response_id(), Some(DOCUMENT_SYMBOL_REQUEST_ID));
    s.symbols_received();
    assert_eq!(s.phase, SessionPhase::Ready);
    s.query_sent();
    s.symbols_received();
    s.shutdown_sent();
    assert_eq!(s.phase, SessionPhase::ShuttingDown);
    assert_eq!(s.expected_response_id(), Some(SHUTDOWN_REQUEST_ID));
    s.exit_sent();
    assert_eq!(s.phase, SessionPhase::Exited);
}
