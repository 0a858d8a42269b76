use lychee_worker::sse::{chunk_frame, chunk_header, chunk_terminator, end, format_event, send, start, start_written, SseSession};

#[test]
fn format_event_with_name() {
    let out = format_event("message", "hello");
    let s = String::from_utf8(out).unwrap();
    assert_eq!(s, "event: message\r\ndata: hello\r\n\r\n");
}

#[test]
fn format_event_no_name() {
    let out = format_event("", "hello");
    let s = String::from_utf8(out).unwrap();
    assert_eq!(s, "data: hello\r\n\r\n");
}

#[test]
fn format_event_multiline() {
    let out = format_event("update", "line1\nline2");
    let s = String::from_utf8(out).unwrap();
    assert_eq!(s, "event: update\r\ndata: line1\r\ndata: line2\r\n\r\n");
}

#[test]
fn format_event_injection_protection() {
    let out = format_event("evil\r\nevent: injected", "data");
    let s = String::from_utf8(out).unwrap();
    assert!(s.starts_with("event: evil"));
    assert!(!s.contains("injected"));
}

#[test]
fn format_event_ends_with_double_crlf() {
    let out = format_event("ping", "");
    let s = String::from_utf8(out).unwrap();
    assert!(s.ends_with("\r\n\r\n"));
}

#[test]
fn default_state_not_started() {
    assert!(!SseSession::new().was_started());
}

#[test]
fn format_event_empty_data_has_one_empty_data_line() {
    let out = format_event("ping", "");
    assert_eq!(String::from_utf8(out).unwrap(), "event: ping\r\ndata: \r\n\r\n");
}

#[test]
fn format_event_data_lines_cut_at_carriage_return() {
    let out = format_event("", "a\r\nb\rtail\n");
    assert_eq!(String::from_utf8(out).unwrap(), "data: a\r\ndata: b\r\ndata: \r\n\r\n");
}

#[test]
fn format_event_name_cut_at_line_feed() {
    let out = format_event("x\ny", "d");
    assert_eq!(String::from_utf8(out).unwrap(), "event: x\r\ndata: d\r\n\r\n");
}

#[test]
fn chunk_header_is_lowercase_hex() {
    assert_eq!(String::from_utf8(chunk_header(0)).unwrap(), "0\r\n");
    assert_eq!(String::from_utf8(chunk_header(255)).unwrap(), "ff\r\n");
    assert_eq!(String::from_utf8(chunk_header(4096)).unwrap(), "1000\r\n");
}

#[test]
fn chunk_terminator_bytes() {
    assert_eq!(chunk_terminator(), b"0\r\n\r\n".to_vec());
}

#[test]
fn start_without_stream_fails() {
    assert!(start(false).is_none());
}

#[test]
fn start_with_stream_gives_event_stream_head() {
    let head = String::from_utf8(start(true).unwrap()).unwrap();
    assert_eq!(
        head,
        "HTTP/1.1 200 OK\r\nContent-Type: text/event-stream\r\nCache-Control: no-cache\r\nConnection: keep-alive\r\nTransfer-Encoding: chunked\r\n\r\n"
    );
}

#[test]
fn start_written_marks_started_and_gives_retry_hint() {
    let mut session = SseSession::new();
    let hint = start_written(&mut session, true).unwrap();
    assert_eq!(String::from_utf8(hint).unwrap(), "f\r\nretry: 3000\r\n\r\n\r\n");
    assert!(session.was_started());
}

#[test]
fn failed_head_write_leaves_session_not_started() {
    let mut session = SseSession::new();
    assert!(start_written(&mut session, false).is_none());
    assert!(!session.was_started());
}

#[test]
fn send_and_end_need_a_started_session() {
    let mut session = SseSession::new();
    assert!(send(&session, "e".to_string(), "d".to_string()).is_none());
    assert!(end(&mut session).is_none());
    start_written(&mut session, true);
    let chunk = send(&session, "ping".to_string(), "1".to_string()).unwrap();
    assert_eq!(String::from_utf8(chunk).unwrap(), "18\r\nevent: ping\r\ndata: 1\r\n\r\n\r\n");
    assert_eq!(end(&mut session), Some(b"0\r\n\r\n".to_vec()));
    assert!(session.was_started());
    assert!(send(&session, "e".to_string(), "d".to_string()).is_none());
    assert!(end(&mut session).is_none());
}

#[test]
fn chunk_frame_wraps_data() {
    assert_eq!(chunk_frame(b"retry: 3000\r\n\r\n"), b"f\r\nretry: 3000\r\n\r\n\r\n".to_vec());
    assert_eq!(chunk_frame(b""), b"0\r\n\r\n".to_vec());
}
