use lychee_worker::http::{
    failure_response, ReadFailure, content_length, extract_headers_text, find_header_end, is_websocket_upgrade, parse_method_path, plan_request,
    service_unavailable_response, simple_response, start_body, wants_keep_alive, BodyStart, ConnectionGate,
    HeadPlan, HeadReader, HeadStep,
};

#[test]
fn keep_alive_by_default_for_http_1_1() {
    assert!(wants_keep_alive(b"GET / HTTP/1.1\r\nHost: a\r\n\r\n"));
    assert!(!wants_keep_alive(b"GET / HTTP/1.0\r\nHost: a\r\n\r\n"));
}

#[test]
fn keep_alive_follows_first_connection_header() {
    assert!(!wants_keep_alive(b"GET / HTTP/1.1\r\nConnection: close\r\n\r\n"));
    assert!(wants_keep_alive(b"GET / HTTP/1.0\r\nCONNECTION:  Keep-Alive \r\n\r\n"));
    assert!(!wants_keep_alive(b"GET / HTTP/1.1\r\nConnection: keep-alive, close\r\n\r\n"));
    assert!(!wants_keep_alive(b"GET / HTTP/1.1\r\nConnection: close\r\nConnection: keep-alive\r\n\r\n"));
    assert!(wants_keep_alive(b"GET / HTTP/1.1\r\nConnection: Upgrade\r\n\r\n"));
    assert!(!wants_keep_alive(b"GET / HTTP/1.0\r\nConnection: Upgrade\r\n\r\n"));
}

#[test]
fn method_and_path_from_request_line() {
    let (m, p) = parse_method_path(b"POST /api/items?x=1 HTTP/1.1\r\nHost: a\r\n\r\n");
    assert_eq!(m, "POST");
    assert_eq!(p, "/api/items?x=1");
}

#[test]
fn method_and_path_default_to_get_and_root() {
    let (m, p) = parse_method_path(b"");
    assert_eq!((m.as_str(), p.as_str()), ("GET", "/"));
    let (m, p) = parse_method_path(b"DELETE\r\n");
    assert_eq!((m.as_str(), p.as_str()), ("DELETE", "/"));
}

#[test]
fn headers_text_drops_request_line_and_trailing_blank_lines() {
    let text = extract_headers_text(b"GET / HTTP/1.1\r\nHost: a\r\nX-Y: z\r\n\r\n");
    assert_eq!(text, "Host: a\r\nX-Y: z");
    assert_eq!(extract_headers_text(b"GET / HTTP/1.1\r\n\r\n"), "");
}

#[test]
fn content_length_first_parsable_line_counts() {
    assert_eq!(content_length(b"POST / HTTP/1.1\r\nContent-Length: 12\r\n\r\n"), 12);
    assert_eq!(content_length(b"POST / HTTP/1.1\r\ncontent-length:  +7 \r\n\r\n"), 7);
    assert_eq!(content_length(b"POST / HTTP/1.1\r\nContent-Length: x\r\nContent-Length: 3\r\n\r\n"), 3);
    assert_eq!(content_length(b"GET / HTTP/1.1\r\n\r\n"), 0);
}

#[test]
fn head_reader_completes_on_blank_line() {
    let mut r = HeadReader::new(8192);
    let room = r.room().ok().unwrap();
    assert!(room > 0);
    assert!(matches!(r.accept(b"GET / HTTP/1.1\r\n"), HeadStep::NeedMore));
    match r.accept(b"Host: a\r\n\r\n") {
        HeadStep::Complete(v) => assert_eq!(v, b"GET / HTTP/1.1\r\nHost: a\r\n\r\n".to_vec()),
        _ => panic!("expected a complete head"),
    }
}

#[test]
fn head_reader_closed_and_partial() {
    let mut r = HeadReader::new(4096);
    assert!(matches!(r.accept(b""), HeadStep::Closed));
    let mut r = HeadReader::new(4096);
    r.accept(b"GET /");
    match r.accept(b"") {
        HeadStep::Complete(v) => assert_eq!(v, b"GET /".to_vec()),
        _ => panic!("expected the partial head"),
    }
}

#[test]
fn head_reader_too_large() {
    let mut r = HeadReader::new(10);
    assert!(matches!(r.accept(b"0123456789ab"), HeadStep::TooLarge));
}

#[test]
fn body_without_length_is_what_came_with_the_head() {
    match start_body(b"POST / HTTP/1.1\r\n\r\n", b"abc", 100) {
        BodyStart::Done(s) => assert_eq!(s, "abc"),
        _ => panic!("expected the body at once"),
    }
}

#[test]
fn body_over_limit_is_refused() {
    assert!(matches!(
        start_body(b"POST / HTTP/1.1\r\nContent-Length: 101\r\n\r\n", b"", 100),
        BodyStart::TooLarge
    ));
}

#[test]
fn body_is_read_up_to_its_length() {
    match start_body(b"POST / HTTP/1.1\r\nContent-Length: 5\r\n\r\n", b"ab", 100) {
        BodyStart::Reading(mut b) => {
            assert!(b.wants_more());
            assert!(!b.accept(b"cdefg"));
            assert!(!b.wants_more());
            assert_eq!(b.finish(), "abcde");
        }
        _ => panic!("expected a body to read"),
    }
}

#[test]
fn upgrade_detection_is_case_insensitive() {
    assert!(is_websocket_upgrade(b"GET / HTTP/1.1\r\nUPGRADE: WebSocket\r\n\r\n"));
    assert!(!is_websocket_upgrade(b"GET / HTTP/1.1\r\nUpgrade: h2c\r\n\r\n"));
}

#[test]
fn header_end_is_past_the_blank_line() {
    assert_eq!(find_header_end(b"GET / HTTP/1.1\r\n\r\nbody"), Some(18));
    assert_eq!(find_header_end(b"GET / HTTP/1.1\r\n"), None);
}

#[test]
fn plan_routes_requests() {
    assert!(matches!(plan_request(b"GET / HTTP/1.1\r\nUpgrade: websocket\r\n\r\n"), HeadPlan::Upgrade));
    assert!(matches!(plan_request(b"GET / HTTP/1.1\r\nHost: a"), HeadPlan::BadRequest));
    match plan_request(b"GET / HTTP/1.1\r\nHost: a\r\n\r\nrest") {
        HeadPlan::Request { header_end, keep_alive } => {
            assert_eq!(header_end, 27);
            assert!(keep_alive);
        }
        _ => panic!("expected a request"),
    }
}

#[test]
fn simple_response_announces_body_length() {
    let r = String::from_utf8(simple_response(413, "Payload Too Large")).unwrap();
    assert_eq!(
        r,
        "HTTP/1.1 413 Payload Too Large\r\nContent-Type: text/html; charset=utf-8\r\nContent-Length: 56\r\nConnection: close\r\n\r\n<html><body><h1>413 Payload Too Large</h1></body></html>"
    );
}

#[test]
fn service_unavailable_page() {
    let r = String::from_utf8(service_unavailable_response()).unwrap();
    assert!(r.starts_with("HTTP/1.1 503 Service Unavailable\r\n"));
    assert!(r.contains("Content-Length: 86\r\n"));
    assert!(r.ends_with("<html><body><h1>503 Service Unavailable</h1><p>Too many connections.</p></body></html>"));
}

#[test]
fn gate_admits_up_to_the_limit() {
    let mut g = ConnectionGate::new(2);
    assert!(g.try_admit());
    assert!(g.try_admit());
    assert!(!g.try_admit());
    g.release();
    assert!(g.try_admit());
}

#[test]
fn head_reader_refuses_to_grow_past_its_limit() {
    let mut r = HeadReader::new(10);
    let room = r.room().ok().unwrap();
    assert_eq!(room, 4106);
    let chunk = vec![b'a'; room];
    assert!(matches!(r.accept(&chunk), HeadStep::TooLarge));
    assert!(r.room().is_err());
}

#[test]
fn head_reader_grows_a_full_buffer() {
    let mut r = HeadReader::new(100000);
    let room = r.room().ok().unwrap();
    assert_eq!(room, 32768);
    let chunk = vec![b'a'; room];
    assert!(matches!(r.accept(&chunk), HeadStep::NeedMore));
    assert_eq!(r.room().ok(), Some(32768));
}

#[test]
fn headers_text_replaces_invalid_utf8() {
    assert_eq!(extract_headers_text(b"GET / HTTP/1.1\r\nX: \xff\r\n\r\n"), "X: \u{FFFD}");
}

#[test]
fn failure_responses_by_cause() {
    use_failure(ReadFailure::HeadUnreadable, "HTTP/1.1 400 Bad Request\r\n");
    use_failure(ReadFailure::NoHeadEnd, "HTTP/1.1 400 Bad Request\r\n");
    use_failure(ReadFailure::HeadTimedOut, "HTTP/1.1 408 Request Timeout\r\n");
    use_failure(ReadFailure::BodyTimedOut, "HTTP/1.1 408 Request Timeout\r\n");
    use_failure(ReadFailure::BodyRefused, "HTTP/1.1 413 Payload Too Large\r\n");
}

fn use_failure(f: ReadFailure, head: &str) {
    let r = String::from_utf8(failure_response(f)).unwrap();
    assert!(r.starts_with(head));
}
