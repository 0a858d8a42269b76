use lychee_worker::websocket::{
    any_sent, delivery_to, plan_deliveries, targets_all, targets_room,
    broadcast_all, broadcast_room, checked_websocket_key, cleanup_connection, compute_accept, conn_id_from_nanos,
    conn_rooms, emit_payload, extract_websocket_key, handshake, join_room, leave_room, normalize_heartbeat_config,
    open_connection, room_count, send_to, ws_decide, Handshake, Hub, WsAction, WsEvent,
};

#[test]
fn extract_key_from_valid_header() {
    let req = "GET / HTTP/1.1\r\n\
               Host: localhost\r\n\
               Sec-WebSocket-Key: dGhlIHNhbXBsZSBub25jZQ==\r\n\
               Upgrade: websocket\r\n\
               Connection: Upgrade\r\n\
               \r\n";
    assert_eq!(
        extract_websocket_key(req),
        Some("dGhlIHNhbXBsZSBub25jZQ==".to_string())
    );
}

#[test]
fn extract_key_line_prefix_is_case_insensitive() {
    let req = "sec-websocket-key: dGhlIHNhbXBsZSBub25jZQ==\r\n";
    assert_eq!(
        extract_websocket_key(req),
        Some("dGhlIHNhbXBsZSBub25jZQ==".to_string())
    );
}

#[test]
fn extract_key_returns_none_when_missing() {
    let req = "GET / HTTP/1.1\r\nHost: localhost\r\n\r\n";
    assert!(extract_websocket_key(req).is_none());
}

#[test]
fn extract_key_returns_none_when_value_empty() {
    let req = "Sec-WebSocket-Key: \r\n";
    assert!(extract_websocket_key(req).is_none());
}

#[test]
fn compute_accept_matches_rfc6455_example() {
    let key = "dGhlIHNhbXBsZSBub25jZQ==";
    assert_eq!(compute_accept(key), "s3pPLMBiTxaQ9kYGzzhZRbK+xOo=");
}

#[test]
fn emit_payload_contains_required_fields() {
    let payload = emit_payload("ping", "{\"count\":1}", 1000);
    assert!(payload.contains("\"event\":\"ping\""));
    assert!(payload.contains("\"data\":{\"count\":1}"));
    assert!(payload.contains("\"ts\":1000"));
}

#[test]
fn emit_payload_empty_data_becomes_null() {
    let payload = emit_payload("ping", "", 1000);
    assert!(payload.contains("\"data\":null"));
    assert!(payload.contains("\"event\":\"ping\""));
}

#[test]
fn emit_payload_escapes_event_string() {
    let payload = emit_payload("a\"b", "{\"x\":1}", 1);
    assert!(payload.contains("\"event\":\"a\\\"b\""));
}

#[test]
fn heartbeat_normal_values_pass_through() {
    let (interval, timeout) = normalize_heartbeat_config(25, 60);
    assert_eq!(interval.as_secs(), 25);
    assert_eq!(timeout.as_secs(), 60);
    assert!(interval < timeout);
}

#[test]
fn heartbeat_zero_interval_is_lifted_to_one() {
    let (interval, timeout) = normalize_heartbeat_config(0, 60);
    assert_eq!(interval.as_secs(), 1);
    assert_eq!(timeout.as_secs(), 60);
}

#[test]
fn heartbeat_zero_timeout_is_lifted_to_one() {
    let (interval, timeout) = normalize_heartbeat_config(0, 0);
    assert_eq!(interval.as_secs(), 1);
    assert_eq!(timeout.as_secs(), 1);
}

#[test]
fn heartbeat_interval_greater_than_timeout_is_capped() {
    let (interval, timeout) = normalize_heartbeat_config(120, 60);
    assert!(interval < timeout, "the interval must stay below the timeout");
    assert_eq!(interval.as_secs(), 59);
    assert_eq!(timeout.as_secs(), 60);
}

#[test]
fn heartbeat_interval_equal_to_timeout_is_capped() {
    let (interval, timeout) = normalize_heartbeat_config(60, 60);
    assert!(interval < timeout);
    assert_eq!(interval.as_secs(), 59);
    assert_eq!(timeout.as_secs(), 60);
}

#[test]
fn heartbeat_production_defaults_match_config_file() {
    let (interval, timeout) = normalize_heartbeat_config(25, 60);
    assert!(interval < timeout);
    assert_eq!(interval.as_secs(), 25);
    assert_eq!(timeout.as_secs(), 60);
}

#[test]
fn heartbeat_large_values_are_accepted() {
    let (interval, timeout) = normalize_heartbeat_config(600, 3600);
    assert_eq!(interval.as_secs(), 600);
    assert_eq!(timeout.as_secs(), 3600);
}

#[test]
fn heartbeat_timeout_of_one_keeps_interval_one() {
    let (interval, timeout) = normalize_heartbeat_config(5, 1);
    assert_eq!(interval.as_secs(), 1);
    assert_eq!(timeout.as_secs(), 1);
}

#[test]
fn extract_key_takes_first_non_empty_value_trimmed() {
    let req = "Sec-WebSocket-Key:   \r\nSEC-WEBSOCKET-KEY:   abc  \r\nsec-websocket-key: def\r\n";
    assert_eq!(extract_websocket_key(req), Some("abc".to_string()));
}

#[test]
fn extract_key_reads_lines_ending_in_bare_line_feed() {
    let req = "GET / HTTP/1.1\nSec-WebSocket-Key: k1\n\n";
    assert_eq!(extract_websocket_key(req), Some("k1".to_string()));
}

#[test]
fn checked_key_reports_uncuttable_line() {
    // Both 'k's are KELVIN SIGN, which lower-cases to 'k': the lower-cased
    // line starts with the header name, while byte 18 of the line falls
    // inside the second sign.
    let req = "sec-websoc\u{212A}et-\u{212A}ey: x\r\n";
    assert!(checked_websocket_key(req).is_err());
    assert_eq!(
        checked_websocket_key("sec-websocket-key: x\r\n").ok(),
        Some(Some("x".to_string()))
    );
}

#[test]
fn compute_accept_differs_from_key() {
    let accept = compute_accept("x3JJHMbDL1EzLkh9GBhXDw==");
    assert_eq!(accept, "HSmrc0sMlYUkAGmm5OPpG2HaGWk=");
}

#[test]
fn handshake_accepts_request_with_key() {
    let req = b"GET /chat HTTP/1.1\r\nUpgrade: websocket\r\nSec-WebSocket-Key: dGhlIHNhbXBsZSBub25jZQ==\r\n\r\n";
    match handshake(req) {
        Ok(Handshake::Accept(bytes)) => {
            assert_eq!(
                String::from_utf8(bytes).unwrap(),
                "HTTP/1.1 101 Switching Protocols\r\nUpgrade: websocket\r\nConnection: Upgrade\r\nSec-WebSocket-Accept: s3pPLMBiTxaQ9kYGzzhZRbK+xOo=\r\n\r\n"
            );
        }
        _ => panic!("expected an accepted handshake"),
    }
}

#[test]
fn handshake_rejects_request_without_key() {
    let req = b"GET /chat HTTP/1.1\r\nUpgrade: websocket\r\n\r\n";
    match handshake(req) {
        Ok(Handshake::Reject(bytes)) => {
            assert_eq!(
                String::from_utf8(bytes).unwrap(),
                "HTTP/1.1 400 Bad Request\r\nContent-Length: 0\r\nConnection: close\r\n\r\n"
            );
        }
        _ => panic!("expected a rejected handshake"),
    }
}

#[test]
fn conn_id_is_prefixed_decimal() {
    assert_eq!(conn_id_from_nanos(0), "conn-0");
    assert_eq!(conn_id_from_nanos(1700000000123456789), "conn-1700000000123456789");
}

#[test]
fn emit_payload_exact_text() {
    assert_eq!(
        emit_payload("tick\n", "[1,2]", 42),
        "{\"event\":\"tick\\n\",\"data\":[1,2],\"ts\":42}"
    );
}

fn hub_with(ids: &[&str]) -> (Hub, Vec<tokio::sync::mpsc::UnboundedReceiver<Vec<u8>>>) {
    let mut hub = Hub::new();
    let mut receivers = Vec::new();
    for id in ids {
        let (tx, rx) = tokio::sync::mpsc::unbounded_channel::<Vec<u8>>();
        open_connection(&mut hub, id.to_string(), tx);
        receivers.push(rx);
    }
    (hub, receivers)
}

#[test]
fn join_room_adds_member_once() {
    let (mut hub, _rx) = hub_with(&["c1", "c2"]);
    join_room(&mut hub, "c1", "lobby");
    join_room(&mut hub, "c1", "lobby");
    join_room(&mut hub, "c2", "lobby");
    assert_eq!(room_count(&hub, "lobby"), 2);
    assert_eq!(room_count(&hub, "nowhere"), 0);
}

#[test]
fn leave_room_undoes_join() {
    let (mut hub, _rx) = hub_with(&["c1"]);
    join_room(&mut hub, "c1", "a");
    leave_room(&mut hub, "c1", "a");
    assert_eq!(room_count(&hub, "a"), 0);
    assert!(conn_rooms(&hub, "c1").is_empty());
    assert_eq!(hub.room_total(), 1);
}

#[test]
fn conn_rooms_lists_each_room_of_a_connection() {
    let (mut hub, _rx) = hub_with(&["c1", "c2"]);
    join_room(&mut hub, "c1", "a");
    join_room(&mut hub, "c1", "b");
    join_room(&mut hub, "c2", "b");
    let mut rooms = conn_rooms(&hub, "c1");
    rooms.sort();
    assert_eq!(rooms, vec!["a".to_string(), "b".to_string()]);
    assert_eq!(conn_rooms(&hub, "c2"), vec!["b".to_string()]);
}

#[test]
fn cleanup_removes_connection_everywhere() {
    let (mut hub, _rx) = hub_with(&["c1", "c2"]);
    join_room(&mut hub, "c1", "a");
    join_room(&mut hub, "c2", "a");
    assert_eq!(hub.ws_counter(), 2);
    cleanup_connection(&mut hub, "c1");
    assert_eq!(room_count(&hub, "a"), 1);
    assert_eq!(hub.connection_count(), 1);
    assert_eq!(hub.ws_counter(), 1);
    assert!(!send_to(&hub, "c1", b"x"));
}

#[test]
fn send_to_delivers_to_the_connection_queue() {
    let (hub, mut rx) = hub_with(&["c1"]);
    assert!(send_to(&hub, "c1", b"hello"));
    assert_eq!(rx[0].try_recv().unwrap(), b"hello".to_vec());
    assert!(!send_to(&hub, "missing", b"hello"));
}

#[test]
fn broadcast_all_reaches_every_connection() {
    let (hub, mut rx) = hub_with(&["c1", "c2"]);
    assert!(broadcast_all(&hub, b"all"));
    assert_eq!(rx[0].try_recv().unwrap(), b"all".to_vec());
    assert_eq!(rx[1].try_recv().unwrap(), b"all".to_vec());
}

#[test]
fn broadcast_room_reaches_members_only() {
    let (mut hub, mut rx) = hub_with(&["c1", "c2"]);
    join_room(&mut hub, "c2", "r");
    assert!(broadcast_room(&hub, "r", b"m"));
    assert!(rx[0].try_recv().is_err());
    assert_eq!(rx[1].try_recv().unwrap(), b"m".to_vec());
    assert!(!broadcast_room(&hub, "unknown", b"m"));
}

#[test]
fn ws_decide_answers_ping_and_stops_on_timeout() {
    let d = ws_decide(WsEvent::Ping(vec![1, 2]));
    assert!(d.refresh);
    assert!(matches!(d.action, WsAction::SendPong(ref p) if p == &vec![1, 2]));
    let d = ws_decide(WsEvent::TimedOut);
    assert!(!d.refresh);
    assert!(matches!(d.action, WsAction::Stop));
    let d = ws_decide(WsEvent::Binary(vec![0xff]));
    assert!(matches!(d.action, WsAction::Deliver(ref t) if t.is_empty()));
    let d = ws_decide(WsEvent::Outgoing(b"hi".to_vec()));
    assert!(matches!(d.action, WsAction::SendText(ref t) if t == "hi"));
}

#[test]
fn delivery_plans_carry_the_data_to_open_connections() {
    let (mut hub, mut rx) = hub_with(&["c1", "c2"]);
    join_room(&mut hub, "c2", "r");
    join_room(&mut hub, "gone", "r");
    assert!(delivery_to(&hub, "missing", b"x").is_none());
    let d = delivery_to(&hub, "c1", b"x").unwrap();
    assert_eq!(d.bytes, b"x".to_vec());
    let mut all = targets_all(&hub);
    all.sort();
    assert_eq!(all, vec!["c1".to_string(), "c2".to_string()]);
    let members = targets_room(&hub, "r");
    assert_eq!(members, vec!["c2".to_string(), "gone".to_string()]);
    let plan = plan_deliveries(&hub, &members, b"hi");
    assert_eq!(plan.len(), 1);
    assert_eq!(plan[0].bytes, b"hi".to_vec());
    assert!(plan[0].sender.send(plan[0].bytes.clone()).is_ok());
    assert_eq!(rx[1].try_recv().unwrap(), b"hi".to_vec());
    assert!(rx[0].try_recv().is_err());
    assert!(targets_room(&hub, "nowhere").is_empty());
    assert!(any_sent(&vec![false, true]));
    assert!(!any_sent(&vec![false, false]));
    assert!(!any_sent(&vec![]));
}

#[test]
fn send_to_a_closed_queue_fails() {
    let (hub, rx) = hub_with(&["c1"]);
    drop(rx);
    assert!(!send_to(&hub, "c1", b"x"));
    assert!(!broadcast_all(&hub, b"x"));
}

#[test]
fn each_id_keeps_the_channel_it_was_opened_with() {
    let (mut hub, mut rx) = hub_with(&["a", "b", "c"]);
    cleanup_connection(&mut hub, "b");
    assert!(send_to(&hub, "c", b"to-c"));
    assert!(send_to(&hub, "a", b"to-a"));
    assert_eq!(rx[2].try_recv().unwrap(), b"to-c".to_vec());
    assert_eq!(rx[0].try_recv().unwrap(), b"to-a".to_vec());
    assert!(rx[1].try_recv().is_err());
}
