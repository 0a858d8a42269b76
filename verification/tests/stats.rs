use lychee_worker::entry::{parse_watch_list, start_config, StartError};
use lychee_worker::php_api::{default_page, http_response, stats};
use lychee_worker::stats::{parse_i64_range, rss_line_kb, snapshot, vm_rss_kb};
use lychee_worker::websocket::{join_room, open_connection, Hub};

#[test]
fn snapshot_of_a_fresh_hub() {
    let hub = Hub::new();
    let s = snapshot(&hub, None);
    assert_eq!(
        s,
        vec![
            ("connections".to_string(), 0),
            ("ws".to_string(), 0),
            ("requests".to_string(), 0),
            ("rooms".to_string(), 0),
        ]
    );
}

#[test]
fn snapshot_counts_and_memory() {
    let mut hub = Hub::new();
    let (tx, _rx) = tokio::sync::mpsc::unbounded_channel::<Vec<u8>>();
    open_connection(&mut hub, "c1".to_string(), tx);
    join_room(&mut hub, "c1", "r1");
    hub.count_request();
    hub.count_request();
    let s = stats(&hub, Some(2048));
    assert_eq!(
        s,
        vec![
            ("connections".to_string(), 1),
            ("ws".to_string(), 1),
            ("requests".to_string(), 2),
            ("rooms".to_string(), 1),
            ("memory_rss_kb".to_string(), 2048),
        ]
    );
}

#[test]
fn rss_from_status_lines() {
    let lines: Vec<String> = vec![
        "Name:\tphp".to_string(),
        "VmPeak:\t  900 kB".to_string(),
        "VmRSS:\t   123456 kB".to_string(),
        "VmRSS:\t   1 kB".to_string(),
    ];
    assert_eq!(vm_rss_kb(&lines), Some(123456));
    assert_eq!(vm_rss_kb(&vec!["Name:\tphp".to_string()]), None);
    assert_eq!(vm_rss_kb(&vec!["VmRSS:\tunknown".to_string(), "VmRSS: 5 kB".to_string()]), None);
}

#[test]
fn rss_line_values() {
    assert_eq!(rss_line_kb("VmRSS:  42 kB"), Some(42));
    assert_eq!(rss_line_kb("VmRSS:-7kB"), Some(-7));
    assert_eq!(rss_line_kb("VmRSS: 1 2 kB"), None);
    assert_eq!(rss_line_kb("VmRSS:"), None);
}

#[test]
fn i64_parsing_bounds() {
    let v: Vec<char> = "9223372036854775807".chars().collect();
    assert_eq!(parse_i64_range(&v, 0, v.len()), Some(i64::MAX));
    let v: Vec<char> = "-9223372036854775808".chars().collect();
    assert_eq!(parse_i64_range(&v, 0, v.len()), Some(i64::MIN));
    let v: Vec<char> = "9223372036854775808".chars().collect();
    assert_eq!(parse_i64_range(&v, 0, v.len()), None);
    let v: Vec<char> = "+12".chars().collect();
    assert_eq!(parse_i64_range(&v, 0, v.len()), Some(12));
    let v: Vec<char> = "-".chars().collect();
    assert_eq!(parse_i64_range(&v, 0, v.len()), None);
}

#[test]
fn handler_result_is_the_response() {
    assert_eq!(http_response(Some("HTTP/1.1 204 No Content\r\n\r\n".to_string()), "/x"), "HTTP/1.1 204 No Content\r\n\r\n");
}

#[test]
fn default_page_when_no_handler_answered() {
    let page = http_response(None, "/hello");
    assert_eq!(
        page,
        "HTTP/1.1 200 OK\r\nContent-Type: text/html; charset=utf-8\r\nContent-Length: 81\r\nConnection: close\r\n\r\n<!doctype html><title>lychee-worker</title><h1>lychee-worker /hello</h1><p>OK</p>"
    );
    assert_eq!(default_page("/é"), http_response(None, "/é"));
    assert!(default_page("/é").contains("Content-Length: 78\r\n"));
    let page = default_page("/abc");
    let body = page.split("\r\n\r\n").nth(1).unwrap();
    assert!(page.contains(&format!("Content-Length: {}\r\n", body.len())));
}

#[test]
fn watch_list_is_trimmed_without_blanks() {
    assert_eq!(parse_watch_list(""), Vec::<String>::new());
    assert_eq!(parse_watch_list(" app , ,config,  "), vec!["app".to_string(), "config".to_string()]);
    assert_eq!(parse_watch_list("*.php"), vec!["*.php".to_string()]);
}

#[test]
fn start_rejects_bad_port_first() {
    let r = start_config("h".to_string(), 70000, 0, false, "", "", "", 0, 0, 0, 0, 0, 0, 0);
    assert_eq!(r.err(), Some(StartError::InvalidPort));
    let r = start_config("h".to_string(), -1, 1, false, "", "", "", 0, 0, 0, 0, 0, 0, 0);
    assert_eq!(r.err(), Some(StartError::InvalidPort));
    assert_eq!(StartError::InvalidPort.message(), "invalid port");
}

#[test]
fn start_rejects_zero_workers() {
    let r = start_config("h".to_string(), 80, 0, false, "", "", "", 0, 0, 0, 0, 0, 0, 0);
    assert_eq!(r.err(), Some(StartError::WorkerNumTooSmall));
    assert_eq!(StartError::WorkerNumTooSmall.message(), "worker_num must be >= 1");
}

#[test]
fn start_config_applies_lower_bounds() {
    let cfg = start_config(
        "127.0.0.1".to_string(),
        9501,
        4,
        true,
        "app, config",
        "*.php",
        "",
        500,
        25,
        60,
        0,
        -5,
        100,
        1000,
    )
    .ok()
    .unwrap();
    assert_eq!(cfg.host, "127.0.0.1");
    assert_eq!(cfg.port, 9501);
    assert_eq!(cfg.worker_num, 4);
    assert_eq!(cfg.watch_dirs, vec!["app".to_string(), "config".to_string()]);
    assert_eq!(cfg.watch_names, vec!["*.php".to_string()]);
    assert!(cfg.watch_excludes.is_empty());
    assert_eq!(cfg.watch_interval_ms, 500);
    assert_eq!(cfg.request_timeout_sec, 1);
    assert_eq!(cfg.max_connections, 1);
    assert_eq!(cfg.header_max_bytes, 4096);
    assert_eq!(cfg.body_max_bytes, 65536);
    assert!(cfg.enable_queue);
}
