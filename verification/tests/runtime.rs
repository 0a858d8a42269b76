use lychee_worker::runtime::{
    child_command, child_label, children_plan, dir_excluded, file_selected, is_http_child, matches_pattern,
    reap_plan, ChildKind, GlobalMap, MtimeTable, RoomCell, Supervisor, WorkerConfig, WorkerRuntime,
};

fn config(worker_num: usize, enable_queue: bool) -> WorkerConfig {
    WorkerConfig {
        host: "0.0.0.0".to_string(),
        port: 8080,
        worker_num,
        watch_dirs: vec![],
        watch_names: vec![],
        watch_excludes: vec![],
        watch_interval_ms: 1000,
        ping_interval_sec: 25,
        ping_timeout_sec: 60,
        enable_queue,
        request_timeout_sec: 30,
        max_connections: 1024,
        header_max_bytes: 8192,
        body_max_bytes: 65536,
    }
}

#[test]
fn pattern_with_suffix() {
    assert!(matches_pattern("index.php", "*.php"));
    assert!(!matches_pattern("index.php.bak", "*.php"));
    assert!(matches_pattern(".php", "*.php"));
}

#[test]
fn pattern_with_prefix_and_suffix() {
    assert!(matches_pattern("app_main.php", "app*.php"));
    assert!(!matches_pattern("main_app.php", "app*.php"));
}

#[test]
fn pattern_star_alone_matches_everything() {
    assert!(matches_pattern("", "*"));
    assert!(matches_pattern("anything", "*"));
}

#[test]
fn pattern_middle_pieces_in_order() {
    assert!(matches_pattern("a-b-c.txt", "a*b*c*"));
    assert!(!matches_pattern("a-c-b.txt", "*c*a*"));
    assert!(matches_pattern("xyz", "**"));
}

#[test]
fn pattern_pieces_do_not_overlap() {
    assert!(!matches_pattern("ab", "ab*b*"));
    assert!(!matches_pattern("a", "a*a"));
    assert!(matches_pattern("aa", "a*a"));
    assert!(!matches_pattern("axc", "a*b*c"));
    assert!(matches_pattern("abxc", "a*b*c"));
}

#[test]
fn pattern_without_star_is_the_whole_name() {
    assert!(matches_pattern("abc", "abc"));
    assert!(!matches_pattern("abd", "abc"));
    assert!(!matches_pattern("abab", "ab"));
}

#[test]
fn excluded_directories() {
    let ex = vec!["vendor".to_string(), "".to_string()];
    assert!(dir_excluded("/srv/app/vendor/lib", &ex));
    assert!(!dir_excluded("/srv/app/src", &ex));
    assert!(!dir_excluded("/srv/app/src", &vec![]));
}

#[test]
fn selected_files() {
    assert!(file_selected("a.txt", &vec![], &vec![]));
    let names = vec!["*.php".to_string(), "*.env".to_string()];
    assert!(file_selected("x.env", &names, &vec![]));
    assert!(!file_selected("x.txt", &names, &vec![]));
}

#[test]
fn excluded_file_names() {
    let excludes = vec!["*.bak".to_string(), "".to_string()];
    assert!(!file_selected("x.bak", &vec![], &excludes));
    assert!(file_selected("x.php", &vec![], &excludes));
    assert!(!file_selected("old.php.bak", &vec!["*.php*".to_string()], &excludes));
}

#[test]
fn mtime_tables_compare_by_content() {
    let mut a = MtimeTable::new();
    a.insert("/a.php".to_string(), 10);
    a.insert("/b.php".to_string(), 20);
    let mut b = MtimeTable::new();
    b.insert("/b.php".to_string(), 20);
    b.insert("/a.php".to_string(), 10);
    assert!(!a.differs(&b));
    b.insert("/a.php".to_string(), 11);
    assert_eq!(b.len(), 2);
    assert!(a.differs(&b));
    assert_eq!(b.lookup(&"/a.php".to_string()), Some(11));
    let mut c = MtimeTable::new();
    c.insert("/a.php".to_string(), 10);
    assert!(a.differs(&c));
    assert!(c.differs(&a));
}

#[test]
fn reap_plan_splits_children() {
    let kinds = vec![ChildKind::Http, ChildKind::Queue, ChildKind::Http];
    let exited = vec![false, true, true];
    let (kept, restart) = reap_plan(&kinds, &exited);
    assert_eq!(kept, vec![0]);
    assert_eq!(restart, vec![ChildKind::Queue, ChildKind::Http]);
}

#[test]
fn plan_lists_http_children_then_queue() {
    assert_eq!(children_plan(2, true), vec![ChildKind::Http, ChildKind::Http, ChildKind::Queue]);
    assert_eq!(children_plan(1, false), vec![ChildKind::Http]);
}

#[test]
fn http_child_command_passes_server_arguments() {
    let cfg = config(4, false);
    let cmd = child_command(ChildKind::Http, None, &cfg);
    assert_eq!(
        cmd.args,
        vec!["think", "worker:child", "--host", "0.0.0.0", "--port", "8080", "--worker-num", "4"]
    );
    assert_eq!(cmd.env_key, "LYCHEE_WORKER_CHILD");
}

#[test]
fn queue_child_command_has_no_server_arguments() {
    let cfg = config(4, true);
    let cmd = child_command(ChildKind::Queue, Some("bin/console".to_string()), &cfg);
    assert_eq!(cmd.args, vec!["bin/console", "worker:queue"]);
    assert_eq!(cmd.env_key, "LYCHEE_WORKER_QUEUE");
    assert_eq!(child_label(ChildKind::Queue), "queue");
    assert_eq!(child_label(ChildKind::Http), "http");
}

#[test]
fn supervisor_restarts_on_change_only() {
    let cfg = config(2, true);
    let mut first = MtimeTable::new();
    first.insert("/a.php".to_string(), 1);
    let mut sup = Supervisor::new(&cfg, first);
    let mut same = MtimeTable::new();
    same.insert("/a.php".to_string(), 1);
    assert!(sup.files_checked(same).is_none());
    let mut changed = MtimeTable::new();
    changed.insert("/a.php".to_string(), 2);
    assert_eq!(
        sup.files_checked(changed),
        Some(vec![ChildKind::Http, ChildKind::Http, ChildKind::Queue])
    );
    let mut again = MtimeTable::new();
    again.insert("/a.php".to_string(), 2);
    assert!(sup.files_checked(again).is_none());
}

#[test]
fn child_mode_from_environment() {
    assert!(is_http_child(Some("1".to_string())));
    assert!(!is_http_child(Some("0".to_string())));
    assert!(!is_http_child(None));
}

#[test]
fn global_map_fills_on_first_use() {
    let mut g: GlobalMap<Vec<u8>> = GlobalMap::new();
    assert!(g.slot.is_none());
    assert_eq!(g.with(|v| v.len()), 0);
    g.slot.as_mut().unwrap().push(7);
    assert_eq!(g.with(|v| v.clone()), vec![7]);
}

#[test]
fn room_cell_starts_empty() {
    assert!(RoomCell::new().members.is_empty());
    assert!(RoomCell::default().members.is_empty());
}

#[test]
fn runtime_stop_is_remembered() {
    let mut rt = WorkerRuntime::new();
    assert!(!rt.stop_requested());
    rt.stop();
    assert!(rt.stop_requested());
}
