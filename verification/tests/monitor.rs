//! Changes of files.
use tup::monitor::{deduplicate_events, FileEvent, FileEventKind, Monitor, WatchKind};

#[test]
fn test_monitor_creation() {
    let monitor = Monitor::new("/p");
    assert!(!monitor.is_running());
}

#[test]
fn test_should_ignore() {
    let monitor = Monitor::new("/p");

    assert!(monitor.should_ignore(".git/config"));
    assert!(monitor.should_ignore(".tup/db"));
    assert!(monitor.should_ignore(".hidden_file"));
    assert!(!monitor.should_ignore("src/main.c"));
    assert!(!monitor.should_ignore("Tupfile"));
}

#[test]
fn test_deduplicate_events() {
    let events = vec![
        FileEvent { kind: FileEventKind::Created, path: "a.c".to_string() },
        FileEvent { kind: FileEventKind::Modified, path: "a.c".to_string() },
        FileEvent { kind: FileEventKind::Created, path: "b.c".to_string() },
        FileEvent { kind: FileEventKind::Modified, path: "a.c".to_string() },
    ];

    let deduped = deduplicate_events(&events);
    assert_eq!(deduped.len(), 2);
    // Should keep the latest event for each path
    assert_eq!(deduped[0].path, "b.c");
    assert_eq!(deduped[1].path, "a.c");
}

#[test]
fn changes_in_the_project_are_collected() {
    let mut monitor = Monitor::new("/p");
    monitor.start();
    assert!(monitor.is_running());
    monitor.process_event(WatchKind::Create, &["/p/src/a.c".to_string()]);
    monitor.process_event(WatchKind::Other, &["/p/src/b.c".to_string()]);
    monitor.process_event(WatchKind::Remove, &["/p/.git/c".to_string(), "/p/d".to_string()]);
    let events = monitor.collect_events();
    let seen: Vec<(&str, FileEventKind)> =
        events.iter().map(|e| (e.path.as_str(), e.kind)).collect();
    assert_eq!(
        seen,
        vec![("src/a.c", FileEventKind::Created), ("d", FileEventKind::Deleted)]
    );
    assert!(monitor.collect_events().is_empty());
}

#[test]
fn paths_stay_as_they_are_written() {
    let mut monitor = Monitor::new("/p/q");
    monitor.start();
    let paths = ["/p/q/a//b", "/p//q/./a/./b/", "/p/./q/c/.", "/p/qq/d", "/p/q"];
    let paths: Vec<String> = paths.iter().map(|p| p.to_string()).collect();
    monitor.process_event(WatchKind::Modify, &paths);
    let events = monitor.collect_events();
    let seen: Vec<&str> = events.iter().map(|e| e.path.as_str()).collect();
    let want: Vec<String> = paths
        .iter()
        .filter_map(|p| std::path::Path::new(p).strip_prefix("/p/q").ok())
        .map(|p| p.to_string_lossy().to_string())
        .collect();
    assert_eq!(seen, want);
    assert_eq!(seen, vec!["a//b", "a/./b", "c", ""]);
}
