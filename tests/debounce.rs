use mdpreview::debounce::{ChangeKind, Debouncer};

#[test]
fn burst_on_one_path_emits_once() {
    let mut d = Debouncer::new(200);
    for t in [0u64, 50, 120, 300, 450] {
        assert!(d.poll(t).is_empty());
        d.observe("notes/a.md".to_string(), ChangeKind::Modified, t);
    }
    assert!(d.poll(600).is_empty());
    let out = d.poll(650);
    assert_eq!(out.len(), 1);
    assert_eq!(out[0].path, "notes/a.md");
    assert!(d.poll(10_000).is_empty());
}

#[test]
fn spaced_events_emit_one_each() {
    let mut d = Debouncer::new(200);
    let mut total = 0;
    for t in [0u64, 250, 500, 751] {
        total += d.poll(t).len();
        d.observe("a.md".to_string(), ChangeKind::Modified, t);
    }
    total += d.flush().len();
    assert_eq!(total, 4);
}

#[test]
fn latest_kind_wins() {
    let mut d = Debouncer::new(100);
    d.observe("a.md".to_string(), ChangeKind::Created, 0);
    d.observe("a.md".to_string(), ChangeKind::Modified, 10);
    d.observe("a.md".to_string(), ChangeKind::Removed, 20);
    let out = d.poll(120);
    assert_eq!(out.len(), 1);
    assert_eq!(out[0].kind, ChangeKind::Removed);
}

#[test]
fn other_files_are_dropped() {
    let mut d = Debouncer::new(100);
    d.observe("a.html".to_string(), ChangeKind::Modified, 0);
    d.observe("README".to_string(), ChangeKind::Modified, 0);
    d.observe("b.markdown".to_string(), ChangeKind::Modified, 0);
    assert_eq!(d.pending_len(), 0);
    assert!(d.poll(1_000).is_empty());
}

#[test]
fn windows_close_in_order() {
    let mut d = Debouncer::new(100);
    d.observe("b.md".to_string(), ChangeKind::Modified, 0);
    d.observe("a.md".to_string(), ChangeKind::Modified, 30);
    d.observe("b.md".to_string(), ChangeKind::Modified, 60);
    assert_eq!(d.next_deadline(), Some(130));
    let out = d.poll(200);
    let paths: Vec<&str> = out.iter().map(|e| e.path.as_str()).collect();
    assert_eq!(paths, vec!["a.md", "b.md"]);
    assert_eq!(d.next_deadline(), None);
}

#[test]
fn paths_are_debounced_independently() {
    let mut d = Debouncer::new(100);
    d.observe("a.md".to_string(), ChangeKind::Modified, 0);
    d.observe("b.md".to_string(), ChangeKind::Modified, 90);
    let out = d.poll(100);
    assert_eq!(out.len(), 1);
    assert_eq!(out[0].path, "a.md");
    assert_eq!(d.pending_len(), 1);
}

#[test]
fn clock_never_runs_backwards() {
    let mut d = Debouncer::new(100);
    assert!(d.poll(500).is_empty());
    d.observe("a.md".to_string(), ChangeKind::Modified, 10);
    assert_eq!(d.next_deadline(), Some(600));
    assert!(d.poll(599).is_empty());
    assert_eq!(d.poll(600).len(), 1);
}

#[test]
fn deadline_saturates() {
    let mut d = Debouncer::new(u64::MAX);
    d.observe("a.md".to_string(), ChangeKind::Modified, 5);
    assert_eq!(d.next_deadline(), Some(u64::MAX));
    let out = d.flush();
    assert_eq!(out.len(), 1);
    assert_eq!(d.pending_len(), 0);
}
