use mdpreview::sequence::Sequencer;

#[test]
fn newer_render_of_a_path_wins() {
    let mut s = Sequencer::new();
    let first = s.begin("a.md").unwrap();
    let second = s.begin("a.md").unwrap();
    assert_ne!(first, second);
    assert!(!s.finish("a.md", first));
    assert!(s.finish("a.md", second));
}

#[test]
fn newer_render_wins_when_it_finishes_first() {
    let mut s = Sequencer::new();
    let first = s.begin("a.md").unwrap();
    let second = s.begin("a.md").unwrap();
    assert!(s.finish("a.md", second));
    assert!(!s.finish("a.md", first));
}

#[test]
fn different_paths_do_not_interfere() {
    let mut s = Sequencer::new();
    let a = s.begin("a.md").unwrap();
    let b = s.begin("b.md").unwrap();
    assert!(s.finish("b.md", b));
    assert!(s.finish("a.md", a));
}

#[test]
fn unknown_token_is_refused() {
    let mut s = Sequencer::new();
    assert!(!s.finish("a.md", 7));
    let t = s.begin("a.md").unwrap();
    assert!(s.finish("a.md", t));
    assert!(!s.finish("a.md", t));
}

#[test]
fn removal_supersedes_render_in_flight() {
    let mut s = Sequencer::new();
    let render = s.begin("a.md").unwrap();
    let removal = s.begin("a.md").unwrap();
    assert!(s.finish("a.md", removal));
    assert!(!s.finish("a.md", render));
}
