use mdpreview::debounce::{ChangeEvent, ChangeKind, Debouncer};
use mdpreview::hub::Hub;
use mdpreview::path::{html_path, is_markdown};
use mdpreview::render::{render_text, RenderError};
use mdpreview::stage::{complete_render, plan_render, RenderPlan};

#[test]
fn paths() {
    assert_eq!(html_path("docs/a.md"), "docs/a.html");
    assert!(is_markdown("docs/a.md"));
    assert!(!is_markdown("docs/a.html"));
    assert!(!is_markdown("md"));
}

#[test]
fn modified_markdown_is_rendered() {
    let ev = ChangeEvent { path: "docs/a.md".to_string(), kind: ChangeKind::Modified };
    match plan_render(&ev) {
        RenderPlan::Render { source, target, stem } => {
            assert_eq!(source, "docs/a.md");
            assert_eq!(target, "docs/a.html");
            assert_eq!(stem, "a");
        }
        other => panic!("unexpected plan {:?}", other),
    }
}

#[test]
fn stem_drops_directory_and_last_extension() {
    let ev = ChangeEvent { path: "docs/a.b.md".to_string(), kind: ChangeKind::Removed };
    match plan_render(&ev) {
        RenderPlan::Announce { stem } => assert_eq!(stem, "a.b"),
        other => panic!("unexpected plan {:?}", other),
    }
}

#[test]
fn removed_markdown_is_announced_only() {
    let ev = ChangeEvent { path: "readme.md".to_string(), kind: ChangeKind::Removed };
    match plan_render(&ev) {
        RenderPlan::Announce { stem } => assert_eq!(stem, "readme"),
        other => panic!("unexpected plan {:?}", other),
    }
}

#[test]
fn other_files_are_skipped() {
    let ev = ChangeEvent { path: "a.txt".to_string(), kind: ChangeKind::Created };
    assert!(matches!(plan_render(&ev), RenderPlan::Skip));
}

#[test]
fn failed_render_writes_nothing_but_announces() {
    let outcome = render_text("## **bold** extra text");
    assert_eq!(outcome.as_ref().unwrap_err(), &RenderError::MalformedHeading { index: 0 });
    let c = complete_render("a".to_string(), outcome);
    assert!(c.write.is_none());
    assert_eq!(c.notify, "a");
}

#[test]
fn successful_render_writes_html() {
    let c = complete_render("a".to_string(), render_text("# Hello"));
    assert_eq!(c.write.as_deref(), Some("<h1>Hello</h1>"));
    assert_eq!(c.notify, "a");
}

#[test]
fn hello_flows_from_change_to_every_session() {
    let mut hub = Hub::new(4);
    let s1 = hub.subscribe().unwrap();
    let s2 = hub.subscribe().unwrap();
    let mut d = Debouncer::new(200);
    d.observe("a.md".to_string(), ChangeKind::Created, 0);
    d.observe("a.md".to_string(), ChangeKind::Modified, 5);
    let events = d.poll(205);
    assert_eq!(events.len(), 1);
    let (target, stem) = match plan_render(&events[0]) {
        RenderPlan::Render { target, stem, .. } => (target, stem),
        other => panic!("unexpected plan {:?}", other),
    };
    assert_eq!(target, "a.html");
    let c = complete_render(stem, render_text("# Hello"));
    assert_eq!(c.write.as_deref(), Some("<h1>Hello</h1>"));
    hub.publish(c.notify);
    assert_eq!(hub.take(s1), Some("a".to_string()));
    assert_eq!(hub.take(s2), Some("a".to_string()));
}

#[test]
fn unreadable_file_writes_nothing_but_announces() {
    let c = complete_render("gone".to_string(), Err(RenderError::Unreadable));
    assert!(c.write.is_none());
    assert_eq!(c.notify, "gone");
}
