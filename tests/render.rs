use mdpreview::render::{render_bytes, render_text, collect_outline, Block, Inline, RenderError};

#[test]
fn outline_in_document_order() {
    let r = render_text("# Title\n\ntext\n\n## Sub A\n\n## Sub B\n").unwrap();
    assert_eq!(
        r.outline,
        vec![("Title".to_string(), 1), ("Sub A".to_string(), 2), ("Sub B".to_string(), 2)]
    );
}

#[test]
fn outline_is_flat() {
    let r = render_text("# One\n\n### Three\n\n# Again\n").unwrap();
    assert_eq!(
        r.outline,
        vec![("One".to_string(), 1), ("Three".to_string(), 3), ("Again".to_string(), 1)]
    );
}

#[test]
fn heading_with_two_inline_children_is_an_error() {
    let r = render_text("# Fine\n\n## **bold** extra text\n");
    assert_eq!(r.unwrap_err(), RenderError::MalformedHeading { index: 1 });
}

#[test]
fn heading_with_one_non_text_child_is_an_error() {
    let r = render_text("## `code`\n");
    assert_eq!(r.unwrap_err(), RenderError::MalformedHeading { index: 0 });
}

#[test]
fn render_is_idempotent() {
    let text = "# Hello\n\nSome *text* and a [link](x.html).\n";
    let a = render_bytes(text.as_bytes().to_vec()).unwrap();
    let b = render_bytes(text.as_bytes().to_vec()).unwrap();
    assert_eq!(a.html.as_bytes(), b.html.as_bytes());
    assert_eq!(a.outline, b.outline);
}

#[test]
fn hello_renders_a_heading() {
    let r = render_bytes(b"# Hello".to_vec()).unwrap();
    assert!(r.html.contains("<h1>Hello</h1>"));
    assert_eq!(r.outline, vec![("Hello".to_string(), 1)]);
}

#[test]
fn html_is_not_the_source_text() {
    let r = render_text("plain words").unwrap();
    assert_eq!(r.html, "<p>plain words</p>");
}

#[test]
fn invalid_utf8_is_an_encoding_error() {
    let r = render_bytes(vec![b'#', b' ', 0xff, 0xfe]);
    assert_eq!(r.unwrap_err(), RenderError::Encoding);
}

#[test]
fn empty_document_has_empty_outline() {
    let r = render_bytes(Vec::new()).unwrap();
    assert!(r.outline.is_empty());
    assert_eq!(r.html, "");
}

#[test]
fn collect_outline_on_blocks() {
    let blocks = vec![
        Block::Other,
        Block::Heading { depth: 2, inlines: vec![Inline::Text("A".to_string())] },
        Block::Heading { depth: 3, inlines: vec![Inline::Text("B".to_string()), Inline::Other] },
    ];
    assert_eq!(collect_outline(&blocks).unwrap_err(), RenderError::MalformedHeading { index: 2 });
    let ok = collect_outline(&blocks[..2].to_vec()).unwrap();
    assert_eq!(ok, vec![("A".to_string(), 2)]);
    let empty = vec![Block::Heading { depth: 1, inlines: vec![] }];
    assert_eq!(collect_outline(&empty).unwrap_err(), RenderError::MalformedHeading { index: 0 });
}

#[test]
fn deepest_heading_rank_is_kept() {
    let r = render_text("###### Six\n").unwrap();
    assert_eq!(r.outline, vec![("Six".to_string(), 6)]);
}
