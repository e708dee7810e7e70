//! The render stage: decoding, parsing, outline extraction and HTML rendering of
//! one Markdown document.
use vstd::prelude::*;
use markdown::mdast::Node;
use vstd::utf8::{decode_utf8, valid_utf8};

verus! {

/// One inline child of a heading, as far as the outline needs to know it.
#[derive(Clone, Debug, PartialEq, Eq)]
pub enum Inline {
    /// A plain text run.
    Text(String),
    /// Any other inline content (emphasis, code, links, ...).
    Other,
}

/// One top-level block of a parsed document, as far as the outline needs to know it.
#[derive(Clone, Debug, PartialEq, Eq)]
pub enum Block {
    Heading { depth: u8, inlines: Vec<Inline> },
    Other,
}

/// Why a document could not be rendered.
#[derive(Clone, Copy, Debug, PartialEq, Eq, Structural)]
pub enum RenderError {
    /// The file could not be read.
    Unreadable,
    /// The file's bytes are not UTF-8.
    Encoding,
    /// The heading at this block index is not exactly one plain text run.
    MalformedHeading { index: usize },
}

/// The product of a successful render: the heading outline and the HTML.
#[derive(Clone, Debug)]
pub struct Rendered {
    pub outline: Vec<(String, u8)>,
    pub html: String,
}

/// The top-level blocks of the tree that `markdown::to_mdast` parses from a text.
pub uninterp spec fn mdast_blocks(text: Seq<char>) -> Seq<Block>;

/// The HTML that `markdown::to_html` renders from a text.
pub uninterp spec fn html_of(text: Seq<char>) -> Seq<char>;

/// The title of a heading: its single plain text run.
pub open spec fn heading_title(inlines: Seq<Inline>) -> Option<Seq<char>> {
    if inlines.len() == 1 {
        match inlines[0] {
            Inline::Text(s) => Some(s@),
            Inline::Other => None,
        }
    } else {
        None
    }
}

/// The outline of a sequence of blocks, in document order, or the index of the
/// first heading that is not exactly one plain text run.
pub open spec fn outline_of(blocks: Seq<Block>) -> Result<Seq<(Seq<char>, u8)>, nat>
    decreases blocks.len(),
{
    if blocks.len() == 0 {
        Ok(Seq::empty())
    } else {
        match outline_of(blocks.drop_last()) {
            Err(i) => Err(i),
            Ok(o) => match blocks.last() {
                Block::Heading { depth, inlines } => match heading_title(inlines@) {
                    Some(t) => Ok(o.push((t, depth))),
                    None => Err((blocks.len() - 1) as nat),
                },
                Block::Other => Ok(o),
            },
        }
    }
}

/// An outline with its titles seen as character sequences.
pub open spec fn outline_view(o: Seq<(String, u8)>) -> Seq<(Seq<char>, u8)> {
    o.map_values(|e: (String, u8)| (e.0@, e.1))
}

/// What rendering a text gives: the outline and the HTML, or the error.
pub open spec fn render_spec(text: Seq<char>) -> Result<(Seq<(Seq<char>, u8)>, Seq<char>), RenderError> {
    match outline_of(mdast_blocks(text)) {
        Err(i) => Err(RenderError::MalformedHeading { index: i as usize }),
        Ok(o) => Ok((o, html_of(text))),
    }
}

/// Every heading among the blocks has a rank between 1 and 6.
pub open spec fn heading_depths_valid(blocks: Seq<Block>) -> bool {
    forall|i: int| 0 <= i < blocks.len() ==> (#[trigger] blocks[i] matches Block::Heading { depth, .. } ==> 1 <= depth <= 6)
}

/// Every entry of an outline has a rank between 1 and 6.
pub open spec fn outline_depths_valid(o: Seq<(Seq<char>, u8)>) -> bool {
    forall|i: int| 0 <= i < o.len() ==> 1 <= (#[trigger] o[i]).1 <= 6
}

/// An outline takes its ranks from the headings of the blocks.
pub proof fn lemma_outline_depths(blocks: Seq<Block>)
    requires
        heading_depths_valid(blocks),
    ensures
        outline_of(blocks) matches Ok(o) ==> outline_depths_valid(o),
    decreases blocks.len(),
{
    if blocks.len() > 0 {
        let init = blocks.drop_last();
        assert(heading_depths_valid(init)) by {
            assert forall|i: int| 0 <= i < init.len() implies (#[trigger] init[i] matches Block::Heading { depth, .. } ==> 1 <= depth <= 6) by {
                assert(init[i] == blocks[i]);
            }
        }
        lemma_outline_depths(init);
        assert(blocks.last() == blocks[blocks.len() - 1]);
    }
}

/// What rendering the bytes of a file gives.
pub open spec fn render_bytes_spec(bytes: Seq<u8>) -> Result<(Seq<(Seq<char>, u8)>, Seq<char>), RenderError> {
    if valid_utf8(bytes) {
        render_spec(decode_utf8(bytes))
    } else {
        Err(RenderError::Encoding)
    }
}

/// A render result seen through the views of its parts.
pub open spec fn rendered_view(r: Result<Rendered, RenderError>) -> Result<(Seq<(Seq<char>, u8)>, Seq<char>), RenderError> {
    match r {
        Ok(d) => Ok((outline_view(d.outline@), d.html@)),
        Err(e) => Err(e),
    }
}

/// Collects the outline of a parsed document, rejecting the first heading whose
/// content is not exactly one plain text run.
pub fn collect_outline(blocks: &Vec<Block>) -> (r: Result<Vec<(String, u8)>, RenderError>)
    ensures
        match outline_of(blocks@) {
            Ok(o) => r matches Ok(v) && outline_view(v@) == o,
            Err(i) => r == Err::<Vec<(String, u8)>, RenderError>(RenderError::MalformedHeading { index: i as usize }),
        },
{
    let mut out: Vec<(String, u8)> = Vec::new();
    let mut i: usize = 0;
    proof {
        assert(outline_view(out@) =~= Seq::empty());
        assert(blocks@.subrange(0, 0) =~= Seq::empty());
    }
    while i < blocks.len()
        invariant
            i <= blocks.len(),
            outline_of(blocks@.subrange(0, i as int)) == Ok::<Seq<(Seq<char>, u8)>, nat>(outline_view(out@)),
        decreases blocks.len() - i,
    {
        proof {
            assert(blocks@.subrange(0, i + 1).drop_last() =~= blocks@.subrange(0, i as int));
        }
        match &blocks[i] {
            Block::Heading { depth, inlines } => {
                let title = if inlines.len() == 1 {
                    match &inlines[0] {
                        Inline::Text(s) => Some(s.clone()),
                        Inline::Other => None,
                    }
                } else {
                    None
                };
                match title {
                    Some(t) => {
                        let ghost before = out@;
                        out.push((t, *depth));
                        proof {
                            assert(outline_view(out@) =~= outline_view(before).push((t@, *depth)));
                        }
                    },
                    None => {
                        proof {
                            lemma_outline_error_kept(blocks@, (i + 1) as int);
                        }
                        return Err(RenderError::MalformedHeading { index: i });
                    },
                }
            },
            Block::Other => {},
        }
        i = i + 1;
    }
    proof {
        assert(blocks@.subrange(0, i as int) =~= blocks@);
    }
    Ok(out)
}

/// Once the outline of a prefix fails, the outline of the whole sequence fails the same way.
proof fn lemma_outline_error_kept(blocks: Seq<Block>, k: int)
    requires
        0 <= k <= blocks.len(),
        outline_of(blocks.subrange(0, k)) is Err,
    ensures
        outline_of(blocks) == outline_of(blocks.subrange(0, k)),
    decreases blocks.len() - k,
{
    if k < blocks.len() {
        assert(blocks.subrange(0, k + 1).drop_last() =~= blocks.subrange(0, k));
        lemma_outline_error_kept(blocks, k + 1);
    } else {
        assert(blocks.subrange(0, k) =~= blocks);
    }
}

/// Relies on `String::from_utf8`: it succeeds exactly on valid UTF-8, and the
/// string holds the characters that the bytes encode.
#[verifier::external_body]
fn decode_text(bytes: Vec<u8>) -> (r: Option<String>)
    ensures
        r is Some <==> valid_utf8(bytes@),
        r matches Some(s) ==> s@ == decode_utf8(bytes@),
{
    String::from_utf8(bytes).ok()
}

/// Relies on `markdown::to_mdast` with default options: the top-level blocks of
/// the tree it builds, with each heading's depth and inline children. Headings
/// are taken from the top level of the document only; those nested in block
/// quotes or list items count as other blocks.
/// Its documentation promises that it never fails on Markdown without MDX, which
/// the default options leave off, and that a heading's rank lies between 1 and 6.
#[verifier::external_body]
fn parse_blocks(text: &str) -> (r: Vec<Block>)
    ensures
        r@ == mdast_blocks(text@),
        heading_depths_valid(r@),
{
    let inline = |n: &Node| match n {
        Node::Text(t) => Inline::Text(t.value.clone()),
        _ => Inline::Other,
    };
    let root = markdown::to_mdast(text, &markdown::ParseOptions::default()).unwrap();
    root.children().map_or(Vec::new(), |cs| cs.iter().map(|n| match n {
        Node::Heading(h) => Block::Heading { depth: h.depth, inlines: h.children.iter().map(inline).collect() },
        _ => Block::Other,
    }).collect())
}

/// Relies on `markdown::to_html`: the HTML depends on the text alone.
#[verifier::external_body]
fn markdown_to_html(text: &str) -> (r: String)
    ensures
        r@ == html_of(text@),
{
    markdown::to_html(text)
}

/// Renders a Markdown text: its outline, validated, and its HTML.
pub fn render_text(text: &str) -> (r: Result<Rendered, RenderError>)
    ensures
        rendered_view(r) == render_spec(text@),
        r matches Ok(d) ==> outline_depths_valid(outline_view(d.outline@)),
{
    let blocks = parse_blocks(text);
    proof {
        lemma_outline_depths(blocks@);
    }
    let outline = match collect_outline(&blocks) {
        Ok(o) => o,
        Err(e) => return Err(e),
    };
    let html = markdown_to_html(text);
    Ok(Rendered { outline, html })
}

/// Renders the bytes of a Markdown file, which must be UTF-8.
pub fn render_bytes(bytes: Vec<u8>) -> (r: Result<Rendered, RenderError>)
    ensures
        rendered_view(r) == render_bytes_spec(bytes@),
        r matches Ok(d) ==> outline_depths_valid(outline_view(d.outline@)),
{
    match decode_text(bytes) {
        Some(text) => render_text(text.as_str()),
        None => Err(RenderError::Encoding),
    }
}

/// Rendering is a function of the content: two renders of the same bytes give
/// the same outline and byte-identical HTML, or the same error.
pub proof fn lemma_render_idempotent(
    first: Result<Rendered, RenderError>,
    second: Result<Rendered, RenderError>,
    content: Seq<u8>,
)
    requires
        rendered_view(first) == render_bytes_spec(content),
        rendered_view(second) == render_bytes_spec(content),
    ensures
        rendered_view(first) == rendered_view(second),
        first matches Ok(a) ==> second matches Ok(b) && a.html@ == b.html@,
{
}

} // verus!
