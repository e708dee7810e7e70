//! The render stage's decisions around one change event: whether to render,
//! where the HTML goes, and what is announced afterwards.
use crate::debounce::{ChangeEvent, ChangeKind};
use crate::path::{extension_of, file_stem, html_extension, html_path, is_markdown, markdown_extension, stem_of, with_extension_of};
use crate::render::{RenderError, Rendered};
use vstd::prelude::*;

verus! {

/// What the render stage does with a change event.
#[derive(Debug)]
pub enum RenderPlan {
    /// Read `source`, render it, write the HTML to `target`, then announce `stem`.
    Render { source: String, target: String, stem: String },
    /// The document was removed: render nothing, but announce `stem`.
    Announce { stem: String },
    /// Not a Markdown document: nothing to do.
    Skip,
}

/// What follows a render attempt: the HTML to write, if any, and the stem to publish.
#[derive(Debug)]
pub struct Completion {
    pub write: Option<String>,
    pub notify: String,
}

/// Decides what a change event asks of the render stage.
pub fn plan_render(event: &ChangeEvent) -> (r: RenderPlan)
    ensures
        extension_of(event.path@) != markdown_extension() ==> r is Skip,
        extension_of(event.path@) == markdown_extension() && event.kind == ChangeKind::Removed
            ==> (r matches RenderPlan::Announce { stem } && stem@ == stem_of(event.path@)),
        extension_of(event.path@) == markdown_extension() && event.kind != ChangeKind::Removed
            ==> (r matches RenderPlan::Render { source, target, stem } && source@ == event.path@
            && target@ == with_extension_of(event.path@, html_extension()) && stem@ == stem_of(event.path@)),
{
    if !is_markdown(event.path.as_str()) {
        return RenderPlan::Skip;
    }
    let stem = file_stem(event.path.as_str());
    match event.kind {
        ChangeKind::Removed => RenderPlan::Announce { stem },
        _ => RenderPlan::Render {
            source: event.path.clone(),
            target: html_path(event.path.as_str()),
            stem,
        },
    }
}

/// Decides what follows a render: the HTML is written only on success, and the
/// stem is announced either way, so that clients learn of the attempt.
pub fn complete_render(stem: String, outcome: Result<Rendered, RenderError>) -> (r: Completion)
    ensures
        r.notify@ == stem@,
        match outcome {
            Ok(d) => r.write matches Some(h) && h@ == d.html@,
            Err(_) => r.write is None,
        },
{
    match outcome {
        Ok(d) => Completion { write: Some(d.html), notify: stem },
        Err(_) => Completion { write: None, notify: stem },
    }
}

} // verus!
