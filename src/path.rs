//! File path questions that the pipeline asks, answered by `std::path`.
use vstd::prelude::*;

verus! {

/// The file name of a path without its last extension (`std::path::Path::file_stem`).
pub uninterp spec fn stem_of(p: Seq<char>) -> Seq<char>;

/// The extension of a path's file name, empty when it has none (`std::path::Path::extension`).
pub uninterp spec fn extension_of(p: Seq<char>) -> Seq<char>;

/// The path with its file name's extension replaced (`std::path::Path::with_extension`).
pub uninterp spec fn with_extension_of(p: Seq<char>, ext: Seq<char>) -> Seq<char>;

/// The extension that marks a Markdown document.
pub open spec fn markdown_extension() -> Seq<char> {
    seq!['m', 'd']
}

/// The extension given to a rendered document.
pub open spec fn html_extension() -> Seq<char> {
    seq!['h', 't', 'm', 'l']
}

/// Relies on `Path::file_stem` (read lossily as UTF-8): the stem depends on the path alone.
/// A path without a file name gives the empty string.
#[verifier::external_body]
pub(crate) fn file_stem(p: &str) -> (r: String)
    ensures
        r@ == stem_of(p@),
{
    std::path::Path::new(p).file_stem().unwrap_or_default().to_string_lossy().into_owned()
}

/// Relies on `Path::extension` (read lossily as UTF-8): the extension depends on the path alone.
/// A file name without an extension gives the empty string.
#[verifier::external_body]
fn file_extension(p: &str) -> (r: String)
    ensures
        r@ == extension_of(p@),
{
    std::path::Path::new(p).extension().unwrap_or_default().to_string_lossy().into_owned()
}

/// Relies on `Path::with_extension` (read lossily as UTF-8): the result depends on its
/// arguments alone. It panics on an extension that holds a path separator.
#[verifier::external_body]
fn replace_extension(p: &str, ext: &str) -> (r: String)
    requires
        forall|i: int| 0 <= i < ext@.len() ==> ext@[i] != '/',
    ensures
        r@ == with_extension_of(p@, ext@),
{
    std::path::Path::new(p).with_extension(ext).to_string_lossy().into_owned()
}

/// Whether a path names a Markdown document, the only kind of file the pipeline handles.
pub fn is_markdown(p: &str) -> (r: bool)
    ensures
        r == (extension_of(p@) == markdown_extension()),
{
    let ext = file_extension(p);
    let md = "md".to_owned();
    proof {
        reveal_strlit("md");
        assert(md@ =~= markdown_extension());
    }
    ext == md
}

/// The sibling path that receives a document's rendered HTML.
pub fn html_path(p: &str) -> (r: String)
    ensures
        r@ == with_extension_of(p@, html_extension()),
{
    let ext = "html";
    proof {
        reveal_strlit("html");
        assert(ext@ =~= html_extension());
    }
    replace_extension(p, ext)
}

} // verus!
