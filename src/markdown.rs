//! Markdown to HTML, by hoedown.
use vstd::prelude::*;

verus! {

/// The HTML that hoedown's HTML renderer, with no flags and no extensions, makes of a
/// Markdown text; `None` where that output is not UTF-8.
pub uninterp spec fn markdown_html_of(md: Seq<char>) -> Option<Seq<char>>;

/// Relies on hoedown's `Render::render` for `Html::new(Flags::empty(), 0)` over
/// `Markdown::new`, then `Buffer::to_str`: the output, and whether it is UTF-8, depend on
/// the input text alone.
#[verifier::external_body]
pub(crate) fn render_markdown(md: &[char]) -> (r: Option<Vec<char>>)
    ensures
        r is Some <==> markdown_html_of(md@) is Some,
        r matches Some(h) ==> markdown_html_of(md@) == Some(h@),
{
    let text: String = md.iter().collect();
    let doc = hoedown::Markdown::new(&text);
    let mut html = hoedown::Html::new(hoedown::renderer::html::Flags::empty(), 0);
    let out = hoedown::Render::render(&mut html, &doc);
    out.to_str().ok().map(|h| h.chars().collect())
}

} // verus!
