//! The external markdown renderer, behind one trusted call.

use vstd::prelude::*;

verus! {

/// The markup that the external renderer produces for a markdown text.  The
/// renderer runs in safe mode with a fixed configuration, so its output is a
/// function of the input text alone; nothing more is assumed of it.
pub uninterp spec fn html_of(md: Seq<u8>) -> Seq<u8>;

/// Renders markdown to HTML in safe mode (raw HTML in the input is escaped,
/// not passed through).
///
/// Relies on comrak::markdown_to_html with comrak's default options, whose
/// safe mode is on by default; the result depends on the input text alone.
#[verifier::external_body]
pub fn render_markdown_safe(md: &Vec<u8>) -> (r: Vec<u8>)
    ensures
        r@ == html_of(md@),
{
    let text = String::from_utf8_lossy(md);
    comrak::markdown_to_html(&text, &comrak::Options::default()).into_bytes()
}

} // verus!
