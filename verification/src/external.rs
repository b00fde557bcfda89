//! Trusted bindings to the outside collaborators of the core: the
//! Markdown renderer and the system clock. Each binding's contract is
//! what the named outside function's documentation promises, and nothing
//! in this module is otherwise checked.

use vstd::prelude::*;

verus! {

/// The HTML that the Markdown renderer produces for the given source
/// text, with the strikethrough extension enabled. The renderer is a pure
/// function, so the result depends on the source text alone.
pub uninterp spec fn html_of(md: Seq<char>) -> Seq<char>;

/// Relies on pulldown_cmark's `Parser::new_ext` and `html::push_html`:
/// a pure Markdown-to-HTML translation, here with `ENABLE_STRIKETHROUGH`
/// switched on, whose output depends only on the input text.
#[verifier::external_body]
pub fn md2html(md: &str) -> (r: String)
    ensures
        r@ == html_of(md@),
{
    let mut options = pulldown_cmark::Options::empty();
    options.insert(pulldown_cmark::Options::ENABLE_STRIKETHROUGH);
    let parser = pulldown_cmark::Parser::new_ext(md, options);
    let mut html_output = String::new();
    pulldown_cmark::html::push_html(&mut html_output, parser);
    html_output
}

/// Relies on chrono's `Utc::now`, `DateTime::format` and
/// `DateTime::timestamp`: the current instant as a human-readable
/// `%Y-%m-%d` date and as the Unix timestamp in seconds. Nothing can be
/// promised of what the clock reads.
#[verifier::external_body]
pub fn clock_now() -> (String, i64) {
    let now = chrono::Utc::now();
    (now.format("%Y-%m-%d").to_string(), now.timestamp())
}

} // verus!
