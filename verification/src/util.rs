//! Plain-text renderings of a page, built from a title, a Markdown body
//! and a Markdown sidebar: the document the download endpoint serves
//! (sidebar appended verbatim), and the variant that substitutes a
//! placeholder note when the sidebar is empty.

use vstd::prelude::*;

verus! {

/// A horizontal rule of `n` dashes.
pub open spec fn dashes(n: nat) -> Seq<char> {
    Seq::new(n, |i: int| '-')
}

/// The downloadable document: title heading, a rule, the body, a rule,
/// and the sidebar exactly as stored — an empty sidebar ends the document
/// after the blank lines.
pub open spec fn download_doc(title: Seq<char>, md: Seq<char>, sidebar: Seq<char>) -> Seq<char> {
    "# "@ + title + "\n"@ + dashes(80) + "\n\n"@ + md + "\n\n"@ + dashes(80) + "\n\n"@
        + sidebar
}

/// The same document with a placeholder note substituted for an empty
/// sidebar.
pub open spec fn raw_page(title: Seq<char>, md: Seq<char>, sidebar: Seq<char>) -> Seq<char> {
    "# "@ + title + "\n"@ + dashes(80) + "\n\n"@ + md + "\n\n"@ + dashes(80) + "\n\n"@ + (
    if sidebar.len() != 0 {
        sidebar
    } else {
        "This page without sidenotes."@
    })
}

/// Eighty dashes, as text.
fn rule() -> (r: String)
    ensures
        r@ == dashes(80),
{
    let mut out = String::new();
    let mut i: usize = 0;
    proof {
        reveal_strlit("-");
    }
    while i < 80
        invariant
            i <= 80,
            out@ =~= dashes(i as nat),
        decreases 80 - i,
    {
        out.append("-");
        proof {
            reveal_strlit("-");
            assert(out@ =~= dashes((i + 1) as nat));
        }
        i += 1;
    }
    out
}

/// Render the document the download endpoint serves: the sidebar is
/// appended verbatim, empty or not.
pub fn download_markdown(
    title: &String,
    markdown_content: &String,
    sidebar_markdown_content: &String,
) -> (r: String)
    ensures
        r@ == download_doc(title@, markdown_content@, sidebar_markdown_content@),
{
    let mut to_return = String::from_str("# ");
    to_return.append(title.as_str());
    to_return.append("\n");
    let bar = rule();
    to_return.append(bar.as_str());
    to_return.append("\n\n");
    to_return.append(markdown_content.as_str());
    to_return.append("\n\n");
    to_return.append(bar.as_str());
    to_return.append("\n\n");
    to_return.append(sidebar_markdown_content.as_str());
    proof {
        assert(to_return@ =~= download_doc(
            title@,
            markdown_content@,
            sidebar_markdown_content@,
        ));
    }
    to_return
}

/// Render a page's title, Markdown body and Markdown sidebar with the
/// placeholder note for an empty sidebar.
pub fn page2raw(title: &String, markdown_content: &String, sidebar_markdown_content: &String) -> (r:
    String)
    ensures
        r@ == raw_page(title@, markdown_content@, sidebar_markdown_content@),
{
    let mut to_return = String::from_str("# ");
    to_return.append(title.as_str());
    to_return.append("\n");
    let bar = rule();
    to_return.append(bar.as_str());
    to_return.append("\n\n");
    to_return.append(markdown_content.as_str());
    to_return.append("\n\n");
    to_return.append(bar.as_str());
    to_return.append("\n\n");
    if sidebar_markdown_content.as_str().unicode_len() != 0 {
        to_return.append(sidebar_markdown_content.as_str());
    } else {
        to_return.append("This page without sidenotes.");
    }
    proof {
        assert(to_return@ =~= raw_page(title@, markdown_content@, sidebar_markdown_content@));
    }
    to_return
}

} // verus!
