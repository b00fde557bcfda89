//! The derived full-text projection: one row per page, holding the page's
//! current path, title and the Markdown of its latest revision, queried by
//! tokenized free-text search with highlighted excerpts.
//!
//! Matching is case-insensitive on ASCII letters: a row matches when every
//! token of the query occurs as a whole token in its title, body or
//! sidebar. Hits come back in storage order, each field reduced to a
//! bounded excerpt with the first matched token wrapped in a highlight
//! span.

use vstd::prelude::*;

use crate::page_store::ids_of;

verus! {

/// One row of the search projection; also the shape of a returned hit,
/// whose text fields then hold excerpts instead of full text.
pub struct SearchResult {
    pub id: i32,
    pub path: String,
    pub title: String,
    pub markdown_content: String,
    pub sidebar_markdown_content: String,
}

/// The mathematical image of a search row.
pub struct SearchResultV {
    pub id: int,
    pub path: Seq<char>,
    pub title: Seq<char>,
    pub markdown_content: Seq<char>,
    pub sidebar_markdown_content: Seq<char>,
}

impl View for SearchResult {
    type V = SearchResultV;

    open spec fn view(&self) -> SearchResultV {
        SearchResultV {
            id: self.id as int,
            path: self.path@,
            title: self.title@,
            markdown_content: self.markdown_content@,
            sidebar_markdown_content: self.sidebar_markdown_content@,
        }
    }
}

impl Clone for SearchResult {
    fn clone(&self) -> (r: Self)
        ensures
            r@ == self@,
    {
        SearchResult {
            id: self.id,
            path: self.path.clone(),
            title: self.title.clone(),
            markdown_content: self.markdown_content.clone(),
            sidebar_markdown_content: self.sidebar_markdown_content.clone(),
        }
    }
}

/// A character that can be part of a search token: an ASCII letter or
/// digit. Everything else separates tokens.
pub open spec fn is_word_char(c: char) -> bool {
    ('a' <= c && c <= 'z') || ('A' <= c && c <= 'Z') || ('0' <= c && c <= '9')
}

/// Case folding for matching: ASCII upper-case letters map onto their
/// lower-case codes, every other character onto its own code.
pub open spec fn lower_code(c: char) -> int {
    if 'A' <= c && c <= 'Z' {
        c as int + 32
    } else {
        c as int
    }
}

/// Two texts that are equal after case folding.
pub open spec fn lowered_eq(a: Seq<char>, b: Seq<char>) -> bool {
    a.len() == b.len() && forall|k: int| 0 <= k < a.len() ==> lower_code(a[k]) == lower_code(b[k])
}

/// The end of the word-character run starting at `i`.
pub open spec fn run_end(s: Seq<char>, i: int) -> int
    decreases s.len() - i,
    when 0 <= i <= s.len()
{
    if i >= s.len() || !is_word_char(s[i]) {
        i
    } else {
        run_end(s, i + 1)
    }
}

/// The run end lies between its start and the end of the text.
pub proof fn lemma_run_end(s: Seq<char>, i: int)
    requires
        0 <= i <= s.len(),
    ensures
        i <= run_end(s, i) <= s.len(),
        i < s.len() && is_word_char(s[i]) ==> i < run_end(s, i),
    decreases s.len() - i,
{
    if i < s.len() && is_word_char(s[i]) {
        lemma_run_end(s, i + 1);
    }
}

/// The `(start, length)` spans of the tokens of a text, from position `i`.
pub open spec fn token_spans_from(s: Seq<char>, i: int) -> Seq<(int, int)>
    decreases s.len() - i,
    when 0 <= i <= s.len()
    via token_spans_from_decreases
{
    if i >= s.len() {
        Seq::empty()
    } else if !is_word_char(s[i]) {
        token_spans_from(s, i + 1)
    } else {
        let r = run_end(s, i);
        seq![(i, r - i)] + token_spans_from(s, r)
    }
}

#[via_fn]
proof fn token_spans_from_decreases(s: Seq<char>, i: int) {
    if 0 <= i <= s.len() && i < s.len() && is_word_char(s[i]) {
        lemma_run_end(s, i);
    }
}

/// The token spans of a whole text.
pub open spec fn token_spans(s: Seq<char>) -> Seq<(int, int)> {
    token_spans_from(s, 0)
}

/// Every token span lies inside the text and has positive length.
pub proof fn lemma_token_spans_from_bounds(s: Seq<char>, i: int)
    requires
        0 <= i <= s.len(),
    ensures
        forall|m: int|
            0 <= m < token_spans_from(s, i).len() ==> i <= (#[trigger] token_spans_from(s, i)[m]).0
                && token_spans_from(s, i)[m].1 > 0 && token_spans_from(s, i)[m].0
                + token_spans_from(s, i)[m].1 <= s.len(),
    decreases s.len() - i,
{
    if i < s.len() {
        if !is_word_char(s[i]) {
            lemma_token_spans_from_bounds(s, i + 1);
            assert(token_spans_from(s, i) == token_spans_from(s, i + 1));
            assert forall|m: int|
                0 <= m < token_spans_from(s, i).len() implies i <= (#[trigger] token_spans_from(
                s,
                i,
            )[m]).0 && token_spans_from(s, i)[m].1 > 0 && token_spans_from(s, i)[m].0
                + token_spans_from(s, i)[m].1 <= s.len() by {
                assert(token_spans_from(s, i)[m] == token_spans_from(s, i + 1)[m]);
            }
        } else {
            lemma_run_end(s, i);
            let r = run_end(s, i);
            lemma_token_spans_from_bounds(s, r);
            assert(token_spans_from(s, i) == seq![(i, r - i)] + token_spans_from(s, r));
            assert forall|m: int|
                0 <= m < token_spans_from(s, i).len() implies i <= (#[trigger] token_spans_from(
                s,
                i,
            )[m]).0 && token_spans_from(s, i)[m].1 > 0 && token_spans_from(s, i)[m].0
                + token_spans_from(s, i)[m].1 <= s.len() by {
                if m > 0 {
                    assert(token_spans_from(s, i)[m] == token_spans_from(s, r)[m - 1]);
                }
            }
        }
    }
}

/// The text a span selects.
pub open spec fn span_text(s: Seq<char>, sp: (int, int)) -> Seq<char> {
    s.subrange(sp.0, sp.0 + sp.1)
}

/// Whether the token at `sp` of `field` matches some token of the query
/// after case folding.
pub open spec fn span_matches_query(field: Seq<char>, sp: (int, int), q: Seq<char>) -> bool {
    exists|m: int|
        0 <= m < token_spans(q).len() && lowered_eq(
            span_text(field, sp),
            span_text(q, #[trigger] token_spans(q)[m]),
        )
}

/// Whether a field holds some token that folds onto the query token `qsp`.
pub open spec fn field_has_token(field: Seq<char>, q: Seq<char>, qsp: (int, int)) -> bool {
    exists|m: int|
        0 <= m < token_spans(field).len() && lowered_eq(
            span_text(field, #[trigger] token_spans(field)[m]),
            span_text(q, qsp),
        )
}

/// Whether a row matches a query: the query has at least one token, and
/// every query token occurs in the row's title, body or sidebar.
pub open spec fn entry_matches(e: SearchResultV, q: Seq<char>) -> bool {
    &&& token_spans(q).len() > 0
    &&& forall|m: int|
        0 <= m < token_spans(q).len() ==> {
            let qsp = #[trigger] token_spans(q)[m];
            field_has_token(e.title, q, qsp) || field_has_token(e.markdown_content, q, qsp)
                || field_has_token(e.sidebar_markdown_content, q, qsp)
        }
}

/// The rows that a cascading delete of the pages with ids `rm` leaves.
pub open spec fn surviving(s: Seq<SearchResultV>, rm: Seq<int>) -> Seq<SearchResultV> {
    s.filter(|e: SearchResultV| !rm.contains(e.id))
}

/// No surviving row carries a deleted id.
pub proof fn lemma_surviving_no_id(s: Seq<SearchResultV>, rm: Seq<int>, q: int)
    requires
        rm.contains(q),
    ensures
        forall|i: int| 0 <= i < surviving(s, rm).len() ==> surviving(s, rm)[i].id != q,
        find_entry(surviving(s, rm), q) == -1,
    decreases s.len(),
{
    reveal(Seq::filter);
    if s.len() > 0 {
        lemma_surviving_no_id(s.drop_last(), rm, q);
        assert forall|i: int| 0 <= i < surviving(s, rm).len() implies surviving(s, rm)[i].id
            != q by {
            if i < surviving(s.drop_last(), rm).len() {
                assert(surviving(s, rm)[i] == surviving(s.drop_last(), rm)[i]);
            }
        }
    }
    lemma_find_entry(surviving(s, rm), q);
    if find_entry(surviving(s, rm), q) != -1 {
        assert(false);
    }
}

/// The mathematical image of a vector of spans.
pub open spec fn spans_view(v: Seq<(usize, usize)>) -> Seq<(int, int)> {
    v.map_values(|sp: (usize, usize)| (sp.0 as int, sp.1 as int))
}

/// The element-wise mathematical image of a vector of rows.
pub open spec fn idx_view(v: Seq<SearchResult>) -> Seq<SearchResultV> {
    v.map_values(|e: SearchResult| e@)
}

/// First position of the row with the given id, or -1 if absent.
pub open spec fn find_entry(s: Seq<SearchResultV>, id: int) -> int
    decreases s.len(),
{
    if s.len() == 0 {
        -1
    } else if s[0].id == id {
        0
    } else {
        let r = find_entry(s.drop_first(), id);
        if r == -1 {
            -1
        } else {
            r + 1
        }
    }
}

/// `find_entry` returns either -1 (no such id) or a position holding the id.
pub proof fn lemma_find_entry(s: Seq<SearchResultV>, id: int)
    ensures
        find_entry(s, id) == -1 ==> forall|i: int| 0 <= i < s.len() ==> s[i].id != id,
        find_entry(s, id) != -1 ==> 0 <= find_entry(s, id) < s.len() && s[find_entry(s, id)].id
            == id,
    decreases s.len(),
{
    if s.len() > 0 && s[0].id != id {
        lemma_find_entry(s.drop_first(), id);
        let r = find_entry(s.drop_first(), id);
        if r == -1 {
            assert forall|i: int| 0 <= i < s.len() implies s[i].id != id by {
                if i > 0 {
                    assert(s.drop_first()[i - 1] == s[i]);
                }
            }
        } else {
            assert(s.drop_first()[r] == s[r + 1]);
        }
    }
}

/// `find_entry` returns the first position whose id matches.
pub proof fn lemma_find_entry_first(s: Seq<SearchResultV>, id: int, j: int)
    requires
        0 <= j < s.len(),
        s[j].id == id,
        forall|k: int| 0 <= k < j ==> s[k].id != id,
    ensures
        find_entry(s, id) == j,
    decreases s.len(),
{
    if j > 0 {
        lemma_find_entry_first(s.drop_first(), id, j - 1);
    }
}

/// Whether a character can be part of a token.
fn is_word_char_exec(c: char) -> (r: bool)
    ensures
        r == is_word_char(c),
{
    ('a' <= c && c <= 'z') || ('A' <= c && c <= 'Z') || ('0' <= c && c <= '9')
}

/// The case-folded code of a character.
fn lower_code_exec(c: char) -> (r: u32)
    ensures
        r as int == lower_code(c),
{
    if 'A' <= c && c <= 'Z' {
        (c as u32) + 32
    } else {
        c as u32
    }
}

/// The `(start, length)` spans of a text's tokens.
fn spans_of(s: &str) -> (r: Vec<(usize, usize)>)
    ensures
        spans_view(r@) == token_spans(s@),
{
    let n = s.unicode_len();
    let mut out: Vec<(usize, usize)> = Vec::new();
    let mut i: usize = 0;
    proof {
        assert(spans_view(out@) =~= Seq::<(int, int)>::empty());
        assert(token_spans(s@) =~= spans_view(out@) + token_spans_from(s@, 0));
    }
    while i < n
        invariant
            n == s@.len(),
            i <= n,
            token_spans(s@) == spans_view(out@) + token_spans_from(s@, i as int),
        decreases n - i,
    {
        let c = s.get_char(i);
        if !is_word_char_exec(c) {
            proof {
                assert(token_spans_from(s@, i as int) == token_spans_from(s@, i as int + 1));
            }
            i += 1;
        } else {
            let start = i;
            let mut j = i + 1;
            proof {
                assert(run_end(s@, i as int) == run_end(s@, i as int + 1));
            }
            while j < n && is_word_char_exec(s.get_char(j))
                invariant
                    n == s@.len(),
                    i < j <= n,
                    run_end(s@, i as int) == run_end(s@, j as int),
                decreases n - j,
            {
                proof {
                    assert(run_end(s@, j as int) == run_end(s@, j as int + 1));
                }
                j += 1;
            }
            proof {
                assert(run_end(s@, j as int) == j as int);
                assert(run_end(s@, i as int) == j as int);
            }
            let ghost out0 = out@;
            out.push((start, j - start));
            proof {
                let ii = i as int;
                let r = run_end(s@, ii);
                assert(token_spans_from(s@, ii) == seq![(ii, r - ii)] + token_spans_from(s@, r));
                assert(spans_view(out@) =~= spans_view(out0) + seq![(ii, r - ii)]);
                assert(token_spans(s@) =~= spans_view(out@) + token_spans_from(s@, j as int));
            }
            i = j;
        }
    }
    proof {
        assert(token_spans_from(s@, n as int) =~= Seq::<(int, int)>::empty());
        assert(token_spans(s@) =~= spans_view(out@));
    }
    out
}

/// Whether two spans of two texts are equal after case folding.
fn span_eq_lower(a: &str, asp: (usize, usize), b: &str, bsp: (usize, usize)) -> (r: bool)
    requires
        asp.0 + asp.1 <= a@.len(),
        bsp.0 + bsp.1 <= b@.len(),
    ensures
        r == lowered_eq(
            span_text(a@, (asp.0 as int, asp.1 as int)),
            span_text(b@, (bsp.0 as int, bsp.1 as int)),
        ),
{
    let ghost ta = span_text(a@, (asp.0 as int, asp.1 as int));
    let ghost tb = span_text(b@, (bsp.0 as int, bsp.1 as int));
    if asp.1 != bsp.1 {
        return false;
    }
    let na = a.unicode_len();
    let nb = b.unicode_len();
    let mut k: usize = 0;
    while k < asp.1
        invariant
            na == a@.len(),
            nb == b@.len(),
            asp.0 + asp.1 <= a@.len(),
            bsp.0 + bsp.1 <= b@.len(),
            asp.1 == bsp.1,
            k <= asp.1,
            ta == span_text(a@, (asp.0 as int, asp.1 as int)),
            tb == span_text(b@, (bsp.0 as int, bsp.1 as int)),
            forall|t: int| 0 <= t < k ==> lower_code(ta[t]) == lower_code(tb[t]),
        decreases asp.1 - k,
    {
        let ca = a.get_char(asp.0 + k);
        let cb = b.get_char(bsp.0 + k);
        proof {
            assert(ta[k as int] == a@[asp.0 + k as int]);
            assert(tb[k as int] == b@[bsp.0 + k as int]);
        }
        if lower_code_exec(ca) != lower_code_exec(cb) {
            return false;
        }
        k += 1;
    }
    true
}

/// Whether a field (with its precomputed token spans) holds a token that
/// folds onto the given query token.
fn field_contains_token(
    field: &str,
    fspans: &Vec<(usize, usize)>,
    q: &str,
    qsp: (usize, usize),
) -> (r: bool)
    requires
        spans_view(fspans@) == token_spans(field@),
        qsp.0 + qsp.1 <= q@.len(),
    ensures
        r == field_has_token(field@, q@, (qsp.0 as int, qsp.1 as int)),
{
    proof {
        lemma_token_spans_from_bounds(field@, 0);
    }
    let mut m: usize = 0;
    while m < fspans.len()
        invariant
            spans_view(fspans@) == token_spans(field@),
            qsp.0 + qsp.1 <= q@.len(),
            m <= fspans@.len(),
            forall|t: int|
                0 <= t < m ==> !lowered_eq(
                    span_text(field@, #[trigger] token_spans(field@)[t]),
                    span_text(q@, (qsp.0 as int, qsp.1 as int)),
                ),
        decreases fspans@.len() - m,
    {
        let sp = fspans[m];
        proof {
            lemma_token_spans_from_bounds(field@, 0);
            assert(token_spans(field@)[m as int] == (sp.0 as int, sp.1 as int));
        }
        if span_eq_lower(field, sp, q, qsp) {
            proof {
                assert(lowered_eq(
                    span_text(field@, token_spans(field@)[m as int]),
                    span_text(q@, (qsp.0 as int, qsp.1 as int)),
                ));
            }
            return true;
        }
        m += 1;
    }
    false
}

/// Whether a row matches the query, all of whose token spans are given.
fn entry_matches_exec(e: &SearchResult, q: &str, qspans: &Vec<(usize, usize)>) -> (r: bool)
    requires
        spans_view(qspans@) == token_spans(q@),
    ensures
        r == entry_matches(e@, q@),
{
    if qspans.len() == 0 {
        return false;
    }
    let tspans = spans_of(e.title.as_str());
    let bspans = spans_of(e.markdown_content.as_str());
    let sspans = spans_of(e.sidebar_markdown_content.as_str());
    let mut m: usize = 0;
    while m < qspans.len()
        invariant
            spans_view(qspans@) == token_spans(q@),
            spans_view(tspans@) == token_spans(e@.title),
            spans_view(bspans@) == token_spans(e@.markdown_content),
            spans_view(sspans@) == token_spans(e@.sidebar_markdown_content),
            m <= qspans@.len(),
            forall|t: int|
                0 <= t < m ==> {
                    let qsp = #[trigger] token_spans(q@)[t];
                    field_has_token(e@.title, q@, qsp) || field_has_token(
                        e@.markdown_content,
                        q@,
                        qsp,
                    ) || field_has_token(e@.sidebar_markdown_content, q@, qsp)
                },
        decreases qspans@.len() - m,
    {
        let qsp = qspans[m];
        proof {
            lemma_token_spans_from_bounds(q@, 0);
            assert(token_spans(q@)[m as int] == (qsp.0 as int, qsp.1 as int));
        }
        let ok = field_contains_token(e.title.as_str(), &tspans, q, qsp) || field_contains_token(
            e.markdown_content.as_str(),
            &bspans,
            q,
            qsp,
        ) || field_contains_token(e.sidebar_markdown_content.as_str(), &sspans, q, qsp);
        if !ok {
            return false;
        }
        m += 1;
    }
    true
}

/// The first token span of `field` that matches some query token, walking
/// the spans in text order.
pub open spec fn first_match_in(spans: Seq<(int, int)>, field: Seq<char>, q: Seq<char>) -> Option<
    (int, int),
>
    decreases spans.len(),
{
    if spans.len() == 0 {
        None
    } else if span_matches_query(field, spans[0], q) {
        Some(spans[0])
    } else {
        first_match_in(spans.drop_first(), field, q)
    }
}

/// The excerpt of one field for a query: around the first matched token,
/// up to 30 characters of context on each side, the token wrapped in a
/// highlight span and truncation marked by an ellipsis; with no match, the
/// field's first 64 characters.
pub open spec fn snippet_of(field: Seq<char>, q: Seq<char>) -> Seq<char> {
    match first_match_in(token_spans(field), field, q) {
        Some(sp) => {
            let a = if sp.0 > 30 {
                sp.0 - 30
            } else {
                0
            };
            let b = if sp.0 + sp.1 + 30 < field.len() {
                sp.0 + sp.1 + 30
            } else {
                field.len() as int
            };
            (if a > 0 {
                "..."@
            } else {
                Seq::<char>::empty()
            }) + field.subrange(a, sp.0) + "<span class=\"highlight\">"@ + field.subrange(
                sp.0,
                sp.0 + sp.1,
            ) + "</span>"@ + field.subrange(sp.0 + sp.1, b) + (if b < field.len() {
                "..."@
            } else {
                Seq::<char>::empty()
            })
        },
        None => if field.len() <= 64 {
            field
        } else {
            field.subrange(0, 64) + "..."@
        },
    }
}

/// A returned hit: the row's id and path, the text fields excerpted.
pub open spec fn hit_of(e: SearchResultV, q: Seq<char>) -> SearchResultV {
    SearchResultV {
        id: e.id,
        path: e.path,
        title: snippet_of(e.title, q),
        markdown_content: snippet_of(e.markdown_content, q),
        sidebar_markdown_content: snippet_of(e.sidebar_markdown_content, q),
    }
}

/// What a search returns: the matching rows in storage order, each turned
/// into a hit.
pub open spec fn search_results(s: Seq<SearchResultV>, q: Seq<char>) -> Seq<SearchResultV> {
    s.filter(|e: SearchResultV| entry_matches(e, q)).map_values(|e: SearchResultV| hit_of(e, q))
}

/// Appending one row extends the results by its hit exactly when it
/// matches.
pub proof fn lemma_search_push(s: Seq<SearchResultV>, e: SearchResultV, q: Seq<char>)
    ensures
        entry_matches(e, q) ==> search_results(s.push(e), q) == search_results(s, q).push(
            hit_of(e, q),
        ),
        !entry_matches(e, q) ==> search_results(s.push(e), q) == search_results(s, q),
{
    reveal(Seq::filter);
    let pred = |x: SearchResultV| entry_matches(x, q);
    assert(s.push(e).drop_last() =~= s);
    if entry_matches(e, q) {
        assert(s.push(e).filter(pred) == s.filter(pred).push(e));
        assert(search_results(s.push(e), q) =~= search_results(s, q).push(hit_of(e, q)));
    }
}

/// Whether the token at `sp` of `field` matches some token of the query.
fn span_matches_query_exec(
    field: &str,
    sp: (usize, usize),
    q: &str,
    qspans: &Vec<(usize, usize)>,
) -> (r: bool)
    requires
        spans_view(qspans@) == token_spans(q@),
        sp.0 + sp.1 <= field@.len(),
    ensures
        r == span_matches_query(field@, (sp.0 as int, sp.1 as int), q@),
{
    proof {
        lemma_token_spans_from_bounds(q@, 0);
    }
    let mut m: usize = 0;
    while m < qspans.len()
        invariant
            spans_view(qspans@) == token_spans(q@),
            sp.0 + sp.1 <= field@.len(),
            m <= qspans@.len(),
            forall|t: int|
                0 <= t < m ==> !lowered_eq(
                    span_text(field@, (sp.0 as int, sp.1 as int)),
                    span_text(q@, #[trigger] token_spans(q@)[t]),
                ),
        decreases qspans@.len() - m,
    {
        let qsp = qspans[m];
        proof {
            lemma_token_spans_from_bounds(q@, 0);
            assert(token_spans(q@)[m as int] == (qsp.0 as int, qsp.1 as int));
        }
        if span_eq_lower(field, sp, q, qsp) {
            return true;
        }
        m += 1;
    }
    false
}

/// Build the excerpt of one field for a query.
fn snippet(field: &str, q: &str, qspans: &Vec<(usize, usize)>) -> (r: String)
    requires
        spans_view(qspans@) == token_spans(q@),
    ensures
        r@ == snippet_of(field@, q@),
{
    let n = field.unicode_len();
    let fspans = spans_of(field);
    proof {
        lemma_token_spans_from_bounds(field@, 0);
    }
    let mut m: usize = 0;
    let mut found = false;
    let mut fs: usize = 0;
    let mut fl: usize = 0;
    proof {
        assert(token_spans(field@).subrange(0, token_spans(field@).len() as int) =~= token_spans(
            field@,
        ));
    }
    while m < fspans.len() && !found
        invariant
            n == field@.len(),
            spans_view(qspans@) == token_spans(q@),
            spans_view(fspans@) == token_spans(field@),
            m <= fspans@.len(),
            !found ==> first_match_in(token_spans(field@), field@, q@) == first_match_in(
                token_spans(field@).subrange(m as int, token_spans(field@).len() as int),
                field@,
                q@,
            ),
            found ==> first_match_in(token_spans(field@), field@, q@) == Some(
                (fs as int, fl as int),
            ) && fs + fl <= n,
        decreases fspans@.len() - m,
    {
        let sp = fspans[m];
        proof {
            lemma_token_spans_from_bounds(field@, 0);
            assert(token_spans(field@)[m as int] == (sp.0 as int, sp.1 as int));
        }
        let ghost suffix = token_spans(field@).subrange(
            m as int,
            token_spans(field@).len() as int,
        );
        if span_matches_query_exec(field, sp, q, qspans) {
            fs = sp.0;
            fl = sp.1;
            found = true;
            proof {
                assert(suffix[0] == (fs as int, fl as int));
                assert(first_match_in(suffix, field@, q@) == Some((fs as int, fl as int)));
            }
        } else {
            proof {
                assert(suffix[0] == (sp.0 as int, sp.1 as int));
                assert(suffix.drop_first() =~= token_spans(field@).subrange(
                    m as int + 1,
                    token_spans(field@).len() as int,
                ));
            }
        }
        m += 1;
    }
    if found {
        let a = if fs > 30 {
            fs - 30
        } else {
            0
        };
        let e = fs + fl;
        let b = if n - e > 30 {
            e + 30
        } else {
            n
        };
        let mut out = String::new();
        if a > 0 {
            out.append("...");
        }
        out.append(field.substring_char(a, fs));
        out.append("<span class=\"highlight\">");
        out.append(field.substring_char(fs, e));
        out.append("</span>");
        out.append(field.substring_char(e, b));
        if b < n {
            out.append("...");
        }
        proof {
            assert(out@ =~= snippet_of(field@, q@));
        }
        out
    } else {
        proof {
            assert(token_spans(field@).subrange(
                m as int,
                token_spans(field@).len() as int,
            ) =~= Seq::<(int, int)>::empty());
        }
        if n <= 64 {
            let out = String::from_str(field);
            proof {
                assert(out@ =~= snippet_of(field@, q@));
            }
            out
        } else {
            let mut out = String::from_str(field.substring_char(0, 64));
            out.append("...");
            proof {
                assert(out@ =~= snippet_of(field@, q@));
            }
            out
        }
    }
}

/// The derived, independently queried text projection of the page tree.
pub struct SearchIndex {
    entries: Vec<SearchResult>,
}

impl View for SearchIndex {
    type V = Seq<SearchResultV>;

    closed spec fn view(&self) -> Seq<SearchResultV> {
        idx_view(self.entries@)
    }
}

impl SearchIndex {
    /// The invariant of a live index: one row per page id.
    pub closed spec fn wf(&self) -> bool {
        forall|i: int, j: int| 0 <= i < j < self@.len() ==> self@[i].id != self@[j].id
    }

    /// An empty index.
    pub fn new() -> (r: SearchIndex)
        ensures
            r.wf(),
            r@.len() == 0,
    {
        SearchIndex { entries: Vec::new() }
    }

    /// Number of rows.
    pub fn len(&self) -> (r: usize)
        ensures
            r == self@.len(),
    {
        self.entries.len()
    }

    /// Read a row by position.
    pub fn entry_at(&self, i: usize) -> (r: &SearchResult)
        requires
            i < self@.len(),
        ensures
            r@ == self@[i as int],
    {
        &self.entries[i]
    }

    /// Position of the row for the given page id, if present.
    fn index_of_id(&self, id: i32) -> (r: Option<usize>)
        ensures
            match r {
                Some(i) => i as int == find_entry(self@, id as int) && i < self@.len(),
                None => find_entry(self@, id as int) == -1,
            },
    {
        let mut k: usize = 0;
        while k < self.entries.len()
            invariant
                k <= self@.len(),
                self@.len() == self.entries@.len(),
                forall|j: int| 0 <= j < k ==> self@[j].id != id as int,
            decreases self@.len() - k,
        {
            if self.entries[k].id == id {
                proof {
                    lemma_find_entry_first(self@, id as int, k as int);
                }
                return Some(k);
            }
            k += 1;
        }
        proof {
            lemma_find_entry(self@, id as int);
        }
        None
    }

    /// Insert the row for a newly created page; its page id must be new
    /// to the index.
    pub fn on_create(&mut self, entry: SearchResult) -> (r: ())
        requires
            old(self).wf(),
            find_entry(old(self)@, entry@.id) == -1,
        ensures
            final(self).wf(),
            final(self)@ == old(self)@.push(entry@),
    {
        let ghost s0 = self@;
        proof {
            lemma_find_entry(s0, entry@.id);
        }
        self.entries.push(entry);
        proof {
            assert(self@ =~= s0.push(self.entries@.last()@));
        }
    }

    /// Update the row of an edited page in place by id: new path, title
    /// and latest Markdown. A missing id leaves the index unchanged.
    pub fn on_edit(
        &mut self,
        id: i32,
        path: String,
        title: String,
        markdown_content: String,
        sidebar_markdown_content: String,
    ) -> (r: ())
        requires
            old(self).wf(),
        ensures
            final(self).wf(),
            find_entry(old(self)@, id as int) == -1 ==> *final(self) == *old(self),
            find_entry(old(self)@, id as int) != -1 ==> final(self)@ == old(self)@.update(
                find_entry(old(self)@, id as int),
                SearchResultV {
                    id: id as int,
                    path: path@,
                    title: title@,
                    markdown_content: markdown_content@,
                    sidebar_markdown_content: sidebar_markdown_content@,
                },
            ),
    {
        let ghost s0 = self@;
        match self.index_of_id(id) {
            Some(i) => {
                proof {
                    lemma_find_entry(s0, id as int);
                }
                let ne = SearchResult { id, path, title, markdown_content, sidebar_markdown_content };
                self.entries.set(i, ne);
                proof {
                    assert(self@ =~= s0.update(i as int, self.entries@[i as int]@));
                }
            },
            None => {},
        }
    }

    /// Remove the row of a deleted page by id. A missing id leaves the
    /// index unchanged.
    pub fn on_delete(&mut self, id: i32) -> (r: ())
        requires
            old(self).wf(),
        ensures
            final(self).wf(),
            find_entry(old(self)@, id as int) == -1 ==> *final(self) == *old(self),
            find_entry(old(self)@, id as int) != -1 ==> final(self)@ == old(self)@.remove(
                find_entry(old(self)@, id as int),
            ),
    {
        let ghost s0 = self@;
        match self.index_of_id(id) {
            Some(i) => {
                proof {
                    lemma_find_entry(s0, id as int);
                }
                self.entries.remove(i);
                proof {
                    let g = i as int;
                    assert(self@ =~= s0.remove(g));
                    assert forall|a: int, b: int| 0 <= a < b < self@.len() implies self@[a].id
                        != self@[b].id by {
                        let oa = if a < g {
                            a
                        } else {
                            a + 1
                        };
                        let ob = if b < g {
                            b
                        } else {
                            b + 1
                        };
                        assert(self@[a] == s0[oa]);
                        assert(self@[b] == s0[ob]);
                    }
                }
            },
            None => {},
        }
    }

    /// Remove the rows of every deleted page, as the tail end of a
    /// cascading page delete.
    pub fn delete_for_pages(&mut self, removed: &Vec<i32>) -> (r: ())
        requires
            old(self).wf(),
        ensures
            final(self).wf(),
            final(self)@ == surviving(old(self)@, ids_of(removed@)),
            forall|i: int|
                0 <= i < final(self)@.len() ==> exists|j: int|
                    0 <= j < old(self)@.len() && (#[trigger] final(self)@[i]) == (
                    #[trigger] old(self)@[j]),
    {
        let ghost rm = ids_of(removed@);
        let mut kept: Vec<SearchResult> = Vec::new();
        let ghost mut imap: Seq<int> = Seq::empty();
        let mut k: usize = 0;
        proof {
            reveal(Seq::filter);
            assert(self@.subrange(0, 0) =~= Seq::<SearchResultV>::empty());
            assert(idx_view(kept@) =~= surviving(self@.subrange(0, 0), rm));
        }
        while k < self.entries.len()
            invariant
                old(self).wf(),
                self@ == old(self)@,
                self@.len() == self.entries@.len(),
                rm == ids_of(removed@),
                k <= self@.len(),
                idx_view(kept@) == surviving(self@.subrange(0, k as int), rm),
                imap.len() == kept@.len(),
                forall|a: int, b: int| 0 <= a < b < imap.len() ==> imap[a] < imap[b],
                forall|a: int| 0 <= a < imap.len() ==> 0 <= #[trigger] imap[a] < k as int,
                forall|a: int|
                    0 <= a < imap.len() ==> idx_view(kept@)[a] == self@[#[trigger] imap[a]],
            decreases self@.len() - k,
        {
            let ghost pre0 = self@.subrange(0, k as int);
            let ghost pre1 = self@.subrange(0, k as int + 1);
            let ghost kept0 = kept@;
            let ghost imap0 = imap;
            let ghost e = self@[k as int];
            let rv = &self.entries[k];
            let drop_it = crate::page_store::vec_contains_i32(removed, rv.id);
            if !drop_it {
                kept.push(rv.clone());
                proof {
                    imap = imap.push(k as int);
                }
            }
            proof {
                reveal(Seq::filter);
                assert(pre1 =~= pre0.push(e));
                assert(pre1.drop_last() =~= pre0);
                if drop_it {
                    let m = choose|m: int| 0 <= m < removed@.len() && removed@[m] == rv.id;
                    assert(rm[m] == e.id);
                }
                if rm.contains(e.id) {
                    let m = choose|m: int| 0 <= m < rm.len() && rm[m] == e.id;
                    assert(removed@[m] == rv.id);
                }
                assert(drop_it == rm.contains(e.id));
                if !drop_it {
                    assert(idx_view(kept@) =~= idx_view(kept0).push(e));
                    assert(surviving(pre1, rm) == surviving(pre0, rm).push(e));
                    assert forall|a: int| 0 <= a < imap.len() implies idx_view(kept@)[a]
                        == self@[#[trigger] imap[a]] by {
                        if a < imap0.len() {
                            assert(imap[a] == imap0[a]);
                            assert(idx_view(kept@)[a] == idx_view(kept0)[a]);
                        } else {
                            assert(imap[a] == k as int);
                        }
                    }
                } else {
                    assert(surviving(pre1, rm) == surviving(pre0, rm));
                }
            }
            k += 1;
        }
        let ghost s0 = self@;
        self.entries = kept;
        proof {
            assert(s0.subrange(0, s0.len() as int) =~= s0);
            assert forall|a: int, b: int| 0 <= a < b < self@.len() implies self@[a].id
                != self@[b].id by {
                assert(imap[a] < imap[b]);
                assert(self@[a] == s0[imap[a]]);
                assert(self@[b] == s0[imap[b]]);
            }
            assert forall|i: int| 0 <= i < self@.len() implies exists|j: int|
                0 <= j < old(self)@.len() && (#[trigger] self@[i]) == (#[trigger] old(self)@[j]) by {
                assert(0 <= imap[i] < old(self)@.len());
                assert(self@[i] == old(self)@[imap[i]]);
            }
        }
    }

    /// Replace the whole projection at once, as the wholesale rebuild at
    /// startup does. The new rows must already be one-per-page.
    pub fn replace_all(&mut self, entries: Vec<SearchResult>) -> (r: ())
        requires
            forall|i: int, j: int|
                0 <= i < j < idx_view(entries@).len() ==> idx_view(entries@)[i].id != idx_view(
                    entries@,
                )[j].id,
        ensures
            final(self).wf(),
            final(self)@ == idx_view(entries@),
    {
        self.entries = entries;
    }

    /// Run a free-text query: every matching row, in storage order, as a
    /// hit with excerpted fields. A query with no tokens matches nothing,
    /// and no well-formed query fails.
    pub fn run_search(&self, query: &str) -> (r: Vec<SearchResult>)
        ensures
            idx_view(r@) == search_results(self@, query@),
    {
        let qspans = spans_of(query);
        let mut out: Vec<SearchResult> = Vec::new();
        let mut k: usize = 0;
        proof {
            reveal(Seq::filter);
            assert(self@.subrange(0, 0) =~= Seq::<SearchResultV>::empty());
            assert(idx_view(out@) =~= search_results(self@.subrange(0, 0), query@));
        }
        while k < self.entries.len()
            invariant
                spans_view(qspans@) == token_spans(query@),
                k <= self@.len(),
                self@.len() == self.entries@.len(),
                idx_view(out@) == search_results(self@.subrange(0, k as int), query@),
            decreases self@.len() - k,
        {
            let ghost pre0 = self@.subrange(0, k as int);
            let ghost pre1 = self@.subrange(0, k as int + 1);
            let ghost out0 = out@;
            let e = &self.entries[k];
            if entry_matches_exec(e, query, &qspans) {
                let hit = SearchResult {
                    id: e.id,
                    path: e.path.clone(),
                    title: snippet(e.title.as_str(), query, &qspans),
                    markdown_content: snippet(e.markdown_content.as_str(), query, &qspans),
                    sidebar_markdown_content: snippet(
                        e.sidebar_markdown_content.as_str(),
                        query,
                        &qspans,
                    ),
                };
                out.push(hit);
                proof {
                    assert(idx_view(out@) =~= idx_view(out0).push(hit_of(self@[k as int], query@)));
                }
            }
            proof {
                assert(pre1 =~= pre0.push(self@[k as int]));
                lemma_search_push(pre0, self@[k as int], query@);
            }
            k += 1;
        }
        proof {
            assert(self@.subrange(0, self@.len() as int) =~= self@);
        }
        out
    }
}

} // verus!
