//! Bidirectional mapping between a slash-joined logical path and a page.
//!
//! The path of a page is the slash-joined sequence of slugs from the root
//! (exclusive) down to the page; the root's path is the empty string.
//! Because slugs never contain `/`, a path decomposes uniquely into its
//! segments, which makes the mapping injective: resolving the path of any
//! stored page yields exactly that page.

use vstd::prelude::*;

use crate::page_store::Page;
use crate::page_store::PageStore;
use crate::page_store::PageV;
use crate::page_store::WikiError;
use crate::page_store::find_page;
use crate::page_store::is_slug_char;
use crate::page_store::lemma_find_page;
use crate::page_store::store_wf;
use crate::page_store::valid_slug;

verus! {

/// The logical path of the page at position `i` of a well-formed store.
pub open spec fn spec_path(s: Seq<PageV>, i: int) -> Seq<char>
    decreases i,
    when store_wf(s) && 0 <= i < s.len()
    via spec_path_decreases
{
    if s[i].parent_id is None {
        Seq::empty()
    } else {
        let pi = find_page(s, s[i].parent_id->0);
        let pp = spec_path(s, pi);
        if pp.len() == 0 {
            s[i].slug
        } else {
            pp + seq!['/'] + s[i].slug
        }
    }
}

#[via_fn]
proof fn spec_path_decreases(s: Seq<PageV>, i: int) {
    if store_wf(s) && 0 <= i < s.len() && !(s[i].parent_id is None) {
        assert(0 <= find_page(s, s[i].parent_id->0) < i);
    }
}

/// The root's path is empty.
pub proof fn lemma_root_path_empty(s: Seq<PageV>)
    requires
        store_wf(s),
        s.len() > 0,
    ensures
        spec_path(s, 0) == Seq::<char>::empty(),
{
}

/// A sequence without slashes (every slug is one).
pub open spec fn no_slash(x: Seq<char>) -> bool {
    forall|k: int| 0 <= k < x.len() ==> x[k] != '/'
}

/// Slash-joined concatenations with slash-free last segments decompose
/// uniquely.
proof fn lemma_split_unique(a1: Seq<char>, b1: Seq<char>, a2: Seq<char>, b2: Seq<char>)
    requires
        a1 + seq!['/'] + b1 == a2 + seq!['/'] + b2,
        no_slash(b1),
        no_slash(b2),
    ensures
        a1 == a2,
        b1 == b2,
{
    let t1 = a1 + seq!['/'] + b1;
    let t2 = a2 + seq!['/'] + b2;
    assert(t1.len() == t2.len());
    if b1.len() < b2.len() {
        let pos = a1.len() as int;
        assert(t1[pos] == '/');
        assert(t2[pos] == b2[pos - (a2.len() + 1)]);
        assert(false);
    }
    if b2.len() < b1.len() {
        let pos = a2.len() as int;
        assert(t2[pos] == '/');
        assert(t1[pos] == b1[pos - (a1.len() + 1)]);
        assert(false);
    }
    assert(b1.len() == b2.len());
    assert(a1.len() == a2.len());
    assert forall|k: int| 0 <= k < a1.len() implies a1[k] == a2[k] by {
        assert(t1[k] == a1[k]);
        assert(t2[k] == a2[k]);
    }
    assert forall|k: int| 0 <= k < b1.len() implies b1[k] == b2[k] by {
        assert(t1[a1.len() + 1 + k] == b1[k]);
        assert(t2[a2.len() + 1 + k] == b2[k]);
    }
    assert(a1 =~= a2);
    assert(b1 =~= b2);
}

/// A valid slug contains no slash.
proof fn lemma_slug_no_slash(x: Seq<char>)
    requires
        valid_slug(x),
    ensures
        no_slash(x),
{
    assert forall|k: int| 0 <= k < x.len() implies x[k] != '/' by {
        assert(is_slug_char(x[k]));
    }
}

/// Paths are injective over a well-formed store: two positions with the
/// same logical path are the same position. This is what makes the
/// path-of / resolve round trip exact.
pub proof fn lemma_path_injective(s: Seq<PageV>, i: int, j: int)
    requires
        store_wf(s),
        0 <= i < s.len(),
        0 <= j < s.len(),
        spec_path(s, i) == spec_path(s, j),
    ensures
        i == j,
    decreases i + j,
{
    if i == 0 && j == 0 {
    } else if i == 0 || j == 0 {
        let n = if i == 0 {
            j
        } else {
            i
        };
        assert(valid_slug(s[n].slug));
        assert(spec_path(s, n).len() > 0);
        assert(spec_path(s, 0).len() == 0);
    } else {
        let pi = find_page(s, s[i].parent_id->0);
        let pj = find_page(s, s[j].parent_id->0);
        lemma_find_page(s, s[i].parent_id->0);
        lemma_find_page(s, s[j].parent_id->0);
        let ppi = spec_path(s, pi);
        let ppj = spec_path(s, pj);
        lemma_slug_no_slash(s[i].slug);
        lemma_slug_no_slash(s[j].slug);
        if ppi.len() == 0 && ppj.len() == 0 {
            assert(s[i].slug == s[j].slug);
            lemma_path_injective(s, pi, pj);
            assert(s[i].parent_id == s[j].parent_id);
        } else if ppi.len() == 0 {
            // a bare slug never contains '/', but the longer form does
            assert(spec_path(s, j)[ppj.len() as int] == '/');
            assert(spec_path(s, i)[ppj.len() as int] != '/');
            assert(false);
        } else if ppj.len() == 0 {
            assert(spec_path(s, i)[ppi.len() as int] == '/');
            assert(spec_path(s, j)[ppi.len() as int] != '/');
            assert(false);
        } else {
            lemma_split_unique(ppi, s[i].slug, ppj, s[j].slug);
            lemma_path_injective(s, pi, pj);
            assert(s[i].parent_id == s[j].parent_id);
            assert(s[i].slug == s[j].slug);
        }
    }
}

/// Compare two string slices by contents.
fn str_eq(a: &str, b: &str) -> (r: bool)
    ensures
        r == (a@ == b@),
{
    let sa = a.to_owned();
    let sb = b.to_owned();
    sa == sb
}

/// Build the path string of the page at position `i` by walking the
/// parent chain up to the root.
fn path_of_index(store: &PageStore, i: usize) -> (r: String)
    requires
        store.wf(),
        i < store@.len(),
    ensures
        r@ == spec_path(store@, i as int),
    decreases i,
{
    proof {
        store.lemma_wf_view();
    }
    let p = store.page_at(i);
    match p.parent_id {
        None => String::new(),
        Some(pp) => {
            proof {
                lemma_find_page(store@, pp as int);
            }
            let pi = match store.index_of_id(pp) {
                Some(pi) => pi,
                None => {
                    proof {
                        assert(false);
                    }
                    0
                },
            };
            let mut prefix = path_of_index(store, pi);
            if prefix.as_str().unicode_len() == 0 {
                p.slug.clone()
            } else {
                proof {
                    reveal_strlit("/");
                    assert("/"@ =~= seq!['/']);
                }
                prefix.append("/");
                prefix.append(p.slug.as_str());
                prefix
            }
        },
    }
}

/// The logical path of the page with the given id, or `PageNotFound`.
pub fn id2path(store: &PageStore, page_id: i32) -> (r: Result<String, WikiError>)
    requires
        store.wf(),
    ensures
        match r {
            Ok(p) => find_page(store@, page_id as int) != -1 && p@ == spec_path(
                store@,
                find_page(store@, page_id as int),
            ),
            Err(e) => e == WikiError::PageNotFound && find_page(store@, page_id as int) == -1,
        },
{
    match store.index_of_id(page_id) {
        Some(i) => Ok(path_of_index(store, i)),
        None => Err(WikiError::PageNotFound),
    }
}

impl Page {
    /// Resolve a slash-joined logical path to its page; the empty path
    /// denotes the root. Fails with `PageNotFound` when no stored page's
    /// path equals the input.
    pub fn from_path(store: &PageStore, path: &str) -> (r: Result<Page, WikiError>)
        requires
            store.wf(),
        ensures
            match r {
                Ok(p) => exists|i: int|
                    0 <= i < store@.len() && p@ == store@[i] && spec_path(store@, i) == path@,
                Err(e) => e == WikiError::PageNotFound && forall|i: int|
                    0 <= i < store@.len() ==> spec_path(store@, i) != path@,
            },
    {
        let n = store.len();
        let mut i: usize = 0;
        while i < n
            invariant
                store.wf(),
                n == store@.len(),
                i <= n,
                forall|j: int| 0 <= j < i ==> spec_path(store@, j) != path@,
            decreases n - i,
        {
            let cand = path_of_index(store, i);
            if str_eq(cand.as_str(), path) {
                let p = store.page_at(i).clone();
                return Ok(p);
            }
            i += 1;
        }
        Err(WikiError::PageNotFound)
    }
}

} // verus!
