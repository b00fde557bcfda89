//! The authoritative tree of pages: identity, parent link, title and slug.
//!
//! Pages are held in insertion order; every non-root page's parent appears
//! strictly earlier in that order, which makes the parent chain acyclic by
//! construction and gives recursive walks an obvious termination measure.

use vstd::prelude::*;

verus! {

/// One node of the content tree. The single root is the page with no parent
/// and an empty slug; every other page has a parent and a non-empty,
/// URL-safe slug that is unique among its siblings.
pub struct Page {
    pub id: i32,
    pub parent_id: Option<i32>,
    pub title: String,
    pub slug: String,
}

/// The mathematical image of a stored page.
pub struct PageV {
    pub id: int,
    pub parent_id: Option<int>,
    pub title: Seq<char>,
    pub slug: Seq<char>,
}

impl View for Page {
    type V = PageV;

    open spec fn view(&self) -> PageV {
        PageV {
            id: self.id as int,
            parent_id: match self.parent_id {
                Some(p) => Some(p as int),
                None => None,
            },
            title: self.title@,
            slug: self.slug@,
        }
    }
}

impl Clone for Page {
    fn clone(&self) -> (r: Self)
        ensures
            r@ == self@,
    {
        Page {
            id: self.id,
            parent_id: self.parent_id,
            title: self.title.clone(),
            slug: self.slug.clone(),
        }
    }
}

/// A character a slug may contain: ASCII letters, digits, `-` and `_`.
/// In particular a slug never contains `/`, so slash-joined paths
/// decompose uniquely into their segments.
pub open spec fn is_slug_char(c: char) -> bool {
    ('a' <= c && c <= 'z') || ('A' <= c && c <= 'Z') || ('0' <= c && c <= '9') || c == '-' || c
        == '_'
}

/// A valid slug for a non-root page: non-empty and made of slug characters.
pub open spec fn valid_slug(s: Seq<char>) -> bool {
    s.len() > 0 && forall|i: int| 0 <= i < s.len() ==> is_slug_char(#[trigger] s[i])
}

/// How an operation on the content store fails.
///
/// `PageNotFound` and `RevisionNotFound` surface as user-visible "no such
/// page / revision" conditions; `RootDeletionForbidden` rejects a delete of
/// the root before any mutation; `SlugInvalid` and `SlugConflict` enforce
/// the slug well-formedness and sibling-uniqueness invariants on writes.
#[derive(Clone, Copy, Debug, PartialEq, Eq, Structural)]
pub enum WikiError {
    PageNotFound,
    RevisionNotFound,
    RootDeletionForbidden,
    SlugInvalid,
    SlugConflict,
}

/// First position of the page with the given id, or -1 if absent.
pub open spec fn find_page(s: Seq<PageV>, id: int) -> int
    decreases s.len(),
{
    if s.len() == 0 {
        -1
    } else if s[0].id == id {
        0
    } else {
        let r = find_page(s.drop_first(), id);
        if r == -1 {
            -1
        } else {
            r + 1
        }
    }
}

/// `find_page` returns either -1 (no such id) or the unique position
/// holding the id.
pub proof fn lemma_find_page(s: Seq<PageV>, id: int)
    ensures
        find_page(s, id) == -1 ==> forall|i: int| 0 <= i < s.len() ==> s[i].id != id,
        find_page(s, id) != -1 ==> 0 <= find_page(s, id) < s.len() && s[find_page(s, id)].id == id,
    decreases s.len(),
{
    if s.len() > 0 && s[0].id != id {
        lemma_find_page(s.drop_first(), id);
        let r = find_page(s.drop_first(), id);
        if r == -1 {
            assert forall|i: int| 0 <= i < s.len() implies s[i].id != id by {
                if i > 0 {
                    assert(s.drop_first()[i - 1] == s[i]);
                }
            }
        } else {
            assert(s.drop_first()[r] == s[r + 1]);
        }
    }
}

/// `find_page` returns the first position whose id matches.
pub proof fn lemma_find_page_first(s: Seq<PageV>, id: int, j: int)
    requires
        0 <= j < s.len(),
        s[j].id == id,
        forall|k: int| 0 <= k < j ==> s[k].id != id,
    ensures
        find_page(s, id) == j,
    decreases s.len(),
{
    if j > 0 {
        lemma_find_page_first(s.drop_first(), id, j - 1);
    }
}

/// With unique ids, `find_page` returns exactly the position that holds the id.
pub proof fn lemma_find_page_unique(s: Seq<PageV>, id: int, j: int)
    requires
        forall|i1: int, i2: int| 0 <= i1 < i2 < s.len() ==> s[i1].id != s[i2].id,
        0 <= j < s.len(),
        s[j].id == id,
    ensures
        find_page(s, id) == j,
{
    assert forall|k: int| 0 <= k < j implies s[k].id != id by {
        assert(s[k].id != s[j].id);
    }
    lemma_find_page_first(s, id, j);
}

/// Whether the page with id `pid` lies in the subtree rooted at the page
/// with id `rid` (a page is in its own subtree).
pub open spec fn descends(s: Seq<PageV>, rid: int, pid: int) -> bool
    decreases find_page(s, pid),
    when store_wf(s)
    via descends_decreases
{
    let i = find_page(s, pid);
    if i == -1 {
        false
    } else if pid == rid {
        true
    } else if i == 0 {
        false
    } else {
        descends(s, rid, s[i].parent_id->0)
    }
}

#[via_fn]
proof fn descends_decreases(s: Seq<PageV>, rid: int, pid: int) {
    if store_wf(s) {
        let i = find_page(s, pid);
        if i != -1 && pid != rid && i != 0 {
            lemma_find_page(s, pid);
        }
    }
}

/// The store invariant over a sequence of pages.
pub open spec fn store_wf(s: Seq<PageV>) -> bool {
    // ids are non-negative and unique
    &&& (forall|i: int| 0 <= i < s.len() ==> #[trigger] s[i].id >= 0)
    &&& (forall|i: int, j: int| 0 <= i < j < s.len() ==> s[i].id != s[j].id)
    // exactly the first page is the root: no parent, empty slug
    &&& (forall|i: int|
        0 <= i < s.len() ==> ((#[trigger] s[i].parent_id is None) <==> i == 0))
    &&& (s.len() > 0 ==> s[0].slug.len() == 0)
    // every non-root page: parent stored strictly earlier, valid slug
    &&& (forall|i: int|
        0 < i < s.len() ==> 0 <= find_page(s, (#[trigger] s[i]).parent_id->0) < i)
    &&& (forall|i: int| 0 < i < s.len() ==> valid_slug(#[trigger] s[i].slug))
    // no two siblings share a slug
    &&& (forall|i: int, j: int|
        0 < i < s.len() && 0 < j < s.len() && i != j && s[i].parent_id == s[j].parent_id
            ==> s[i].slug != s[j].slug)
}

/// The authoritative page tree, in insertion order.
pub struct PageStore {
    pages: Vec<Page>,
    next_id: i32,
}

impl View for PageStore {
    type V = Seq<PageV>;

    closed spec fn view(&self) -> Seq<PageV> {
        self.pages@.map_values(|p: Page| p@)
    }
}

impl PageStore {
    /// The invariant of a live store: the tree shape above, and a fresh id
    /// strictly greater than every stored id.
    pub closed spec fn wf(&self) -> bool {
        &&& store_wf(self@)
        &&& (forall|i: int| 0 <= i < self@.len() ==> #[trigger] self@[i].id < self.next_id as int)
        &&& self.next_id >= 0
    }

    /// A well-formed store's view satisfies the tree invariant.
    pub proof fn lemma_wf_view(&self)
        requires
            self.wf(),
        ensures
            store_wf(self@),
    {
    }

    /// Every stored id is below the id counter.
    pub proof fn lemma_ids_bounded(&self)
        requires
            self.wf(),
        ensures
            forall|i: int| 0 <= i < self@.len() ==> (#[trigger] self@[i]).id < self.id_counter(),
    {
    }

    /// An empty store.
    pub fn new() -> (r: PageStore)
        ensures
            r.wf(),
            r@.len() == 0,
            r.id_counter() == 0,
    {
        PageStore { pages: Vec::new(), next_id: 0 }
    }

    /// Number of stored pages.
    pub fn len(&self) -> (r: usize)
        ensures
            r == self@.len(),
    {
        self.pages.len()
    }

    /// The id the next created page will receive; ids are never reused.
    pub closed spec fn id_counter(&self) -> int {
        self.next_id as int
    }

    /// The id the next created page will receive, as a runtime value.
    pub fn next_page_id(&self) -> (r: i32)
        ensures
            r as int == self.id_counter(),
    {
        self.next_id
    }

    /// Position of the page with the given id, if present.
    pub(crate) fn index_of_id(&self, id: i32) -> (r: Option<usize>)
        ensures
            match r {
                Some(i) => i as int == find_page(self@, id as int) && i < self@.len(),
                None => find_page(self@, id as int) == -1,
            },
    {
        let mut k: usize = 0;
        while k < self.pages.len()
            invariant
                k <= self@.len(),
                self@.len() == self.pages@.len(),
                forall|j: int| 0 <= j < k ==> self@[j].id != id as int,
            decreases self@.len() - k,
        {
            if self.pages[k].id == id {
                proof {
                    lemma_find_page_first(self@, id as int, k as int);
                }
                return Some(k);
            }
            k += 1;
        }
        proof {
            lemma_find_page(self@, id as int);
        }
        None
    }

    /// Read a stored page by position.
    pub fn page_at(&self, i: usize) -> (r: &Page)
        requires
            i < self@.len(),
        ensures
            r@ == self@[i as int],
    {
        &self.pages[i]
    }

    /// Look a page up by id.
    pub fn get_by_id(&self, id: i32) -> (r: Option<Page>)
        ensures
            match r {
                Some(p) => find_page(self@, id as int) != -1 && p@ == self@[find_page(
                    self@,
                    id as int,
                )],
                None => find_page(self@, id as int) == -1,
            },
    {
        proof {
            lemma_find_page(self@, id as int);
        }
        match self.index_of_id(id) {
            Some(i) => Some(self.pages[i].clone()),
            None => None,
        }
    }

    /// Whether a page other than the one at position `skip` already uses
    /// this slug under this parent.
    fn sibling_slug_taken(&self, parent_id: i32, slug: &String, skip: Option<usize>) -> (r: bool)
        ensures
            r == (exists|i: int|
                0 <= i < self@.len() && (skip is Some ==> i != skip->0 as int) && (
                #[trigger] self@[i]).parent_id == Some(parent_id as int) && self@[i].slug
                    == slug@),
    {
        let mut k: usize = 0;
        while k < self.pages.len()
            invariant
                k <= self@.len(),
                self@.len() == self.pages@.len(),
                forall|j: int|
                    0 <= j < k ==> !((skip is Some ==> j != skip->0 as int) && (
                    #[trigger] self@[j]).parent_id == Some(parent_id as int) && self@[j].slug
                        == slug@),
            decreases self@.len() - k,
        {
            let skipped = match skip {
                Some(s) => s == k,
                None => false,
            };
            if !skipped {
                let p = &self.pages[k];
                match p.parent_id {
                    Some(pp) => {
                        if pp == parent_id && p.slug == *slug {
                            proof {
                                let w = k as int;
                                assert((skip is Some ==> w != skip->0 as int) && self@[w].parent_id
                                    == Some(parent_id as int) && self@[w].slug == slug@);
                            }
                            return true;
                        }
                    },
                    None => {},
                }
            }
            k += 1;
        }
        false
    }

    /// Create the root page in an empty store: no parent, empty slug.
    pub fn insert_root(&mut self, title: String) -> (r: i32)
        requires
            old(self).wf(),
            old(self)@.len() == 0,
            old(self).id_counter() < i32::MAX as int,
        ensures
            final(self).wf(),
            r as int == old(self).id_counter(),
            final(self).id_counter() == old(self).id_counter() + 1,
            final(self)@ == old(self)@.push(
                PageV { id: r as int, parent_id: None, title: title@, slug: Seq::<char>::empty() },
            ),
    {
        let id = self.next_id;
        self.next_id = self.next_id + 1;
        let p = Page { id, parent_id: None, title, slug: String::new() };
        let ghost target = old(self)@.push(
            PageV { id: id as int, parent_id: None, title: p.title@, slug: Seq::<char>::empty() },
        );
        self.pages.push(p);
        proof {
            assert(self@ =~= target);
        }
        id
    }

    /// Insert a new leaf under an existing parent. The slug must be a valid
    /// slug that no child of that parent already uses.
    pub fn insert_child(&mut self, parent_id: i32, title: String, slug: String) -> (r: Result<
        i32,
        WikiError,
    >)
        requires
            old(self).wf(),
            old(self).id_counter() < i32::MAX as int,
        ensures
            final(self).wf(),
            match r {
                Ok(id) => {
                    &&& find_page(old(self)@, parent_id as int) != -1
                    &&& valid_slug(slug@)
                    &&& !(exists|i: int|
                        0 <= i < old(self)@.len() && (#[trigger] old(self)@[i]).parent_id == Some(
                            parent_id as int,
                        ) && old(self)@[i].slug == slug@)
                    &&& id as int == old(self).id_counter()
                    &&& final(self).id_counter() == old(self).id_counter() + 1
                    &&& final(self)@ == old(self)@.push(
                        PageV {
                            id: id as int,
                            parent_id: Some(parent_id as int),
                            title: title@,
                            slug: slug@,
                        },
                    )
                },
                Err(WikiError::PageNotFound) => find_page(old(self)@, parent_id as int) == -1
                    && *final(self) == *old(self),
                Err(WikiError::SlugInvalid) => find_page(old(self)@, parent_id as int) != -1
                    && !valid_slug(slug@) && *final(self) == *old(self),
                Err(WikiError::SlugConflict) => {
                    &&& find_page(old(self)@, parent_id as int) != -1
                    &&& valid_slug(slug@)
                    &&& (exists|i: int|
                        0 <= i < old(self)@.len() && (#[trigger] old(self)@[i]).parent_id == Some(
                            parent_id as int,
                        ) && old(self)@[i].slug == slug@)
                    &&& *final(self) == *old(self)
                },
                _ => false,
            },
    {
        let pi = match self.index_of_id(parent_id) {
            Some(pi) => pi,
            None => {
                return Err(WikiError::PageNotFound);
            },
        };
        if !check_slug(slug.as_str()) {
            return Err(WikiError::SlugInvalid);
        }
        if self.sibling_slug_taken(parent_id, &slug, None) {
            return Err(WikiError::SlugConflict);
        }
        let id = self.next_id;
        self.next_id = self.next_id + 1;
        let p = Page { id, parent_id: Some(parent_id), title, slug };
        let ghost target = old(self)@.push(
            PageV {
                id: id as int,
                parent_id: Some(parent_id as int),
                title: p.title@,
                slug: p.slug@,
            },
        );
        self.pages.push(p);
        proof {
            let s0 = old(self)@;
            let s1 = self@;
            assert(s1 =~= target);
            assert forall|i1: int, i2: int| 0 <= i1 < i2 < s1.len() implies s1[i1].id
                != s1[i2].id by {
                if i2 == s1.len() - 1 {
                    assert(s0[i1].id < old(self).next_id as int);
                }
            }
            assert forall|i: int| 0 < i < s1.len() implies 0 <= find_page(
                s1,
                (#[trigger] s1[i]).parent_id->0,
            ) < i by {
                if i < s1.len() - 1 {
                    let pid = s1[i].parent_id->0;
                    let fo = find_page(s0, pid);
                    lemma_find_page(s0, pid);
                    lemma_find_page_unique(s1, pid, fo);
                } else {
                    lemma_find_page(s0, parent_id as int);
                    lemma_find_page_unique(s1, parent_id as int, pi as int);
                }
            }
        }
        Ok(id)
    }

    /// Change a page's title and slug in place; revisions are untouched.
    /// The root keeps its empty slug; any other page needs a valid slug
    /// that no sibling uses.
    pub fn update(&mut self, page_id: i32, title: String, slug: String) -> (r: Result<
        (),
        WikiError,
    >)
        requires
            old(self).wf(),
        ensures
            final(self).wf(),
            final(self).id_counter() == old(self).id_counter(),
            match r {
                Ok(_) => {
                    let i = find_page(old(self)@, page_id as int);
                    &&& i != -1
                    &&& (i == 0 ==> slug@.len() == 0)
                    &&& (i > 0 ==> valid_slug(slug@) && !(exists|j: int|
                        0 <= j < old(self)@.len() && j != i && (
                        #[trigger] old(self)@[j]).parent_id == old(self)@[i].parent_id && old(
                            self,
                        )@[j].slug == slug@))
                    &&& final(self)@ == old(self)@.update(
                        i,
                        PageV {
                            id: page_id as int,
                            parent_id: old(self)@[i].parent_id,
                            title: title@,
                            slug: slug@,
                        },
                    )
                },
                Err(WikiError::PageNotFound) => find_page(old(self)@, page_id as int) == -1
                    && *final(self) == *old(self),
                Err(WikiError::SlugInvalid) => {
                    let i = find_page(old(self)@, page_id as int);
                    &&& i != -1
                    &&& ((i == 0 && slug@.len() != 0) || (i > 0 && !valid_slug(slug@)))
                    &&& *final(self) == *old(self)
                },
                Err(WikiError::SlugConflict) => {
                    let i = find_page(old(self)@, page_id as int);
                    &&& i > 0
                    &&& valid_slug(slug@)
                    &&& (exists|j: int|
                        0 <= j < old(self)@.len() && j != i && (
                        #[trigger] old(self)@[j]).parent_id == old(self)@[i].parent_id && old(
                            self,
                        )@[j].slug == slug@)
                    &&& *final(self) == *old(self)
                },
                _ => false,
            },
    {
        let i = match self.index_of_id(page_id) {
            Some(i) => i,
            None => {
                return Err(WikiError::PageNotFound);
            },
        };
        if i == 0 {
            if slug.unicode_len() != 0 {
                return Err(WikiError::SlugInvalid);
            }
        } else {
            if !check_slug(slug.as_str()) {
                return Err(WikiError::SlugInvalid);
            }
            let parent = match &self.pages[i].parent_id {
                Some(pp) => *pp,
                None => 0,
            };
            if self.sibling_slug_taken(parent, &slug, Some(i)) {
                return Err(WikiError::SlugConflict);
            }
        }
        let old_parent = self.pages[i].parent_id;
        let np = Page { id: page_id, parent_id: old_parent, title, slug };
        let ghost target = old(self)@.update(i as int, np@);
        self.pages.set(i, np);
        proof {
            let s0 = old(self)@;
            let s1 = self@;
            assert(s1 =~= target);
            lemma_find_page(s0, page_id as int);
            assert(forall|j: int| 0 <= j < s1.len() ==> (#[trigger] s1[j]).id == s0[j].id);
            assert forall|k: int| 0 < k < s1.len() implies 0 <= find_page(
                s1,
                (#[trigger] s1[k]).parent_id->0,
            ) < k by {
                let pid = s1[k].parent_id->0;
                assert(s1[k].parent_id == s0[k].parent_id);
                let fo = find_page(s0, pid);
                lemma_find_page(s0, pid);
                lemma_find_page_unique(s1, pid, fo);
            }
            assert forall|k: int, j: int|
                0 < k < s1.len() && 0 < j < s1.len() && k != j && s1[k].parent_id
                    == s1[j].parent_id implies s1[k].slug != s1[j].slug by {
                if k == i as int || j == i as int {
                    let o = if k == i as int { j } else { k };
                    assert(s1[o] == s0[o]);
                }
            }
        }
        Ok(())
    }

    /// Delete a non-root page and, transitively, all of its descendants.
    /// Returns the removed ids in storage order; the root is never removable.
    pub fn delete_cascade(&mut self, id: i32) -> (r: Result<Vec<i32>, WikiError>)
        requires
            old(self).wf(),
        ensures
            final(self).wf(),
            final(self).id_counter() == old(self).id_counter(),
            match r {
                Ok(removed) => {
                    &&& find_page(old(self)@, id as int) > 0
                    &&& final(self)@ == remove_subtree(old(self)@, id as int)
                    &&& ids_of(removed@) == removed_ids(old(self)@, id as int)
                },
                Err(WikiError::RootDeletionForbidden) => find_page(old(self)@, id as int) == 0
                    && *final(self) == *old(self),
                Err(WikiError::PageNotFound) => find_page(old(self)@, id as int) == -1
                    && *final(self) == *old(self),
                _ => false,
            },
    {
        let idx = match self.index_of_id(id) {
            Some(i) => i,
            None => {
                return Err(WikiError::PageNotFound);
            },
        };
        if idx == 0 {
            return Err(WikiError::RootDeletionForbidden);
        }
        let ghost keepc = |p: PageV| !descends(old(self)@, id as int, p.id);
        let ghost gonec = |p: PageV| descends(old(self)@, id as int, p.id);
        let mut kept: Vec<Page> = Vec::new();
        let mut removed: Vec<i32> = Vec::new();
        let ghost mut imap: Seq<int> = Seq::empty();
        let mut k: usize = 0;
        while k < self.pages.len()
            invariant
                old(self).wf(),
                self@ == old(self)@,
                self@.len() == self.pages@.len(),
                0 < idx as int && (idx as int) < old(self)@.len(),
                find_page(old(self)@, id as int) == idx as int,
                k <= old(self)@.len(),
                kept@.map_values(|p: Page| p@) == old(self)@.subrange(0, k as int).filter(keepc),
                removed@.map_values(|x: i32| x as int) == old(self)@.subrange(0, k as int).filter(
                    gonec,
                ).map_values(|p: PageV| p.id),
                keepc == (|p: PageV| !descends(old(self)@, id as int, p.id)),
                gonec == (|p: PageV| descends(old(self)@, id as int, p.id)),
                forall|j: int|
                    0 <= j < k ==> (removed@.map_values(|x: i32| x as int).contains(
                        (#[trigger] old(self)@[j]).id,
                    ) <==> descends(old(self)@, id as int, old(self)@[j].id)),
                forall|m: int|
                    0 <= m < removed@.len() ==> exists|j: int|
                        0 <= j < k && (#[trigger] removed@[m]) as int == old(self)@[j].id,
                imap.len() == kept@.len(),
                forall|a: int, b: int| 0 <= a < b < imap.len() ==> imap[a] < imap[b],
                forall|a: int| 0 <= a < imap.len() ==> 0 <= #[trigger] imap[a] < k as int,
                forall|a: int|
                    0 <= a < imap.len() ==> kept@.map_values(|p: Page| p@)[a] == old(
                        self,
                    )@[#[trigger] imap[a]] && !descends(
                        old(self)@,
                        id as int,
                        old(self)@[imap[a]].id,
                    ),
                forall|j: int|
                    0 <= j < k && !descends(old(self)@, id as int, (#[trigger] old(self)@[j]).id)
                        ==> exists|a: int| 0 <= a < imap.len() && imap[a] == j,
            decreases self.pages@.len() - k,
        {
            let ghost s0 = old(self)@;
            let ghost rid = id as int;
            let ghost pk = s0[k as int];
            proof {
                lemma_find_page_unique(s0, pk.id, k as int);
            }
            let p = &self.pages[k];
            let is_gone = if p.id == id {
                true
            } else {
                match p.parent_id {
                    Some(pp) => {
                        let hit = vec_contains_i32(&removed, pp);
                        proof {
                            let ppi = pp as int;
                            let pi = find_page(s0, ppi);
                            lemma_find_page(s0, ppi);
                            let mapped = removed@.map_values(|x: i32| x as int);
                            if hit {
                                let m = choose|m: int|
                                    0 <= m < removed@.len() && removed@[m] == pp;
                                assert(mapped[m] == ppi);
                            }
                            if mapped.contains(ppi) {
                                let m = choose|m: int| 0 <= m < mapped.len() && mapped[m] == ppi;
                                assert(removed@[m] == pp);
                            }
                            assert(hit == mapped.contains(ppi));
                            assert(mapped.contains(ppi) == descends(s0, rid, ppi));
                        }
                        hit
                    },
                    None => false,
                }
            };
            proof {
                assert(is_gone == descends(s0, rid, pk.id));
            }
            let ghost removed0 = removed@;
            let ghost kept0 = kept@;
            let ghost imap0 = imap;
            let pid_k = p.id;
            if is_gone {
                removed.push(pid_k);
            } else {
                let cl = p.clone();
                kept.push(cl);
                proof {
                    imap = imap.push(k as int);
                }
            }
            proof {
                reveal(Seq::filter);
                let kk = k as int;
                assert(gonec(pk) == descends(s0, rid, pk.id));
                assert(keepc(pk) == !descends(s0, rid, pk.id));
                let pre0 = s0.subrange(0, kk);
                let pre1 = s0.subrange(0, kk + 1);
                assert(pre1.drop_last() =~= pre0);
                assert(pre1.last() == pk);
                let idof = |q: PageV| q.id;
                let asint = |x: i32| x as int;
                let vw = |q: Page| q@;
                let m0 = removed0.map_values(asint);
                let m1 = removed@.map_values(asint);
                if is_gone {
                    assert(removed@ == removed0.push(pid_k));
                    assert(m1 =~= m0.push(pk.id));
                    assert(pre1.filter(gonec) == pre0.filter(gonec).push(pk));
                    assert(pre1.filter(keepc) == pre0.filter(keepc));
                    assert(pre1.filter(gonec).map_values(idof) =~= pre0.filter(gonec).map_values(
                        idof,
                    ).push(pk.id));
                    assert(m1 == pre1.filter(gonec).map_values(idof));
                    assert(kept@.map_values(vw) == pre1.filter(keepc));
                    assert forall|j: int|
                        0 <= j < kk + 1 implies (m1.contains((#[trigger] s0[j]).id) <==> descends(
                        s0,
                        rid,
                        s0[j].id,
                    )) by {
                        if j == kk {
                            assert(m1[m1.len() - 1] == pk.id);
                        } else {
                            assert(s0[j].id != pk.id);
                            if m1.contains(s0[j].id) {
                                let m = choose|m: int| 0 <= m < m1.len() && m1[m] == s0[j].id;
                                assert(m < m0.len());
                                assert(m0[m] == s0[j].id);
                                assert(m0.contains(s0[j].id));
                            }
                            if m0.contains(s0[j].id) {
                                let m = choose|m: int| 0 <= m < m0.len() && m0[m] == s0[j].id;
                                assert(m1[m] == s0[j].id);
                                assert(m1.contains(s0[j].id));
                            }
                        }
                    }
                    assert forall|m: int| 0 <= m < removed@.len() implies exists|j: int|
                        0 <= j < kk + 1 && (#[trigger] removed@[m]) as int == s0[j].id by {
                        if m < removed0.len() {
                            assert(removed0[m] == removed@[m]);
                            let j = choose|j: int|
                                0 <= j < kk && (removed0[m]) as int == s0[j].id;
                            assert(0 <= j < kk + 1 && (removed@[m]) as int == s0[j].id);
                        } else {
                            assert((removed@[m]) as int == s0[kk].id);
                        }
                    }
                } else {
                    assert(removed@ == removed0);
                    assert(m1 == m0);
                    assert(pre1.filter(gonec) == pre0.filter(gonec));
                    assert(pre1.filter(keepc) == pre0.filter(keepc).push(pk));
                    assert(kept@.map_values(vw) =~= kept0.map_values(vw).push(pk));
                    assert(kept@.map_values(vw) == pre1.filter(keepc));
                    assert(m1 == pre1.filter(gonec).map_values(idof));
                    assert forall|j: int|
                        0 <= j < kk + 1 implies (m1.contains((#[trigger] s0[j]).id) <==> descends(
                        s0,
                        rid,
                        s0[j].id,
                    )) by {
                        if j == kk {
                            if m1.contains(s0[kk].id) {
                                let m = choose|m: int| 0 <= m < m1.len() && m1[m] == s0[kk].id;
                                assert(removed@[m] as int == s0[kk].id);
                                let jw = choose|jw: int|
                                    0 <= jw < kk && (removed@[m]) as int == s0[jw].id;
                                assert(s0[jw].id == s0[kk].id);
                                assert(false);
                            }
                        }
                    }
                    assert forall|a: int|
                        0 <= a < imap.len() implies kept@.map_values(vw)[a] == s0[#[trigger] imap[a]]
                            && !descends(s0, rid, s0[imap[a]].id) by {
                        if a < imap0.len() {
                            assert(imap[a] == imap0[a]);
                            assert(kept@.map_values(vw)[a] == kept0.map_values(vw)[a]);
                        } else {
                            assert(imap[a] == kk);
                        }
                    }
                    assert forall|j: int|
                        0 <= j < kk + 1 && !descends(
                            s0,
                            rid,
                            (#[trigger] s0[j]).id,
                        ) implies exists|a: int| 0 <= a < imap.len() && imap[a] == j by {
                        if j == kk {
                            assert(imap[imap.len() - 1] == kk);
                        } else {
                            let a = choose|a: int| 0 <= a < imap0.len() && imap0[a] == j;
                            assert(imap[a] == j);
                        }
                    }
                }
            }
            k += 1;
        }
        let ghost s0 = old(self)@;
        let ghost rid = id as int;
        self.pages = kept;
        proof {
            assert(s0.subrange(0, s0.len() as int) =~= s0);
            assert(ids_of(removed@) =~= removed@.map_values(|x: i32| x as int));
            let s1 = self@;
            lemma_subseq_wf(s0, s1, imap, rid);
            assert forall|a: int| 0 <= a < s1.len() implies #[trigger] s1[a].id
                < old(self).next_id as int by {
                assert(s1[a] == s0[imap[a]]);
            }
        }
        Ok(removed)
    }
}

/// The store after deleting the subtree rooted at the page with id `rid`,
/// in storage order.
pub open spec fn remove_subtree(s: Seq<PageV>, rid: int) -> Seq<PageV> {
    s.filter(|p: PageV| !descends(s, rid, p.id))
}

/// The ids of the pages that deleting the subtree at `rid` removes,
/// in storage order.
pub open spec fn removed_ids(s: Seq<PageV>, rid: int) -> Seq<int> {
    s.filter(|p: PageV| descends(s, rid, p.id)).map_values(|p: PageV| p.id)
}

/// A subsequence of a well-formed store that drops exactly one non-root
/// subtree, described by the strictly increasing index map `imap`, is again
/// a well-formed store.
proof fn lemma_subseq_wf(s0: Seq<PageV>, s1: Seq<PageV>, imap: Seq<int>, rid: int)
    requires
        store_wf(s0),
        find_page(s0, rid) > 0,
        imap.len() == s1.len(),
        forall|a: int, b: int| 0 <= a < b < imap.len() ==> imap[a] < imap[b],
        forall|a: int| 0 <= a < imap.len() ==> 0 <= #[trigger] imap[a] < s0.len(),
        forall|a: int|
            0 <= a < imap.len() ==> #[trigger] s1[a] == s0[imap[a]] && !descends(
                s0,
                rid,
                s0[imap[a]].id,
            ),
        forall|j: int|
            0 <= j < s0.len() && !descends(s0, rid, #[trigger] s0[j].id) ==> exists|a: int|
                0 <= a < imap.len() && imap[a] == j,
    ensures
        store_wf(s1),
        s1.len() > 0,
{
    lemma_find_page(s0, rid);
    if s0[0].id == rid {
        lemma_find_page_unique(s0, rid, 0);
    }
    assert(s0[0].id != rid);
    lemma_find_page_unique(s0, s0[0].id, 0);
    assert(!descends(s0, rid, s0[0].id));
    let a0 = choose|a: int| 0 <= a < imap.len() && imap[a] == 0;
    assert(0 <= a0 < imap.len() && imap[a0] == 0);
    if a0 > 0 {
        assert(imap[0] < imap[a0]);
    }
    assert(a0 == 0);
    assert forall|i1: int, i2: int| 0 <= i1 < i2 < s1.len() implies s1[i1].id != s1[i2].id by {
        assert(imap[i1] < imap[i2]);
    }
    assert forall|a: int| 0 <= a < s1.len() implies ((#[trigger] s1[a].parent_id is None) <==> a
        == 0) by {
        if a > 0 {
            assert(imap[a0] < imap[a]);
        }
    }
    assert forall|a: int| 0 < a < s1.len() implies 0 <= find_page(
        s1,
        (#[trigger] s1[a]).parent_id->0,
    ) < a by {
        let o = imap[a];
        assert(imap[a0] < imap[a]);
        let pp = s0[o].parent_id->0;
        let pi = find_page(s0, pp);
        lemma_find_page(s0, pp);
        lemma_find_page_unique(s0, s0[o].id, o);
        assert(s0[o].id != rid);
        assert(!descends(s0, rid, pp));
        assert(s0[pi].id == pp);
        assert(!descends(s0, rid, s0[pi].id));
        let b = choose|b: int| 0 <= b < imap.len() && imap[b] == pi;
        assert(0 <= b < imap.len() && imap[b] == pi);
        if b > a {
            assert(imap[a] < imap[b]);
        }
        if b == a {
            assert(imap[b] == o);
        }
        assert(b < a);
        assert(s1[b].id == pp);
        assert forall|i1: int, i2: int| 0 <= i1 < i2 < s1.len() implies s1[i1].id
            != s1[i2].id by {
            assert(imap[i1] < imap[i2]);
        }
        lemma_find_page_unique(s1, pp, b);
    }
    assert forall|a: int| 0 < a < s1.len() implies valid_slug(#[trigger] s1[a].slug) by {
        assert(imap[a0] < imap[a]);
        assert(s1[a] == s0[imap[a]]);
    }
    assert forall|a: int, b: int|
        0 < a < s1.len() && 0 < b < s1.len() && a != b && s1[a].parent_id
            == s1[b].parent_id implies s1[a].slug != s1[b].slug by {
        assert(imap[a0] < imap[a]);
        assert(imap[a0] < imap[b]);
        if a < b {
            assert(imap[a] < imap[b]);
        } else {
            assert(imap[b] < imap[a]);
        }
    }
}

/// The mathematical image of a vector of ids.
pub open spec fn ids_of(v: Seq<i32>) -> Seq<int> {
    v.map_values(|x: i32| x as int)
}

/// Linear membership test.
pub(crate) fn vec_contains_i32(v: &Vec<i32>, x: i32) -> (r: bool)
    ensures
        r == v@.contains(x),
{
    let mut k: usize = 0;
    while k < v.len()
        invariant
            k <= v@.len(),
            forall|j: int| 0 <= j < k ==> v@[j] != x,
        decreases v@.len() - k,
    {
        if v[k] == x {
            assert(v@[k as int] == x);
            return true;
        }
        k += 1;
    }
    false
}

impl PageStore {
    /// The flat `(id, parent id, slug)` projection of the store, in
    /// storage order, as the navigation builder consumes it.
    pub fn all_edges(&self) -> (r: Vec<(i32, Option<i32>, String)>)
        ensures
            r@.len() == self@.len(),
            forall|i: int|
                0 <= i < r@.len() ==> ((#[trigger] r@[i]).0 as int == self@[i].id && (match r@[i].1 {
                    Some(p) => self@[i].parent_id == Some(p as int),
                    None => self@[i].parent_id is None,
                }) && r@[i].2@ == self@[i].slug),
    {
        let mut out: Vec<(i32, Option<i32>, String)> = Vec::new();
        let mut k: usize = 0;
        while k < self.pages.len()
            invariant
                self@.len() == self.pages@.len(),
                k <= self@.len(),
                out@.len() == k,
                forall|i: int|
                    0 <= i < k ==> ((#[trigger] out@[i]).0 as int == self@[i].id && (match out@[i].1 {
                        Some(p) => self@[i].parent_id == Some(p as int),
                        None => self@[i].parent_id is None,
                    }) && out@[i].2@ == self@[i].slug),
            decreases self@.len() - k,
        {
            let p = &self.pages[k];
            out.push((p.id, p.parent_id, p.slug.clone()));
            k += 1;
        }
        out
    }
}

/// Check that a string is a valid slug for a non-root page.
pub fn check_slug(s: &str) -> (r: bool)
    ensures
        r == valid_slug(s@),
{
    let n = s.unicode_len();
    if n == 0 {
        return false;
    }
    let mut i: usize = 0;
    while i < n
        invariant
            n == s@.len(),
            i <= n,
            forall|j: int| 0 <= j < i ==> is_slug_char(#[trigger] s@[j]),
        decreases n - i,
    {
        let c = s.get_char(i);
        let ok = ('a' <= c && c <= 'z') || ('A' <= c && c <= 'Z') || ('0' <= c && c <= '9') || c
            == '-' || c == '_';
        if !ok {
            return false;
        }
        i += 1;
    }
    true
}

} // verus!
