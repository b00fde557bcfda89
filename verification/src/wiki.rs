//! The coordinator of the three stores. Every authoritative mutation goes
//! through one entry point here, which performs the page-tree write, then
//! the revision write, then the search-projection write, in that order,
//! so the derived index tracks the content it mirrors.

use vstd::prelude::*;

use crate::external::html_of;
use crate::page_store::Page;
use crate::page_store::PageStore;
use crate::page_store::PageV;
use crate::page_store::WikiError;
use crate::page_store::find_page;
use crate::page_store::remove_subtree;
use crate::page_store::removed_ids;
use crate::page_store::valid_slug;
use crate::path_codec::id2path;
use crate::path_codec::spec_path;
use crate::revision_log::PageRevision;
use crate::revision_log::RevisionLog;
use crate::revision_log::RevisionV;
use crate::revision_log::revs_of;
use crate::search_index::SearchIndex;
use crate::search_index::SearchResult;
use crate::search_index::SearchResultV;
use crate::search_index::find_entry;
use crate::search_index::lemma_find_entry;
use crate::search_index::surviving;

verus! {

/// What a writer submits for a page: display title, path segment, and the
/// Markdown of the body and of the optional sidebar note.
pub struct PageInfo {
    pub title: String,
    pub slug: String,
    pub markdown_content: String,
    pub sidebar_markdown_content: String,
}

impl Clone for PageInfo {
    fn clone(&self) -> (r: Self)
        ensures
            r.title@ == self.title@,
            r.slug@ == self.slug@,
            r.markdown_content@ == self.markdown_content@,
            r.sidebar_markdown_content@ == self.sidebar_markdown_content@,
    {
        PageInfo {
            title: self.title.clone(),
            slug: self.slug.clone(),
            markdown_content: self.markdown_content.clone(),
            sidebar_markdown_content: self.sidebar_markdown_content.clone(),
        }
    }
}

/// Whether a page has at least one revision; pages without one (caught in
/// the middle of creation) are skipped by the rebuild.
pub open spec fn has_revs(log: Seq<RevisionV>, p: PageV) -> bool {
    revs_of(log, p.id).len() > 0
}

/// The search row the rebuild derives for one page: its current path and
/// title, and the Markdown of its latest revision.
pub open spec fn rebuilt_entry(s: Seq<PageV>, log: Seq<RevisionV>, p: PageV) -> SearchResultV {
    SearchResultV {
        id: p.id,
        path: spec_path(s, find_page(s, p.id)),
        title: p.title,
        markdown_content: revs_of(log, p.id).last().markdown_content,
        sidebar_markdown_content: revs_of(log, p.id).last().sidebar_markdown_content,
    }
}

/// The rows derived from the pages in `sub`, against the full store `s`
/// and history `log`.
pub open spec fn rebuilt_from(s: Seq<PageV>, log: Seq<RevisionV>, sub: Seq<PageV>) -> Seq<
    SearchResultV,
> {
    sub.filter(|p: PageV| has_revs(log, p)).map_values(|p: PageV| rebuilt_entry(s, log, p))
}

/// The whole rebuilt projection: one row per page that has a revision, in
/// storage order.
pub open spec fn rebuilt(s: Seq<PageV>, log: Seq<RevisionV>) -> Seq<SearchResultV> {
    rebuilt_from(s, log, s)
}

/// Appending one page extends the rebuilt rows by its row exactly when it
/// has a revision.
proof fn lemma_rebuilt_push(s: Seq<PageV>, log: Seq<RevisionV>, sub: Seq<PageV>, e: PageV)
    ensures
        has_revs(log, e) ==> rebuilt_from(s, log, sub.push(e)) == rebuilt_from(s, log, sub).push(
            rebuilt_entry(s, log, e),
        ),
        !has_revs(log, e) ==> rebuilt_from(s, log, sub.push(e)) == rebuilt_from(s, log, sub),
{
    reveal(Seq::filter);
    let pred = |p: PageV| has_revs(log, p);
    assert(sub.push(e).drop_last() =~= sub);
    if has_revs(log, e) {
        assert(sub.push(e).filter(pred) == sub.filter(pred).push(e));
        assert(rebuilt_from(s, log, sub.push(e)) =~= rebuilt_from(s, log, sub).push(
            rebuilt_entry(s, log, e),
        ));
    }
}

/// The three stores of the system: the authoritative page tree, the
/// append-only revision history, and the derived search projection.
pub struct Wiki {
    pub pages: PageStore,
    pub revisions: RevisionLog,
    pub search: SearchIndex,
}

impl Wiki {
    /// The joint invariant: each store is well-formed, and the history and
    /// the index only ever reference page ids the tree has issued.
    pub open spec fn wf(&self) -> bool {
        &&& self.pages.wf()
        &&& self.revisions.wf()
        &&& self.search.wf()
        &&& (forall|i: int|
            0 <= i < self.revisions@.len() ==> (#[trigger] self.revisions@[i]).page_id
                < self.pages.id_counter())
        &&& (forall|i: int|
            0 <= i < self.search@.len() ==> (#[trigger] self.search@[i]).id
                < self.pages.id_counter())
    }

    /// Whether the id spaces still have room for another create; callers
    /// outside verified code test this before a write.
    pub fn can_create(&self) -> (r: bool)
        ensures
            r == (self.pages.id_counter() < i32::MAX as int && self.revisions.id_counter()
                < i32::MAX as int),
    {
        self.pages.next_page_id() < i32::MAX && self.revisions.next_revision_id() < i32::MAX
    }

    /// A fresh, empty system.
    pub fn new() -> (r: Wiki)
        ensures
            r.wf(),
            r.pages@.len() == 0,
            r.revisions@.len() == 0,
            r.search@.len() == 0,
            r.pages.id_counter() == 0,
            r.revisions.id_counter() == 0,
    {
        Wiki { pages: PageStore::new(), revisions: RevisionLog::new(), search: SearchIndex::new() }
    }

    /// Create the root page of an empty system: empty slug, a first
    /// revision, and its search row.
    pub fn populate_default_root(&mut self) -> (r: i32)
        requires
            old(self).wf(),
            old(self).pages@.len() == 0,
            old(self).search@.len() == 0,
            old(self).pages.id_counter() < i32::MAX as int,
            old(self).revisions.id_counter() < i32::MAX as int,
        ensures
            final(self).wf(),
            r as int == old(self).pages.id_counter(),
            final(self).pages.id_counter() == old(self).pages.id_counter() + 1,
            final(self).revisions.id_counter() == old(self).revisions.id_counter() + 1,
            final(self).pages@ == old(self).pages@.push(
                PageV {
                    id: r as int,
                    parent_id: None,
                    title: "Root"@,
                    slug: Seq::<char>::empty(),
                },
            ),
            final(self).revisions@ == old(self).revisions@.push(final(self).revisions@.last()),
            final(self).revisions@.last().page_id == r as int,
            final(self).revisions@.last().markdown_content == "Default root"@,
            final(self).revisions@.last().html_content == html_of("Default root"@),
            final(self).revisions@.last().sidebar_markdown_content == Seq::<char>::empty(),
            final(self).revisions@.last().sidebar_html_content == html_of(Seq::<char>::empty()),
            final(self).search@ == old(self).search@.push(
                SearchResultV {
                    id: r as int,
                    path: Seq::<char>::empty(),
                    title: "Root"@,
                    markdown_content: "Default root"@,
                    sidebar_markdown_content: Seq::<char>::empty(),
                },
            ),
    {
        let id = self.pages.insert_root(String::from_str("Root"));
        let _rev = self.revisions.append(id, String::from_str("Default root"), String::new());
        proof {
            lemma_find_entry(self.search@, id as int);
        }
        self.search.on_create(
            SearchResult {
                id,
                path: String::new(),
                title: String::from_str("Root"),
                markdown_content: String::from_str("Default root"),
                sidebar_markdown_content: String::new(),
            },
        );
        id
    }

    /// Create a new page: under an existing parent when one is given, or
    /// as the root of a still-empty system when none is. Writes the page,
    /// its first revision, and its search row, and returns the new id.
    pub fn create_child_and_insert(&mut self, parent_id: Option<i32>, page_info: PageInfo) -> (r:
        Result<i32, WikiError>)
        requires
            old(self).wf(),
            old(self).pages.id_counter() < i32::MAX as int,
            old(self).revisions.id_counter() < i32::MAX as int,
        ensures
            final(self).wf(),
            match r {
                Ok(id) => {
                    &&& id as int == old(self).pages.id_counter()
                    &&& final(self).pages.id_counter() == old(self).pages.id_counter() + 1
                    &&& final(self).revisions.id_counter() == old(self).revisions.id_counter()
                        + 1
                    &&& (match parent_id {
                        Some(pp) => {
                            &&& find_page(old(self).pages@, pp as int) != -1
                            &&& valid_slug(page_info.slug@)
                            &&& !(exists|i: int|
                                0 <= i < old(self).pages@.len() && (
                                #[trigger] old(self).pages@[i]).parent_id == Some(pp as int) && old(
                                    self,
                                ).pages@[i].slug == page_info.slug@)
                            &&& final(self).pages@ == old(self).pages@.push(
                                PageV {
                                    id: id as int,
                                    parent_id: Some(pp as int),
                                    title: page_info.title@,
                                    slug: page_info.slug@,
                                },
                            )
                        },
                        None => {
                            &&& old(self).pages@.len() == 0
                            &&& page_info.slug@.len() == 0
                            &&& final(self).pages@ == old(self).pages@.push(
                                PageV {
                                    id: id as int,
                                    parent_id: None,
                                    title: page_info.title@,
                                    slug: Seq::<char>::empty(),
                                },
                            )
                        },
                    })
                    &&& final(self).revisions@ == old(self).revisions@.push(
                        final(self).revisions@.last(),
                    )
                    &&& final(self).revisions@.last().page_id == id as int
                    &&& final(self).revisions@.last().markdown_content
                        == page_info.markdown_content@
                    &&& final(self).revisions@.last().html_content == html_of(
                        page_info.markdown_content@,
                    )
                    &&& final(self).revisions@.last().sidebar_markdown_content
                        == page_info.sidebar_markdown_content@
                    &&& final(self).revisions@.last().sidebar_html_content == html_of(
                        page_info.sidebar_markdown_content@,
                    )
                    &&& revs_of(final(self).revisions@, id as int) == revs_of(
                        old(self).revisions@,
                        id as int,
                    ).push(final(self).revisions@.last())
                    &&& (forall|q: int|
                        q != id as int ==> revs_of(final(self).revisions@, q) == revs_of(
                            old(self).revisions@,
                            q,
                        ))
                    &&& final(self).search@ == old(self).search@.push(
                        SearchResultV {
                            id: id as int,
                            path: spec_path(final(self).pages@, old(self).pages@.len() as int),
                            title: page_info.title@,
                            markdown_content: page_info.markdown_content@,
                            sidebar_markdown_content: page_info.sidebar_markdown_content@,
                        },
                    )
                },
                Err(WikiError::PageNotFound) => (match parent_id {
                    Some(pp) => find_page(old(self).pages@, pp as int) == -1,
                    None => old(self).pages@.len() != 0,
                }) && *final(self) == *old(self),
                Err(WikiError::SlugInvalid) => (match parent_id {
                    Some(pp) => find_page(old(self).pages@, pp as int) != -1 && !valid_slug(
                        page_info.slug@,
                    ),
                    None => old(self).pages@.len() == 0 && page_info.slug@.len() != 0,
                }) && *final(self) == *old(self),
                Err(WikiError::SlugConflict) => (match parent_id {
                    Some(pp) => {
                        &&& find_page(old(self).pages@, pp as int) != -1
                        &&& valid_slug(page_info.slug@)
                        &&& (exists|i: int|
                            0 <= i < old(self).pages@.len() && (
                            #[trigger] old(self).pages@[i]).parent_id == Some(pp as int) && old(
                                self,
                            ).pages@[i].slug == page_info.slug@)
                    },
                    None => false,
                }) && *final(self) == *old(self),
                _ => false,
            },
    {
        let id = match parent_id {
            Some(pp) => {
                match self.pages.insert_child(
                    pp,
                    page_info.title.clone(),
                    page_info.slug.clone(),
                ) {
                    Ok(id) => id,
                    Err(e) => {
                        return Err(e);
                    },
                }
            },
            None => {
                if self.pages.len() != 0 {
                    return Err(WikiError::PageNotFound);
                }
                if page_info.slug.as_str().unicode_len() != 0 {
                    return Err(WikiError::SlugInvalid);
                }
                self.pages.insert_root(page_info.title.clone())
            },
        };
        let _rev = self.revisions.append(
            id,
            page_info.markdown_content.clone(),
            page_info.sidebar_markdown_content.clone(),
        );
        let path = match id2path(&self.pages, id) {
            Ok(p) => p,
            Err(_) => {
                proof {
                    self.pages.lemma_wf_view();
                    crate::page_store::lemma_find_page_unique(
                        self.pages@,
                        id as int,
                        self.pages@.len() - 1,
                    );
                }
                return Err(WikiError::PageNotFound);
            },
        };
        proof {
            self.pages.lemma_wf_view();
            crate::page_store::lemma_find_page_unique(self.pages@, id as int, self.pages@.len() - 1);
            lemma_find_entry(self.search@, id as int);
        }
        self.search.on_create(
            SearchResult {
                id,
                path,
                title: page_info.title,
                markdown_content: page_info.markdown_content,
                sidebar_markdown_content: page_info.sidebar_markdown_content,
            },
        );
        Ok(id)
    }

    /// Edit the page at a path: change its title and slug in place, append
    /// a new revision with the submitted content, and refresh its search
    /// row, including the path that a slug change gives it.
    pub fn edit_and_update(&mut self, edit_path: &str, edit_page_info: PageInfo) -> (r: Result<
        (),
        WikiError,
    >)
        requires
            old(self).wf(),
            old(self).revisions.id_counter() < i32::MAX as int,
        ensures
            final(self).wf(),
            final(self).pages.id_counter() == old(self).pages.id_counter(),
            r is Ok ==> final(self).revisions.id_counter() == old(self).revisions.id_counter()
                + 1,
            match r {
                Ok(_) => exists|i: int|
                    {
                        &&& 0 <= i < old(self).pages@.len()
                        &&& #[trigger] spec_path(old(self).pages@, i) == edit_path@
                        &&& (i == 0 ==> edit_page_info.slug@.len() == 0)
                        &&& (i > 0 ==> valid_slug(edit_page_info.slug@))
                        &&& final(self).pages@ == old(self).pages@.update(
                            i,
                            PageV {
                                id: old(self).pages@[i].id,
                                parent_id: old(self).pages@[i].parent_id,
                                title: edit_page_info.title@,
                                slug: edit_page_info.slug@,
                            },
                        )
                        &&& final(self).revisions@ == old(self).revisions@.push(
                            final(self).revisions@.last(),
                        )
                        &&& final(self).revisions@.last().page_id == old(self).pages@[i].id
                        &&& final(self).revisions@.last().markdown_content
                            == edit_page_info.markdown_content@
                        &&& final(self).revisions@.last().html_content == html_of(
                            edit_page_info.markdown_content@,
                        )
                        &&& final(self).revisions@.last().sidebar_markdown_content
                            == edit_page_info.sidebar_markdown_content@
                        &&& final(self).revisions@.last().sidebar_html_content == html_of(
                            edit_page_info.sidebar_markdown_content@,
                        )
                        &&& revs_of(final(self).revisions@, old(self).pages@[i].id) == revs_of(
                            old(self).revisions@,
                            old(self).pages@[i].id,
                        ).push(final(self).revisions@.last())
                        &&& (forall|q: int|
                            q != old(self).pages@[i].id ==> revs_of(final(self).revisions@, q)
                                == revs_of(old(self).revisions@, q))
                        &&& (forall|j: int|
                            0 <= j < old(self).revisions@.len() && (
                            #[trigger] old(self).revisions@[j]).page_id == old(self).pages@[i].id
                                ==> old(self).revisions@[j].unix_time
                                <= final(self).revisions@.last().unix_time)
                        &&& (find_entry(old(self).search@, old(self).pages@[i].id) == -1
                            ==> final(self).search@ == old(self).search@)
                        &&& (find_entry(old(self).search@, old(self).pages@[i].id) != -1
                            ==> final(self).search@ == old(self).search@.update(
                            find_entry(old(self).search@, old(self).pages@[i].id),
                            SearchResultV {
                                id: old(self).pages@[i].id,
                                path: spec_path(final(self).pages@, i),
                                title: edit_page_info.title@,
                                markdown_content: edit_page_info.markdown_content@,
                                sidebar_markdown_content: edit_page_info.sidebar_markdown_content@,
                            },
                        ))
                    },
                Err(WikiError::PageNotFound) => (forall|i: int|
                    0 <= i < old(self).pages@.len() ==> #[trigger] spec_path(old(self).pages@, i)
                        != edit_path@) && *final(self) == *old(self),
                Err(WikiError::SlugInvalid) => (exists|i: int|
                    {
                        &&& 0 <= i < old(self).pages@.len()
                        &&& #[trigger] spec_path(old(self).pages@, i) == edit_path@
                        &&& ((i == 0 && edit_page_info.slug@.len() != 0) || (i > 0 && !valid_slug(
                            edit_page_info.slug@,
                        )))
                    }) && *final(self) == *old(self),
                Err(WikiError::SlugConflict) => (exists|i: int|
                    {
                        &&& 0 < i < old(self).pages@.len()
                        &&& #[trigger] spec_path(old(self).pages@, i) == edit_path@
                        &&& valid_slug(edit_page_info.slug@)
                        &&& (exists|j: int|
                            0 <= j < old(self).pages@.len() && j != i && (
                            #[trigger] old(self).pages@[j]).parent_id == old(
                                self,
                            ).pages@[i].parent_id && old(self).pages@[j].slug
                                == edit_page_info.slug@)
                    }) && *final(self) == *old(self),
                _ => false,
            },
    {
        let page = match Page::from_path(&self.pages, edit_path) {
            Ok(p) => p,
            Err(e) => {
                return Err(e);
            },
        };
        let ghost s0 = self.pages@;
        let ghost gi = choose|i: int|
            0 <= i < s0.len() && page@ == s0[i] && spec_path(s0, i) == edit_path@;
        proof {
            self.pages.lemma_wf_view();
            self.pages.lemma_ids_bounded();
            crate::page_store::lemma_find_page_unique(s0, page@.id, gi);
        }
        match self.pages.update(
            page.id,
            edit_page_info.title.clone(),
            edit_page_info.slug.clone(),
        ) {
            Ok(_) => {},
            Err(e) => {
                return Err(e);
            },
        }
        let _rev = self.revisions.append(
            page.id,
            edit_page_info.markdown_content.clone(),
            edit_page_info.sidebar_markdown_content.clone(),
        );
        let new_path = match id2path(&self.pages, page.id) {
            Ok(p) => p,
            Err(_) => {
                proof {
                    self.pages.lemma_wf_view();
                    crate::page_store::lemma_find_page_unique(self.pages@, page@.id, gi);
                }
                return Err(WikiError::PageNotFound);
            },
        };
        proof {
            self.pages.lemma_wf_view();
            crate::page_store::lemma_find_page_unique(self.pages@, page@.id, gi);
            lemma_find_entry(self.search@, page@.id);
        }
        self.search.on_edit(
            page.id,
            new_path,
            edit_page_info.title,
            edit_page_info.markdown_content,
            edit_page_info.sidebar_markdown_content,
        );
        Ok(())
    }

    /// Rebuild the whole search projection from the page tree and the
    /// latest revision of each page: the wholesale reconciliation used at
    /// startup when the index is empty. Pages without any revision do not
    /// appear.
    pub fn populate_with_revisions(&mut self) -> (r: ())
        requires
            old(self).wf(),
        ensures
            final(self).wf(),
            final(self).pages == old(self).pages,
            final(self).revisions == old(self).revisions,
            final(self).search@ == rebuilt(old(self).pages@, old(self).revisions@),
    {
        let ghost s0 = self.pages@;
        let ghost log0 = self.revisions@;
        let mut entries: Vec<SearchResult> = Vec::new();
        let ghost mut imap: Seq<int> = Seq::empty();
        let n = self.pages.len();
        let mut k: usize = 0;
        proof {
            reveal(Seq::filter);
            assert(s0.subrange(0, 0) =~= Seq::<PageV>::empty());
            assert(crate::search_index::idx_view(entries@) =~= rebuilt_from(
                s0,
                log0,
                s0.subrange(0, 0),
            ));
        }
        while k < n
            invariant
                old(self).wf(),
                self.pages == old(self).pages,
                self.revisions == old(self).revisions,
                self.search == old(self).search,
                s0 == self.pages@,
                log0 == self.revisions@,
                n == s0.len(),
                k <= n,
                crate::search_index::idx_view(entries@) == rebuilt_from(
                    s0,
                    log0,
                    s0.subrange(0, k as int),
                ),
                imap.len() == entries@.len(),
                forall|a: int, b: int| 0 <= a < b < imap.len() ==> imap[a] < imap[b],
                forall|a: int| 0 <= a < imap.len() ==> 0 <= #[trigger] imap[a] < k as int,
                forall|a: int|
                    0 <= a < imap.len() ==> crate::search_index::idx_view(entries@)[a].id
                        == s0[#[trigger] imap[a]].id,
            decreases n - k,
        {
            let ghost pre0 = s0.subrange(0, k as int);
            let ghost pre1 = s0.subrange(0, k as int + 1);
            let ghost entries0 = entries@;
            let ghost imap0 = imap;
            let ghost e = s0[k as int];
            let pid = self.pages.page_at(k).id;
            let title = self.pages.page_at(k).title.clone();
            match self.revisions.get_nth_revision(pid, None) {
                Ok(rev) => {
                    let path = match id2path(&self.pages, pid) {
                        Ok(x) => x,
                        Err(_) => {
                            proof {
                                self.pages.lemma_wf_view();
                                crate::page_store::lemma_find_page_unique(s0, pid as int, k as int);
                            }
                            String::new()
                        },
                    };
                    proof {
                        self.pages.lemma_wf_view();
                        crate::page_store::lemma_find_page_unique(s0, pid as int, k as int);
                    }
                    entries.push(
                        SearchResult {
                            id: pid,
                            path,
                            title,
                            markdown_content: rev.markdown_content,
                            sidebar_markdown_content: rev.sidebar_markdown_content,
                        },
                    );
                    proof {
                        imap = imap.push(k as int);
                        assert(crate::search_index::idx_view(entries@)
                            =~= crate::search_index::idx_view(entries0).push(
                            rebuilt_entry(s0, log0, e),
                        ));
                        assert forall|a: int|
                            0 <= a < imap.len() implies crate::search_index::idx_view(
                            entries@,
                        )[a].id == s0[#[trigger] imap[a]].id by {
                            if a < imap0.len() {
                                assert(imap[a] == imap0[a]);
                                assert(crate::search_index::idx_view(entries@)[a]
                                    == crate::search_index::idx_view(entries0)[a]);
                            } else {
                                assert(imap[a] == k as int);
                            }
                        }
                    }
                },
                Err(_) => {},
            }
            proof {
                assert(pre1 =~= pre0.push(e));
                lemma_rebuilt_push(s0, log0, pre0, e);
            }
            k += 1;
        }
        proof {
            assert(s0.subrange(0, s0.len() as int) =~= s0);
            self.pages.lemma_wf_view();
            self.pages.lemma_ids_bounded();
            assert forall|i: int, j: int|
                0 <= i < j < crate::search_index::idx_view(entries@).len() implies crate::search_index::idx_view(
                entries@,
            )[i].id != crate::search_index::idx_view(entries@)[j].id by {
                assert(imap[i] < imap[j]);
            }
            assert forall|i: int|
                0 <= i < crate::search_index::idx_view(entries@).len() implies (
                #[trigger] crate::search_index::idx_view(entries@)[i]).id
                < self.pages.id_counter() by {
                assert(crate::search_index::idx_view(entries@)[i].id == s0[imap[i]].id);
            }
        }
        self.search.replace_all(entries);
    }

    /// The startup contract: synthesize the root page when the
    /// authoritative store is empty, and rebuild the search projection
    /// when it is empty.
    pub fn init_with_defaults(&mut self) -> (r: ())
        requires
            old(self).wf(),
            old(self).pages.id_counter() < i32::MAX as int,
            old(self).revisions.id_counter() < i32::MAX as int,
            old(self).pages@.len() == 0 ==> old(self).search@.len() == 0,
        ensures
            final(self).wf(),
            final(self).pages@.len() > 0,
            old(self).pages@.len() == 0 ==> {
                &&& final(self).pages@ == old(self).pages@.push(
                    PageV {
                        id: old(self).pages.id_counter(),
                        parent_id: None,
                        title: "Root"@,
                        slug: Seq::<char>::empty(),
                    },
                )
                &&& final(self).pages.id_counter() == old(self).pages.id_counter() + 1
                &&& final(self).revisions.id_counter() == old(self).revisions.id_counter() + 1
                &&& final(self).revisions@ == old(self).revisions@.push(
                    final(self).revisions@.last(),
                )
                &&& final(self).revisions@.last().page_id == old(self).pages.id_counter()
                &&& final(self).revisions@.last().markdown_content == "Default root"@
                &&& final(self).revisions@.last().html_content == html_of("Default root"@)
                &&& final(self).revisions@.last().sidebar_markdown_content == Seq::<
                    char,
                >::empty()
                &&& final(self).revisions@.last().sidebar_html_content == html_of(
                    Seq::<char>::empty(),
                )
                &&& final(self).search@ == old(self).search@.push(
                    SearchResultV {
                        id: old(self).pages.id_counter(),
                        path: Seq::<char>::empty(),
                        title: "Root"@,
                        markdown_content: "Default root"@,
                        sidebar_markdown_content: Seq::<char>::empty(),
                    },
                )
            },
            old(self).pages@.len() > 0 ==> final(self).pages == old(self).pages
                && final(self).revisions == old(self).revisions,
            old(self).pages@.len() > 0 && old(self).search@.len() == 0 ==> final(self).search@
                == rebuilt(old(self).pages@, old(self).revisions@),
            old(self).pages@.len() > 0 && old(self).search@.len() > 0
                ==> *final(self) == *old(self),
    {
        if self.pages.len() == 0 {
            let _root = self.populate_default_root();
        } else if self.search.len() == 0 {
            self.populate_with_revisions();
        }
    }

    /// Delete the page at a path together with every descendant page,
    /// all their revisions, and all their search rows. Deleting the root
    /// is forbidden and leaves every store untouched.
    pub fn delete(&mut self, path: &str) -> (r: Result<(), WikiError>)
        requires
            old(self).wf(),
        ensures
            final(self).wf(),
            final(self).pages.id_counter() == old(self).pages.id_counter(),
            final(self).revisions.id_counter() == old(self).revisions.id_counter(),
            match r {
                Ok(_) => exists|i: int|
                    {
                        &&& 0 < i < old(self).pages@.len()
                        &&& #[trigger] spec_path(old(self).pages@, i) == path@
                        &&& final(self).pages@ == remove_subtree(
                            old(self).pages@,
                            old(self).pages@[i].id,
                        )
                        &&& (forall|q: int|
                            removed_ids(old(self).pages@, old(self).pages@[i].id).contains(q)
                                ==> #[trigger] revs_of(final(self).revisions@, q) == Seq::<
                                RevisionV,
                            >::empty())
                        &&& (forall|q: int|
                            !removed_ids(old(self).pages@, old(self).pages@[i].id).contains(q)
                                ==> #[trigger] revs_of(final(self).revisions@, q) == revs_of(
                                old(self).revisions@,
                                q,
                            ))
                        &&& final(self).search@ == surviving(
                            old(self).search@,
                            removed_ids(old(self).pages@, old(self).pages@[i].id),
                        )
                    },
                Err(WikiError::RootDeletionForbidden) => old(self).pages@.len() > 0 && spec_path(
                    old(self).pages@,
                    0,
                ) == path@ && *final(self) == *old(self),
                Err(WikiError::PageNotFound) => (forall|i: int|
                    0 <= i < old(self).pages@.len() ==> #[trigger] spec_path(old(self).pages@, i)
                        != path@) && *final(self) == *old(self),
                _ => false,
            },
    {
        let page = match Page::from_path(&self.pages, path) {
            Ok(p) => p,
            Err(e) => {
                return Err(e);
            },
        };
        let ghost s0 = self.pages@;
        let ghost gi = choose|i: int|
            0 <= i < s0.len() && page@ == s0[i] && spec_path(s0, i) == path@;
        proof {
            self.pages.lemma_wf_view();
            crate::page_store::lemma_find_page_unique(s0, page@.id, gi);
        }
        let removed = match self.pages.delete_cascade(page.id) {
            Ok(rm) => rm,
            Err(e) => {
                return Err(e);
            },
        };
        self.revisions.delete_for_pages(&removed);
        self.search.delete_for_pages(&removed);
        Ok(())
    }
}

/// The latest revision of a page, straight from the log.
pub fn get_latest_revision(page_id: i32, log: &RevisionLog) -> (r: Result<PageRevision, WikiError>)
    ensures
        match r {
            Ok(rev) => crate::revision_log::spec_nth(log@, page_id as int, None) == Some(rev@),
            Err(e) => e == WikiError::RevisionNotFound && crate::revision_log::spec_nth(
                log@,
                page_id as int,
                None,
            ) is None,
        },
{
    log.get_nth_revision(page_id, None)
}

} // verus!
