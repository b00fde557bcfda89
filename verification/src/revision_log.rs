//! The append-only history of content revisions, one log for all pages.
//!
//! Revisions are held in append order. Within one page the stored Unix
//! timestamps never decrease (a fresh stamp is clamped to the page's last
//! one), so the append order is exactly the timestamp order that ordinal
//! lookups are specified against, with ties broken by insertion.

use vstd::prelude::*;

use crate::external::clock_now;
use crate::external::html_of;
use crate::external::md2html;
use crate::page_store::WikiError;
use crate::page_store::ids_of;

verus! {

/// One immutable content snapshot of a page.
pub struct PageRevision {
    pub id: i32,
    pub page_id: i32,
    pub iso_time: String,
    pub unix_time: i64,
    pub html_content: String,
    pub markdown_content: String,
    pub sidebar_html_content: String,
    pub sidebar_markdown_content: String,
}

/// The mathematical image of a stored revision.
pub struct RevisionV {
    pub id: int,
    pub page_id: int,
    pub iso_time: Seq<char>,
    pub unix_time: int,
    pub html_content: Seq<char>,
    pub markdown_content: Seq<char>,
    pub sidebar_html_content: Seq<char>,
    pub sidebar_markdown_content: Seq<char>,
}

impl View for PageRevision {
    type V = RevisionV;

    open spec fn view(&self) -> RevisionV {
        RevisionV {
            id: self.id as int,
            page_id: self.page_id as int,
            iso_time: self.iso_time@,
            unix_time: self.unix_time as int,
            html_content: self.html_content@,
            markdown_content: self.markdown_content@,
            sidebar_html_content: self.sidebar_html_content@,
            sidebar_markdown_content: self.sidebar_markdown_content@,
        }
    }
}

impl Clone for PageRevision {
    fn clone(&self) -> (r: Self)
        ensures
            r@ == self@,
    {
        PageRevision {
            id: self.id,
            page_id: self.page_id,
            iso_time: self.iso_time.clone(),
            unix_time: self.unix_time,
            html_content: self.html_content.clone(),
            markdown_content: self.markdown_content.clone(),
            sidebar_html_content: self.sidebar_html_content.clone(),
            sidebar_markdown_content: self.sidebar_markdown_content.clone(),
        }
    }
}

/// The element-wise mathematical image of a vector of revisions.
pub open spec fn log_view(v: Seq<PageRevision>) -> Seq<RevisionV> {
    v.map_values(|p: PageRevision| p@)
}

/// The revisions of one page, in storage order.
pub open spec fn revs_of(s: Seq<RevisionV>, pid: int) -> Seq<RevisionV> {
    s.filter(|rv: RevisionV| rv.page_id == pid)
}

/// Appending one revision extends exactly its own page's history.
pub proof fn lemma_revs_of_push(s: Seq<RevisionV>, e: RevisionV, pid: int)
    ensures
        e.page_id == pid ==> revs_of(s.push(e), pid) == revs_of(s, pid).push(e),
        e.page_id != pid ==> revs_of(s.push(e), pid) == revs_of(s, pid),
{
    reveal(Seq::filter);
    assert(s.push(e).drop_last() =~= s);
}

/// Page histories distribute over concatenation of the stored sequence.
pub proof fn lemma_revs_of_add(a: Seq<RevisionV>, b: Seq<RevisionV>, pid: int)
    ensures
        revs_of(a + b, pid) == revs_of(a, pid) + revs_of(b, pid),
    decreases b.len(),
{
    reveal(Seq::filter);
    if b.len() == 0 {
        assert(a + b =~= a);
        assert(revs_of(b, pid) =~= Seq::<RevisionV>::empty());
        assert(revs_of(a, pid) + revs_of(b, pid) =~= revs_of(a, pid));
    } else {
        lemma_revs_of_add(a, b.drop_last(), pid);
        assert(a + b =~= (a + b.drop_last()).push(b.last()));
        lemma_revs_of_push(a + b.drop_last(), b.last(), pid);
        lemma_revs_of_push(b.drop_last(), b.last(), pid);
        if b.last().page_id == pid {
            assert(revs_of(a, pid) + revs_of(b, pid) =~= (revs_of(a, pid) + revs_of(
                b.drop_last(),
                pid,
            )).push(b.last()));
        }
    }
}

/// The ordinal a caller asked for, as a mathematical value.
pub open spec fn ord_of(o: Option<usize>) -> Option<int> {
    match o {
        Some(v) => Some(v as int),
        None => None,
    }
}

/// The revision of a page selected by an optional zero-based ordinal in
/// timestamp order: no ordinal means the latest revision.
pub open spec fn spec_nth(s: Seq<RevisionV>, pid: int, ord: Option<int>) -> Option<RevisionV> {
    let rs = revs_of(s, pid);
    match ord {
        None => if rs.len() > 0 {
            Some(rs.last())
        } else {
            None
        },
        Some(o) => if 0 <= o < rs.len() {
            Some(rs[o])
        } else {
            None
        },
    }
}

/// Whether an ordinal denotes the latest revision at query time: no
/// ordinal always does; an explicit ordinal only when it is the last one.
pub open spec fn spec_is_latest(s: Seq<RevisionV>, pid: int, ord: Option<int>) -> bool {
    match ord {
        None => true,
        Some(o) => o == revs_of(s, pid).len() - 1,
    }
}

/// Appending is monotonic: the appended revision becomes the page's
/// latest (`None` and the new highest ordinal both select it), every
/// smaller ordinal stops being latest, and the revisions already stored
/// keep their ordinals.
pub proof fn lemma_append_monotonic(s: Seq<RevisionV>, e: RevisionV, pid: int)
    requires
        e.page_id == pid,
    ensures
        spec_nth(s.push(e), pid, None) == Some(e),
        spec_nth(s.push(e), pid, Some(revs_of(s, pid).len() as int)) == Some(e),
        spec_is_latest(s.push(e), pid, Some(revs_of(s, pid).len() as int)),
        forall|k: int|
            0 <= k < revs_of(s, pid).len() ==> !spec_is_latest(s.push(e), pid, Some(k)),
        forall|k: int|
            0 <= k < revs_of(s, pid).len() ==> spec_nth(s.push(e), pid, Some(k)) == spec_nth(
                s,
                pid,
                Some(k),
            ),
{
    lemma_revs_of_push(s, e, pid);
}

/// The invariant over the stored sequence: unique non-negative ids, and
/// per page non-decreasing timestamps.
pub open spec fn log_wf(s: Seq<RevisionV>) -> bool {
    &&& (forall|i: int| 0 <= i < s.len() ==> (#[trigger] s[i]).id >= 0)
    &&& (forall|i: int, j: int| 0 <= i < j < s.len() ==> s[i].id != s[j].id)
    &&& (forall|i: int, j: int|
        0 <= i < j < s.len() && s[i].page_id == s[j].page_id ==> s[i].unix_time <= s[j].unix_time)
}

/// The append-only revision history, in append order.
pub struct RevisionLog {
    revisions: Vec<PageRevision>,
    next_id: i32,
}

impl View for RevisionLog {
    type V = Seq<RevisionV>;

    closed spec fn view(&self) -> Seq<RevisionV> {
        log_view(self.revisions@)
    }
}

impl RevisionLog {
    /// The invariant of a live log.
    pub closed spec fn wf(&self) -> bool {
        &&& log_wf(self@)
        &&& (forall|i: int| 0 <= i < self@.len() ==> (#[trigger] self@[i]).id < self.next_id as int)
        &&& self.next_id >= 0
    }

    /// A well-formed log's view satisfies the history invariant.
    pub proof fn lemma_wf_view(&self)
        requires
            self.wf(),
        ensures
            log_wf(self@),
    {
    }

    /// The id the next appended revision will receive.
    pub closed spec fn id_counter(&self) -> int {
        self.next_id as int
    }

    /// The id the next appended revision will receive, as a runtime value.
    pub fn next_revision_id(&self) -> (r: i32)
        ensures
            r as int == self.id_counter(),
    {
        self.next_id
    }

    /// An empty log.
    pub fn new() -> (r: RevisionLog)
        ensures
            r.wf(),
            r@.len() == 0,
            r.id_counter() == 0,
    {
        RevisionLog { revisions: Vec::new(), next_id: 0 }
    }

    /// Number of stored revisions, over all pages.
    pub fn len(&self) -> (r: usize)
        ensures
            r == self@.len(),
    {
        self.revisions.len()
    }

    /// The revisions of one page, oldest first.
    pub fn revs_of_page(&self, target_page_id: i32) -> (r: Vec<PageRevision>)
        ensures
            r@.map_values(|p: PageRevision| p@) == revs_of(self@, target_page_id as int),
    {
        let ghost pid = target_page_id as int;
        let mut out: Vec<PageRevision> = Vec::new();
        let mut k: usize = 0;
        proof {
            reveal(Seq::filter);
            assert(self@.subrange(0, 0) =~= Seq::<RevisionV>::empty());
        }
        while k < self.revisions.len()
            invariant
                k <= self@.len(),
                self@.len() == self.revisions@.len(),
                pid == target_page_id as int,
                out@.map_values(|p: PageRevision| p@) == revs_of(self@.subrange(0, k as int), pid),
            decreases self@.len() - k,
        {
            let ghost pre0 = self@.subrange(0, k as int);
            let ghost pre1 = self@.subrange(0, k as int + 1);
            let ghost out0 = out@;
            let rv = &self.revisions[k];
            if rv.page_id == target_page_id {
                out.push(rv.clone());
            }
            proof {
                assert(pre1 =~= pre0.push(self@[k as int]));
                lemma_revs_of_push(pre0, self@[k as int], pid);
                if rv.page_id == target_page_id {
                    assert(out@.map_values(|p: PageRevision| p@) =~= out0.map_values(
                        |p: PageRevision| p@,
                    ).push(self@[k as int]));
                }
            }
            k += 1;
        }
        proof {
            assert(self@.subrange(0, self@.len() as int) =~= self@);
        }
        out
    }

    /// Render and append a new revision for a page, stamped with the
    /// current clock but never earlier than the page's last revision.
    /// Returns the stored revision.
    pub fn append(
        &mut self,
        target_page_id: i32,
        markdown_content: String,
        sidebar_markdown_content: String,
    ) -> (r: PageRevision)
        requires
            old(self).wf(),
            old(self).id_counter() < i32::MAX as int,
        ensures
            final(self).wf(),
            final(self).id_counter() == old(self).id_counter() + 1,
            final(self)@ == old(self)@.push(r@),
            revs_of(final(self)@, target_page_id as int) == revs_of(
                old(self)@,
                target_page_id as int,
            ).push(r@),
            forall|q: int|
                q != target_page_id as int ==> revs_of(final(self)@, q) == revs_of(old(self)@, q),
            r@.id == old(self).id_counter(),
            r@.page_id == target_page_id as int,
            r@.markdown_content == markdown_content@,
            r@.sidebar_markdown_content == sidebar_markdown_content@,
            r@.html_content == html_of(markdown_content@),
            r@.sidebar_html_content == html_of(sidebar_markdown_content@),
            forall|j: int|
                0 <= j < old(self)@.len() && (#[trigger] old(self)@[j]).page_id
                    == target_page_id as int ==> old(self)@[j].unix_time <= r@.unix_time,
    {
        let (iso_time, now) = clock_now();
        let mut stamp: i64 = now;
        let mut k: usize = 0;
        while k < self.revisions.len()
            invariant
                self@ == old(self)@,
                self@.len() == self.revisions@.len(),
                k <= self@.len(),
                stamp >= now,
                forall|j: int|
                    0 <= j < k && (#[trigger] self@[j]).page_id == target_page_id as int
                        ==> self@[j].unix_time <= stamp as int,
            decreases self@.len() - k,
        {
            let rv = &self.revisions[k];
            if rv.page_id == target_page_id && rv.unix_time > stamp {
                stamp = rv.unix_time;
            }
            k += 1;
        }
        let html_content = md2html(markdown_content.as_str());
        let sidebar_html_content = md2html(sidebar_markdown_content.as_str());
        let rev = PageRevision {
            id: self.next_id,
            page_id: target_page_id,
            iso_time,
            unix_time: stamp,
            html_content,
            markdown_content,
            sidebar_html_content,
            sidebar_markdown_content,
        };
        let out = rev.clone();
        self.next_id = self.next_id + 1;
        let ghost s0 = old(self)@;
        self.revisions.push(rev);
        proof {
            assert(self@ =~= s0.push(out@));
            lemma_revs_of_push(s0, out@, target_page_id as int);
            assert forall|q: int| q != target_page_id as int implies revs_of(self@, q) == revs_of(
                s0,
                q,
            ) by {
                lemma_revs_of_push(s0, out@, q);
            }
        }
        out
    }

    /// The revision of a page at an optional ordinal (oldest first); no
    /// ordinal selects the latest. Fails with `RevisionNotFound` when the
    /// page has no revisions or the ordinal is out of range.
    pub fn get_nth_revision(&self, target_page_id: i32, revision: Option<usize>) -> (r: Result<
        PageRevision,
        WikiError,
    >)
        ensures
            match r {
                Ok(rev) => spec_nth(self@, target_page_id as int, ord_of(revision)) == Some(rev@),
                Err(e) => e == WikiError::RevisionNotFound && spec_nth(
                    self@,
                    target_page_id as int,
                    ord_of(revision),
                ) is None,
            },
    {
        let revs = self.revs_of_page(target_page_id);
        match revision {
            Some(o) => {
                if o < revs.len() {
                    Ok(revs[o].clone())
                } else {
                    Err(WikiError::RevisionNotFound)
                }
            },
            None => {
                if revs.len() > 0 {
                    Ok(revs[revs.len() - 1].clone())
                } else {
                    Err(WikiError::RevisionNotFound)
                }
            },
        }
    }

    /// Administratively remove one revision of a page, selected like
    /// `get_nth_revision`. Histories of other pages are untouched; the
    /// search projection is the caller's to patch.
    pub fn delete_nth_revision(&mut self, target_page_id: i32, revision: Option<usize>) -> (r:
        Result<(), WikiError>)
        requires
            old(self).wf(),
        ensures
            final(self).wf(),
            final(self).id_counter() == old(self).id_counter(),
            match r {
                Ok(_) => {
                    let rs = revs_of(old(self)@, target_page_id as int);
                    let o = match ord_of(revision) {
                        Some(o) => o,
                        None => rs.len() - 1,
                    };
                    &&& spec_nth(old(self)@, target_page_id as int, ord_of(revision)) is Some
                    &&& revs_of(final(self)@, target_page_id as int) == rs.remove(o)
                    &&& (forall|q: int|
                        q != target_page_id as int ==> revs_of(final(self)@, q) == revs_of(
                            old(self)@,
                            q,
                        ))
                },
                Err(e) => e == WikiError::RevisionNotFound && spec_nth(
                    old(self)@,
                    target_page_id as int,
                    ord_of(revision),
                ) is None && *final(self) == *old(self),
            },
    {
        let ghost pid = target_page_id as int;
        let revs = self.revs_of_page(target_page_id);
        let ord: usize = match revision {
            Some(o) => {
                if o >= revs.len() {
                    return Err(WikiError::RevisionNotFound);
                }
                o
            },
            None => {
                if revs.len() == 0 {
                    return Err(WikiError::RevisionNotFound);
                }
                revs.len() - 1
            },
        };
        let mut cnt: usize = 0;
        let mut gi: usize = 0;
        let mut found = false;
        let mut k: usize = 0;
        proof {
            reveal(Seq::filter);
            assert(self@.subrange(0, 0) =~= Seq::<RevisionV>::empty());
        }
        while k < self.revisions.len() && !found
            invariant
                self@ == old(self)@,
                self@.len() == self.revisions@.len(),
                pid == target_page_id as int,
                k <= self@.len(),
                (ord as int) < revs_of(self@, pid).len(),
                !found ==> cnt as int == revs_of(self@.subrange(0, k as int), pid).len() && cnt
                    <= ord,
                found ==> (gi as int) < self@.len() && self@[gi as int].page_id == pid && revs_of(
                    self@.subrange(0, gi as int),
                    pid,
                ).len() == ord as int,
            decreases self@.len() - k,
        {
            let ghost pre0 = self@.subrange(0, k as int);
            let ghost pre1 = self@.subrange(0, k as int + 1);
            let rv = &self.revisions[k];
            if rv.page_id == target_page_id {
                if cnt == ord {
                    gi = k;
                    found = true;
                } else {
                    cnt += 1;
                }
            }
            proof {
                assert(pre1 =~= pre0.push(self@[k as int]));
                lemma_revs_of_push(pre0, self@[k as int], pid);
            }
            k += 1;
        }
        proof {
            if !found {
                assert(self@.subrange(0, self@.len() as int) =~= self@);
                assert(false);
            }
        }
        let ghost s0 = self@;
        self.revisions.remove(gi);
        proof {
            let g = gi as int;
            let n = s0.len() as int;
            assert(self@ =~= s0.subrange(0, g) + s0.subrange(g + 1, n));
            let pre = s0.subrange(0, g);
            let mid = s0.subrange(g, g + 1);
            let post = s0.subrange(g + 1, n);
            assert(s0 =~= (pre + mid) + post);
            reveal(Seq::filter);
            assert(mid.drop_last() =~= Seq::<RevisionV>::empty());
            assert(revs_of(mid, pid) =~= seq![s0[g]]);
            lemma_revs_of_add(pre, mid, pid);
            lemma_revs_of_add(pre + mid, post, pid);
            lemma_revs_of_add(pre, post, pid);
            let rs = revs_of(s0, pid);
            assert(rs =~= revs_of(pre, pid) + seq![s0[g]] + revs_of(post, pid));
            assert(revs_of(self@, pid) =~= revs_of(pre, pid) + revs_of(post, pid));
            assert(rs.remove(ord as int) =~= revs_of(pre, pid) + revs_of(post, pid));
            assert forall|q: int| q != pid implies revs_of(self@, q) == revs_of(s0, q) by {
                reveal(Seq::filter);
                assert(mid.drop_last() =~= Seq::<RevisionV>::empty());
                assert(revs_of(Seq::<RevisionV>::empty(), q) == Seq::<RevisionV>::empty());
                assert(mid.len() == 1 && mid.last() == s0[g]);
                lemma_revs_of_add(pre, mid, q);
                lemma_revs_of_add(pre + mid, post, q);
                lemma_revs_of_add(pre, post, q);
                assert(revs_of(mid, q) =~= Seq::<RevisionV>::empty());
                assert(revs_of(s0, q) =~= revs_of(pre, q) + revs_of(post, q));
                assert(revs_of(self@, q) =~= revs_of(pre, q) + revs_of(post, q));
            }
            assert forall|i: int| 0 <= i < self@.len() implies (#[trigger] self@[i]).id >= 0
                && self@[i].id < old(self).next_id as int by {
                if i < g {
                    assert(self@[i] == s0[i]);
                } else {
                    assert(self@[i] == s0[i + 1]);
                }
            }
            assert forall|i: int, j: int| 0 <= i < j < self@.len() implies self@[i].id
                != self@[j].id && (self@[i].page_id == self@[j].page_id ==> self@[i].unix_time
                <= self@[j].unix_time) by {
                let oi = if i < g {
                    i
                } else {
                    i + 1
                };
                let oj = if j < g {
                    j
                } else {
                    j + 1
                };
                assert(self@[i] == s0[oi]);
                assert(self@[j] == s0[oj]);
            }
        }
        Ok(())
    }

    /// Remove every revision belonging to any of the given pages, as the
    /// tail end of a cascading page delete.
    pub fn delete_for_pages(&mut self, removed: &Vec<i32>)
        requires
            old(self).wf(),
        ensures
            final(self).wf(),
            final(self).id_counter() == old(self).id_counter(),
            forall|q: int|
                ids_of(removed@).contains(q) ==> #[trigger] revs_of(final(self)@, q) == Seq::<
                    RevisionV,
                >::empty(),
            forall|q: int|
                !ids_of(removed@).contains(q) ==> #[trigger] revs_of(final(self)@, q) == revs_of(
                    old(self)@,
                    q,
                ),
            forall|i: int|
                0 <= i < final(self)@.len() ==> exists|j: int|
                    0 <= j < old(self)@.len() && (#[trigger] final(self)@[i]) == (
                    #[trigger] old(self)@[j]),
    {
        let ghost rm = ids_of(removed@);
        let mut kept: Vec<PageRevision> = Vec::new();
        let ghost mut imap: Seq<int> = Seq::empty();
        let mut k: usize = 0;
        proof {
            reveal(Seq::filter);
            assert(self@.subrange(0, 0) =~= Seq::<RevisionV>::empty());
        }
        while k < self.revisions.len()
            invariant
                old(self).wf(),
                self@ == old(self)@,
                self@.len() == self.revisions@.len(),
                rm == ids_of(removed@),
                k <= self@.len(),
                forall|q: int|
                    !rm.contains(q) ==> #[trigger] revs_of(
                        log_view(kept@),
                        q,
                    ) == revs_of(self@.subrange(0, k as int), q),
                forall|q: int|
                    rm.contains(q) ==> #[trigger] revs_of(log_view(kept@), q)
                        == Seq::<RevisionV>::empty(),
                imap.len() == kept@.len(),
                forall|a: int, b: int| 0 <= a < b < imap.len() ==> imap[a] < imap[b],
                forall|a: int| 0 <= a < imap.len() ==> 0 <= #[trigger] imap[a] < k as int,
                forall|a: int|
                    0 <= a < imap.len() ==> log_view(kept@)[a]
                        == self@[#[trigger] imap[a]],
            decreases self@.len() - k,
        {
            let ghost pre0 = self@.subrange(0, k as int);
            let ghost pre1 = self@.subrange(0, k as int + 1);
            let ghost kept0 = kept@;
            let ghost imap0 = imap;
            let ghost e = self@[k as int];
            let rv = &self.revisions[k];
            let drop_it = crate::page_store::vec_contains_i32(removed, rv.page_id);
            if !drop_it {
                kept.push(rv.clone());
                proof {
                    imap = imap.push(k as int);
                }
            }
            proof {
                assert(pre1 =~= pre0.push(e));
                if drop_it {
                    let m = choose|m: int| 0 <= m < removed@.len() && removed@[m] == rv.page_id;
                    assert(rm[m] == e.page_id);
                }
                if rm.contains(e.page_id) {
                    let m = choose|m: int| 0 <= m < rm.len() && rm[m] == e.page_id;
                    assert(removed@[m] == rv.page_id);
                }
                assert(drop_it == rm.contains(e.page_id));
                if !drop_it {
                    assert(log_view(kept@) =~= log_view(kept0).push(e));
                }
                assert forall|q: int| !rm.contains(q) implies #[trigger] revs_of(
                    log_view(kept@),
                    q,
                ) == revs_of(pre1, q) by {
                    lemma_revs_of_push(pre0, e, q);
                    if !drop_it {
                        lemma_revs_of_push(log_view(kept0), e, q);
                    } else {
                        assert(q != e.page_id);
                    }
                }
                assert forall|q: int| rm.contains(q) implies #[trigger] revs_of(
                    log_view(kept@),
                    q,
                ) == Seq::<RevisionV>::empty() by {
                    if !drop_it {
                        assert(q != e.page_id);
                        lemma_revs_of_push(log_view(kept0), e, q);
                    }
                }
                if !drop_it {
                    assert forall|a: int| 0 <= a < imap.len() implies log_view(kept@)[a]
                        == self@[#[trigger] imap[a]] by {
                        if a < imap0.len() {
                            assert(imap[a] == imap0[a]);
                            assert(log_view(kept@)[a] == log_view(kept0)[a]);
                        } else {
                            assert(imap[a] == k as int);
                        }
                    }
                }
            }
            k += 1;
        }
        let ghost s0 = self@;
        self.revisions = kept;
        proof {
            assert(s0.subrange(0, s0.len() as int) =~= s0);
            assert forall|i: int| 0 <= i < self@.len() implies (#[trigger] self@[i]).id >= 0
                && self@[i].id < old(self).next_id as int by {
                assert(self@[i] == s0[imap[i]]);
            }
            assert forall|i: int, j: int| 0 <= i < j < self@.len() implies self@[i].id
                != self@[j].id && (self@[i].page_id == self@[j].page_id ==> self@[i].unix_time
                <= self@[j].unix_time) by {
                assert(imap[i] < imap[j]);
                assert(self@[i] == s0[imap[i]]);
                assert(self@[j] == s0[imap[j]]);
            }
            assert forall|i: int| 0 <= i < self@.len() implies exists|j: int|
                0 <= j < old(self)@.len() && (#[trigger] self@[i]) == (#[trigger] old(self)@[j]) by {
                assert(0 <= imap[i] < old(self)@.len());
                assert(self@[i] == old(self)@[imap[i]]);
            }
            // ties the rebuilt vector to the function's final state
            assert(self@.len() == final(self)@.len());
        }
    }

    /// Whether the given ordinal denotes the page's latest revision at
    /// query time (a missing ordinal always does).
    pub fn is_latest(&self, revision: Option<usize>, target_page_id: i32) -> (r: bool)
        ensures
            r == spec_is_latest(self@, target_page_id as int, ord_of(revision)),
    {
        match revision {
            None => true,
            Some(o) => {
                let revs = self.revs_of_page(target_page_id);
                revs.len() > 0 && o == revs.len() - 1
            },
        }
    }
}

} // verus!
