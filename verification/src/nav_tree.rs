//! The navigation tree: a nested-list rendering of the whole page tree
//! that expands only the branch leading to the page currently viewed.
//!
//! The renderer walks an in-memory multi-way tree rebuilt on every call
//! from the stored pages. A node's children are recursed into only while
//! the remaining "active" path segments lead through that node; every
//! other branch collapses to a single link. Connector glyphs mark the
//! tree shape, driven by a per-level "was this ancestor the last sibling"
//! stack passed by value into each recursive call.

use vstd::prelude::*;

use crate::page_store::Page;
use crate::page_store::PageStore;
use crate::page_store::PageV;
use crate::page_store::find_page;
use crate::page_store::lemma_find_page;
use crate::page_store::is_slug_char;
use crate::page_store::lemma_find_page_unique;
use crate::page_store::store_wf;
use crate::page_store::valid_slug;

verus! {

/// One node of the in-memory navigation tree: the page's slug and the
/// positions of its children, in insertion order. Children always sit at
/// strictly larger positions than their parent.
pub struct NavNode {
    pub slug: String,
    pub children: Vec<usize>,
}

/// The mathematical image of a navigation node.
#[verifier::ext_equal]
pub struct NavNodeV {
    pub slug: Seq<char>,
    pub children: Seq<int>,
}

impl View for NavNode {
    type V = NavNodeV;

    open spec fn view(&self) -> NavNodeV {
        NavNodeV {
            slug: self.slug@,
            children: self.children@.map_values(|c: usize| c as int),
        }
    }
}

/// The element-wise mathematical image of the node vector.
pub open spec fn nav_view(v: Seq<NavNode>) -> Seq<NavNodeV> {
    v.map_values(|n: NavNode| n@)
}

/// Shape invariant of a navigation tree: node 0 is the synthetic root
/// with the empty slug, and every child position lies strictly between
/// its parent's position and the end.
pub open spec fn nav_wf(t: Seq<NavNodeV>) -> bool {
    &&& t.len() >= 1
    &&& t[0].slug.len() == 0
    &&& forall|n: int, c: int|
        0 <= n < t.len() && 0 <= c < t[n].children.len() ==> n < #[trigger] t[n].children[c]
            < t.len()
}

/// First node position recorded for a page id, or -1.
pub open spec fn lookup_node(m: Seq<(int, int)>, id: int) -> int
    decreases m.len(),
{
    if m.len() == 0 {
        -1
    } else if m[0].0 == id {
        m[0].1
    } else {
        lookup_node(m.drop_first(), id)
    }
}

/// One step of the tree build: fold the page at position `k` of the store
/// into the tree, the id-to-node map, and the node-to-page-id trace.
/// The root page (empty slug) folds onto the synthetic root node; any
/// other page becomes a fresh node appended to its parent's children.
pub open spec fn nav_fold(s: Seq<PageV>, k: int) -> (Seq<NavNodeV>, Seq<(int, int)>, Seq<int>)
    decreases k,
    when 0 <= k <= s.len()
{
    if k <= 0 {
        (
            seq![NavNodeV { slug: Seq::empty(), children: Seq::empty() }],
            Seq::<(int, int)>::empty(),
            seq![-1],
        )
    } else {
        let (t, m, np) = nav_fold(s, k - 1);
        let p = s[k - 1];
        if p.slug.len() == 0 {
            (t, m.push((p.id, 0)), np.update(0, p.id))
        } else {
            let pn = if p.parent_id is None {
                0
            } else {
                lookup_node(m, p.parent_id->0)
            };
            let ni = t.len() as int;
            let t1 = t.update(
                pn,
                NavNodeV { slug: t[pn].slug, children: t[pn].children.push(ni) },
            ).push(NavNodeV { slug: p.slug, children: Seq::empty() });
            (t1, m.push((p.id, ni)), np.push(p.id))
        }
    }
}

/// The navigation tree of a store.
pub open spec fn nav_tree(s: Seq<PageV>) -> Seq<NavNodeV> {
    nav_fold(s, s.len() as int).0
}

/// The end of the path segment starting at `i`: the next slash, or the
/// end of the text.
pub open spec fn seg_end(s: Seq<char>, i: int) -> int
    decreases s.len() - i,
    when 0 <= i <= s.len()
{
    if i >= s.len() || s[i] == '/' {
        i
    } else {
        seg_end(s, i + 1)
    }
}

/// The segment end lies between its start and the end of the text.
pub proof fn lemma_seg_end(s: Seq<char>, i: int)
    requires
        0 <= i <= s.len(),
    ensures
        i <= seg_end(s, i) <= s.len(),
    decreases s.len() - i,
{
    if i < s.len() && s[i] != '/' {
        lemma_seg_end(s, i + 1);
    }
}

/// The slash-separated segments of a path from position `i` on; the empty
/// text yields one empty segment, as splitting does.
pub open spec fn split_from(s: Seq<char>, i: int) -> Seq<Seq<char>>
    decreases s.len() - i,
    when 0 <= i <= s.len()
    via split_from_decreases
{
    let e = seg_end(s, i);
    if e >= s.len() {
        seq![s.subrange(i, e)]
    } else {
        seq![s.subrange(i, e)] + split_from(s, e + 1)
    }
}

#[via_fn]
proof fn split_from_decreases(s: Seq<char>, i: int) {
    if 0 <= i <= s.len() {
        lemma_seg_end(s, i);
    }
}

/// Splitting distributes over a slash join.
pub proof fn lemma_split_join(a: Seq<char>, b: Seq<char>)
    ensures
        split_from(a + seq!['/'] + b, 0) == split_from(a, 0) + split_from(b, 0),
    decreases a.len(),
{
    let w = a + seq!['/'] + b;
    lemma_seg_end(w, 0);
    lemma_seg_end(a, 0);
    let ea = seg_end(a, 0);
    lemma_seg_end_prefix(a, b, 0);
    if ea >= a.len() {
        // the first segment of the join is all of `a`
        assert(seg_end(w, 0) == a.len());
        assert(w.subrange(0, a.len() as int) =~= a);
        assert(split_from(a, 0) =~= seq![a.subrange(0, ea)]);
        assert(w.subrange(a.len() as int + 1, w.len() as int) =~= b);
        lemma_split_shift(w, a.len() as int + 1, b);
        assert(split_from(w, 0) =~= seq![w.subrange(0, a.len() as int)] + split_from(b, 0));
        assert(a.subrange(0, ea) =~= a);
        assert(split_from(w, 0) =~= split_from(a, 0) + split_from(b, 0));
    } else {
        // both first segments agree; recurse on the tails
        assert(seg_end(w, 0) == ea);
        assert(w.subrange(0, ea) =~= a.subrange(0, ea));
        let a2 = a.subrange(ea + 1, a.len() as int);
        assert(a2 + seq!['/'] + b =~= w.subrange(ea + 1, w.len() as int));
        lemma_split_join(a2, b);
        lemma_split_shift_general(w, ea + 1);
        lemma_split_shift_general(a, ea + 1);
        assert(split_from(w, ea + 1) == split_from(w.subrange(ea + 1, w.len() as int), 0));
        assert(split_from(a, ea + 1) == split_from(a2, 0));
        assert(split_from(w, 0) =~= seq![w.subrange(0, ea)] + split_from(w, ea + 1));
        assert(split_from(a, 0) =~= seq![a.subrange(0, ea)] + split_from(a, ea + 1));
        assert(split_from(w, 0) =~= split_from(a, 0) + split_from(b, 0));
    }
}

/// Within the `a` part of a slash join, segment ends agree with `a`'s own.
proof fn lemma_seg_end_prefix(a: Seq<char>, b: Seq<char>, i: int)
    requires
        0 <= i <= a.len(),
    ensures
        seg_end(a, i) < a.len() ==> seg_end(a + seq!['/'] + b, i) == seg_end(a, i),
        seg_end(a, i) >= a.len() ==> seg_end(a + seq!['/'] + b, i) == a.len(),
    decreases a.len() - i,
{
    let w = a + seq!['/'] + b;
    if i < a.len() && a[i] != '/' {
        lemma_seg_end_prefix(a, b, i + 1);
    }
}

/// Splitting a suffix that starts right after a slash equals splitting
/// that suffix as its own text.
proof fn lemma_split_shift_general(w: Seq<char>, i: int)
    requires
        0 <= i <= w.len(),
    ensures
        split_from(w, i) == split_from(w.subrange(i, w.len() as int), 0),
    decreases w.len() - i,
{
    let tail = w.subrange(i, w.len() as int);
    lemma_seg_end(w, i);
    lemma_seg_end_shift(w, i, i);
    let e = seg_end(w, i);
    assert(seg_end(tail, 0) == e - i);
    assert(w.subrange(i, e) =~= tail.subrange(0, e - i));
    if e < w.len() {
        lemma_split_shift_general(w, e + 1);
        assert(w.subrange(e + 1, w.len() as int) =~= tail.subrange(
            e - i + 1,
            tail.len() as int,
        ));
        lemma_split_shift_general(tail, e - i + 1);
        assert(split_from(tail, 0) =~= seq![tail.subrange(0, e - i)] + split_from(
            tail,
            e - i + 1,
        ));
        assert(split_from(w, 0 + i) =~= seq![w.subrange(i, e)] + split_from(w, e + 1));
        assert(split_from(w, i) =~= split_from(tail, 0));
    } else {
        assert(split_from(w, i) =~= seq![w.subrange(i, e)]);
        assert(split_from(tail, 0) =~= seq![tail.subrange(0, e - i)]);
        assert(split_from(w, i) =~= split_from(tail, 0));
    }
}

/// Segment ends shift along with the text.
proof fn lemma_seg_end_shift(w: Seq<char>, base: int, i: int)
    requires
        0 <= base <= i <= w.len(),
    ensures
        seg_end(w.subrange(base, w.len() as int), i - base) == seg_end(w, i) - base,
    decreases w.len() - i,
{
    let tail = w.subrange(base, w.len() as int);
    if i < w.len() && w[i] != '/' {
        lemma_seg_end_shift(w, base, i + 1);
    }
}

/// Splitting from just past `a`'s closing slash is splitting `b`.
proof fn lemma_split_shift(w: Seq<char>, i: int, b: Seq<char>)
    requires
        0 <= i <= w.len(),
        w.subrange(i, w.len() as int) == b,
    ensures
        split_from(w, i) == split_from(b, 0),
{
    lemma_split_shift_general(w, i);
}

/// The "active" segment list for a viewed path: an empty segment for the
/// root, then the path split on slashes.
pub open spec fn nav_segments(p: Seq<char>) -> Seq<Seq<char>> {
    seq![Seq::<char>::empty()] + split_from(p, 0)
}

/// The connector padding contributed by the first `n` ancestor levels:
/// a continuation bar where that ancestor has later siblings, blank
/// padding where it was the last child.
pub open spec fn pad_run(prev: Seq<bool>, n: int) -> Seq<char>
    decreases n,
{
    if n <= 0 {
        Seq::empty()
    } else {
        pad_run(prev, n - 1) + (if prev[n - 1] {
            "|&nbsp;&nbsp;"@
        } else {
            "&nbsp;&nbsp;&nbsp;"@
        })
    }
}

/// The glyph prefix of one node: padding for every ancestor level above
/// the parent, then a corner for a last child, a branch otherwise. The
/// root itself gets no prefix.
pub open spec fn node_prefix(prev: Seq<bool>, is_last: bool) -> Seq<char> {
    if prev.len() == 0 {
        Seq::empty()
    } else {
        pad_run(prev, prev.len() - 1) + (if is_last {
            "\u{2514}\u{2500}\u{2500}"@
        } else {
            "\u{251c}\u{2500}\u{2500}"@
        })
    }
}

/// What rendering a subtree produces: its text, the index of the first
/// active segment still unconsumed, and the set of nodes that were
/// expanded into a nested list.
pub struct NavOut {
    pub text: Seq<char>,
    pub pos: int,
    pub expanded: Set<int>,
}

/// Render one node: a list item holding its glyph prefix and its link
/// (slug with a trailing slash when it has children, over the
/// accumulated href); a nested list of its children exactly when it has
/// children and its slug consumes the next active segment.
pub open spec fn spec_render_node(
    t: Seq<NavNodeV>,
    n: int,
    acc: Seq<char>,
    segs: Seq<Seq<char>>,
    pos: int,
    is_last: bool,
    prev: Seq<bool>,
) -> NavOut
    decreases t.len() - n, 1int, 0int,
    when nav_wf(t) && 0 <= n < t.len()
{
    let kids = t[n].children;
    let seg_txt = if kids.len() > 0 {
        t[n].slug + seq!['/']
    } else {
        t[n].slug
    };
    let new_path = acc + seg_txt;
    let head = "<li>"@ + node_prefix(prev, is_last) + "<a href=\"/pages"@ + new_path + "\">"@
        + seg_txt + "</a>"@;
    if kids.len() > 0 && pos < segs.len() && t[n].slug == segs[pos] {
        let kout = spec_render_kids(t, n, 0, new_path, segs, pos + 1, prev);
        NavOut {
            text: head + "<ul>"@ + kout.text + "</ul>"@ + "</li>"@,
            pos: kout.pos,
            expanded: kout.expanded.insert(n),
        }
    } else {
        NavOut { text: head + "</li>"@, pos, expanded: Set::empty() }
    }
}

/// Render the children of node `n` from child position `ki` on, threading
/// the consumed-segment position left to right.
pub open spec fn spec_render_kids(
    t: Seq<NavNodeV>,
    n: int,
    ki: int,
    acc: Seq<char>,
    segs: Seq<Seq<char>>,
    pos: int,
    prev: Seq<bool>,
) -> NavOut
    decreases t.len() - n, 0int, t[n].children.len() - ki,
    when nav_wf(t) && 0 <= n < t.len() && 0 <= ki
{
    let kids = t[n].children;
    if ki >= kids.len() {
        NavOut { text: Seq::empty(), pos, expanded: Set::empty() }
    } else {
        let c = kids[ki];
        let last = ki == kids.len() - 1;
        let cout = spec_render_node(t, c, acc, segs, pos, last, prev.push(!last));
        let rout = spec_render_kids(t, n, ki + 1, acc, segs, cout.pos, prev);
        NavOut {
            text: cout.text + rout.text,
            pos: rout.pos,
            expanded: cout.expanded + rout.expanded,
        }
    }
}

/// The whole navigation element of a store for a viewed path.
pub open spec fn spec_nav(s: Seq<PageV>, path: Seq<char>) -> Seq<char> {
    "<ul>"@ + spec_render_node(
        nav_tree(s),
        0,
        Seq::empty(),
        nav_segments(path),
        0,
        false,
        Seq::empty(),
    ).text + "</ul>"@
}

/// No two children of any node share a slug: the navigation image of the
/// sibling-slug uniqueness invariant of the page store.
pub open spec fn nav_sibling_unique(t: Seq<NavNodeV>) -> bool {
    forall|n: int, a: int, b: int|
        0 <= n < t.len() && 0 <= a < t[n].children.len() && 0 <= b < t[n].children.len() && a != b
            ==> t[#[trigger] t[n].children[a]].slug != t[#[trigger] t[n].children[b]].slug
}

/// A chain realizing the active segments in the tree: the synthetic root
/// first, then at each level the child whose slug is the next segment.
pub open spec fn is_chain(t: Seq<NavNodeV>, segs: Seq<Seq<char>>, ch: Seq<int>) -> bool {
    &&& ch.len() == segs.len()
    &&& ch.len() > 0
    &&& ch[0] == 0
    &&& (forall|i: int| 0 <= i < ch.len() ==> 0 <= #[trigger] ch[i] < t.len())
    &&& (forall|i: int| 0 <= i < ch.len() ==> t[#[trigger] ch[i]].slug == segs[i])
    &&& (forall|i: int|
        0 <= i < ch.len() - 1 ==> t[#[trigger] ch[i]].children.contains(ch[i + 1]))
}

/// Once every active segment is consumed, no further node expands and the
/// position stays saturated.
proof fn lemma_kids_saturated(
    t: Seq<NavNodeV>,
    n: int,
    ki: int,
    acc: Seq<char>,
    segs: Seq<Seq<char>>,
    prev: Seq<bool>,
)
    requires
        nav_wf(t),
        0 <= n < t.len(),
        0 <= ki,
    ensures
        spec_render_kids(t, n, ki, acc, segs, segs.len() as int, prev).pos == segs.len(),
        spec_render_kids(t, n, ki, acc, segs, segs.len() as int, prev).expanded == Set::<
            int,
        >::empty(),
    decreases t[n].children.len() - ki,
{
    let kids = t[n].children;
    if ki < kids.len() {
        let c = kids[ki];
        let last = ki == kids.len() - 1;
        assert(0 <= c < t.len());
        let cout = spec_render_node(t, c, acc, segs, segs.len() as int, last, prev.push(!last));
        assert(cout.pos == segs.len() && cout.expanded == Set::<int>::empty());
        lemma_kids_saturated(t, n, ki + 1, acc, segs, prev);
        let rout = spec_render_kids(t, n, ki + 1, acc, segs, cout.pos, prev);
        assert(rout.pos == segs.len() && rout.expanded == Set::<int>::empty());
        assert(spec_render_kids(t, n, ki, acc, segs, segs.len() as int, prev).expanded =~= Set::<
            int,
        >::empty());
    } else {
        assert(spec_render_kids(t, n, ki, acc, segs, segs.len() as int, prev).expanded =~= Set::<
            int,
        >::empty());
    }
}

/// Dropping the head of a chain suffix turns its node set into an insert.
proof fn lemma_subrange_to_set_step(ch: Seq<int>, i: int)
    requires
        0 <= i < ch.len(),
    ensures
        ch.subrange(i, ch.len() as int).to_set() == ch.subrange(
            i + 1,
            ch.len() as int,
        ).to_set().insert(ch[i]),
{
    let a = ch.subrange(i, ch.len() as int);
    let b = ch.subrange(i + 1, ch.len() as int);
    assert forall|x: int| a.to_set().contains(x) implies b.to_set().insert(ch[i]).contains(x) by {
        let j = choose|j: int| 0 <= j < a.len() && a[j] == x;
        if j > 0 {
            assert(b[j - 1] == x);
            assert(b.contains(x));
        }
    }
    assert forall|x: int| b.to_set().insert(ch[i]).contains(x) implies a.to_set().contains(x) by {
        if x == ch[i] {
            assert(a[0] == x);
            assert(a.contains(x));
        } else {
            let j = choose|j: int| 0 <= j < b.len() && b[j] == x;
            assert(a[j + 1] == x);
            assert(a.contains(x));
        }
    }
    assert(a.to_set() =~= b.to_set().insert(ch[i]));
}

/// Rendering a chain node from its own segment index consumes every
/// remaining segment and expands exactly the chain nodes from here down.
proof fn lemma_chain_node(
    t: Seq<NavNodeV>,
    segs: Seq<Seq<char>>,
    ch: Seq<int>,
    i: int,
    acc: Seq<char>,
    is_last: bool,
    prev: Seq<bool>,
)
    requires
        nav_wf(t),
        nav_sibling_unique(t),
        is_chain(t, segs, ch),
        t[ch[ch.len() - 1]].children.len() > 0,
        0 <= i < ch.len(),
    ensures
        spec_render_node(t, ch[i], acc, segs, i, is_last, prev).pos == segs.len(),
        spec_render_node(t, ch[i], acc, segs, i, is_last, prev).expanded == ch.subrange(
            i,
            ch.len() as int,
        ).to_set(),
    decreases t.len() - ch[i], 1int, 0int,
{
    let n = ch[i];
    let kids = t[n].children;
    let seg_txt = if kids.len() > 0 {
        t[n].slug + seq!['/']
    } else {
        t[n].slug
    };
    let new_path = acc + seg_txt;
    if i == ch.len() - 1 {
        lemma_kids_saturated(t, n, 0, new_path, segs, prev);
        let kout = spec_render_kids(t, n, 0, new_path, segs, i + 1, prev);
        assert(kout.expanded.insert(n) =~= ch.subrange(i, ch.len() as int).to_set()) by {
            assert(ch.subrange(i, ch.len() as int)[0] == n);
            assert(ch.subrange(i, ch.len() as int).len() == 1);
        }
    } else {
        assert(kids.contains(ch[i + 1]));
        let cc = choose|cc: int| 0 <= cc < kids.len() && kids[cc] == ch[i + 1];
        lemma_chain_kids(t, segs, ch, i, 0, cc, new_path, prev);
        lemma_subrange_to_set_step(ch, i);
        let kout = spec_render_kids(t, n, 0, new_path, segs, i + 1, prev);
        assert(kout.expanded.insert(n) =~= ch.subrange(i, ch.len() as int).to_set());
    }
}

/// Rendering the children of chain node `ch[i]` from child position `ki`,
/// with the chain child still ahead at position `cc`, consumes every
/// remaining segment and expands exactly the chain nodes below.
proof fn lemma_chain_kids(
    t: Seq<NavNodeV>,
    segs: Seq<Seq<char>>,
    ch: Seq<int>,
    i: int,
    ki: int,
    cc: int,
    acc: Seq<char>,
    prev: Seq<bool>,
)
    requires
        nav_wf(t),
        nav_sibling_unique(t),
        is_chain(t, segs, ch),
        t[ch[ch.len() - 1]].children.len() > 0,
        0 <= i < ch.len() - 1,
        0 <= ki <= cc,
        cc < t[ch[i]].children.len(),
        t[ch[i]].children[cc] == ch[i + 1],
    ensures
        spec_render_kids(t, ch[i], ki, acc, segs, i + 1, prev).pos == segs.len(),
        spec_render_kids(t, ch[i], ki, acc, segs, i + 1, prev).expanded == ch.subrange(
            i + 1,
            ch.len() as int,
        ).to_set(),
    decreases t.len() - ch[i], 0int, t[ch[i]].children.len() - ki,
{
    let n = ch[i];
    let kids = t[n].children;
    let c = kids[ki];
    let last = ki == kids.len() - 1;
    if ki == cc {
        assert(c == ch[i + 1]);
        assert(n < c < t.len());
        lemma_chain_node(t, segs, ch, i + 1, acc, last, prev.push(!last));
        let cout = spec_render_node(t, c, acc, segs, i + 1, last, prev.push(!last));
        lemma_kids_saturated(t, n, ki + 1, acc, segs, prev);
        let rout = spec_render_kids(t, n, ki + 1, acc, segs, cout.pos, prev);
        assert(cout.expanded + rout.expanded =~= ch.subrange(i + 1, ch.len() as int).to_set());
    } else {
        assert(t[kids[ki]].slug != t[kids[cc]].slug);
        assert(t[c].slug != segs[i + 1]);
        let cout = spec_render_node(t, c, acc, segs, i + 1, last, prev.push(!last));
        assert(cout.pos == i + 1 && cout.expanded == Set::<int>::empty());
        lemma_chain_kids(t, segs, ch, i, ki + 1, cc, acc, prev);
        let rout = spec_render_kids(t, n, ki + 1, acc, segs, i + 1, prev);
        assert(cout.expanded + rout.expanded =~= ch.subrange(i + 1, ch.len() as int).to_set());
    }
}

/// No child list mentions the same node twice.
pub open spec fn nav_children_distinct(t: Seq<NavNodeV>) -> bool {
    forall|n: int, c1: int, c2: int|
        0 <= n < t.len() && 0 <= c1 < c2 < t[n].children.len() ==> (
        #[trigger] t[n].children[c1]) != (#[trigger] t[n].children[c2])
}

/// Off the chain, no branching sibling carries the last active segment's
/// slug: the inputs on which a collapsed viewed page would let a
/// like-named sibling of an ancestor expand in its stead.
pub open spec fn no_stray_match(t: Seq<NavNodeV>, segs: Seq<Seq<char>>, ch: Seq<int>) -> bool {
    forall|d: int, c: int|
        0 <= d < ch.len() - 1 && 0 <= c < t[ch[d]].children.len() && (
        #[trigger] t[ch[d]].children[c]) != ch[d + 1] ==> !(t[t[ch[d]].children[c]].children.len()
            > 0 && t[t[ch[d]].children[c]].slug == segs[segs.len() - 1])
}

/// With the position resting on the last segment, the children of chain
/// node `ch[i]` after its chain child never expand.
proof fn lemma_kids_tail_leaf(
    t: Seq<NavNodeV>,
    segs: Seq<Seq<char>>,
    ch: Seq<int>,
    i: int,
    ki: int,
    cc: int,
    acc: Seq<char>,
    prev: Seq<bool>,
)
    requires
        nav_wf(t),
        nav_children_distinct(t),
        is_chain(t, segs, ch),
        no_stray_match(t, segs, ch),
        0 <= i < ch.len() - 1,
        0 <= cc < ki,
        cc < t[ch[i]].children.len(),
        t[ch[i]].children[cc] == ch[i + 1],
    ensures
        spec_render_kids(t, ch[i], ki, acc, segs, segs.len() - 1, prev).pos == segs.len() - 1,
        spec_render_kids(t, ch[i], ki, acc, segs, segs.len() - 1, prev).expanded == Set::<
            int,
        >::empty(),
    decreases t[ch[i]].children.len() - ki,
{
    let n = ch[i];
    let kids = t[n].children;
    let pos = segs.len() - 1;
    if ki < kids.len() {
        let c = kids[ki];
        let last = ki == kids.len() - 1;
        assert(0 <= c < t.len());
        assert(kids[ki] != kids[cc]);
        assert(!(t[c].children.len() > 0 && t[c].slug == segs[pos]));
        let cout = spec_render_node(t, c, acc, segs, pos, last, prev.push(!last));
        assert(cout.pos == pos && cout.expanded == Set::<int>::empty());
        lemma_kids_tail_leaf(t, segs, ch, i, ki + 1, cc, acc, prev);
        let rout = spec_render_kids(t, n, ki + 1, acc, segs, pos, prev);
        assert(cout.expanded + rout.expanded =~= Set::<int>::empty());
    } else {
        assert(spec_render_kids(t, n, ki, acc, segs, pos, prev).expanded =~= Set::<
            int,
        >::empty());
    }
}

/// Dropping the head of a bounded chain stretch turns its node set into
/// an insert.
proof fn lemma_subrange_to_set_head(ch: Seq<int>, i: int, e: int)
    requires
        0 <= i < e <= ch.len(),
    ensures
        ch.subrange(i, e).to_set() == ch.subrange(i + 1, e).to_set().insert(ch[i]),
{
    let a = ch.subrange(i, e);
    let b = ch.subrange(i + 1, e);
    assert forall|x: int| a.to_set().contains(x) implies b.to_set().insert(ch[i]).contains(x) by {
        let j = choose|j: int| 0 <= j < a.len() && a[j] == x;
        if j > 0 {
            assert(b[j - 1] == x);
            assert(b.contains(x));
        }
    }
    assert forall|x: int| b.to_set().insert(ch[i]).contains(x) implies a.to_set().contains(x) by {
        if x == ch[i] {
            assert(a[0] == x);
            assert(a.contains(x));
        } else {
            let j = choose|j: int| 0 <= j < b.len() && b[j] == x;
            assert(a[j + 1] == x);
            assert(a.contains(x));
        }
    }
    assert(a.to_set() =~= b.to_set().insert(ch[i]));
}

/// Rendering an ancestor of a collapsed viewed page from its own segment
/// index consumes the segments down to (but not including) the last one
/// and expands exactly the chain nodes from here to the viewed page's
/// parent.
proof fn lemma_chain_node_leaf(
    t: Seq<NavNodeV>,
    segs: Seq<Seq<char>>,
    ch: Seq<int>,
    i: int,
    acc: Seq<char>,
    is_last: bool,
    prev: Seq<bool>,
)
    requires
        nav_wf(t),
        nav_sibling_unique(t),
        nav_children_distinct(t),
        is_chain(t, segs, ch),
        no_stray_match(t, segs, ch),
        t[ch[ch.len() - 1]].children.len() == 0,
        0 <= i < ch.len() - 1,
    ensures
        spec_render_node(t, ch[i], acc, segs, i, is_last, prev).pos == segs.len() - 1,
        spec_render_node(t, ch[i], acc, segs, i, is_last, prev).expanded == ch.subrange(
            i,
            ch.len() - 1,
        ).to_set(),
    decreases t.len() - ch[i], 1int, 0int,
{
    let n = ch[i];
    let kids = t[n].children;
    assert(kids.contains(ch[i + 1]));
    let cc = choose|cc: int| 0 <= cc < kids.len() && kids[cc] == ch[i + 1];
    let seg_txt = if kids.len() > 0 {
        t[n].slug + seq!['/']
    } else {
        t[n].slug
    };
    let new_path = acc + seg_txt;
    lemma_chain_kids_leaf(t, segs, ch, i, 0, cc, new_path, prev);
    lemma_subrange_to_set_head(ch, i, ch.len() - 1);
    let kout = spec_render_kids(t, n, 0, new_path, segs, i + 1, prev);
    assert(kout.expanded.insert(n) =~= ch.subrange(i, ch.len() - 1).to_set());
}

/// Rendering the children of such an ancestor from position `ki`, the
/// chain child still ahead at `cc`, consumes the segments down to the
/// last one and expands exactly the chain nodes strictly below.
proof fn lemma_chain_kids_leaf(
    t: Seq<NavNodeV>,
    segs: Seq<Seq<char>>,
    ch: Seq<int>,
    i: int,
    ki: int,
    cc: int,
    acc: Seq<char>,
    prev: Seq<bool>,
)
    requires
        nav_wf(t),
        nav_sibling_unique(t),
        nav_children_distinct(t),
        is_chain(t, segs, ch),
        no_stray_match(t, segs, ch),
        t[ch[ch.len() - 1]].children.len() == 0,
        0 <= i < ch.len() - 1,
        0 <= ki <= cc,
        cc < t[ch[i]].children.len(),
        t[ch[i]].children[cc] == ch[i + 1],
    ensures
        spec_render_kids(t, ch[i], ki, acc, segs, i + 1, prev).pos == segs.len() - 1,
        spec_render_kids(t, ch[i], ki, acc, segs, i + 1, prev).expanded == ch.subrange(
            i + 1,
            ch.len() - 1,
        ).to_set(),
    decreases t.len() - ch[i], 0int, t[ch[i]].children.len() - ki,
{
    let n = ch[i];
    let kids = t[n].children;
    let c = kids[ki];
    let last = ki == kids.len() - 1;
    if ki == cc {
        assert(c == ch[i + 1]);
        assert(n < c < t.len());
        let cout = spec_render_node(t, c, acc, segs, i + 1, last, prev.push(!last));
        if i + 1 == ch.len() - 1 {
            // the chain child is the collapsed viewed page itself
            assert(t[c].children.len() == 0);
            assert(cout.pos == i + 1 && cout.expanded == Set::<int>::empty());
        } else {
            lemma_chain_node_leaf(t, segs, ch, i + 1, acc, last, prev.push(!last));
        }
        lemma_kids_tail_leaf(t, segs, ch, i, ki + 1, cc, acc, prev);
        let rout = spec_render_kids(t, n, ki + 1, acc, segs, cout.pos, prev);
        assert(cout.expanded + rout.expanded =~= ch.subrange(i + 1, ch.len() - 1).to_set());
    } else {
        assert(t[kids[ki]].slug != t[kids[cc]].slug);
        assert(t[c].slug != segs[i + 1]);
        let cout = spec_render_node(t, c, acc, segs, i + 1, last, prev.push(!last));
        assert(cout.pos == i + 1 && cout.expanded == Set::<int>::empty());
        lemma_chain_kids_leaf(t, segs, ch, i, ki + 1, cc, acc, prev);
        let rout = spec_render_kids(t, n, ki + 1, acc, segs, i + 1, prev);
        assert(cout.expanded + rout.expanded =~= ch.subrange(i + 1, ch.len() - 1).to_set());
    }
}

/// The navigation renderer, viewing a page whose node has no children,
/// expands exactly the proper ancestors of the viewed page — provided no
/// branching sibling off the chain reuses the last segment's slug, the
/// inputs on which the rendering really does expand such a stray.
pub proof fn lemma_nav_expands_chain_to_leaf(t: Seq<NavNodeV>, segs: Seq<Seq<char>>, ch: Seq<int>)
    requires
        nav_wf(t),
        nav_sibling_unique(t),
        nav_children_distinct(t),
        is_chain(t, segs, ch),
        no_stray_match(t, segs, ch),
        t[ch[ch.len() - 1]].children.len() == 0,
    ensures
        spec_render_node(t, 0, Seq::empty(), segs, 0, false, Seq::empty()).expanded
            == ch.subrange(0, ch.len() - 1).to_set(),
        spec_render_node(t, 0, Seq::empty(), segs, 0, false, Seq::empty()).pos == segs.len() - 1,
{
    if ch.len() == 1 {
        // the viewed page is the root itself, already childless
        assert(t[0].children.len() == 0);
        let out = spec_render_node(t, 0, Seq::empty(), segs, 0, false, Seq::empty());
        assert(out.expanded =~= ch.subrange(0, 0).to_set()) by {
            assert(ch.subrange(0, 0) =~= Seq::<int>::empty());
            assert forall|x: int| !ch.subrange(0, 0).to_set().contains(x) by {
                if ch.subrange(0, 0).contains(x) {
                    let j = choose|j: int|
                        0 <= j < ch.subrange(0, 0).len() && ch.subrange(0, 0)[j] == x;
                }
            }
        }
    } else {
        lemma_chain_node_leaf(t, segs, ch, 0, Seq::empty(), false, Seq::empty());
    }
}

/// The navigation renderer expands exactly the nodes of the active chain:
/// one nested list per ancestor of the viewed path (the viewed page
/// included, provided it has children of its own), and no nested list
/// under any other node.
pub proof fn lemma_nav_expands_active_chain(
    t: Seq<NavNodeV>,
    segs: Seq<Seq<char>>,
    ch: Seq<int>,
)
    requires
        nav_wf(t),
        nav_sibling_unique(t),
        is_chain(t, segs, ch),
        t[ch[ch.len() - 1]].children.len() > 0,
    ensures
        spec_render_node(t, 0, Seq::empty(), segs, 0, false, Seq::empty()).expanded
            == ch.to_set(),
        spec_render_node(t, 0, Seq::empty(), segs, 0, false, Seq::empty()).pos == segs.len(),
{
    lemma_chain_node(t, segs, ch, 0, Seq::empty(), false, Seq::empty());
    assert(ch.subrange(0, ch.len() as int) =~= ch);
}

/// The store positions of a page's ancestors, root first, the page last.
pub open spec fn ancestors(s: Seq<PageV>, i: int) -> Seq<int>
    decreases i,
    when store_wf(s) && 0 <= i < s.len()
    via ancestors_decreases
{
    if s[i].parent_id is None {
        seq![i]
    } else {
        ancestors(s, find_page(s, s[i].parent_id->0)) + seq![i]
    }
}

#[via_fn]
proof fn ancestors_decreases(s: Seq<PageV>, i: int) {
    if store_wf(s) && 0 <= i < s.len() && s[i].parent_id is Some {
        assert(0 <= find_page(s, s[i].parent_id->0) < i);
    }
}

/// The slugs along a page's ancestor chain, the root's empty slug first.
pub open spec fn ancestor_slugs(s: Seq<PageV>, i: int) -> Seq<Seq<char>> {
    ancestors(s, i).map_values(|j: int| s[j].slug)
}

/// The shape of an ancestor chain: it starts at the root, ends at the
/// page, stays inside the store, and follows parent links.
pub proof fn lemma_ancestors(s: Seq<PageV>, i: int)
    requires
        store_wf(s),
        0 <= i < s.len(),
    ensures
        ancestors(s, i).len() >= 1,
        ancestors(s, i)[0] == 0,
        ancestors(s, i).last() == i,
        forall|d: int| 0 <= d < ancestors(s, i).len() ==> 0 <= #[trigger] ancestors(s, i)[d]
            < s.len(),
        forall|d: int|
            1 <= d < ancestors(s, i).len() ==> #[trigger] ancestors(s, i)[d] > 0
                && s[ancestors(s, i)[d]].parent_id == Some(s[ancestors(s, i)[d - 1]].id),
    decreases i,
{
    if s[i].parent_id is None {
        assert(i == 0);
    } else {
        let pi = find_page(s, s[i].parent_id->0);
        lemma_find_page(s, s[i].parent_id->0);
        lemma_ancestors(s, pi);
        let a = ancestors(s, pi);
        let a1 = ancestors(s, i);
        assert(a1 == a + seq![i]);
        assert forall|d: int|
            1 <= d < a1.len() implies #[trigger] a1[d] > 0 && s[a1[d]].parent_id == Some(
            s[a1[d - 1]].id,
        ) by {
            if d < a.len() {
                assert(a1[d] == a[d]);
                assert(a1[d - 1] == a[d - 1]);
            } else {
                assert(a1[d] == i);
                assert(a1[d - 1] == a.last());
                assert(a.last() == pi);
                assert(s[i].parent_id == Some(s[pi].id));
            }
        }
    }
}

/// A stretch of text without slashes runs to its end as one segment.
proof fn lemma_seg_end_noslash(x: Seq<char>, i: int)
    requires
        0 <= i <= x.len(),
        forall|k: int| i <= k < x.len() ==> x[k] != '/',
    ensures
        seg_end(x, i) == x.len(),
    decreases x.len() - i,
{
    if i < x.len() {
        lemma_seg_end_noslash(x, i + 1);
    }
}

/// The active segments of a non-root page's path are exactly the slugs
/// along its ancestor chain.
#[verifier::spinoff_prover]
#[verifier::rlimit(100)]
pub proof fn lemma_path_segments(s: Seq<PageV>, i: int)
    requires
        store_wf(s),
        0 < i < s.len(),
    ensures
        nav_segments(crate::path_codec::spec_path(s, i)) == ancestor_slugs(s, i),
    decreases i,
{
    let pi = find_page(s, s[i].parent_id->0);
    lemma_find_page(s, s[i].parent_id->0);
    lemma_ancestors(s, i);
    lemma_ancestors(s, pi);
    let pp = crate::path_codec::spec_path(s, pi);
    let path = crate::path_codec::spec_path(s, i);
    assert(valid_slug(s[i].slug));
    assert forall|k: int| 0 <= k < s[i].slug.len() implies s[i].slug[k] != '/' by {
        assert(is_slug_char(s[i].slug[k]));
    }
    if pi == 0 {
        assert(ancestors(s, 0) == seq![0int]);
        assert(pp.len() == 0);
        assert(path == s[i].slug);
        lemma_seg_end_noslash(path, 0);
        assert(split_from(path, 0) =~= seq![path.subrange(0, path.len() as int)]);
        assert(path.subrange(0, path.len() as int) =~= path);
        assert(ancestors(s, i) =~= seq![0int, i]);
        assert(nav_segments(path) =~~= ancestor_slugs(s, i));
    } else {
        assert(pi > 0);
        // a non-root page's path is never empty
        lemma_find_page(s, s[pi].parent_id->0);
        assert(valid_slug(s[pi].slug));
        assert(pp.len() > 0);
        assert(path == pp + seq!['/'] + s[i].slug);
        lemma_split_join(pp, s[i].slug);
        lemma_path_segments(s, pi);
        lemma_seg_end_noslash(s[i].slug, 0);
        assert(split_from(s[i].slug, 0) =~= seq![
            s[i].slug.subrange(0, s[i].slug.len() as int),
        ]);
        assert(s[i].slug.subrange(0, s[i].slug.len() as int) =~= s[i].slug);
        assert(ancestors(s, i) == ancestors(s, pi) + seq![i]);
        assert(ancestor_slugs(s, i) =~~= ancestor_slugs(s, pi) + seq![s[i].slug]);
        assert(nav_segments(path) =~~= ancestor_slugs(s, i));
    }
}

/// The tree node that carries the page at store position `j`.
pub open spec fn node_of(s: Seq<PageV>, j: int) -> int {
    nav_fold(s, s.len() as int).1[j].1
}

/// The tree nodes along a page's ancestor chain.
pub open spec fn ancestor_nodes(s: Seq<PageV>, i: int) -> Seq<int> {
    ancestors(s, i).map_values(|j: int| node_of(s, j))
}

/// For a well-formed store, viewing a non-root page with no children of
/// its own expands exactly the nodes of the page's proper ancestors —
/// provided no other page with the viewed page's slug has children. On
/// inputs with such a namesake the rendering really does expand it once
/// the collapsed viewed page leaves its segment unconsumed.
pub proof fn lemma_nav_expands_ancestors_leaf(s: Seq<PageV>, i: int)
    requires
        store_wf(s),
        0 < i < s.len(),
        forall|j: int| 0 < j < s.len() ==> (#[trigger] s[j]).parent_id != Some(s[i].id),
        forall|j: int|
            0 < j < s.len() && (#[trigger] s[j]).slug == s[i].slug && (exists|jc: int|
                0 < jc < s.len() && (#[trigger] s[jc]).parent_id == Some(s[j].id)) ==> j == i,
    ensures
        spec_render_node(
            nav_tree(s),
            0,
            Seq::empty(),
            nav_segments(crate::path_codec::spec_path(s, i)),
            0,
            false,
            Seq::empty(),
        ).expanded == ancestor_nodes(s, i).subrange(
            0,
            ancestor_nodes(s, i).len() - 1,
        ).to_set(),
        spec_render_node(
            nav_tree(s),
            0,
            Seq::empty(),
            nav_segments(crate::path_codec::spec_path(s, i)),
            0,
            false,
            Seq::empty(),
        ).pos == nav_segments(crate::path_codec::spec_path(s, i)).len() - 1,
{
    let k = s.len() as int;
    lemma_fold_props(s, k);
    lemma_fold_trace(s, k);
    lemma_ancestors(s, i);
    lemma_path_segments(s, i);
    lemma_chain_of_page(s, i);
    lemma_nav_tree_sibling_unique(s);
    let t = nav_fold(s, k).0;
    let m = nav_fold(s, k).1;
    let np = nav_fold(s, k).2;
    let segs = nav_segments(crate::path_codec::spec_path(s, i));
    let ch = ancestor_nodes(s, i);
    let ll = ch.len() - 1;
    assert(ch[ll] == m[ancestors(s, i)[ll]].1);
    assert(ancestors(s, i)[ll] == i);
    let vi = m[i].1;
    assert(ch[ll] == vi);
    assert(segs == ancestor_slugs(s, i));
    assert(segs[segs.len() - 1] == s[i].slug);
    // distinct child positions hold distinct nodes
    assert forall|n: int, c1: int, c2: int|
        0 <= n < t.len() && 0 <= c1 < c2 < t[n].children.len() implies (
    #[trigger] t[n].children[c1]) != (#[trigger] t[n].children[c2]) by {
        assert(t[n].children[c1] < t[n].children[c2]);
    }
    // the viewed page's node is childless
    assert(t[vi].children.len() == 0) by {
        if t[vi].children.len() > 0 {
            assert(np[vi] == s[i].id);
            let j = choose|j: int|
                0 < j < k && np[#[trigger] t[vi].children[0]] == s[j].id && t[t[vi].children[0]].slug
                    == s[j].slug && s[j].parent_id == Some(np[vi]);
            assert(s[j].parent_id == Some(s[i].id));
            assert(false);
        }
    }
    // and no stray branching namesake sits beside the chain
    assert forall|d: int, c: int|
        0 <= d < ch.len() - 1 && 0 <= c < t[ch[d]].children.len() && (
        #[trigger] t[ch[d]].children[c]) != ch[d + 1] implies !(t[t[ch[d]].children[c]].children.len()
        > 0 && t[t[ch[d]].children[c]].slug == segs[segs.len() - 1]) by {
        let w = t[ch[d]].children[c];
        if t[w].children.len() > 0 && t[w].slug == segs[segs.len() - 1] {
            assert(0 <= ch[d] < t.len());
            assert(0 <= w < t.len());
            let j = choose|j: int|
                0 < j < k && np[#[trigger] t[ch[d]].children[c]] == s[j].id && t[t[ch[d]].children[c]].slug
                    == s[j].slug && s[j].parent_id == Some(np[ch[d]]);
            assert(s[j].slug == s[i].slug);
            let j2 = choose|j2: int|
                0 < j2 < k && np[#[trigger] t[w].children[0]] == s[j2].id && t[t[w].children[0]].slug
                    == s[j2].slug && s[j2].parent_id == Some(np[w]);
            assert(s[j2].parent_id == Some(s[j].id));
            assert(exists|jc: int|
                0 < jc < s.len() && (#[trigger] s[jc]).parent_id == Some(s[j].id));
            assert(j == i);
            assert(np[w] == s[i].id);
            assert(np[vi] == s[i].id);
            assert(0 <= vi < np.len() && 0 <= w < np.len());
            assert(w == vi);
            assert(t[vi].children.len() == 0);
            assert(false);
        }
    }
    lemma_nav_expands_chain_to_leaf(t, segs, ch);
}

/// Every node but the synthetic root carries a non-empty slug.
pub open spec fn nav_slugs_nonempty(t: Seq<NavNodeV>) -> bool {
    forall|v: int| 1 <= v < t.len() ==> (#[trigger] t[v]).slug.len() > 0
}

/// With the root's own empty trailing segment left active, no child of
/// any node expands: every candidate slug is non-empty.
proof fn lemma_kids_no_empty_match(
    t: Seq<NavNodeV>,
    n: int,
    ki: int,
    acc: Seq<char>,
    segs: Seq<Seq<char>>,
    prev: Seq<bool>,
)
    requires
        nav_wf(t),
        nav_slugs_nonempty(t),
        0 <= n < t.len(),
        0 <= ki,
        segs.len() == 2,
        segs[1].len() == 0,
    ensures
        spec_render_kids(t, n, ki, acc, segs, 1, prev).pos == 1,
        spec_render_kids(t, n, ki, acc, segs, 1, prev).expanded == Set::<int>::empty(),
    decreases t[n].children.len() - ki,
{
    let kids = t[n].children;
    if ki < kids.len() {
        let c = kids[ki];
        let last = ki == kids.len() - 1;
        assert(1 <= c < t.len());
        assert(t[c].slug.len() > 0);
        let cout = spec_render_node(t, c, acc, segs, 1, last, prev.push(!last));
        assert(cout.pos == 1 && cout.expanded == Set::<int>::empty());
        lemma_kids_no_empty_match(t, n, ki + 1, acc, segs, prev);
        let rout = spec_render_kids(t, n, ki + 1, acc, segs, 1, prev);
        assert(cout.expanded + rout.expanded =~= Set::<int>::empty());
    } else {
        assert(spec_render_kids(t, n, ki, acc, segs, 1, prev).expanded =~= Set::<
            int,
        >::empty());
    }
}

/// For a well-formed store, viewing the root expands the root node alone
/// (when it has children; an only-root tree renders one collapsed item),
/// and never any other node: the root's active list carries one empty
/// trailing segment that no real slug can consume.
pub proof fn lemma_nav_expands_root(s: Seq<PageV>)
    requires
        store_wf(s),
        s.len() > 0,
    ensures
        ({
            let t = nav_tree(s);
            let segs = nav_segments(crate::path_codec::spec_path(s, 0));
            let out = spec_render_node(t, 0, Seq::empty(), segs, 0, false, Seq::empty());
            &&& (t[0].children.len() > 0 ==> out.expanded == Set::<int>::empty().insert(0)
                && out.pos == 1)
            &&& (t[0].children.len() == 0 ==> out.expanded == Set::<int>::empty() && out.pos
                == 0)
        }),
{
    let k = s.len() as int;
    lemma_fold_props(s, k);
    lemma_fold_trace(s, k);
    let t = nav_fold(s, k).0;
    let np = nav_fold(s, k).2;
    let path = crate::path_codec::spec_path(s, 0);
    let segs = nav_segments(path);
    assert(s[0].parent_id is None);
    assert(path =~= Seq::<char>::empty());
    assert(seg_end(path, 0) == 0);
    assert(split_from(path, 0) =~~= seq![Seq::<char>::empty()]);
    assert(segs =~~= seq![Seq::<char>::empty(), Seq::<char>::empty()]);
    assert(segs.len() == 2 && segs[1].len() == 0 && segs[0].len() == 0);
    assert forall|v: int| 1 <= v < t.len() implies (#[trigger] t[v]).slug.len() > 0 by {
        let j = choose|j: int| 0 < j < k && np[v] == s[j].id && t[v].slug == s[j].slug;
        assert(valid_slug(s[j].slug));
    }
    let out = spec_render_node(t, 0, Seq::empty(), segs, 0, false, Seq::empty());
    assert(t[0].slug =~= segs[0]);
    if t[0].children.len() > 0 {
        lemma_kids_no_empty_match(
            t,
            0,
            0,
            Seq::<char>::empty() + (t[0].slug + seq!['/']),
            segs,
            Seq::empty(),
        );
        let kout = spec_render_kids(
            t,
            0,
            0,
            Seq::<char>::empty() + (t[0].slug + seq!['/']),
            segs,
            1,
            Seq::empty(),
        );
        assert(kout.expanded.insert(0) =~= Set::<int>::empty().insert(0));
    }
}

/// The mathematical image of the id-to-node map.
pub open spec fn map_view(v: Seq<(i32, usize)>) -> Seq<(int, int)> {
    v.map_values(|e: (i32, usize)| (e.0 as int, e.1 as int))
}

/// The mathematical image of a vector of segment strings.
pub open spec fn strs_view(v: Seq<String>) -> Seq<Seq<char>> {
    v.map_values(|x: String| x@)
}

/// Looking a key up after a push: an existing key wins; a fresh key finds
/// the new entry.
proof fn lemma_lookup_push(m: Seq<(int, int)>, e: (int, int), id: int)
    ensures
        (exists|j: int| 0 <= j < m.len() && (#[trigger] m[j]).0 == id) ==> lookup_node(
            m.push(e),
            id,
        ) == lookup_node(m, id),
        (forall|j: int| 0 <= j < m.len() ==> (#[trigger] m[j]).0 != id) ==> lookup_node(
            m.push(e),
            id,
        ) == (if e.0 == id {
            e.1
        } else {
            -1
        }),
    decreases m.len(),
{
    if m.len() == 0 {
        assert(m.push(e)[0] == e);
        assert(m.push(e).drop_first() =~= m);
        assert(lookup_node(m, id) == -1);
        if e.0 != id {
            assert(lookup_node(m.push(e), id) == lookup_node(m, id));
        }
    } else {
        assert(m.push(e).drop_first() =~= m.drop_first().push(e));
        lemma_lookup_push(m.drop_first(), e, id);
        if m[0].0 != id {
            if exists|j: int| 0 <= j < m.len() && (#[trigger] m[j]).0 == id {
                let j = choose|j: int| 0 <= j < m.len() && (#[trigger] m[j]).0 == id;
                assert(m.drop_first()[j - 1] == m[j]);
                assert(exists|j2: int|
                    0 <= j2 < m.drop_first().len() && (#[trigger] m.drop_first()[j2]).0 == id);
            }
            if forall|j: int| 0 <= j < m.len() ==> (#[trigger] m[j]).0 != id {
                assert forall|j2: int| 0 <= j2 < m.drop_first().len() implies (
                #[trigger] m.drop_first()[j2]).0 != id by {
                    assert(m.drop_first()[j2] == m[j2 + 1]);
                }
                assert(lookup_node(m.drop_first().push(e), id) == (if e.0 == id {
                    e.1
                } else {
                    -1
                }));
                assert(lookup_node(m.push(e), id) == lookup_node(m.drop_first().push(e), id));
            }
        }
    }
}

/// The shape of the build after `k` pages: one map entry per page, the
/// root page on the synthetic root node, every entry pointing at a real
/// node, the page id looked up to exactly its entry, and a well-formed
/// tree whose trace records one distinct page per added node.
pub proof fn lemma_fold_props(s: Seq<PageV>, k: int)
    requires
        store_wf(s),
        0 <= k <= s.len(),
    ensures
        nav_fold(s, k).1.len() == k,
        forall|j: int| 0 <= j < k ==> (#[trigger] nav_fold(s, k).1[j]).0 == s[j].id,
        forall|j: int|
            0 <= j < k ==> 0 <= (#[trigger] nav_fold(s, k).1[j]).1 < nav_fold(s, k).0.len(),
        forall|j: int|
            0 <= j < k ==> lookup_node(nav_fold(s, k).1, s[j].id) == (
            #[trigger] nav_fold(s, k).1[j]).1,
        k > 0 ==> nav_fold(s, k).1[0].1 == 0,
        nav_wf(nav_fold(s, k).0),
        nav_fold(s, k).2.len() == nav_fold(s, k).0.len(),
    decreases k,
{
    if k > 0 {
        lemma_fold_props(s, k - 1);
        let (t, m, np) = nav_fold(s, k - 1);
        let p = s[k - 1];
        let (t1, m1, np1) = nav_fold(s, k);
        assert forall|j: int| 0 <= j < k implies lookup_node(m1, s[j].id) == (
        #[trigger] m1[j]).1 by {
            if j < k - 1 {
                assert(m[j].0 == s[j].id);
                lemma_lookup_push(m, m1[k - 1], s[j].id);
                assert(m1[j] == m[j]);
            } else {
                assert forall|j2: int| 0 <= j2 < m.len() implies (#[trigger] m[j2]).0
                    != s[j].id by {
                    assert(m[j2].0 == s[j2].id);
                }
                lemma_lookup_push(m, m1[k - 1], s[j].id);
            }
        }
        if p.slug.len() == 0 {
            assert(k - 1 == 0);
        } else {
            assert(k - 1 > 0);
            let pid = p.parent_id->0;
            let pj = find_page(s, pid);
            lemma_find_page(s, pid);
            assert(0 <= pj < k - 1);
            assert(m[pj].0 == s[pj].id);
            let pn = lookup_node(m, pid);
            assert(pn == m[pj].1);
            assert(0 <= pn < t.len());
            let ni = t.len() as int;
            assert forall|n: int, c: int|
                0 <= n < t1.len() && 0 <= c < t1[n].children.len() implies n < (
            #[trigger] t1[n].children[c]) < t1.len() by {
                if n < t.len() {
                    if n == pn && c == t1[n].children.len() - 1 {
                    } else {
                        assert(t1[n].children[c] == t[n].children[c]);
                    }
                }
            }
        }
    }
}

/// A well-formed store builds a well-formed navigation tree.
pub proof fn lemma_nav_tree_wf(s: Seq<PageV>)
    requires
        store_wf(s),
    ensures
        nav_wf(nav_tree(s)),
{
    lemma_fold_props(s, s.len() as int);
}

/// The build trace after `k` pages: the root node carries the root page,
/// every map entry's node carries that page, distinct nodes carry
/// distinct pages, child lists grow strictly, and every child node
/// carries a page whose parent is the page on the child's parent node.
proof fn lemma_fold_trace(s: Seq<PageV>, k: int)
    requires
        store_wf(s),
        0 <= k <= s.len(),
    ensures
        k > 0 ==> nav_fold(s, k).2[0] == s[0].id,
        forall|j: int|
            0 <= j < k ==> nav_fold(s, k).2[(#[trigger] nav_fold(s, k).1[j]).1] == s[j].id,
        k > 0 ==> (forall|n1: int, n2: int|
            0 <= n1 < n2 < nav_fold(s, k).2.len() ==> nav_fold(s, k).2[n1] != nav_fold(
                s,
                k,
            ).2[n2]),
        forall|ni: int|
            0 < ni < nav_fold(s, k).2.len() ==> exists|j: int|
                0 < j < k && #[trigger] nav_fold(s, k).2[ni] == s[j].id && nav_fold(
                    s,
                    k,
                ).0[ni].slug == s[j].slug,
        forall|n: int, c1: int, c2: int|
            0 <= n < nav_fold(s, k).0.len() && 0 <= c1 < c2 < nav_fold(s, k).0[n].children.len()
                ==> #[trigger] nav_fold(s, k).0[n].children[c1] < #[trigger] nav_fold(
                s,
                k,
            ).0[n].children[c2],
        forall|n: int, c: int|
            0 <= n < nav_fold(s, k).0.len() && 0 <= c < nav_fold(s, k).0[n].children.len()
                ==> exists|j: int|
                0 < j < k && nav_fold(s, k).2[#[trigger] nav_fold(s, k).0[n].children[c]]
                    == s[j].id && nav_fold(s, k).0[nav_fold(s, k).0[n].children[c]].slug
                    == s[j].slug && s[j].parent_id == Some(nav_fold(s, k).2[n]),
        forall|j: int|
            0 < j < k ==> nav_fold(s, k).0[(#[trigger] nav_fold(s, k).1[j]).1].slug
                == s[j].slug,
        forall|j: int|
            0 < j < k ==> nav_fold(s, k).0[nav_fold(s, k).1[find_page(
                s,
                s[j].parent_id->0,
            )].1].children.contains((#[trigger] nav_fold(s, k).1[j]).1),
    decreases k,
{
    if k > 0 {
        lemma_fold_props(s, k - 1);
        lemma_fold_props(s, k);
        lemma_fold_trace(s, k - 1);
        let (t, m, np) = nav_fold(s, k - 1);
        let p = s[k - 1];
        let (t1, m1, np1) = nav_fold(s, k);
        if p.slug.len() == 0 {
            assert(k - 1 == 0);
            assert(np1 =~= seq![s[0].id]);
            assert(m1[0].1 == 0);
        } else {
            assert(k - 1 > 0);
            let pid = p.parent_id->0;
            let pj = find_page(s, pid);
            lemma_find_page(s, pid);
            let pn = lookup_node(m, pid);
            assert(pn == m[pj].1);
            assert(0 <= pn < t.len());
            let ni = t.len() as int;
            assert(np1 == np.push(p.id));
            assert(np[pn] == s[pj].id);
            // the node ids stay distinct: the new page id is fresh
            assert forall|n1: int, n2: int|
                0 <= n1 < n2 < np1.len() implies np1[n1] != np1[n2] by {
                if n2 == ni {
                    if n1 == 0 {
                        assert(np1[n1] == s[0].id);
                    } else {
                        let j = choose|j: int| 0 < j < k - 1 && np[n1] == s[j].id;
                        assert(s[j].id != s[k - 1].id);
                    }
                }
            }
            // every entry still points at its page's node
            assert forall|j: int| 0 <= j < k implies np1[(#[trigger] m1[j]).1] == s[j].id by {
                if j < k - 1 {
                    assert(m1[j] == m[j]);
                    assert(0 <= m[j].1 < t.len());
                    assert(np1[m[j].1] == np[m[j].1]);
                } else {
                    assert(m1[j].1 == ni);
                }
            }
            // child lists stay strictly increasing
            assert forall|n: int, c1: int, c2: int|
                0 <= n < t1.len() && 0 <= c1 < c2 < t1[n].children.len() implies #[trigger] t1[n].children[c1]
                    < #[trigger] t1[n].children[c2] by {
                if n < t.len() {
                    if n == pn {
                        assert(t1[n].children == t[n].children.push(ni));
                        if c2 < t[n].children.len() {
                        } else {
                            assert(t1[n].children[c2] == ni);
                            assert(t1[n].children[c1] == t[n].children[c1]);
                            assert(t[n].children[c1] < t.len());
                        }
                    } else {
                        assert(t1[n] == t[n]);
                    }
                }
            }
            // every child node carries a page parented on its parent node
            assert forall|n: int, c: int|
                0 <= n < t1.len() && 0 <= c < t1[n].children.len() implies exists|j: int|
                0 < j < k && np1[#[trigger] t1[n].children[c]] == s[j].id
                    && t1[t1[n].children[c]].slug == s[j].slug && s[j].parent_id == Some(
                    np1[n],
                ) by {
                if n == pn && c == t1[n].children.len() - 1 {
                    assert(t1[n].children == t[n].children.push(ni));
                    assert(t1[n].children[c] == ni);
                    assert(np1[ni] == s[k - 1].id);
                    assert(t1[ni].slug == s[k - 1].slug);
                    assert(np1[pn] == np[pn]);
                    assert(s[k - 1].parent_id == Some(np1[n]));
                    assert(0 < k - 1 < k && np1[t1[n].children[c]] == s[k - 1].id && t1[t1[n].children[c]].slug
                        == s[k - 1].slug && s[k - 1].parent_id == Some(np1[n]));
                } else {
                    assert(n < t.len());
                    if n == pn {
                        assert(t1[n].children == t[n].children.push(ni));
                        assert(t1[n].children[c] == t[n].children[c]);
                    } else {
                        assert(t1[n] == t[n]);
                        assert(t1[n].children[c] == t[n].children[c]);
                    }
                    let cn = t[n].children[c];
                    assert(0 <= n < t.len() && 0 <= c < t[n].children.len());
                    let j = choose|j: int|
                        0 < j < k - 1 && np[#[trigger] t[n].children[c]] == s[j].id && t[t[n].children[c]].slug
                            == s[j].slug && s[j].parent_id == Some(np[n]);
                    assert(n < cn < t.len());
                    assert(np1[cn] == np[cn]);
                    assert(t1[cn].slug == t[cn].slug);
                    assert(np1[n] == np[n]);
                    assert(0 < j < k && np1[t1[n].children[c]] == s[j].id && t1[t1[n].children[c]].slug
                        == s[j].slug && s[j].parent_id == Some(np1[n]));
                }
            }
            // every map entry's node keeps its page's slug
            assert forall|j: int| 0 < j < k implies t1[(#[trigger] m1[j]).1].slug
                == s[j].slug by {
                if j < k - 1 {
                    assert(m1[j] == m[j]);
                    assert(0 <= m[j].1 < t.len());
                    assert(t1[m[j].1].slug == t[m[j].1].slug);
                } else {
                    assert(m1[j].1 == ni);
                    assert(t1[ni].slug == p.slug);
                }
            }
            // every page's node stays among its parent node's children
            assert forall|j: int| 0 < j < k implies t1[m1[find_page(
                s,
                s[j].parent_id->0,
            )].1].children.contains((#[trigger] m1[j]).1) by {
                let fj = find_page(s, s[j].parent_id->0);
                lemma_find_page(s, s[j].parent_id->0);
                assert(0 <= fj < j);
                assert(m1[fj] == m[fj]);
                if j < k - 1 {
                    assert(m1[j] == m[j]);
                    let pnode = m[fj].1;
                    assert(t[pnode].children.contains(m[j].1));
                    let ci = choose|ci: int|
                        0 <= ci < t[pnode].children.len() && t[pnode].children[ci] == m[j].1;
                    if pnode == pn {
                        assert(t1[pnode].children == t[pnode].children.push(ni));
                        assert(t1[pnode].children[ci] == m[j].1);
                    } else {
                        assert(t1[pnode].children == t[pnode].children);
                    }
                    assert(t1[pnode].children.contains(m[j].1));
                } else {
                    assert(fj == pj);
                    assert(m1[j].1 == ni);
                    assert(t1[pn].children == t[pn].children.push(ni));
                    assert(t1[pn].children.last() == ni);
                    assert(t1[pn].children.contains(ni));
                }
            }
        }
    }
}

/// A well-formed store's navigation tree keeps sibling slugs distinct,
/// mirroring the store's sibling-slug uniqueness invariant.
pub proof fn lemma_nav_tree_sibling_unique(s: Seq<PageV>)
    requires
        store_wf(s),
    ensures
        nav_sibling_unique(nav_tree(s)),
{
    let k = s.len() as int;
    lemma_fold_props(s, k);
    lemma_fold_trace(s, k);
    let t = nav_fold(s, k).0;
    let np = nav_fold(s, k).2;
    assert forall|n: int, a: int, b: int|
        0 <= n < t.len() && 0 <= a < t[n].children.len() && 0 <= b < t[n].children.len() && a != b
        implies t[#[trigger] t[n].children[a]].slug != t[#[trigger] t[n].children[b]].slug by {
        let c1 = t[n].children[a];
        let c2 = t[n].children[b];
        if a < b {
            assert(c1 < c2);
        } else {
            assert(c2 < c1);
        }
        let j1 = choose|j: int|
            0 < j < k && np[#[trigger] t[n].children[a]] == s[j].id && t[t[n].children[a]].slug
                == s[j].slug && s[j].parent_id == Some(np[n]);
        let j2 = choose|j: int|
            0 < j < k && np[#[trigger] t[n].children[b]] == s[j].id && t[t[n].children[b]].slug
                == s[j].slug && s[j].parent_id == Some(np[n]);
        assert(0 <= c1 < np.len() && 0 <= c2 < np.len());
        assert(np[c1] != np[c2]);
        assert(j1 != j2);
        assert(s[j1].slug != s[j2].slug);
    }
}

/// A page's ancestor chain realizes its path's active segments in the
/// navigation tree.
pub proof fn lemma_chain_of_page(s: Seq<PageV>, i: int)
    requires
        store_wf(s),
        0 < i < s.len(),
    ensures
        is_chain(
            nav_tree(s),
            nav_segments(crate::path_codec::spec_path(s, i)),
            ancestor_nodes(s, i),
        ),
{
    let k = s.len() as int;
    lemma_fold_props(s, k);
    lemma_fold_trace(s, k);
    lemma_ancestors(s, i);
    lemma_path_segments(s, i);
    let t = nav_fold(s, k).0;
    let m = nav_fold(s, k).1;
    let anc = ancestors(s, i);
    let ch = ancestor_nodes(s, i);
    let segs = nav_segments(crate::path_codec::spec_path(s, i));
    assert(segs == ancestor_slugs(s, i));
    assert(ch.len() == anc.len());
    assert(ch[0] == m[0].1);
    assert forall|d: int| 0 <= d < ch.len() implies 0 <= #[trigger] ch[d] < t.len() by {
        assert(ch[d] == m[anc[d]].1);
    }
    assert forall|d: int| 0 <= d < ch.len() implies t[#[trigger] ch[d]].slug == segs[d] by {
        let j = anc[d];
        assert(ch[d] == m[j].1);
        assert(segs[d] == s[j].slug);
        if d == 0 {
            assert(j == 0);
            assert(m[0].1 == 0);
            assert(t[0].slug.len() == 0 && s[0].slug.len() == 0);
            assert(t[0].slug =~= s[0].slug);
        } else {
            assert(j > 0);
            assert(t[m[j].1].slug == s[j].slug);
        }
    }
    assert forall|d: int| 0 <= d < ch.len() - 1 implies t[#[trigger] ch[d]].children.contains(
        ch[d + 1],
    ) by {
        let j = anc[d + 1];
        assert(j > 0);
        assert(s[j].parent_id == Some(s[anc[d]].id));
        crate::page_store::lemma_find_page_unique(s, s[anc[d]].id, anc[d]);
        assert(find_page(s, s[j].parent_id->0) == anc[d]);
        assert(t[m[anc[d]].1].children.contains(m[j].1));
    }
}

/// For a well-formed store, viewing any non-root page that itself has a
/// child expands exactly the nodes of the page's ancestor chain: one
/// nested list per ancestor of the active path, and none under any other
/// node.
pub proof fn lemma_nav_expands_ancestors(s: Seq<PageV>, i: int)
    requires
        store_wf(s),
        0 < i < s.len(),
        exists|j: int| 0 < j < s.len() && (#[trigger] s[j]).parent_id == Some(s[i].id),
    ensures
        spec_render_node(
            nav_tree(s),
            0,
            Seq::empty(),
            nav_segments(crate::path_codec::spec_path(s, i)),
            0,
            false,
            Seq::empty(),
        ).expanded == ancestor_nodes(s, i).to_set(),
        spec_render_node(
            nav_tree(s),
            0,
            Seq::empty(),
            nav_segments(crate::path_codec::spec_path(s, i)),
            0,
            false,
            Seq::empty(),
        ).pos == nav_segments(crate::path_codec::spec_path(s, i)).len(),
{
    let k = s.len() as int;
    lemma_fold_props(s, k);
    lemma_fold_trace(s, k);
    lemma_ancestors(s, i);
    lemma_chain_of_page(s, i);
    let t = nav_fold(s, k).0;
    let m = nav_fold(s, k).1;
    let ch = ancestor_nodes(s, i);
    // the viewed page's node has the child page's node among its children
    let j = choose|j: int| 0 < j < s.len() && (#[trigger] s[j]).parent_id == Some(s[i].id);
    crate::page_store::lemma_find_page_unique(s, s[i].id, i);
    assert(find_page(s, s[j].parent_id->0) == i);
    assert(t[m[i].1].children.contains(m[j].1));
    assert(ch.last() == m[ancestors(s, i).last()].1);
    assert(ch[ch.len() - 1] == m[i].1);
    assert(t[ch[ch.len() - 1]].children.len() > 0);
    lemma_nav_expansion_for_store(
        s,
        nav_segments(crate::path_codec::spec_path(s, i)),
        ch,
    );
}

/// For a well-formed store, the navigation renderer expands exactly the
/// nodes of the active chain: one nested list per ancestor of the viewed
/// path (the viewed page included, provided it has children), and none
/// under any other node.
pub proof fn lemma_nav_expansion_for_store(s: Seq<PageV>, segs: Seq<Seq<char>>, ch: Seq<int>)
    requires
        store_wf(s),
        is_chain(nav_tree(s), segs, ch),
        nav_tree(s)[ch[ch.len() - 1]].children.len() > 0,
    ensures
        spec_render_node(nav_tree(s), 0, Seq::empty(), segs, 0, false, Seq::empty()).expanded
            == ch.to_set(),
        spec_render_node(nav_tree(s), 0, Seq::empty(), segs, 0, false, Seq::empty()).pos
            == segs.len(),
{
    lemma_nav_tree_wf(s);
    lemma_nav_tree_sibling_unique(s);
    lemma_nav_expands_active_chain(nav_tree(s), segs, ch);
}

/// Look a page id up in the id-to-node map.
fn lookup_exec(map: &Vec<(i32, usize)>, id: i32) -> (r: Option<usize>)
    ensures
        match r {
            Some(v) => lookup_node(map_view(map@), id as int) == v as int,
            None => lookup_node(map_view(map@), id as int) == -1,
        },
{
    let ghost mv = map_view(map@);
    let mut k: usize = 0;
    proof {
        assert(mv.subrange(0, mv.len() as int) =~= mv);
    }
    while k < map.len()
        invariant
            mv == map_view(map@),
            k <= map@.len(),
            lookup_node(mv, id as int) == lookup_node(
                mv.subrange(k as int, mv.len() as int),
                id as int,
            ),
        decreases map@.len() - k,
    {
        let ghost suffix = mv.subrange(k as int, mv.len() as int);
        proof {
            assert(suffix[0] == mv[k as int]);
            assert(suffix.drop_first() =~= mv.subrange(k as int + 1, mv.len() as int));
        }
        let e = map[k];
        if e.0 == id {
            return Some(e.1);
        }
        k += 1;
    }
    proof {
        assert(mv.subrange(mv.len() as int, mv.len() as int) =~= Seq::<(int, int)>::empty());
    }
    None
}

/// Build the in-memory navigation tree of the whole store.
fn build_tree(store: &PageStore) -> (r: Vec<NavNode>)
    requires
        store.wf(),
    ensures
        nav_view(r@) == nav_tree(store@),
{
    let ghost s = store@;
    proof {
        store.lemma_wf_view();
    }
    let mut nodes: Vec<NavNode> = Vec::new();
    nodes.push(NavNode { slug: String::new(), children: Vec::new() });
    let mut map: Vec<(i32, usize)> = Vec::new();
    let mut k: usize = 0;
    proof {
        assert(nav_view(nodes@) =~~= nav_fold(s, 0).0);
        assert(map_view(map@) =~= nav_fold(s, 0).1);
    }
    let n = store.len();
    while k < n
        invariant
            store.wf(),
            s == store@,
            n == s.len(),
            k <= n,
            nav_view(nodes@) == nav_fold(s, k as int).0,
            map_view(map@) == nav_fold(s, k as int).1,
            nodes@.len() >= 1,
        decreases n - k,
    {
        proof {
            store.lemma_wf_view();
            lemma_fold_props(s, k as int);
            lemma_fold_props(s, k as int + 1);
        }
        let p = store.page_at(k);
        if p.slug.as_str().is_empty() {
            map.push((p.id, 0));
            proof {
                assert(map_view(map@) =~= nav_fold(s, k as int + 1).1);
                assert(nav_view(nodes@) =~~= nav_fold(s, k as int + 1).0);
            }
        } else {
            let pid_parent = match p.parent_id {
                Some(pp) => pp,
                None => 0,
            };
            proof {
                assert(k > 0);
                assert(s[k as int].parent_id is Some);
            }
            let pn = match lookup_exec(&map, pid_parent) {
                Some(v) => v,
                None => {
                    proof {
                        let pid = s[k as int].parent_id->0;
                        let pj = find_page(s, pid);
                        lemma_find_page(s, pid);
                        assert(nav_fold(s, k as int).1[pj].0 == pid);
                        assert(lookup_node(nav_fold(s, k as int).1, pid) == nav_fold(
                            s,
                            k as int,
                        ).1[pj].1);
                        assert(false);
                    }
                    0
                },
            };
            proof {
                let pid = s[k as int].parent_id->0;
                let pj = find_page(s, pid);
                lemma_find_page(s, pid);
                assert(nav_fold(s, k as int).1[pj].0 == pid);
                assert(lookup_node(nav_fold(s, k as int).1, pid) == nav_fold(s, k as int).1[pj].1);
                assert((pn as int) < nav_view(nodes@).len());
            }
            let ni = nodes.len();
            let ghost nodes0 = nodes@;
            let mut parent_node = NavNode {
                slug: String::new(),
                children: Vec::new(),
            };
            // take the parent out, extend its child list, put it back
            std::mem::swap(&mut parent_node, &mut nodes[pn]);
            parent_node.children.push(ni);
            std::mem::swap(&mut parent_node, &mut nodes[pn]);
            nodes.push(NavNode { slug: p.slug.clone(), children: Vec::new() });
            proof {
                let fold1 = nav_fold(s, k as int + 1);
                assert(nav_view(nodes@) =~~= fold1.0);
                assert(map_view(map@.push((p.id, ni))) =~= fold1.1);
            }
            map.push((p.id, ni));
        }
        k += 1;
    }
    nodes
}

/// Split a viewed path into its active segment list: one empty segment
/// for the root, then the path split on `/`.
fn split_segments(path: &str) -> (r: Vec<String>)
    ensures
        strs_view(r@) == nav_segments(path@),
{
    let n = path.unicode_len();
    let mut out: Vec<String> = Vec::new();
    out.push(String::new());
    let mut i: usize = 0;
    let mut done = false;
    proof {
        assert(strs_view(out@) =~= seq![Seq::<char>::empty()]);
    }
    while !done
        invariant
            n == path@.len(),
            i <= n,
            !done ==> nav_segments(path@) == strs_view(out@) + split_from(path@, i as int),
            done ==> strs_view(out@) == nav_segments(path@),
        decreases n - i + (if done {
            0int
        } else {
            1int
        }),
    {
        let mut j = i;
        while j < n && path.get_char(j) != '/'
            invariant
                n == path@.len(),
                i <= j <= n,
                seg_end(path@, i as int) == seg_end(path@, j as int),
            decreases n - j,
        {
            proof {
                assert(seg_end(path@, j as int) == seg_end(path@, j as int + 1));
            }
            j += 1;
        }
        proof {
            assert(seg_end(path@, i as int) == j as int);
        }
        let ghost out0 = out@;
        out.push(String::from_str(path.substring_char(i, j)));
        proof {
            assert(strs_view(out@) =~= strs_view(out0).push(
                path@.subrange(i as int, j as int),
            ));
            if j >= n {
                assert(split_from(path@, i as int) =~= seq![
                    path@.subrange(i as int, j as int),
                ]);
                assert(strs_view(out@) =~= strs_view(out0) + split_from(path@, i as int));
            } else {
                assert(split_from(path@, i as int) =~= seq![path@.subrange(i as int, j as int)]
                    + split_from(path@, j as int + 1));
                assert(strs_view(out@) + split_from(path@, j as int + 1) =~= strs_view(out0)
                    + split_from(path@, i as int));
            }
        }
        if j >= n {
            done = true;
        } else {
            i = j + 1;
        }
    }
    out
}

/// Render one node of the tree into its list item, returning the text and
/// the count of active segments consumed so far.
fn render_node(
    t: &Vec<NavNode>,
    n: usize,
    acc: &str,
    segs: &Vec<String>,
    pos: usize,
    is_last: bool,
    prev: &Vec<bool>,
) -> (r: (String, usize))
    requires
        nav_wf(nav_view(t@)),
        (n as int) < nav_view(t@).len(),
        pos <= segs@.len(),
    ensures
        ({
            let o = spec_render_node(
                nav_view(t@),
                n as int,
                acc@,
                strs_view(segs@),
                pos as int,
                is_last,
                prev@,
            );
            r.0@ == o.text && r.1 as int == o.pos && pos <= r.1 <= segs@.len()
        }),
    decreases t@.len() - n, 1int, 0int,
{
    let ghost tv = nav_view(t@);
    let ghost sv = strs_view(segs@);
    let mut out = String::from_str("<li>");
    if prev.len() > 0 {
        let mut pi: usize = 0;
        while pi < prev.len() - 1
            invariant
                prev@.len() > 0,
                pi <= prev@.len() - 1,
                out@ == "<li>"@ + pad_run(prev@, pi as int),
            decreases prev@.len() - pi,
        {
            if prev[pi] {
                out.append("|&nbsp;&nbsp;");
            } else {
                out.append("&nbsp;&nbsp;&nbsp;");
            }
            pi += 1;
        }
        if is_last {
            out.append("\u{2514}\u{2500}\u{2500}");
        } else {
            out.append("\u{251c}\u{2500}\u{2500}");
        }
    }
    proof {
        assert(out@ == "<li>"@ + node_prefix(prev@, is_last));
    }
    let kids_len = t[n].children.len();
    let mut seg_txt = t[n].slug.clone();
    if kids_len > 0 {
        seg_txt.append("/");
        proof {
            reveal_strlit("/");
            assert("/"@ =~= seq!['/']);
        }
    }
    proof {
        assert(seg_txt@ == (if tv[n as int].children.len() > 0 {
            tv[n as int].slug + seq!['/']
        } else {
            tv[n as int].slug
        }));
    }
    let mut new_path = String::from_str(acc);
    new_path.append(seg_txt.as_str());
    out.append("<a href=\"/pages");
    out.append(new_path.as_str());
    out.append("\">");
    out.append(seg_txt.as_str());
    out.append("</a>");
    let expand = kids_len > 0 && pos < segs.len() && t[n].slug == segs[pos];
    let mut newpos = pos;
    if expand {
        newpos = pos + 1;
        out.append("<ul>");
        let mut kids_out = String::new();
        let mut ki: usize = 0;
        let ghost kids = tv[n as int].children;
        while ki < kids_len
            invariant
                nav_wf(tv),
                tv == nav_view(t@),
                sv == strs_view(segs@),
                (n as int) < tv.len(),
                kids == tv[n as int].children,
                kids_len == kids.len(),
                ki <= kids_len,
                new_path@ == acc@ + seg_txt@,
                pos as int + 1 <= newpos as int <= sv.len(),
                newpos <= segs@.len(),
                ({
                    let full = spec_render_kids(
                        tv,
                        n as int,
                        0,
                        acc@ + seg_txt@,
                        sv,
                        pos as int + 1,
                        prev@,
                    );
                    let rest = spec_render_kids(
                        tv,
                        n as int,
                        ki as int,
                        acc@ + seg_txt@,
                        sv,
                        newpos as int,
                        prev@,
                    );
                    full.text == kids_out@ + rest.text && full.pos == rest.pos
                }),
            decreases kids_len - ki,
        {
            let c = t[n].children[ki];
            let last = ki == kids_len - 1;
            let mut child_prev: Vec<bool> = Vec::new();
            let mut cpi: usize = 0;
            while cpi < prev.len()
                invariant
                    cpi <= prev@.len(),
                    child_prev@ == prev@.subrange(0, cpi as int),
                decreases prev@.len() - cpi,
            {
                child_prev.push(prev[cpi]);
                proof {
                    assert(child_prev@ =~= prev@.subrange(0, cpi as int + 1));
                }
                cpi += 1;
            }
            proof {
                assert(prev@.subrange(0, prev@.len() as int) =~= prev@);
            }
            child_prev.push(!last);
            proof {
                assert(c as int == kids[ki as int]);
                assert((n as int) < c as int && (c as int) < tv.len());
            }
            let cres = render_node(t, c, new_path.as_str(), segs, newpos, last, &child_prev);
            kids_out.append(cres.0.as_str());
            proof {
                let rest0 = spec_render_kids(
                    tv,
                    n as int,
                    ki as int,
                    acc@ + seg_txt@,
                    sv,
                    newpos as int,
                    prev@,
                );
                let cout = spec_render_node(
                    tv,
                    c as int,
                    acc@ + seg_txt@,
                    sv,
                    newpos as int,
                    last,
                    prev@.push(!last),
                );
                assert(new_path@ == acc@ + seg_txt@);
                assert(rest0.text == cout.text + spec_render_kids(
                    tv,
                    n as int,
                    ki as int + 1,
                    acc@ + seg_txt@,
                    sv,
                    cout.pos,
                    prev@,
                ).text);
                let full = spec_render_kids(
                    tv,
                    n as int,
                    0,
                    acc@ + seg_txt@,
                    sv,
                    pos as int + 1,
                    prev@,
                );
                assert(full.text =~= (kids_out@ + spec_render_kids(
                    tv,
                    n as int,
                    ki as int + 1,
                    acc@ + seg_txt@,
                    sv,
                    cout.pos,
                    prev@,
                ).text));
            }
            newpos = cres.1;
            ki += 1;
        }
        proof {
            let rest = spec_render_kids(
                tv,
                n as int,
                ki as int,
                acc@ + seg_txt@,
                sv,
                newpos as int,
                prev@,
            );
            assert(rest.text =~= Seq::<char>::empty());
        }
        out.append(kids_out.as_str());
        out.append("</ul>");
        out.append("</li>");
        proof {
            let o = spec_render_node(tv, n as int, acc@, sv, pos as int, is_last, prev@);
            assert(out@ =~= o.text);
        }
        (out, newpos)
    } else {
        out.append("</li>");
        proof {
            let o = spec_render_node(tv, n as int, acc@, sv, pos as int, is_last, prev@);
            assert(out@ =~= o.text);
        }
        (out, newpos)
    }
}

impl Page {
    /// Render the navigation element for a viewed path: the whole page
    /// tree as nested lists, expanded only along the active path.
    pub fn build_nav_element(store: &PageStore, path: &str) -> (r: String)
        requires
            store.wf(),
        ensures
            r@ == spec_nav(store@, path@),
    {
        proof {
            store.lemma_wf_view();
            lemma_nav_tree_wf(store@);
        }
        let tree = build_tree(store);
        let segs = split_segments(path);
        let empty_prev: Vec<bool> = Vec::new();
        let body = render_node(&tree, 0, "", &segs, 0, false, &empty_prev);
        let mut out = String::from_str("<ul>");
        out.append(body.0.as_str());
        out.append("</ul>");
        proof {
            reveal_strlit("");
            assert(""@ =~= Seq::<char>::empty());
            assert(out@ =~= spec_nav(store@, path@));
        }
        out
    }
}

} // verus!
