//! What filling up a node from its neighbour does to a tree.
use vstd::prelude::*;

use crate::catalog::index_schema::{key_le, key_lt, lemma_key_order};
use crate::index::b_plus_page::{child_index, leaf_lookup, InternalView, LeafView};
use crate::index::rebalance::{keys_from, same_shown, sep_between, shown};
use crate::index::tree_insert::{forest_grown, grown, with_key};
use crate::index::tree_model::{
    child_hi, child_lo, children_spliced, exchanged, first_leaf, forest, forest_linked,
    forest_lookup, forest_owns, gt_lo, in_span, internal_fits, keys_spliced, leaf_after,
    leaf_fits, lemma_exchange, lemma_exchange_linked, lemma_exchange_lookup, lemma_forest_frame,
    lemma_forest_owned_exists, lemma_frame, lemma_join, lemma_owned_exists, lemma_pair,
    lemma_part, lemma_single, lemma_span_of_index, linked, lookup, lt_hi, node_of, owns,
    range_owns, subtree, untouched, NodeView, Pages, TreeShape,
};
use crate::table_heap::RecordId;

verus! {

/// The number of keys on the page of a node.
pub open spec fn node_size(n: Option<NodeView>) -> nat {
    match n {
        Some(NodeView::Leaf(v)) => v.keys.len(),
        Some(NodeView::Internal(v)) => v.keys.len(),
        None => 0,
    }
}

/// The number of keys that a node should have at least.
pub open spec fn node_min(t: TreeShape, n: Option<NodeView>) -> nat {
    match n {
        Some(NodeView::Leaf(_)) => (t.leaf_max / 2) as nat,
        Some(NodeView::Internal(_)) => (t.internal_max / 2) as nat,
        None => 0,
    }
}

/// Two neighbouring trees, parted by `sep`, of which the tops may hold too little.
pub open spec fn neighbours(
    pages: Pages,
    t: TreeShape,
    ca: usize,
    cb: usize,
    sep: Seq<u8>,
    g: nat,
    lo: Option<Seq<u8>>,
    hi: Option<Seq<u8>>,
    next: usize,
) -> bool {
    &&& subtree(pages, t, ca, g, lo, Some(sep), true)
    &&& subtree(pages, t, cb, g, Some(sep), hi, true)
    &&& gt_lo(lo, sep)
    &&& lt_hi(hi, sep)
    &&& sep.len() == t.key_len
    &&& forall|p: usize| #[trigger] owns(pages, t, ca, g, p) ==> !owns(pages, t, cb, g, p)
    &&& linked(pages, t, ca, g, first_leaf(pages, t, cb, g))
    &&& linked(pages, t, cb, g, next)
}

/// The neighbours were filled up: the list `mc` with the keys `mk` stands in their place.
pub open spec fn settled(
    p1: Pages,
    p2: Pages,
    t: TreeShape,
    ca: usize,
    cb: usize,
    sep: Seq<u8>,
    g: nat,
    lo: Option<Seq<u8>>,
    hi: Option<Seq<u8>>,
    next: usize,
    mc: Seq<usize>,
    mk: Seq<Seq<u8>>,
) -> bool {
    &&& forest(p2, t, mc, mk, g, lo, hi)
    &&& forest_linked(p2, t, mc, g, next)
    &&& first_leaf(p2, t, mc[0], g) == first_leaf(p1, t, ca, g)
    &&& forall|k: Seq<u8>|
        in_span(lo, hi, k) ==> #[trigger] forest_lookup(p2, t, mc, mk, g, k) == if key_lt(k, sep) {
            lookup(p1, t, ca, g, k)
        } else {
            lookup(p1, t, cb, g, k)
        }
    &&& forall|p: usize| #[trigger]
        forest_owns(p2, t, mc, g, p) ==> owns(p1, t, ca, g, p) || owns(p1, t, cb, g, p)
    &&& forall|p: usize| #[trigger]
        p1.contains_key(p) && !owns(p1, t, ca, g, p) && !owns(p1, t, cb, g, p)
            ==> p2.contains_key(p) && p2[p] == p1[p]
}

/// Two leaves became one, on the page of the left one.
pub proof fn lemma_leaves_merged(
    p1: Pages,
    p2: Pages,
    t: TreeShape,
    ca: usize,
    cb: usize,
    sep: Seq<u8>,
    lo: Option<Seq<u8>>,
    hi: Option<Seq<u8>>,
    next: usize,
    l: LeafView,
    r: LeafView,
    w: LeafView,
)
    requires
        neighbours(p1, t, ca, cb, sep, 0, lo, hi, next),
        node_of(p1[ca], t.key_len) == Some(NodeView::Leaf(l)),
        node_of(p1[cb], t.key_len) == Some(NodeView::Leaf(r)),
        leaf_fits(t, w),
        w.keys.len() >= t.leaf_max / 2,
        w.next_leaf_id == r.next_leaf_id,
        keys_from(w, l, r),
        forall|k: Seq<u8>| #[trigger] leaf_lookup(w, k) == shown(l, r, sep, k),
        p2.contains_key(ca),
        node_of(p2[ca], t.key_len) == Some(NodeView::Leaf(w)),
        forall|p: usize| p != ca && #[trigger] p1.contains_key(p) ==> p2.contains_key(p) && p2[p]
            == p1[p],
    ensures
        settled(
            p1,
            p2,
            t,
            ca,
            cb,
            sep,
            0,
            lo,
            hi,
            next,
            seq![ca],
            Seq::<Seq<u8>>::empty(),
        ),
{
    lemma_key_order();
    assert forall|j: int| 0 <= j < w.keys.len() implies in_span(lo, hi, #[trigger] w.keys[j]) by {
        lemma_key_in_pair(lo, hi, sep, l, r, w, j);
    }
    assert(subtree(p2, t, ca, 0, lo, hi, false));
    lemma_single(p2, t, ca, 0, lo, hi);
    assert(linked(p2, t, ca, 0, next));
    let mc = seq![ca];
    let mk = Seq::<Seq<u8>>::empty();
    assert forall|k: Seq<u8>| in_span(lo, hi, k) implies #[trigger] forest_lookup(
        p2,
        t,
        mc,
        mk,
        0,
        k,
    ) == if key_lt(k, sep) {
        lookup(p1, t, ca, 0, k)
    } else {
        lookup(p1, t, cb, 0, k)
    } by {
        assert(forest_lookup(p2, t, mc, mk, 0, k) == lookup(p2, t, ca, 0, k));
        assert(leaf_lookup(w, k) == shown(l, r, sep, k));
    }
    assert forall|p: usize| #[trigger] forest_owns(p2, t, mc, 0, p) implies owns(p1, t, ca, 0, p)
        || owns(p1, t, cb, 0, p) by {
        assert(owns(p2, t, ca, 0, p));
    }
    assert forall|p: usize| #[trigger]
        p1.contains_key(p) && !owns(p1, t, ca, 0, p) && !owns(p1, t, cb, 0, p) implies
        p2.contains_key(p) && p2[p] == p1[p] by {
        assert(p != ca);
    }
}

/// A key of two neighbouring leaves lies in the span of both.
proof fn lemma_key_in_pair(
    lo: Option<Seq<u8>>,
    hi: Option<Seq<u8>>,
    sep: Seq<u8>,
    l: LeafView,
    r: LeafView,
    w: LeafView,
    j: int,
)
    requires
        forall|i: int| 0 <= i < l.keys.len() ==> in_span(lo, Some(sep), #[trigger] l.keys[i]),
        forall|i: int| 0 <= i < r.keys.len() ==> in_span(Some(sep), hi, #[trigger] r.keys[i]),
        gt_lo(lo, sep),
        lt_hi(hi, sep),
        keys_from(w, l, r),
        0 <= j < w.keys.len(),
    ensures
        in_span(lo, hi, w.keys[j]),
{
    lemma_key_order();
    assert(l.keys.contains(w.keys[j]) || r.keys.contains(w.keys[j]));
    if l.keys.contains(w.keys[j]) {
        let i = choose|i: int| 0 <= i < l.keys.len() && l.keys[i] == w.keys[j];
        assert(in_span(lo, Some(sep), l.keys[i]));
    } else {
        let i = choose|i: int| 0 <= i < r.keys.len() && r.keys[i] == w.keys[j];
        assert(in_span(Some(sep), hi, r.keys[i]));
    }
}

/// An entry went from one leaf to its neighbour.
pub proof fn lemma_leaves_shared(
    p1: Pages,
    p2: Pages,
    t: TreeShape,
    ca: usize,
    cb: usize,
    sep: Seq<u8>,
    lo: Option<Seq<u8>>,
    hi: Option<Seq<u8>>,
    next: usize,
    l: LeafView,
    r: LeafView,
    wl: LeafView,
    wr: LeafView,
)
    requires
        neighbours(p1, t, ca, cb, sep, 0, lo, hi, next),
        node_of(p1[ca], t.key_len) == Some(NodeView::Leaf(l)),
        node_of(p1[cb], t.key_len) == Some(NodeView::Leaf(r)),
        leaf_fits(t, wl),
        leaf_fits(t, wr),
        wl.keys.len() >= t.leaf_max / 2,
        wr.keys.len() >= t.leaf_max / 2,
        t.leaf_max / 2 >= 1,
        wl.next_leaf_id == l.next_leaf_id,
        wr.next_leaf_id == r.next_leaf_id,
        keys_from(wl, l, r),
        keys_from(wr, l, r),
        sep_between(wl, wr, wr.keys[0]),
        same_shown(wl, wr, wr.keys[0], l, r, sep),
        p2.contains_key(ca),
        p2.contains_key(cb),
        node_of(p2[ca], t.key_len) == Some(NodeView::Leaf(wl)),
        node_of(p2[cb], t.key_len) == Some(NodeView::Leaf(wr)),
        forall|p: usize|
            p != ca && p != cb && #[trigger] p1.contains_key(p) ==> p2.contains_key(p) && p2[p]
                == p1[p],
    ensures
        settled(p1, p2, t, ca, cb, sep, 0, lo, hi, next, seq![ca, cb], seq![wr.keys[0]]),
{
    let s2 = wr.keys[0];
    lemma_key_order();
    assert(owns(p1, t, ca, 0, ca));
    assert(ca != cb) by {
        assert(owns(p1, t, cb, 0, cb));
    }
    assert forall|j: int| 0 <= j < wl.keys.len() implies in_span(
        lo,
        Some(s2),
        #[trigger] wl.keys[j],
    ) by {
        lemma_key_in_pair(lo, hi, sep, l, r, wl, j);
    }
    assert forall|j: int| 0 <= j < wr.keys.len() implies in_span(
        Some(s2),
        hi,
        #[trigger] wr.keys[j],
    ) by {
        lemma_key_in_pair(lo, hi, sep, l, r, wr, j);
    }
    assert(in_span(lo, Some(s2), wl.keys[0]));
    assert(in_span(Some(s2), hi, wr.keys[0]));
    assert(gt_lo(lo, s2) && lt_hi(hi, s2));
    assert(subtree(p2, t, ca, 0, lo, Some(s2), false));
    assert(subtree(p2, t, cb, 0, Some(s2), hi, false));
    lemma_pair(p2, t, ca, cb, s2, 0, lo, hi);
    assert(linked(p2, t, ca, 0, cb));
    assert(linked(p2, t, cb, 0, next));
    let mc = seq![ca, cb];
    let mk = seq![s2];
    assert(mc[0] == ca);
    assert forall|k: Seq<u8>| in_span(lo, hi, k) implies #[trigger] forest_lookup(
        p2,
        t,
        mc,
        mk,
        0,
        k,
    ) == if key_lt(k, sep) {
        lookup(p1, t, ca, 0, k)
    } else {
        lookup(p1, t, cb, 0, k)
    } by {
        assert(shown(wl, wr, s2, k) == shown(l, r, sep, k));
    }
    assert forall|p: usize| #[trigger] forest_owns(p2, t, mc, 0, p) implies owns(p1, t, ca, 0, p)
        || owns(p1, t, cb, 0, p) by {
        assert(owns(p2, t, ca, 0, p) || owns(p2, t, cb, 0, p));
    }
    assert forall|p: usize| #[trigger]
        p1.contains_key(p) && !owns(p1, t, ca, 0, p) && !owns(p1, t, cb, 0, p) implies
        p2.contains_key(p) && p2[p] == p1[p] by {
        assert(p != ca && p != cb);
    }
}

/// The children of two neighbouring nodes, with the key that parts them, as one list.
pub proof fn lemma_children_joined(
    p1: Pages,
    t: TreeShape,
    ca: usize,
    cb: usize,
    sep: Seq<u8>,
    g: nat,
    lo: Option<Seq<u8>>,
    hi: Option<Seq<u8>>,
    next: usize,
    l: InternalView,
    r: InternalView,
)
    requires
        g > 0,
        neighbours(p1, t, ca, cb, sep, g, lo, hi, next),
        node_of(p1[ca], t.key_len) == Some(NodeView::Internal(l)),
        node_of(p1[cb], t.key_len) == Some(NodeView::Internal(r)),
    ensures
        ({
            let cs = l.children + r.children;
            let ks = l.keys.push(sep) + r.keys;
            let f = (g - 1) as nat;
            &&& forest(p1, t, cs, ks, f, lo, hi)
            &&& forest_linked(p1, t, cs, f, next)
            &&& first_leaf(p1, t, cs[0], f) == first_leaf(p1, t, ca, g)
            &&& forall|k: Seq<u8>|
                in_span(lo, hi, k) ==> #[trigger] forest_lookup(p1, t, cs, ks, f, k) == if key_lt(
                    k,
                    sep,
                ) {
                    lookup(p1, t, ca, g, k)
                } else {
                    lookup(p1, t, cb, g, k)
                }
            &&& forall|p: usize| #[trigger]
                forest_owns(p1, t, cs, f, p) ==> (owns(p1, t, ca, g, p) || owns(
                    p1,
                    t,
                    cb,
                    g,
                    p,
                )) && p != ca && p != cb
        }),
{
    let cs = l.children + r.children;
    let ks = l.keys.push(sep) + r.keys;
    let f = (g - 1) as nat;
    assert forall|p: usize| #[trigger] forest_owns(p1, t, l.children, f, p) implies !forest_owns(
        p1,
        t,
        r.children,
        f,
        p,
    ) && owns(p1, t, ca, g, p) && p != ca && p != cb by {
        assert(owns(p1, t, ca, g, p));
        assert(!owns(p1, t, cb, g, p));
        assert(owns(p1, t, cb, g, cb));
    }
    assert forall|p: usize| #[trigger] forest_owns(p1, t, r.children, f, p) implies owns(
        p1,
        t,
        cb,
        g,
        p,
    ) && p != ca && p != cb by {
        assert(owns(p1, t, cb, g, p));
        assert(owns(p1, t, ca, g, ca));
    }
    lemma_join(p1, t, l.children, l.keys, sep, r.children, r.keys, f, lo, hi);
    assert(cs[0] == l.children[0]);
    assert(forest_linked(p1, t, l.children, f, first_leaf(p1, t, r.children[0], f)));
    assert(forest_linked(p1, t, r.children, f, next));
    assert forall|k: Seq<u8>| in_span(lo, hi, k) implies #[trigger] forest_lookup(
        p1,
        t,
        cs,
        ks,
        f,
        k,
    ) == if key_lt(k, sep) {
        lookup(p1, t, ca, g, k)
    } else {
        lookup(p1, t, cb, g, k)
    } by {
        assert(lookup(p1, t, ca, g, k) == forest_lookup(p1, t, l.children, l.keys, f, k));
        assert(lookup(p1, t, cb, g, k) == forest_lookup(p1, t, r.children, r.keys, f, k));
    }
    assert forall|p: usize| #[trigger] forest_owns(p1, t, cs, f, p) implies (owns(
        p1,
        t,
        ca,
        g,
        p,
    ) || owns(p1, t, cb, g, p)) && p != ca && p != cb by {
        assert(forest_owns(p1, t, l.children, f, p) || forest_owns(p1, t, r.children, f, p));
    }
}

/// Two nodes became one, on the page of the left one.
pub proof fn lemma_nodes_merged(
    p1: Pages,
    p2: Pages,
    t: TreeShape,
    ca: usize,
    cb: usize,
    sep: Seq<u8>,
    g: nat,
    lo: Option<Seq<u8>>,
    hi: Option<Seq<u8>>,
    next: usize,
    l: InternalView,
    r: InternalView,
    w: InternalView,
)
    requires
        g > 0,
        neighbours(p1, t, ca, cb, sep, g, lo, hi, next),
        node_of(p1[ca], t.key_len) == Some(NodeView::Internal(l)),
        node_of(p1[cb], t.key_len) == Some(NodeView::Internal(r)),
        internal_fits(t, w),
        w.keys.len() >= t.internal_max / 2,
        w.children == l.children + r.children,
        w.keys == l.keys.push(sep) + r.keys,
        p2.contains_key(ca),
        node_of(p2[ca], t.key_len) == Some(NodeView::Internal(w)),
        forall|p: usize| p != ca && #[trigger] p1.contains_key(p) ==> p2.contains_key(p) && p2[p]
            == p1[p],
    ensures
        settled(
            p1,
            p2,
            t,
            ca,
            cb,
            sep,
            g,
            lo,
            hi,
            next,
            seq![ca],
            Seq::<Seq<u8>>::empty(),
        ),
{
    let f = (g - 1) as nat;
    lemma_children_joined(p1, t, ca, cb, sep, g, lo, hi, next, l, r);
    lemma_forest_owned_exists(p1, t, w.children, w.keys, f, lo, hi);
    lemma_forest_frame(p1, p2, t, w.children, w.keys, f, lo, hi);
    assert(!forest_owns(p2, t, w.children, f, ca)) by {
        assert(forest_owns(p2, t, w.children, f, ca) == forest_owns(p1, t, w.children, f, ca));
    }
    assert(subtree(p2, t, ca, g, lo, hi, false));
    lemma_single(p2, t, ca, g, lo, hi);
    assert(linked(p2, t, ca, g, next));
    let mc = seq![ca];
    let mk = Seq::<Seq<u8>>::empty();
    assert forall|k: Seq<u8>| in_span(lo, hi, k) implies #[trigger] forest_lookup(
        p2,
        t,
        mc,
        mk,
        g,
        k,
    ) == if key_lt(k, sep) {
        lookup(p1, t, ca, g, k)
    } else {
        lookup(p1, t, cb, g, k)
    } by {
        assert(forest_lookup(p2, t, mc, mk, g, k) == lookup(p2, t, ca, g, k));
        assert(forest_lookup(p2, t, w.children, w.keys, f, k) == forest_lookup(
            p1,
            t,
            w.children,
            w.keys,
            f,
            k,
        ));
    }
    assert forall|p: usize| #[trigger] forest_owns(p2, t, mc, g, p) implies owns(p1, t, ca, g, p)
        || owns(p1, t, cb, g, p) by {
        assert(owns(p2, t, ca, g, p));
        if p != ca {
            assert(forest_owns(p2, t, w.children, f, p) == forest_owns(p1, t, w.children, f, p));
        }
    }
    assert forall|p: usize| #[trigger]
        p1.contains_key(p) && !owns(p1, t, ca, g, p) && !owns(p1, t, cb, g, p) implies
        p2.contains_key(p) && p2[p] == p1[p] by {
        assert(owns(p1, t, ca, g, ca));
    }
}

/// A child went from one node to its neighbour.
pub proof fn lemma_nodes_shared(
    p1: Pages,
    p2: Pages,
    t: TreeShape,
    ca: usize,
    cb: usize,
    sep: Seq<u8>,
    g: nat,
    lo: Option<Seq<u8>>,
    hi: Option<Seq<u8>>,
    next: usize,
    l: InternalView,
    r: InternalView,
    wl: InternalView,
    wr: InternalView,
)
    requires
        g > 0,
        neighbours(p1, t, ca, cb, sep, g, lo, hi, next),
        node_of(p1[ca], t.key_len) == Some(NodeView::Internal(l)),
        node_of(p1[cb], t.key_len) == Some(NodeView::Internal(r)),
        internal_fits(t, wl),
        internal_fits(t, wr),
        wl.keys.len() >= t.internal_max / 2,
        wr.keys.len() >= t.internal_max / 2,
        ({
            let cs = l.children + r.children;
            let ks = l.keys.push(sep) + r.keys;
            let mid = wl.keys.len() as int;
            &&& mid < ks.len()
            &&& wl.children == cs.subrange(0, mid + 1)
            &&& wl.keys == ks.subrange(0, mid)
            &&& wr.children == cs.subrange(mid + 1, cs.len() as int)
            &&& wr.keys == ks.subrange(mid + 1, ks.len() as int)
        }),
        p2.contains_key(ca),
        p2.contains_key(cb),
        node_of(p2[ca], t.key_len) == Some(NodeView::Internal(wl)),
        node_of(p2[cb], t.key_len) == Some(NodeView::Internal(wr)),
        forall|p: usize|
            p != ca && p != cb && #[trigger] p1.contains_key(p) ==> p2.contains_key(p) && p2[p]
                == p1[p],
    ensures
        settled(
            p1,
            p2,
            t,
            ca,
            cb,
            sep,
            g,
            lo,
            hi,
            next,
            seq![ca, cb],
            seq![(l.keys.push(sep) + r.keys)[wl.keys.len() as int]],
        ),
{
    let f = (g - 1) as nat;
    let cs = l.children + r.children;
    let ks = l.keys.push(sep) + r.keys;
    let mid = wl.keys.len() as int;
    let n = cs.len() as int;
    let s2 = ks[mid];
    lemma_key_order();
    lemma_children_joined(p1, t, ca, cb, sep, g, lo, hi, next, l, r);
    lemma_forest_owned_exists(p1, t, cs, ks, f, lo, hi);
    lemma_forest_frame(p1, p2, t, cs, ks, f, lo, hi);
    lemma_part(p2, t, cs, ks, f, lo, hi, 0, mid);
    lemma_part(p2, t, cs, ks, f, lo, hi, mid + 1, n - 1);
    assert(child_hi(ks, hi, mid) == Some(s2));
    assert(child_lo(ks, lo, mid + 1) == Some(s2));
    assert(child_hi(ks, hi, n - 1) == hi);
    assert(child_lo(ks, lo, 0) == lo);
    assert(cs.subrange(mid + 1, n - 1 + 1) =~= wr.children);
    assert(ks.subrange(mid + 1, n - 1) =~= wr.keys);
    assert(gt_lo(lo, s2) && lt_hi(hi, s2));
    assert(owns(p1, t, ca, g, ca));
    assert(owns(p1, t, cb, g, cb));
    assert(ca != cb);
    assert forall|p: usize| #[trigger] forest_owns(p2, t, wl.children, f, p) implies forest_owns(
        p1,
        t,
        cs,
        f,
        p,
    ) by {
        assert(range_owns(p2, t, cs, f, 0, mid, p));
        assert(forest_owns(p2, t, cs, f, p));
    }
    assert forall|p: usize| #[trigger] forest_owns(p2, t, wr.children, f, p) implies forest_owns(
        p1,
        t,
        cs,
        f,
        p,
    ) && !forest_owns(p2, t, wl.children, f, p) by {
        assert(range_owns(p2, t, cs, f, mid + 1, n - 1, p));
        let j = choose|j: int|
            #![trigger cs[j]]
            mid + 1 <= j <= n - 1 && 0 <= j < cs.len() && owns(p2, t, cs[j], f, p);
        assert(forest_owns(p2, t, cs, f, p));
        if forest_owns(p2, t, wl.children, f, p) {
            assert(range_owns(p2, t, cs, f, 0, mid, p));
            let i = choose|i: int|
                #![trigger cs[i]]
                0 <= i <= mid && 0 <= i < cs.len() && owns(p2, t, cs[i], f, p);
            assert(!owns(p2, t, cs[j], f, p));
        }
    }
    assert(subtree(p2, t, ca, g, lo, Some(s2), false)) by {
        assert(!forest_owns(p2, t, wl.children, f, ca));
    }
    assert(subtree(p2, t, cb, g, Some(s2), hi, false)) by {
        assert(!forest_owns(p2, t, wr.children, f, cb));
    }
    assert forall|p: usize| #[trigger] owns(p2, t, ca, g, p) implies !owns(p2, t, cb, g, p) by {
        if owns(p2, t, cb, g, p) {
            if p == ca {
                assert(forest_owns(p2, t, wr.children, f, ca));
            } else if p == cb {
                assert(forest_owns(p2, t, wl.children, f, cb));
            } else {
                assert(forest_owns(p2, t, wr.children, f, p));
                assert(forest_owns(p2, t, wl.children, f, p));
            }
        }
    }
    lemma_pair(p2, t, ca, cb, s2, g, lo, hi);
    assert(leaf_after(p2, t, cs, f, next, mid) == first_leaf(p2, t, cs[mid + 1], f));
    assert(leaf_after(p2, t, cs, f, next, n - 1) == next);
    assert(wr.children[0] == cs[mid + 1]);
    assert(wl.children[0] == cs[0]);
    assert(linked(p2, t, ca, g, first_leaf(p2, t, cb, g)));
    assert(linked(p2, t, cb, g, next));
    let mc = seq![ca, cb];
    let mk = seq![s2];
    assert(mc[0] == ca);
    assert forall|k: Seq<u8>| in_span(lo, hi, k) implies #[trigger] forest_lookup(
        p2,
        t,
        mc,
        mk,
        g,
        k,
    ) == if key_lt(k, sep) {
        lookup(p1, t, ca, g, k)
    } else {
        lookup(p1, t, cb, g, k)
    } by {
        assert(forest_lookup(p2, t, cs, ks, f, k) == forest_lookup(p1, t, cs, ks, f, k));
        if key_lt(k, s2) {
            assert(forest_lookup(p2, t, wl.children, wl.keys, f, k) == forest_lookup(
                p2,
                t,
                cs,
                ks,
                f,
                k,
            ));
        } else {
            assert(forest_lookup(p2, t, wr.children, wr.keys, f, k) == forest_lookup(
                p2,
                t,
                cs,
                ks,
                f,
                k,
            ));
        }
    }
    assert forall|p: usize| #[trigger] forest_owns(p2, t, mc, g, p) implies owns(p1, t, ca, g, p)
        || owns(p1, t, cb, g, p) by {
        if owns(p2, t, ca, g, p) && p != ca {
            assert(forest_owns(p2, t, wl.children, f, p));
        } else if owns(p2, t, cb, g, p) && p != cb {
            assert(forest_owns(p2, t, wr.children, f, p));
        }
    }
    assert forall|p: usize| #[trigger]
        p1.contains_key(p) && !owns(p1, t, ca, g, p) && !owns(p1, t, cb, g, p) implies
        p2.contains_key(p) && p2[p] == p1[p] by {}
}

/// The tree below `c` is what it was.
pub open spec fn kept_child(
    p0: Pages,
    p1: Pages,
    t: TreeShape,
    c: usize,
    g: nat,
    lo: Option<Seq<u8>>,
    hi: Option<Seq<u8>>,
) -> bool {
    &&& subtree(p1, t, c, g, lo, hi, false)
    &&& forall|p: usize| #[trigger] owns(p1, t, c, g, p) == owns(p0, t, c, g, p)
    &&& forall|k: Seq<u8>| #[trigger] lookup(p1, t, c, g, k) == lookup(p0, t, c, g, k)
}

/// Child `i` was changed; with the child next to it, it stands as two neighbouring trees.
pub proof fn lemma_neighbours(
    p0: Pages,
    p1: Pages,
    t: TreeShape,
    children: Seq<usize>,
    keys: Seq<Seq<u8>>,
    g: nat,
    lo: Option<Seq<u8>>,
    hi: Option<Seq<u8>>,
    next: usize,
    key: Seq<u8>,
    val: Option<RecordId>,
    i: int,
    a: int,
)
    requires
        forest(p0, t, children, keys, g, lo, hi),
        forest_linked(p0, t, children, g, next),
        0 <= a <= i <= a + 1 < children.len(),
        keys[a].len() == t.key_len,
        grown(
            p0,
            p1,
            t,
            children[i],
            g,
            child_lo(keys, lo, i),
            child_hi(keys, hi, i),
            true,
            leaf_after(p0, t, children, g, next, i),
            key,
            val,
        ),
    ensures
        neighbours(
            p1,
            t,
            children[a],
            children[a + 1],
            keys[a],
            g,
            child_lo(keys, lo, a),
            child_hi(keys, hi, a + 1),
            leaf_after(p0, t, children, g, next, a + 1),
        ),
        ({
            let o = if i == a { a + 1 } else { a };
            kept_child(p0, p1, t, children[o], g, child_lo(keys, lo, o), child_hi(keys, hi, o))
        }),
{
    let o = if i == a { a + 1 } else { a };
    let ca = children[a];
    let cb = children[a + 1];
    let c = children[i];
    let d = children[o];
    lemma_key_order();
    lemma_owned_exists(p0, t, d, g, child_lo(keys, lo, o), child_hi(keys, hi, o), false);
    assert forall|p: usize| #[trigger] owns(p0, t, d, g, p) implies p1.contains_key(p) && p1[p]
        == p0[p] && !owns(p0, t, c, g, p) by {
        if i < o {
            if owns(p0, t, children[i], g, p) {
                assert(!owns(p0, t, children[o], g, p));
            }
        } else {
            assert(owns(p0, t, children[o], g, p));
            assert(!owns(p0, t, children[i], g, p));
        }
        assert(p0.contains_key(p));
    }
    lemma_frame(p0, p1, t, d, g, child_lo(keys, lo, o), child_hi(keys, hi, o), false);
    assert(subtree(p1, t, d, g, child_lo(keys, lo, o), child_hi(keys, hi, o), true));
    assert forall|p: usize| #[trigger] owns(p1, t, ca, g, p) implies !owns(p1, t, cb, g, p) by {
        if owns(p1, t, cb, g, p) {
            assert(owns(p1, t, c, g, p) && owns(p1, t, d, g, p));
            assert(owns(p0, t, d, g, p));
            assert(p0.contains_key(p));
            assert(owns(p0, t, c, g, p));
        }
    }
    assert(linked(p0, t, children[a], g, leaf_after(p0, t, children, g, next, a)));
    assert(linked(p0, t, children[a + 1], g, leaf_after(p0, t, children, g, next, a + 1)));
    assert(leaf_after(p0, t, children, g, next, a) == first_leaf(p0, t, cb, g));
    assert(child_hi(keys, hi, a) == Some(keys[a]));
    assert(child_lo(keys, lo, a + 1) == Some(keys[a]));
    assert(gt_lo(child_lo(keys, lo, a), keys[a])) by {
        if a > 0 {
            assert(key_lt(keys[a - 1], keys[a]));
        }
    }
    assert(lt_hi(child_hi(keys, hi, a + 1), keys[a])) by {
        if a + 1 < keys.len() {
            assert(key_lt(keys[a], keys[a + 1]));
        }
    }
}

/// The settled neighbours take their place among the children.
pub proof fn lemma_settled_in_place(
    p0: Pages,
    p1: Pages,
    p2: Pages,
    t: TreeShape,
    children: Seq<usize>,
    keys: Seq<Seq<u8>>,
    g: nat,
    lo: Option<Seq<u8>>,
    hi: Option<Seq<u8>>,
    next: usize,
    key: Seq<u8>,
    val: Option<RecordId>,
    i: int,
    a: int,
    mc: Seq<usize>,
    mk: Seq<Seq<u8>>,
)
    requires
        forest(p0, t, children, keys, g, lo, hi),
        forest_linked(p0, t, children, g, next),
        in_span(lo, hi, key),
        i == child_index(keys, key),
        0 <= a <= i <= a + 1 < children.len(),
        keys[a].len() == t.key_len,
        grown(
            p0,
            p1,
            t,
            children[i],
            g,
            child_lo(keys, lo, i),
            child_hi(keys, hi, i),
            true,
            leaf_after(p0, t, children, g, next, i),
            key,
            val,
        ),
        settled(
            p1,
            p2,
            t,
            children[a],
            children[a + 1],
            keys[a],
            g,
            child_lo(keys, lo, a),
            child_hi(keys, hi, a + 1),
            leaf_after(p0, t, children, g, next, a + 1),
            mc,
            mk,
        ),
    ensures
        forest_grown(
            p0,
            p2,
            t,
            children,
            keys,
            children_spliced(children, a, a + 1, mc),
            keys_spliced(keys, a, a + 1, mk),
            g,
            lo,
            hi,
            next,
            key,
            val,
        ),
        forall|p: usize| #[trigger]
            p0.contains_key(p) && !forest_owns(p0, t, children, g, p) ==> p2.contains_key(p)
                && p2[p] == p0[p],
{
    let b = a + 1;
    let o = if i == a { a + 1 } else { a };
    let ca = children[a];
    let cb = children[b];
    let la = child_lo(keys, lo, a);
    let hb = child_hi(keys, hi, b);
    let cs = children_spliced(children, a, b, mc);
    let ks = keys_spliced(keys, a, b, mk);
    let d = children[o];
    lemma_key_order();
    lemma_neighbours(p0, p1, t, children, keys, g, lo, hi, next, key, val, i, a);
    assert(kept_child(p0, p1, t, d, g, child_lo(keys, lo, o), child_hi(keys, hi, o)));
    // Pages of the two children before the change, or new ones.
    assert forall|p: usize|
        owns(p1, t, ca, g, p) || owns(p1, t, cb, g, p) implies !p0.contains_key(p) || range_owns(
        p0,
        t,
        children,
        g,
        a,
        b,
        p,
    ) by {
        if owns(p1, t, children[i], g, p) {
            if p0.contains_key(p) {
                assert(owns(p0, t, children[i], g, p));
            }
        } else {
            assert(owns(p1, t, d, g, p));
            assert(owns(p0, t, d, g, p));
            assert(owns(p0, t, children[o], g, p));
        }
    }
    assert forall|j: int, p: usize|
        0 <= j < children.len() && !(a <= j <= b) && #[trigger] owns(
            p0,
            t,
            children[j],
            g,
            p,
        ) implies p2.contains_key(p) && p2[p] == p0[p] by {
        lemma_owned_exists(
            p0,
            t,
            children[j],
            g,
            child_lo(keys, lo, j),
            child_hi(keys, hi, j),
            false,
        );
        assert(p0.contains_key(p));
        assert(!range_owns(p0, t, children, g, a, b, p)) by {
            if range_owns(p0, t, children, g, a, b, p) {
                let q = choose|q: int|
                    #![trigger children[q]]
                    a <= q <= b && 0 <= q < children.len() && owns(p0, t, children[q], g, p);
                if q < j {
                    assert(!owns(p0, t, children[j], g, p));
                } else {
                    assert(!owns(p0, t, children[q], g, p));
                }
            }
        }
        assert(!owns(p0, t, children[i], g, p)) by {
            if owns(p0, t, children[i], g, p) {
                assert(range_owns(p0, t, children, g, a, b, p));
            }
        }
        assert(p1.contains_key(p) && p1[p] == p0[p]);
        assert(!owns(p1, t, ca, g, p) && !owns(p1, t, cb, g, p));
    }
    assert forall|p: usize| #[trigger] forest_owns(p2, t, mc, g, p) implies !p0.contains_key(p)
        || range_owns(p0, t, children, g, a, b, p) by {
        assert(owns(p1, t, ca, g, p) || owns(p1, t, cb, g, p));
    }
    assert(exchanged(p0, p2, t, children, keys, g, lo, hi, a, b, mc, mk));
    lemma_exchange(p0, p2, t, children, keys, g, lo, hi, a, b, mc, mk);
    assert(first_leaf(p2, t, mc[0], g) == first_leaf(p0, t, children[a], g)) by {
        if i != a {
            lemma_other_first(p0, p1, t, children, keys, g, lo, hi, next, key, val, i, a);
        }
    }
    lemma_exchange_linked(p0, p2, t, children, keys, g, lo, hi, a, b, mc, mk, next);
    lemma_span_of_index(keys, lo, hi, key);
    assert forall|k: Seq<u8>| in_span(lo, hi, k) implies #[trigger] forest_lookup(
        p2,
        t,
        cs,
        ks,
        g,
        k,
    ) == with_key(forest_lookup(p0, t, children, keys, g, k), key, val, k) by {
        lemma_exchange_lookup(p0, p2, t, children, keys, g, lo, hi, a, b, mc, mk, k);
        lemma_span_of_index(keys, lo, hi, k);
        let q = child_index(keys, k);
        if in_span(la, hb, k) {
            assert(a <= q <= b);
            if q == a {
                assert(key_lt(k, keys[a]));
            } else {
                assert(key_le(keys[a], k));
            }
            let x = lookup(p1, t, children[q], g, k);
            assert(forest_lookup(p2, t, mc, mk, g, k) == x);
            if q == i {
                assert(x == with_key(lookup(p0, t, children[i], g, k), key, val, k));
            } else {
                assert(x == lookup(p1, t, d, g, k));
                assert(x == lookup(p0, t, d, g, k));
                assert(k != key);
            }
        } else {
            assert(!(a <= q <= b));
            assert(k != key);
        }
    }
    assert forall|p: usize| #[trigger]
        p0.contains_key(p) && !forest_owns(p0, t, children, g, p) implies p2.contains_key(p)
        && p2[p] == p0[p] by {
        assert(!owns(p0, t, children[i], g, p));
        assert(p1.contains_key(p) && p1[p] == p0[p]);
        assert(!range_owns(p0, t, children, g, a, b, p));
        assert(!owns(p1, t, ca, g, p) && !owns(p1, t, cb, g, p));
    }
}

/// The first leaf of the child that was not changed is what it was.
proof fn lemma_other_first(
    p0: Pages,
    p1: Pages,
    t: TreeShape,
    children: Seq<usize>,
    keys: Seq<Seq<u8>>,
    g: nat,
    lo: Option<Seq<u8>>,
    hi: Option<Seq<u8>>,
    next: usize,
    key: Seq<u8>,
    val: Option<RecordId>,
    i: int,
    a: int,
)
    requires
        forest(p0, t, children, keys, g, lo, hi),
        0 <= a < i == a + 1 < children.len(),
        untouched(p0, p1, t, children[i], g),
    ensures
        first_leaf(p1, t, children[a], g) == first_leaf(p0, t, children[a], g),
{
    let d = children[a];
    lemma_owned_exists(p0, t, d, g, child_lo(keys, lo, a), child_hi(keys, hi, a), false);
    assert forall|p: usize| #[trigger] owns(p0, t, d, g, p) implies p1.contains_key(p) && p1[p]
        == p0[p] by {
        assert(owns(p0, t, children[a], g, p));
        assert(!owns(p0, t, children[i], g, p));
        assert(p0.contains_key(p));
    }
    lemma_frame(p0, p1, t, d, g, child_lo(keys, lo, a), child_hi(keys, hi, a), false);
}

} // verus!
