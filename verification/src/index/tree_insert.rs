//! What inserting a key does to the tree below a page.
use vstd::prelude::*;

use crate::catalog::index_schema::{is_upper_bound, key_le, key_lt, lemma_key_order, strictly_sorted};
use crate::index::b_plus_page::{
    child_index, leaf_inserted, leaf_lookup, leaf_split_left, leaf_split_right, lemma_child_index,
    separator_inserted, InternalView, LeafView,
};
use crate::index::leaf_laws::{law_leaf_insert, law_leaf_split, proper};
use crate::index::tree_model::{
    child_hi, child_lo, children_spliced, exchanged, first_leaf, forest, forest_linked,
    forest_lookup, forest_owns, gt_lo, in_span, internal_fits, keys_have_len, keys_spliced,
    leaf_after, leaf_fits, lemma_exchange, lemma_exchange_linked, lemma_exchange_lookup,
    lemma_forest_frame, lemma_forest_owned_exists, lemma_owned_exists, lemma_pair, lemma_part,
    lemma_single, lemma_span_of_index, linked, lookup, lt_hi, node_of, owns, range_owns, subtree,
    untouched, NodeView, Pages, TreeShape,
};
use crate::table_heap::RecordId;

verus! {

/// What the tree shows for `k` after it was changed to show `val` for `key`.
pub open spec fn with_key(
    before: Option<RecordId>,
    key: Seq<u8>,
    val: Option<RecordId>,
    k: Seq<u8>,
) -> Option<RecordId> {
    if k == key {
        val
    } else {
        before
    }
}

/// The tree below `pid` was changed for one key, and still is one tree.
pub open spec fn grown(
    p0: Pages,
    p1: Pages,
    t: TreeShape,
    pid: usize,
    h: nat,
    lo: Option<Seq<u8>>,
    hi: Option<Seq<u8>>,
    loose: bool,
    next: usize,
    key: Seq<u8>,
    val: Option<RecordId>,
) -> bool {
    &&& subtree(p1, t, pid, h, lo, hi, loose)
    &&& linked(p1, t, pid, h, next)
    &&& first_leaf(p1, t, pid, h) == first_leaf(p0, t, pid, h)
    &&& forall|k: Seq<u8>|
        in_span(lo, hi, k) ==> #[trigger] lookup(p1, t, pid, h, k) == with_key(
            lookup(p0, t, pid, h, k),
            key,
            val,
            k,
        )
    &&& forall|p: usize| #[trigger]
        owns(p1, t, pid, h, p) ==> owns(p0, t, pid, h, p) || !p0.contains_key(p)
    &&& untouched(p0, p1, t, pid, h)
}

/// The node on `pid` lost no key, where it is an internal one.
pub open spec fn keeps_branching(p0: Pages, p1: Pages, t: TreeShape, pid: usize) -> bool {
    node_of(p0[pid], t.key_len) matches Some(NodeView::Internal(v)) ==> (node_of(
        p1[pid],
        t.key_len,
    ) matches Some(NodeView::Internal(w)) && w.keys.len() >= v.keys.len())
}

/// The key went into the tree below `pid`, which came apart: the keys from `sep` on are in the
/// tree below `right`.
pub open spec fn parted(
    p0: Pages,
    p1: Pages,
    t: TreeShape,
    pid: usize,
    h: nat,
    lo: Option<Seq<u8>>,
    hi: Option<Seq<u8>>,
    next: usize,
    key: Seq<u8>,
    val: Option<RecordId>,
    sep: Seq<u8>,
    right: usize,
) -> bool {
    &&& gt_lo(lo, sep)
    &&& lt_hi(hi, sep)
    &&& sep.len() == t.key_len
    &&& subtree(p1, t, pid, h, lo, Some(sep), false)
    &&& subtree(p1, t, right, h, Some(sep), hi, false)
    &&& forall|p: usize| #[trigger] owns(p1, t, pid, h, p) ==> !owns(p1, t, right, h, p)
    &&& linked(p1, t, pid, h, first_leaf(p1, t, right, h))
    &&& linked(p1, t, right, h, next)
    &&& first_leaf(p1, t, pid, h) == first_leaf(p0, t, pid, h)
    &&& forall|k: Seq<u8>|
        in_span(lo, hi, k) ==> (if key_lt(k, sep) {
            #[trigger] lookup(p1, t, pid, h, k)
        } else {
            lookup(p1, t, right, h, k)
        }) == with_key(lookup(p0, t, pid, h, k), key, val, k)
    &&& forall|p: usize| #[trigger]
        owns(p1, t, pid, h, p) ==> owns(p0, t, pid, h, p) || !p0.contains_key(p)
    &&& forall|p: usize| #[trigger]
        owns(p1, t, right, h, p) ==> owns(p0, t, pid, h, p) || !p0.contains_key(p)
    &&& untouched(p0, p1, t, pid, h)
}

/// A list of children as `cs` and `ks` in the state `p1` stands for the list `children` and
/// `keys` in `p0`, changed for one key.
pub open spec fn forest_grown(
    p0: Pages,
    p1: Pages,
    t: TreeShape,
    children: Seq<usize>,
    keys: Seq<Seq<u8>>,
    cs: Seq<usize>,
    ks: Seq<Seq<u8>>,
    h: nat,
    lo: Option<Seq<u8>>,
    hi: Option<Seq<u8>>,
    next: usize,
    key: Seq<u8>,
    val: Option<RecordId>,
) -> bool {
    &&& forest(p1, t, cs, ks, h, lo, hi)
    &&& forest_linked(p1, t, cs, h, next)
    &&& first_leaf(p1, t, cs[0], h) == first_leaf(p0, t, children[0], h)
    &&& forall|k: Seq<u8>|
        in_span(lo, hi, k) ==> #[trigger] forest_lookup(p1, t, cs, ks, h, k) == with_key(
            forest_lookup(p0, t, children, keys, h, k),
            key,
            val,
            k,
        )
    &&& forall|p: usize| #[trigger]
        forest_owns(p1, t, cs, h, p) ==> forest_owns(p0, t, children, h, p) || !p0.contains_key(p)
}

/// Where the pages of child `i` alone change, the other children keep theirs.
proof fn lemma_others_kept(
    p0: Pages,
    p1: Pages,
    t: TreeShape,
    children: Seq<usize>,
    keys: Seq<Seq<u8>>,
    h: nat,
    lo: Option<Seq<u8>>,
    hi: Option<Seq<u8>>,
    i: int,
)
    requires
        forest(p0, t, children, keys, h, lo, hi),
        0 <= i < children.len(),
        untouched(p0, p1, t, children[i], h),
    ensures
        forall|j: int, p: usize|
            0 <= j < children.len() && !(i <= j <= i) && #[trigger] owns(p0, t, children[j], h, p)
                ==> p1.contains_key(p) && p1[p] == p0[p],
{
    assert forall|j: int, p: usize|
        0 <= j < children.len() && !(i <= j <= i) && #[trigger] owns(
            p0,
            t,
            children[j],
            h,
            p,
        ) implies p1.contains_key(p) && p1[p] == p0[p] by {
        lemma_owned_exists(
            p0,
            t,
            children[j],
            h,
            child_lo(keys, lo, j),
            child_hi(keys, hi, j),
            false,
        );
        if owns(p0, t, children[i], h, p) {
            if i < j {
                assert(!owns(p0, t, children[j], h, p));
            } else {
                assert(!owns(p0, t, children[i], h, p));
            }
        }
    }
}

/// Child `i` took the key and is still one tree.
pub proof fn lemma_child_grown(
    p0: Pages,
    p1: Pages,
    t: TreeShape,
    children: Seq<usize>,
    keys: Seq<Seq<u8>>,
    h: nat,
    lo: Option<Seq<u8>>,
    hi: Option<Seq<u8>>,
    next: usize,
    key: Seq<u8>,
    val: Option<RecordId>,
    i: int,
)
    requires
        forest(p0, t, children, keys, h, lo, hi),
        forest_linked(p0, t, children, h, next),
        in_span(lo, hi, key),
        i == child_index(keys, key),
        0 <= i < children.len(),
        grown(
            p0,
            p1,
            t,
            children[i],
            h,
            child_lo(keys, lo, i),
            child_hi(keys, hi, i),
            false,
            leaf_after(p0, t, children, h, next, i),
            key,
            val,
        ),
    ensures
        forest_grown(p0, p1, t, children, keys, children, keys, h, lo, hi, next, key, val),
{
    let c = children[i];
    let mc = seq![c];
    let mk = Seq::<Seq<u8>>::empty();
    let la = child_lo(keys, lo, i);
    let hb = child_hi(keys, hi, i);
    lemma_single(p1, t, c, h, la, hb);
    lemma_others_kept(p0, p1, t, children, keys, h, lo, hi, i);
    assert forall|p: usize| #[trigger] forest_owns(p1, t, mc, h, p) implies !p0.contains_key(p)
        || range_owns(p0, t, children, h, i, i, p) by {
        assert(owns(p1, t, c, h, p));
    }
    assert(exchanged(p0, p1, t, children, keys, h, lo, hi, i, i, mc, mk));
    lemma_exchange(p0, p1, t, children, keys, h, lo, hi, i, i, mc, mk);
    lemma_exchange_linked(p0, p1, t, children, keys, h, lo, hi, i, i, mc, mk, next);
    assert(children_spliced(children, i, i, mc) =~= children);
    assert(keys_spliced(keys, i, i, mk) =~= keys);
    assert forall|k: Seq<u8>| in_span(lo, hi, k) implies #[trigger] forest_lookup(
        p1,
        t,
        children,
        keys,
        h,
        k,
    ) == with_key(forest_lookup(p0, t, children, keys, h, k), key, val, k) by {
        lemma_exchange_lookup(p0, p1, t, children, keys, h, lo, hi, i, i, mc, mk, k);
        lemma_span_of_index(keys, lo, hi, k);
        lemma_span_of_index(keys, lo, hi, key);
        if in_span(la, hb, k) {
            assert(child_index(keys, k) == i);
            assert(forest_lookup(p1, t, mc, mk, h, k) == lookup(p1, t, c, h, k));
        }
    }
}

/// A separator inserted behind child `i` stands where the child came apart.
pub proof fn lemma_separator_spliced(
    v: InternalView,
    lo: Option<Seq<u8>>,
    hi: Option<Seq<u8>>,
    i: int,
    sep: Seq<u8>,
    right: usize,
)
    requires
        v.children.len() == v.keys.len() + 1,
        strictly_sorted(v.keys),
        0 <= i < v.children.len(),
        gt_lo(child_lo(v.keys, lo, i), sep),
        lt_hi(child_hi(v.keys, hi, i), sep),
    ensures
        child_index(v.keys, sep) == i,
        separator_inserted(v, sep, right).children == children_spliced(
            v.children,
            i,
            i,
            seq![v.children[i], right],
        ),
        separator_inserted(v, sep, right).keys == keys_spliced(v.keys, i, i, seq![sep]),
        strictly_sorted(separator_inserted(v, sep, right).keys),
{
    lemma_key_order();
    assert(is_upper_bound(v.keys, sep, i)) by {
        assert forall|j: int| 0 <= j < i implies key_le(#[trigger] v.keys[j], sep) by {
            if j < i - 1 {
                assert(key_lt(v.keys[j], v.keys[i - 1]));
            }
        }
        assert forall|j: int| i <= j < v.keys.len() implies key_lt(sep, #[trigger] v.keys[j]) by {
            if j > i {
                assert(key_lt(v.keys[i], v.keys[j]));
            }
        }
    }
    lemma_child_index(v.keys, sep, i);
    let w = separator_inserted(v, sep, right);
    assert(w.children =~= children_spliced(v.children, i, i, seq![v.children[i], right]));
    assert(w.keys =~= keys_spliced(v.keys, i, i, seq![sep]));
    assert forall|a: int, b: int| 0 <= a < b < w.keys.len() implies key_lt(
        #[trigger] w.keys[a],
        #[trigger] w.keys[b],
    ) by {
        let x = if a < i { a } else { a - 1 };
        let y = if b < i { b } else { b - 1 };
        if a != i && b != i {
            assert(key_lt(v.keys[x], v.keys[y]));
        } else if a == i {
            assert(key_lt(sep, v.keys[y]));
        } else {
            if x < i - 1 {
                assert(key_lt(v.keys[x], v.keys[i - 1]));
            }
        }
    }
}

/// Child `i` took the key and came apart.
pub proof fn lemma_child_parted(
    p0: Pages,
    p1: Pages,
    t: TreeShape,
    children: Seq<usize>,
    keys: Seq<Seq<u8>>,
    h: nat,
    lo: Option<Seq<u8>>,
    hi: Option<Seq<u8>>,
    next: usize,
    key: Seq<u8>,
    val: Option<RecordId>,
    i: int,
    sep: Seq<u8>,
    right: usize,
)
    requires
        forest(p0, t, children, keys, h, lo, hi),
        forest_linked(p0, t, children, h, next),
        in_span(lo, hi, key),
        i == child_index(keys, key),
        0 <= i < children.len(),
        parted(
            p0,
            p1,
            t,
            children[i],
            h,
            child_lo(keys, lo, i),
            child_hi(keys, hi, i),
            leaf_after(p0, t, children, h, next, i),
            key,
            val,
            sep,
            right,
        ),
    ensures
        forest_grown(
            p0,
            p1,
            t,
            children,
            keys,
            children_spliced(children, i, i, seq![children[i], right]),
            keys_spliced(keys, i, i, seq![sep]),
            h,
            lo,
            hi,
            next,
            key,
            val,
        ),
{
    let c = children[i];
    let mc = seq![c, right];
    let mk = seq![sep];
    let la = child_lo(keys, lo, i);
    let hb = child_hi(keys, hi, i);
    let cs = children_spliced(children, i, i, mc);
    let ks = keys_spliced(keys, i, i, mk);
    lemma_pair(p1, t, c, right, sep, h, la, hb);
    lemma_others_kept(p0, p1, t, children, keys, h, lo, hi, i);
    assert forall|p: usize| #[trigger] forest_owns(p1, t, mc, h, p) implies !p0.contains_key(p)
        || range_owns(p0, t, children, h, i, i, p) by {
        if owns(p1, t, c, h, p) {
        } else {
            assert(owns(p1, t, right, h, p));
        }
        if p0.contains_key(p) {
            assert(owns(p0, t, children[i], h, p));
        }
    }
    assert(exchanged(p0, p1, t, children, keys, h, lo, hi, i, i, mc, mk));
    lemma_exchange(p0, p1, t, children, keys, h, lo, hi, i, i, mc, mk);
    assert(linked(p1, t, right, h, leaf_after(p0, t, children, h, next, i)));
    assert(mc[0] == c);
    lemma_exchange_linked(p0, p1, t, children, keys, h, lo, hi, i, i, mc, mk, next);
    assert forall|k: Seq<u8>| in_span(lo, hi, k) implies #[trigger] forest_lookup(
        p1,
        t,
        cs,
        ks,
        h,
        k,
    ) == with_key(forest_lookup(p0, t, children, keys, h, k), key, val, k) by {
        lemma_exchange_lookup(p0, p1, t, children, keys, h, lo, hi, i, i, mc, mk, k);
        lemma_span_of_index(keys, lo, hi, k);
        lemma_span_of_index(keys, lo, hi, key);
        if in_span(la, hb, k) {
            assert(child_index(keys, k) == i);
            let found = lookup(p1, t, c, h, k);
            assert(forest_lookup(p1, t, mc, mk, h, k) == if key_lt(k, sep) {
                found
            } else {
                lookup(p1, t, right, h, k)
            });
        }
    }
}

/// The node on `pid` was written with the children `cs` after they took the key.
pub proof fn lemma_node_grown(
    p0: Pages,
    p1: Pages,
    p2: Pages,
    t: TreeShape,
    pid: usize,
    h: nat,
    lo: Option<Seq<u8>>,
    hi: Option<Seq<u8>>,
    loose: bool,
    after_loose: bool,
    next: usize,
    key: Seq<u8>,
    val: Option<RecordId>,
    v: InternalView,
    w: InternalView,
)
    requires
        h > 0,
        subtree(p0, t, pid, h, lo, hi, loose),
        node_of(p0[pid], t.key_len) == Some(NodeView::Internal(v)),
        forest_grown(
            p0,
            p1,
            t,
            v.children,
            v.keys,
            w.children,
            w.keys,
            (h - 1) as nat,
            lo,
            hi,
            next,
            key,
            val,
        ),
        internal_fits(t, w),
        after_loose || w.keys.len() >= t.internal_max / 2,
        p2.contains_key(pid),
        node_of(p2[pid], t.key_len) == Some(NodeView::Internal(w)),
        forall|p: usize| p != pid && #[trigger] p1.contains_key(p) ==> p2.contains_key(p) && p2[p]
            == p1[p],
        forall|p: usize| #[trigger]
            p0.contains_key(p) && !forest_owns(p0, t, v.children, (h - 1) as nat, p)
                ==> p1.contains_key(p) && p1[p] == p0[p],
    ensures
        grown(p0, p2, t, pid, h, lo, hi, after_loose, next, key, val),
{
    let g = (h - 1) as nat;
    lemma_forest_owned_exists(p1, t, w.children, w.keys, g, lo, hi);
    assert forall|p: usize| #[trigger] forest_owns(p1, t, w.children, g, p) implies p != pid by {
        if p == pid {
            assert(p0.contains_key(pid));
            assert(!forest_owns(p0, t, v.children, g, pid));
        }
    }
    lemma_forest_frame(p1, p2, t, w.children, w.keys, g, lo, hi);
    assert(!forest_owns(p2, t, w.children, g, pid)) by {
        assert(forest_owns(p2, t, w.children, g, pid) == forest_owns(p1, t, w.children, g, pid));
    }
    assert(subtree(p2, t, pid, h, lo, hi, after_loose));
    assert forall|k: Seq<u8>| in_span(lo, hi, k) implies #[trigger] lookup(p2, t, pid, h, k)
        == with_key(lookup(p0, t, pid, h, k), key, val, k) by {
        assert(forest_lookup(p2, t, w.children, w.keys, g, k) == forest_lookup(
            p1,
            t,
            w.children,
            w.keys,
            g,
            k,
        ));
    }
    assert forall|p: usize| #[trigger] owns(p2, t, pid, h, p) implies owns(p0, t, pid, h, p)
        || !p0.contains_key(p) by {
        if p != pid {
            assert(forest_owns(p2, t, w.children, g, p) == forest_owns(p1, t, w.children, g, p));
        }
    }
    assert(untouched(p0, p2, t, pid, h)) by {
        assert forall|p: usize| #[trigger] p0.contains_key(p) && !owns(p0, t, pid, h, p) implies
            p2.contains_key(p) && p2[p] == p0[p] by {
            assert(!forest_owns(p0, t, v.children, g, p));
            assert(p1.contains_key(p));
        }
    }
}

/// The node on `pid` came apart at its key `mid`: the children behind it went to page `right`.
pub proof fn lemma_node_parted(
    p0: Pages,
    p1: Pages,
    p2: Pages,
    t: TreeShape,
    pid: usize,
    h: nat,
    lo: Option<Seq<u8>>,
    hi: Option<Seq<u8>>,
    loose: bool,
    next: usize,
    key: Seq<u8>,
    val: Option<RecordId>,
    v: InternalView,
    cs: Seq<usize>,
    ks: Seq<Seq<u8>>,
    mid: int,
    wl: InternalView,
    wr: InternalView,
    right: usize,
)
    requires
        h > 0,
        subtree(p0, t, pid, h, lo, hi, loose),
        node_of(p0[pid], t.key_len) == Some(NodeView::Internal(v)),
        forest_grown(
            p0,
            p1,
            t,
            v.children,
            v.keys,
            cs,
            ks,
            (h - 1) as nat,
            lo,
            hi,
            next,
            key,
            val,
        ),
        keys_have_len(ks, t.key_len),
        0 <= mid < ks.len(),
        wl.children == cs.subrange(0, mid + 1),
        wl.keys == ks.subrange(0, mid),
        wr.children == cs.subrange(mid + 1, cs.len() as int),
        wr.keys == ks.subrange(mid + 1, ks.len() as int),
        internal_fits(t, wl),
        internal_fits(t, wr),
        wl.keys.len() >= t.internal_max / 2,
        wr.keys.len() >= t.internal_max / 2,
        p2.contains_key(pid),
        p2.contains_key(right),
        right != pid,
        right != crate::index::b_plus_page::INVALID_PAGE_ID,
        !p1.contains_key(right),
        !p0.contains_key(right),
        node_of(p2[pid], t.key_len) == Some(NodeView::Internal(wl)),
        node_of(p2[right], t.key_len) == Some(NodeView::Internal(wr)),
        forall|p: usize|
            p != pid && p != right && #[trigger] p1.contains_key(p) ==> p2.contains_key(p) && p2[p]
                == p1[p],
        forall|p: usize| #[trigger]
            p0.contains_key(p) && !forest_owns(p0, t, v.children, (h - 1) as nat, p)
                ==> p1.contains_key(p) && p1[p] == p0[p],
    ensures
        parted(p0, p2, t, pid, h, lo, hi, next, key, val, ks[mid], right),
{
    let g = (h - 1) as nat;
    let sep = ks[mid];
    let n = cs.len() as int;
    lemma_key_order();
    lemma_forest_owned_exists(p1, t, cs, ks, g, lo, hi);
    assert forall|p: usize| #[trigger] forest_owns(p1, t, cs, g, p) implies p != pid && p
        != right by {
        if p == pid {
            assert(p0.contains_key(pid));
            assert(!forest_owns(p0, t, v.children, g, pid));
        }
    }
    lemma_forest_frame(p1, p2, t, cs, ks, g, lo, hi);
    lemma_part(p2, t, cs, ks, g, lo, hi, 0, mid);
    lemma_part(p2, t, cs, ks, g, lo, hi, mid + 1, n - 1);
    assert(child_hi(ks, hi, mid) == Some(sep));
    assert(child_lo(ks, lo, mid + 1) == Some(sep));
    assert(child_hi(ks, hi, n - 1) == hi);
    assert(child_lo(ks, lo, 0) == lo);
    assert(cs.subrange(mid + 1, n - 1 + 1) =~= wr.children);
    assert(ks.subrange(mid + 1, n - 1) =~= wr.keys);
    assert(gt_lo(lo, sep) && lt_hi(hi, sep));
    // Parts of the whole own pages of the whole.
    assert forall|p: usize| #[trigger] forest_owns(p2, t, wl.children, g, p) implies forest_owns(
        p1,
        t,
        cs,
        g,
        p,
    ) by {
        assert(range_owns(p2, t, cs, g, 0, mid, p));
        assert(forest_owns(p2, t, cs, g, p));
    }
    assert forall|p: usize| #[trigger] forest_owns(p2, t, wr.children, g, p) implies forest_owns(
        p1,
        t,
        cs,
        g,
        p,
    ) && !forest_owns(p2, t, wl.children, g, p) by {
        assert(range_owns(p2, t, cs, g, mid + 1, n - 1, p));
        let j = choose|j: int|
            #![trigger cs[j]]
            mid + 1 <= j <= n - 1 && 0 <= j < cs.len() && owns(p2, t, cs[j], g, p);
        assert(forest_owns(p2, t, cs, g, p));
        if forest_owns(p2, t, wl.children, g, p) {
            assert(range_owns(p2, t, cs, g, 0, mid, p));
            let i = choose|i: int|
                #![trigger cs[i]]
                0 <= i <= mid && 0 <= i < cs.len() && owns(p2, t, cs[i], g, p);
            assert(!owns(p2, t, cs[j], g, p));
        }
    }
    assert(subtree(p2, t, pid, h, lo, Some(sep), false)) by {
        assert(!forest_owns(p2, t, wl.children, g, pid));
    }
    assert(subtree(p2, t, right, h, Some(sep), hi, false)) by {
        assert(!forest_owns(p2, t, wr.children, g, right));
    }
    assert forall|p: usize| #[trigger] owns(p2, t, pid, h, p) implies !owns(
        p2,
        t,
        right,
        h,
        p,
    ) by {
        if owns(p2, t, right, h, p) {
            if p == pid {
                assert(forest_owns(p2, t, wr.children, g, pid));
            } else if p == right {
                assert(forest_owns(p2, t, wl.children, g, right));
            } else {
                assert(forest_owns(p2, t, wr.children, g, p));
                assert(forest_owns(p2, t, wl.children, g, p));
            }
        }
    }
    // The chain of leaves.
    assert(forest_linked(p2, t, cs, g, next));
    assert(leaf_after(p2, t, cs, g, next, mid) == first_leaf(p2, t, cs[mid + 1], g));
    assert(leaf_after(p2, t, cs, g, next, n - 1) == next);
    assert(wr.children[0] == cs[mid + 1]);
    assert(wl.children[0] == cs[0]);
    assert(first_leaf(p2, t, right, h) == first_leaf(p2, t, cs[mid + 1], g));
    assert forall|k: Seq<u8>| in_span(lo, hi, k) implies (if key_lt(k, sep) {
        #[trigger] lookup(p2, t, pid, h, k)
    } else {
        lookup(p2, t, right, h, k)
    }) == with_key(lookup(p0, t, pid, h, k), key, val, k) by {
        assert(forest_lookup(p2, t, cs, ks, g, k) == forest_lookup(p1, t, cs, ks, g, k));
        if key_lt(k, sep) {
            assert(forest_lookup(p2, t, wl.children, wl.keys, g, k) == forest_lookup(
                p2,
                t,
                cs,
                ks,
                g,
                k,
            ));
        } else {
            assert(forest_lookup(p2, t, wr.children, wr.keys, g, k) == forest_lookup(
                p2,
                t,
                cs,
                ks,
                g,
                k,
            ));
        }
    }
    assert forall|p: usize| #[trigger] owns(p2, t, pid, h, p) implies owns(p0, t, pid, h, p)
        || !p0.contains_key(p) by {
        if p != pid {
            assert(forest_owns(p2, t, wl.children, g, p));
        }
    }
    assert forall|p: usize| #[trigger] owns(p2, t, right, h, p) implies owns(p0, t, pid, h, p)
        || !p0.contains_key(p) by {
        if p != right {
            assert(forest_owns(p2, t, wr.children, g, p));
        }
    }
    assert(untouched(p0, p2, t, pid, h)) by {
        assert forall|p: usize| #[trigger] p0.contains_key(p) && !owns(p0, t, pid, h, p) implies
            p2.contains_key(p) && p2[p] == p0[p] by {
            assert(!forest_owns(p0, t, v.children, g, p));
            assert(p1.contains_key(p));
        }
    }
}

/// The leaf on `pid` took the key.
pub proof fn lemma_leaf_grown(
    p0: Pages,
    p1: Pages,
    t: TreeShape,
    pid: usize,
    lo: Option<Seq<u8>>,
    hi: Option<Seq<u8>>,
    loose: bool,
    next: usize,
    key: Seq<u8>,
    rid: RecordId,
    v: LeafView,
    w: LeafView,
)
    requires
        t.leaf_max < u32::MAX,
        subtree(p0, t, pid, 0, lo, hi, loose),
        linked(p0, t, pid, 0, next),
        in_span(lo, hi, key),
        key.len() == t.key_len,
        node_of(p0[pid], t.key_len) == Some(NodeView::Leaf(v)),
        leaf_inserted(v, key, rid) == Some(w),
        w.keys.len() <= t.leaf_max,
        p1.contains_key(pid),
        node_of(p1[pid], t.key_len) == Some(NodeView::Leaf(w)),
        forall|p: usize| p != pid && #[trigger] p0.contains_key(p) ==> p1.contains_key(p) && p1[p]
            == p0[p],
    ensures
        leaf_fits(t, w),
        grown(p0, p1, t, pid, 0, lo, hi, loose, next, key, Some(rid)),
{
    law_leaf_insert(v, key, rid);
    assert forall|j: int| 0 <= j < w.keys.len() implies (#[trigger] w.keys[j]).len() == t.key_len
        && in_span(lo, hi, w.keys[j]) by {
        if w.keys[j] != key {
            let i = choose|i: int| 0 <= i < v.keys.len() && v.keys[i] == w.keys[j];
            assert(v.keys[i].len() == t.key_len);
        }
    }
    assert(untouched(p0, p1, t, pid, 0)) by {
        assert forall|p: usize| #[trigger] p0.contains_key(p) && !owns(p0, t, pid, 0, p) implies
            p1.contains_key(p) && p1[p] == p0[p] by {}
    }
}

/// A leaf that took a key fits where it is not overfull.
pub proof fn lemma_leaf_inserted_fits(t: TreeShape, v: LeafView, key: Seq<u8>, rid: RecordId)
    requires
        leaf_fits(t, v),
        key.len() == t.key_len,
        v.keys.len() < u32::MAX,
        leaf_inserted(v, key, rid) is Some,
    ensures
        (leaf_inserted(v, key, rid)->0).keys.len() <= t.leaf_max ==> leaf_fits(
            t,
            leaf_inserted(v, key, rid)->0,
        ),
        proper(leaf_inserted(v, key, rid)->0),
        keys_have_len((leaf_inserted(v, key, rid)->0).keys, t.key_len),
{
    let w = leaf_inserted(v, key, rid)->0;
    law_leaf_insert(v, key, rid);
    assert forall|j: int| 0 <= j < w.keys.len() implies (#[trigger] w.keys[j]).len()
        == t.key_len by {
        if w.keys[j] != key {
            let i = choose|i: int| 0 <= i < v.keys.len() && v.keys[i] == w.keys[j];
            assert(v.keys[i].len() == t.key_len);
        }
    }
}

/// The halves of an overfull leaf fit.
pub proof fn lemma_halves_fit(
    t: TreeShape,
    w: LeafView,
    right_page_id: usize,
    right: LeafView,
)
    requires
        proper(w),
        keys_have_len(w.keys, t.key_len),
        w.keys.len() == t.leaf_max + 1,
        w.keys.len() >= 2,
        w.max_size == t.leaf_max,
        w.capacity == t.capacity(),
        w.tombstones.len() <= w.capacity,
        right.max_size == t.leaf_max,
        right.capacity == t.capacity(),
    ensures
        leaf_fits(t, leaf_split_left(w, right_page_id)),
        leaf_fits(t, leaf_split_right(w, right)),
        leaf_split_left(w, right_page_id).keys.len() >= t.leaf_max / 2,
        leaf_split_right(w, right).keys.len() >= t.leaf_max / 2,
{
    law_leaf_split(w, right_page_id, right);
}

/// The leaf on `pid` took the key and came apart: its upper half went to page `right`.
pub proof fn lemma_leaf_parted(
    p0: Pages,
    p1: Pages,
    t: TreeShape,
    pid: usize,
    lo: Option<Seq<u8>>,
    hi: Option<Seq<u8>>,
    loose: bool,
    next: usize,
    key: Seq<u8>,
    rid: RecordId,
    v: LeafView,
    w: LeafView,
    empty: LeafView,
    right: usize,
)
    requires
        t.leaf_max < u32::MAX,
        subtree(p0, t, pid, 0, lo, hi, loose),
        linked(p0, t, pid, 0, next),
        in_span(lo, hi, key),
        key.len() == t.key_len,
        node_of(p0[pid], t.key_len) == Some(NodeView::Leaf(v)),
        leaf_inserted(v, key, rid) == Some(w),
        w.keys.len() == t.leaf_max + 1,
        w.keys.len() >= 2,
        empty.max_size == t.leaf_max,
        empty.capacity == t.capacity(),
        p1.contains_key(pid),
        p1.contains_key(right),
        right != pid,
        right != crate::index::b_plus_page::INVALID_PAGE_ID,
        !p0.contains_key(right),
        node_of(p1[pid], t.key_len) == Some(NodeView::Leaf(leaf_split_left(w, right))),
        node_of(p1[right], t.key_len) == Some(NodeView::Leaf(leaf_split_right(w, empty))),
        forall|p: usize|
            p != pid && p != right && #[trigger] p0.contains_key(p) ==> p1.contains_key(p) && p1[p]
                == p0[p],
    ensures
        parted(
            p0,
            p1,
            t,
            pid,
            0,
            lo,
            hi,
            next,
            key,
            Some(rid),
            leaf_split_right(w, empty).keys[0],
            right,
        ),
{
    let l = leaf_split_left(w, right);
    let r = leaf_split_right(w, empty);
    let sep = r.keys[0];
    lemma_key_order();
    law_leaf_insert(v, key, rid);
    lemma_leaf_inserted_fits(t, v, key, rid);
    lemma_halves_fit(t, w, right, empty);
    law_leaf_split(w, right, empty);
    assert forall|j: int| 0 <= j < w.keys.len() implies in_span(lo, hi, #[trigger] w.keys[j]) by {
        if w.keys[j] != key {
            let i = choose|i: int| 0 <= i < v.keys.len() && v.keys[i] == w.keys[j];
            assert(in_span(lo, hi, v.keys[i]));
        }
    }
    let m = choose|m: int| 0 <= m < w.keys.len() && w.keys[m] == sep;
    assert(in_span(lo, hi, w.keys[m]));
    assert(in_span(lo, hi, w.keys[0]));
    assert(gt_lo(lo, sep));
    assert forall|j: int| 0 <= j < l.keys.len() implies in_span(
        lo,
        Some(sep),
        #[trigger] l.keys[j],
    ) by {
        let i = choose|i: int| 0 <= i < w.keys.len() && w.keys[i] == l.keys[j];
        assert(in_span(lo, hi, w.keys[i]));
    }
    assert forall|j: int| 0 <= j < r.keys.len() implies in_span(
        Some(sep),
        hi,
        #[trigger] r.keys[j],
    ) by {
        let i = choose|i: int| 0 <= i < w.keys.len() && w.keys[i] == r.keys[j];
        assert(in_span(lo, hi, w.keys[i]));
    }
    assert(subtree(p1, t, pid, 0, lo, Some(sep), false));
    assert(subtree(p1, t, right, 0, Some(sep), hi, false));
    assert forall|k: Seq<u8>| in_span(lo, hi, k) implies (if key_lt(k, sep) {
        #[trigger] lookup(p1, t, pid, 0, k)
    } else {
        lookup(p1, t, right, 0, k)
    }) == with_key(lookup(p0, t, pid, 0, k), key, Some(rid), k) by {
        assert(leaf_lookup(w, k) == if key_lt(k, sep) {
            leaf_lookup(l, k)
        } else {
            leaf_lookup(r, k)
        });
    }
    assert(untouched(p0, p1, t, pid, 0)) by {
        assert forall|p: usize| #[trigger] p0.contains_key(p) && !owns(p0, t, pid, 0, p) implies
            p1.contains_key(p) && p1[p] == p0[p] by {}
    }
}

/// A key that is added is found, one that is taken out is not, and no other key notices. Taking
/// out what was added gives back what was there before.
pub proof fn law_insert_then_remove(
    before: spec_fn(Seq<u8>) -> Option<RecordId>,
    key: Seq<u8>,
    rid: RecordId,
    k: Seq<u8>,
)
    requires
        before(key) is None,
    ensures
        with_key(before(key), key, Some(rid), key) == Some(rid),
        k != key ==> with_key(before(k), key, Some(rid), k) == before(k),
        with_key(with_key(before(k), key, Some(rid), k), key, None, k) == before(k),
{
}

} // verus!
