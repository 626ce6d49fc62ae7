//! What a tree of pages is: its shape, what it holds, and how parts of it can be exchanged.
use vstd::prelude::*;

use crate::catalog::index_schema::{
    is_upper_bound, key_le, key_lt, lemma_key_order, strictly_sorted,
};
use crate::index::b_plus_page::{
    child_index, internal_max_size, leaf_inserted, leaf_lookup, leaf_max_size, leaf_removed,
    leaf_split_left, leaf_split_right, lemma_child_index,
    tombstone_room, InternalView, LeafView, PageKind, INVALID_PAGE_ID, NUM_TOMBSTONES,
};
use crate::index::leaf_laws::proper;
use crate::index::page_format::{
    header_decoded, internal_decoded, leaf_decoded, page_kind, HeaderPage,
};
use crate::table_heap::RecordId;

verus! {

/// The sizes that all pages of a tree have in common.
#[derive(Clone, Copy)]
pub struct TreeShape {
    pub key_len: u32,
    pub leaf_max: u32,
    pub internal_max: u32,
}

impl TreeShape {
    /// As many entries fit on a page as its layout leaves room for.
    pub open spec fn valid(self) -> bool {
        &&& leaf_max_size(self.key_len as int) == Some(self.leaf_max)
        &&& internal_max_size(self.key_len as int) == Some(self.internal_max)
    }

    pub open spec fn capacity(self) -> usize {
        tombstone_room(self.leaf_max as int, self.key_len as int, NUM_TOMBSTONES as int) as usize
    }
}

#[verifier::ext_equal]
pub enum NodeView {
    Leaf(LeafView),
    Internal(InternalView),
}

/// The node that the bytes of a page stand for.
#[verifier::opaque]
pub open spec fn node_of(b: Seq<u8>, key_len: u32) -> Option<NodeView> {
    match page_kind(b) {
        Ok(PageKind::Leaf) => match leaf_decoded(b, key_len as int) {
            Ok(v) => Some(NodeView::Leaf(v)),
            Err(_) => None,
        },
        Ok(PageKind::Internal) => match internal_decoded(b, key_len as int) {
            Ok(v) => Some(NodeView::Internal(v)),
            Err(_) => None,
        },
        Err(_) => None,
    }
}

pub open spec fn keys_have_len(keys: Seq<Seq<u8>>, key_len: u32) -> bool {
    forall|i: int| 0 <= i < keys.len() ==> (#[trigger] keys[i]).len() == key_len
}

/// A leaf that belongs to a tree of this shape.
pub open spec fn leaf_fits(t: TreeShape, v: LeafView) -> bool {
    &&& proper(v)
    &&& v.max_size == t.leaf_max
    &&& v.capacity == t.capacity()
    &&& v.keys.len() <= t.leaf_max
    &&& v.tombstones.len() <= v.capacity
    &&& keys_have_len(v.keys, t.key_len)
}

/// An internal node that belongs to a tree of this shape.
pub open spec fn internal_fits(t: TreeShape, v: InternalView) -> bool {
    &&& v.children.len() == v.keys.len() + 1
    &&& v.size == v.keys.len()
    &&& v.max_size == t.internal_max
    &&& v.keys.len() <= t.internal_max
    &&& strictly_sorted(v.keys)
    &&& keys_have_len(v.keys, t.key_len)
}

/// `k` does not come before `lo`.
pub open spec fn ge_lo(lo: Option<Seq<u8>>, k: Seq<u8>) -> bool {
    lo matches Some(b) ==> key_le(b, k)
}

/// `k` comes after `lo`.
pub open spec fn gt_lo(lo: Option<Seq<u8>>, k: Seq<u8>) -> bool {
    lo matches Some(b) ==> key_lt(b, k)
}

/// `k` comes before `hi`.
pub open spec fn lt_hi(hi: Option<Seq<u8>>, k: Seq<u8>) -> bool {
    hi matches Some(b) ==> key_lt(k, b)
}

pub open spec fn in_span(lo: Option<Seq<u8>>, hi: Option<Seq<u8>>, k: Seq<u8>) -> bool {
    ge_lo(lo, k) && lt_hi(hi, k)
}

/// Where the keys of child `j` start.
pub open spec fn child_lo(keys: Seq<Seq<u8>>, lo: Option<Seq<u8>>, j: int) -> Option<Seq<u8>> {
    if j <= 0 {
        lo
    } else {
        Some(keys[j - 1])
    }
}

/// Where the keys of child `j` end.
pub open spec fn child_hi(keys: Seq<Seq<u8>>, hi: Option<Seq<u8>>, j: int) -> Option<Seq<u8>> {
    if j >= keys.len() {
        hi
    } else {
        Some(keys[j])
    }
}

pub type Pages = Map<usize, Seq<u8>>;

/// `pid` is the top of a tree of height `h` whose keys lie from `lo` up to `hi`. Its nodes are
/// at least half full; with `loose`, the top one need not be.
pub open spec fn subtree(
    pages: Pages,
    t: TreeShape,
    pid: usize,
    h: nat,
    lo: Option<Seq<u8>>,
    hi: Option<Seq<u8>>,
    loose: bool,
) -> bool
    decreases h, 0nat,
{
    &&& pages.contains_key(pid)
    &&& pid != INVALID_PAGE_ID
    &&& match node_of(pages[pid], t.key_len) {
        Some(NodeView::Leaf(v)) => {
            &&& h == 0
            &&& leaf_fits(t, v)
            &&& loose || v.keys.len() >= t.leaf_max / 2
            &&& forall|i: int| 0 <= i < v.keys.len() ==> in_span(lo, hi, #[trigger] v.keys[i])
        },
        Some(NodeView::Internal(v)) => {
            &&& h > 0
            &&& internal_fits(t, v)
            &&& loose || v.keys.len() >= t.internal_max / 2
            &&& forest(pages, t, v.children, v.keys, (h - 1) as nat, lo, hi)
            &&& !forest_owns(pages, t, v.children, (h - 1) as nat, pid)
        },
        None => false,
    }
}

/// The children are trees of height `h` that share no page, and the keys part them.
pub open spec fn forest(
    pages: Pages,
    t: TreeShape,
    children: Seq<usize>,
    keys: Seq<Seq<u8>>,
    h: nat,
    lo: Option<Seq<u8>>,
    hi: Option<Seq<u8>>,
) -> bool
    decreases h, 1nat,
{
    &&& children.len() == keys.len() + 1
    &&& strictly_sorted(keys)
    &&& forall|i: int| 0 <= i < keys.len() ==> gt_lo(lo, #[trigger] keys[i]) && lt_hi(hi, keys[i])
    &&& forall|j: int|
        #![trigger children[j]]
        0 <= j < children.len() ==> subtree(
            pages,
            t,
            children[j],
            h,
            child_lo(keys, lo, j),
            child_hi(keys, hi, j),
            false,
        )
    &&& forall|i: int, j: int, p: usize|
        0 <= i < j < children.len() && #[trigger] owns(pages, t, children[i], h, p)
            ==> !#[trigger] owns(pages, t, children[j], h, p)
}

/// Page `p` belongs to the tree below `pid`.
pub open spec fn owns(pages: Pages, t: TreeShape, pid: usize, h: nat, p: usize) -> bool
    decreases h, 0nat,
{
    p == pid || match node_of(pages[pid], t.key_len) {
        Some(NodeView::Internal(v)) => h > 0 && forest_owns(
            pages,
            t,
            v.children,
            (h - 1) as nat,
            p,
        ),
        _ => false,
    }
}

pub open spec fn forest_owns(
    pages: Pages,
    t: TreeShape,
    children: Seq<usize>,
    h: nat,
    p: usize,
) -> bool
    decreases h, 1nat,
{
    exists|j: int|
        #![trigger children[j]]
        0 <= j < children.len() && owns(pages, t, children[j], h, p)
}

/// The record id that the tree holds for a key.
pub open spec fn lookup(pages: Pages, t: TreeShape, pid: usize, h: nat, k: Seq<u8>) -> Option<
    RecordId,
>
    decreases h, 0nat,
{
    match node_of(pages[pid], t.key_len) {
        Some(NodeView::Leaf(v)) => leaf_lookup(v, k),
        Some(NodeView::Internal(v)) => if h > 0 {
            forest_lookup(pages, t, v.children, v.keys, (h - 1) as nat, k)
        } else {
            None
        },
        None => None,
    }
}

pub open spec fn forest_lookup(
    pages: Pages,
    t: TreeShape,
    children: Seq<usize>,
    keys: Seq<Seq<u8>>,
    h: nat,
    k: Seq<u8>,
) -> Option<RecordId>
    decreases h, 1nat,
{
    lookup(pages, t, children[child_index(keys, k)], h, k)
}

/// The leaf that a key leads to.
pub open spec fn home_leaf(pages: Pages, t: TreeShape, pid: usize, h: nat, k: Seq<u8>) -> usize
    decreases h,
{
    match node_of(pages[pid], t.key_len) {
        Some(NodeView::Internal(v)) => if h > 0 {
            home_leaf(pages, t, v.children[child_index(v.keys, k)], (h - 1) as nat, k)
        } else {
            pid
        },
        _ => pid,
    }
}

/// Of all pages only the leaf on page `home` changed: it is `w` now.
pub open spec fn leaf_rewritten(
    p0: Pages,
    p1: Pages,
    t: TreeShape,
    home: usize,
    w: LeafView,
) -> bool {
    &&& p1 == p0.insert(home, p1[home])
    &&& node_of(p1[home], t.key_len) == Some(NodeView::Leaf(w))
}

/// A leaf without entries.
pub open spec fn empty_leaf(t: TreeShape) -> LeafView {
    LeafView {
        keys: seq![],
        record_ids: seq![],
        next_leaf_id: INVALID_PAGE_ID,
        tombstones: seq![],
        capacity: t.capacity(),
        size: 0,
        max_size: t.leaf_max,
    }
}

/// A key was entered into the leaf on page `home`. Where the leaf has room for it, nothing else
/// changed. Else the leaf was split, and its right part is on page `right`.
pub open spec fn entered_at(
    p0: Pages,
    p1: Pages,
    t: TreeShape,
    home: usize,
    key: Seq<u8>,
    rid: RecordId,
    right: usize,
    is_split: bool,
) -> bool {
    &&& p0.contains_key(home)
    &&& node_of(p0[home], t.key_len) matches Some(NodeView::Leaf(v)) && leaf_inserted(v, key, rid)
        matches Some(w) && if w.keys.len() <= t.leaf_max {
        !is_split && leaf_rewritten(p0, p1, t, home, w)
    } else {
        &&& node_of(p1[home], t.key_len) == Some(NodeView::Leaf(leaf_split_left(w, right)))
        &&& node_of(p1[right], t.key_len) == Some(
            NodeView::Leaf(leaf_split_right(w, empty_leaf(t))),
        )
        &&& p1.contains_key(right)
    }
}

/// A key was deleted from the leaf on page `home`. Where the leaf is still at least half full, or
/// is all of the tree, nothing else changed.
pub open spec fn deleted_at(
    p0: Pages,
    p1: Pages,
    t: TreeShape,
    home: usize,
    key: Seq<u8>,
    alone: bool,
) -> bool {
    node_of(p0[home], t.key_len) matches Some(NodeView::Leaf(v)) && leaf_removed(v, key) matches
        Some(w) && (w.keys.len() >= t.leaf_max / 2 || alone ==> leaf_rewritten(p0, p1, t, home, w))
}

/// The leftmost leaf.
pub open spec fn first_leaf(pages: Pages, t: TreeShape, pid: usize, h: nat) -> usize
    decreases h,
{
    if h == 0 {
        pid
    } else {
        match node_of(pages[pid], t.key_len) {
            Some(NodeView::Internal(v)) => first_leaf(pages, t, v.children[0], (h - 1) as nat),
            _ => pid,
        }
    }
}

/// Every leaf points to its right neighbour, and the last one to `next`.
pub open spec fn linked(pages: Pages, t: TreeShape, pid: usize, h: nat, next: usize) -> bool
    decreases h, 0nat,
{
    match node_of(pages[pid], t.key_len) {
        Some(NodeView::Leaf(v)) => v.next_leaf_id == next,
        Some(NodeView::Internal(v)) => h > 0 && forest_linked(
            pages,
            t,
            v.children,
            (h - 1) as nat,
            next,
        ),
        None => false,
    }
}

/// The leaf that follows child `j`.
pub open spec fn leaf_after(
    pages: Pages,
    t: TreeShape,
    children: Seq<usize>,
    h: nat,
    next: usize,
    j: int,
) -> usize {
    if j + 1 < children.len() {
        first_leaf(pages, t, children[j + 1], h)
    } else {
        next
    }
}

pub open spec fn forest_linked(
    pages: Pages,
    t: TreeShape,
    children: Seq<usize>,
    h: nat,
    next: usize,
) -> bool
    decreases h, 1nat,
{
    forall|j: int|
        #![trigger leaf_after(pages, t, children, h, next, j)]
        0 <= j < children.len() ==> linked(
            pages,
            t,
            children[j],
            h,
            leaf_after(pages, t, children, h, next, j),
        )
}

/// Pages that belong to a tree exist.
pub proof fn lemma_owned_exists(
    pages: Pages,
    t: TreeShape,
    pid: usize,
    h: nat,
    lo: Option<Seq<u8>>,
    hi: Option<Seq<u8>>,
    loose: bool,
)
    requires
        subtree(pages, t, pid, h, lo, hi, loose),
    ensures
        forall|p: usize| #[trigger]
            owns(pages, t, pid, h, p) ==> pages.contains_key(p) && p != INVALID_PAGE_ID,
    decreases h,
{
    assert forall|p: usize| #[trigger] owns(pages, t, pid, h, p) implies pages.contains_key(p) && p
        != INVALID_PAGE_ID by {
        if p != pid {
            match node_of(pages[pid], t.key_len) {
                Some(NodeView::Internal(v)) => {
                    let j = choose|j: int|
                        #![trigger v.children[j]]
                        0 <= j < v.children.len() && owns(
                            pages,
                            t,
                            v.children[j],
                            (h - 1) as nat,
                            p,
                        );
                    lemma_owned_exists(
                        pages,
                        t,
                        v.children[j],
                        (h - 1) as nat,
                        child_lo(v.keys, lo, j),
                        child_hi(v.keys, hi, j),
                        false,
                    );
                },
                _ => {},
            }
        }
    }
}

/// What a tree is depends on its own pages alone.
pub proof fn lemma_frame(
    a: Pages,
    b: Pages,
    t: TreeShape,
    pid: usize,
    h: nat,
    lo: Option<Seq<u8>>,
    hi: Option<Seq<u8>>,
    loose: bool,
)
    requires
        subtree(a, t, pid, h, lo, hi, loose),
        forall|p: usize| #[trigger] owns(a, t, pid, h, p) ==> b.contains_key(p) && b[p] == a[p],
    ensures
        subtree(b, t, pid, h, lo, hi, loose),
        forall|p: usize| #[trigger] owns(b, t, pid, h, p) == owns(a, t, pid, h, p),
        forall|k: Seq<u8>| #[trigger] lookup(b, t, pid, h, k) == lookup(a, t, pid, h, k),
        first_leaf(b, t, pid, h) == first_leaf(a, t, pid, h),
        forall|next: usize| #[trigger]
            linked(a, t, pid, h, next) ==> linked(b, t, pid, h, next),
    decreases h,
{
    assert(owns(a, t, pid, h, pid));
    assert(b[pid] == a[pid]);
    match node_of(a[pid], t.key_len) {
        Some(NodeView::Leaf(v)) => {},
        Some(NodeView::Internal(v)) => {
            let g = (h - 1) as nat;
            assert forall|j: int|
                #![trigger v.children[j]]
                0 <= j < v.children.len() implies subtree(
                b,
                t,
                v.children[j],
                g,
                child_lo(v.keys, lo, j),
                child_hi(v.keys, hi, j),
                false,
            ) && (forall|p: usize| #[trigger]
                owns(b, t, v.children[j], g, p) == owns(a, t, v.children[j], g, p)) && (forall|
                k: Seq<u8>,
            | #[trigger]
                lookup(b, t, v.children[j], g, k) == lookup(a, t, v.children[j], g, k))
                && first_leaf(b, t, v.children[j], g) == first_leaf(a, t, v.children[j], g) && (
            forall|next: usize| #[trigger]
                linked(a, t, v.children[j], g, next) ==> linked(b, t, v.children[j], g, next)) by {
                assert forall|p: usize| #[trigger]
                    owns(a, t, v.children[j], g, p) implies b.contains_key(p) && b[p] == a[p] by {
                    assert(forest_owns(a, t, v.children, g, p));
                    assert(owns(a, t, pid, h, p));
                }
                lemma_frame(
                    a,
                    b,
                    t,
                    v.children[j],
                    g,
                    child_lo(v.keys, lo, j),
                    child_hi(v.keys, hi, j),
                    false,
                );
            }
            assert forall|p: usize| #[trigger]
                forest_owns(b, t, v.children, g, p) == forest_owns(a, t, v.children, g, p) by {
                if forest_owns(b, t, v.children, g, p) {
                    let j = choose|j: int|
                        #![trigger v.children[j]]
                        0 <= j < v.children.len() && owns(b, t, v.children[j], g, p);
                    assert(owns(a, t, v.children[j], g, p));
                }
                if forest_owns(a, t, v.children, g, p) {
                    let j = choose|j: int|
                        #![trigger v.children[j]]
                        0 <= j < v.children.len() && owns(a, t, v.children[j], g, p);
                    assert(owns(b, t, v.children[j], g, p));
                }
            }
            assert forall|p: usize| #[trigger] owns(b, t, pid, h, p) == owns(a, t, pid, h, p) by {
                assert(forest_owns(b, t, v.children, g, p) == forest_owns(
                    a,
                    t,
                    v.children,
                    g,
                    p,
                ));
            }
            assert(forest(b, t, v.children, v.keys, g, lo, hi)) by {
                assert forall|i: int, j: int, p: usize|
                    0 <= i < j < v.children.len() && #[trigger] owns(
                        b,
                        t,
                        v.children[i],
                        g,
                        p,
                    ) implies !#[trigger] owns(b, t, v.children[j], g, p) by {
                    assert(owns(a, t, v.children[i], g, p));
                    assert(!owns(a, t, v.children[j], g, p));
                }
            }
            assert forall|k: Seq<u8>| #[trigger] lookup(b, t, pid, h, k) == lookup(
                a,
                t,
                pid,
                h,
                k,
            ) by {
                lemma_index_in_range(v.keys, k);
                let j = child_index(v.keys, k);
                assert(lookup(b, t, v.children[j], g, k) == lookup(a, t, v.children[j], g, k));
            }
            assert forall|next: usize| #[trigger] linked(a, t, pid, h, next) implies linked(
                b,
                t,
                pid,
                h,
                next,
            ) by {
                assert forall|j: int|
                    #![trigger leaf_after(b, t, v.children, g, next, j)]
                    0 <= j < v.children.len() implies linked(
                    b,
                    t,
                    v.children[j],
                    g,
                    leaf_after(b, t, v.children, g, next, j),
                ) by {
                    if j + 1 < v.children.len() {
                        assert(first_leaf(b, t, v.children[j + 1], g) == first_leaf(
                            a,
                            t,
                            v.children[j + 1],
                            g,
                        ));
                    }
                    assert(linked(
                        a,
                        t,
                        v.children[j],
                        g,
                        leaf_after(a, t, v.children, g, next, j),
                    ));
                }
            }
        },
        None => {},
    }
}

/// Every key leads to a child.
pub proof fn lemma_index_in_range(keys: Seq<Seq<u8>>, k: Seq<u8>)
    requires
        strictly_sorted(keys),
    ensures
        0 <= child_index(keys, k) <= keys.len(),
        is_upper_bound(keys, k, child_index(keys, k)),
{
    let n = lemma_upper_bound_of(keys, k);
    lemma_child_index(keys, k, n);
}

proof fn lemma_upper_bound_of(keys: Seq<Seq<u8>>, key: Seq<u8>) -> (n: int)
    requires
        strictly_sorted(keys),
    ensures
        is_upper_bound(keys, key, n),
    decreases keys.len(),
{
    lemma_key_order();
    if keys.len() == 0 {
        0
    } else {
        let s = keys.drop_last();
        assert(strictly_sorted(s)) by {
            assert forall|i: int, j: int| 0 <= i < j < s.len() implies key_lt(
                #[trigger] s[i],
                #[trigger] s[j],
            ) by {
                assert(key_lt(keys[i], keys[j]));
            }
        }
        if key_le(keys.last(), key) {
            assert forall|i: int| 0 <= i < keys.len() implies key_le(#[trigger] keys[i], key) by {
                if i < keys.len() - 1 {
                    assert(key_lt(keys[i], keys[keys.len() - 1]));
                }
            }
            keys.len() as int
        } else {
            let n = lemma_upper_bound_of(s, key);
            assert forall|i: int| 0 <= i < n implies key_le(#[trigger] keys[i], key) by {
                assert(s[i] == keys[i]);
            }
            assert forall|i: int| n <= i < keys.len() implies key_lt(key, #[trigger] keys[i]) by {
                if i < s.len() {
                    assert(s[i] == keys[i]);
                }
            }
            n
        }
    }
}

/// A key leads to the child in whose span it lies.
pub proof fn lemma_index_by_span(
    keys: Seq<Seq<u8>>,
    lo: Option<Seq<u8>>,
    hi: Option<Seq<u8>>,
    k: Seq<u8>,
    j: int,
)
    requires
        strictly_sorted(keys),
        0 <= j <= keys.len(),
        in_span(child_lo(keys, lo, j), child_hi(keys, hi, j), k),
    ensures
        child_index(keys, k) == j,
{
    lemma_key_order();
    assert(is_upper_bound(keys, k, j)) by {
        assert forall|i: int| 0 <= i < j implies key_le(#[trigger] keys[i], k) by {
            if i < j - 1 {
                assert(key_lt(keys[i], keys[j - 1]));
            }
        }
        assert forall|i: int| j <= i < keys.len() implies key_lt(k, #[trigger] keys[i]) by {
            if i > j {
                assert(key_lt(keys[j], keys[i]));
            }
        }
    }
    lemma_child_index(keys, k, j);
}

/// The span of the child that a key leads to holds the key.
pub proof fn lemma_span_of_index(
    keys: Seq<Seq<u8>>,
    lo: Option<Seq<u8>>,
    hi: Option<Seq<u8>>,
    k: Seq<u8>,
)
    requires
        strictly_sorted(keys),
        in_span(lo, hi, k),
    ensures
        ({
            let j = child_index(keys, k);
            &&& 0 <= j <= keys.len()
            &&& in_span(child_lo(keys, lo, j), child_hi(keys, hi, j), k)
        }),
{
    lemma_index_in_range(keys, k);
    let j = child_index(keys, k);
    if j > 0 {
        assert(key_le(keys[j - 1], k));
    }
    if j < keys.len() {
        assert(key_lt(k, keys[j]));
    }
}

/// Page `p` belongs to one of the children from `a` to `b`.
pub open spec fn range_owns(
    pages: Pages,
    t: TreeShape,
    children: Seq<usize>,
    h: nat,
    a: int,
    b: int,
    p: usize,
) -> bool {
    exists|j: int|
        #![trigger children[j]]
        a <= j <= b && 0 <= j < children.len() && owns(pages, t, children[j], h, p)
}

/// `children` with those from `a` to `b` replaced.
pub open spec fn children_spliced(children: Seq<usize>, a: int, b: int, mid: Seq<usize>) -> Seq<
    usize,
> {
    children.subrange(0, a) + mid + children.subrange(b + 1, children.len() as int)
}

/// The keys that part the children after those from `a` to `b` were replaced.
pub open spec fn keys_spliced(keys: Seq<Seq<u8>>, a: int, b: int, mid: Seq<Seq<u8>>) -> Seq<
    Seq<u8>,
> {
    keys.subrange(0, a) + mid + keys.subrange(b, keys.len() as int)
}

/// Some children of a node were exchanged for others that cover the same keys, and everything
/// else in the node is as it was.
pub open spec fn exchanged(
    p0: Pages,
    p1: Pages,
    t: TreeShape,
    children: Seq<usize>,
    keys: Seq<Seq<u8>>,
    h: nat,
    lo: Option<Seq<u8>>,
    hi: Option<Seq<u8>>,
    a: int,
    b: int,
    mc: Seq<usize>,
    mk: Seq<Seq<u8>>,
) -> bool {
    &&& 0 <= a <= b < children.len()
    &&& forest(p0, t, children, keys, h, lo, hi)
    &&& forest(p1, t, mc, mk, h, child_lo(keys, lo, a), child_hi(keys, hi, b))
    &&& forall|j: int, p: usize|
        0 <= j < children.len() && !(a <= j <= b) && #[trigger] owns(p0, t, children[j], h, p)
            ==> p1.contains_key(p) && p1[p] == p0[p]
    &&& forall|p: usize| #[trigger]
        forest_owns(p1, t, mc, h, p) ==> !p0.contains_key(p) || range_owns(
            p0,
            t,
            children,
            h,
            a,
            b,
            p,
        )
}

/// The children that stay are what they were.
proof fn lemma_outside(
    p0: Pages,
    p1: Pages,
    t: TreeShape,
    children: Seq<usize>,
    keys: Seq<Seq<u8>>,
    h: nat,
    lo: Option<Seq<u8>>,
    hi: Option<Seq<u8>>,
    a: int,
    b: int,
    mc: Seq<usize>,
    mk: Seq<Seq<u8>>,
)
    requires
        exchanged(p0, p1, t, children, keys, h, lo, hi, a, b, mc, mk),
    ensures
        forall|j: int|
            #![trigger children[j]]
            0 <= j < children.len() && !(a <= j <= b) ==> {
                &&& subtree(
                    p1,
                    t,
                    children[j],
                    h,
                    child_lo(keys, lo, j),
                    child_hi(keys, hi, j),
                    false,
                )
                &&& forall|p: usize| #[trigger]
                    owns(p1, t, children[j], h, p) == owns(p0, t, children[j], h, p)
                &&& forall|k: Seq<u8>| #[trigger]
                    lookup(p1, t, children[j], h, k) == lookup(p0, t, children[j], h, k)
                &&& first_leaf(p1, t, children[j], h) == first_leaf(p0, t, children[j], h)
                &&& forall|next: usize| #[trigger]
                    linked(p0, t, children[j], h, next) ==> linked(p1, t, children[j], h, next)
            },
        forall|j: int, p: usize|
            0 <= j < children.len() && !(a <= j <= b) && #[trigger] owns(p0, t, children[j], h, p)
                ==> !forest_owns(p1, t, mc, h, p),
{
    assert forall|j: int|
        #![trigger children[j]]
        0 <= j < children.len() && !(a <= j <= b) implies {
        &&& subtree(p1, t, children[j], h, child_lo(keys, lo, j), child_hi(keys, hi, j), false)
        &&& forall|p: usize| #[trigger]
            owns(p1, t, children[j], h, p) == owns(p0, t, children[j], h, p)
        &&& forall|k: Seq<u8>| #[trigger]
            lookup(p1, t, children[j], h, k) == lookup(p0, t, children[j], h, k)
        &&& first_leaf(p1, t, children[j], h) == first_leaf(p0, t, children[j], h)
        &&& forall|next: usize| #[trigger]
            linked(p0, t, children[j], h, next) ==> linked(p1, t, children[j], h, next)
    } by {
        lemma_frame(
            p0,
            p1,
            t,
            children[j],
            h,
            child_lo(keys, lo, j),
            child_hi(keys, hi, j),
            false,
        );
    }
    assert forall|j: int, p: usize|
        0 <= j < children.len() && !(a <= j <= b) && #[trigger] owns(
            p0,
            t,
            children[j],
            h,
            p,
        ) implies !forest_owns(p1, t, mc, h, p) by {
        lemma_owned_exists(
            p0,
            t,
            children[j],
            h,
            child_lo(keys, lo, j),
            child_hi(keys, hi, j),
            false,
        );
        if forest_owns(p1, t, mc, h, p) {
            assert(range_owns(p0, t, children, h, a, b, p));
            let i = choose|i: int|
                #![trigger children[i]]
                a <= i <= b && 0 <= i < children.len() && owns(p0, t, children[i], h, p);
            if i < j {
                assert(!owns(p0, t, children[j], h, p));
            } else {
                assert(!owns(p0, t, children[i], h, p));
            }
        }
    }
}

/// Where child `j` of the exchanged node comes from.
proof fn lemma_splice_index(
    children: Seq<usize>,
    keys: Seq<Seq<u8>>,
    lo: Option<Seq<u8>>,
    hi: Option<Seq<u8>>,
    a: int,
    b: int,
    mc: Seq<usize>,
    mk: Seq<Seq<u8>>,
    j: int,
)
    requires
        children.len() == keys.len() + 1,
        mc.len() == mk.len() + 1,
        0 <= a <= b < children.len(),
        0 <= j < children_spliced(children, a, b, mc).len(),
    ensures
        ({
            let cs = children_spliced(children, a, b, mc);
            let ks = keys_spliced(keys, a, b, mk);
            let m = mc.len() as int;
            let o = if j < a { j } else { j - m + (b - a + 1) };
            &&& cs.len() == ks.len() + 1
            &&& if a <= j < a + m {
                &&& cs[j] == mc[j - a]
                &&& child_lo(ks, lo, j) == child_lo(mk, child_lo(keys, lo, a), j - a)
                &&& child_hi(ks, hi, j) == child_hi(mk, child_hi(keys, hi, b), j - a)
            } else {
                &&& 0 <= o < children.len()
                &&& !(a <= o <= b)
                &&& cs[j] == children[o]
                &&& child_lo(ks, lo, j) == child_lo(keys, lo, o)
                &&& child_hi(ks, hi, j) == child_hi(keys, hi, o)
            }
        }),
{
}

/// Exchanging children gives a node in order again, whose pages are those it had and new ones.
pub proof fn lemma_exchange(
    p0: Pages,
    p1: Pages,
    t: TreeShape,
    children: Seq<usize>,
    keys: Seq<Seq<u8>>,
    h: nat,
    lo: Option<Seq<u8>>,
    hi: Option<Seq<u8>>,
    a: int,
    b: int,
    mc: Seq<usize>,
    mk: Seq<Seq<u8>>,
)
    requires
        exchanged(p0, p1, t, children, keys, h, lo, hi, a, b, mc, mk),
    ensures
        forest(
            p1,
            t,
            children_spliced(children, a, b, mc),
            keys_spliced(keys, a, b, mk),
            h,
            lo,
            hi,
        ),
        forall|p: usize| #[trigger]
            forest_owns(p1, t, children_spliced(children, a, b, mc), h, p) ==> forest_owns(
                p0,
                t,
                children,
                h,
                p,
            ) || !p0.contains_key(p),
{
    let cs = children_spliced(children, a, b, mc);
    let ks = keys_spliced(keys, a, b, mk);
    let m = mc.len() as int;
    lemma_key_order();
    lemma_outside(p0, p1, t, children, keys, h, lo, hi, a, b, mc, mk);
    lemma_keys_spliced(keys, lo, hi, a, b, mk);
    assert forall|j: int|
        #![trigger cs[j]]
        0 <= j < cs.len() implies subtree(
        p1,
        t,
        cs[j],
        h,
        child_lo(ks, lo, j),
        child_hi(ks, hi, j),
        false,
    ) by {
        lemma_splice_index(children, keys, lo, hi, a, b, mc, mk, j);
        if a <= j < a + m {
            assert(subtree(
                p1,
                t,
                mc[j - a],
                h,
                child_lo(mk, child_lo(keys, lo, a), j - a),
                child_hi(mk, child_hi(keys, hi, b), j - a),
                false,
            ));
        } else {
            let o = if j < a { j } else { j - m + (b - a + 1) };
            assert(cs[j] == children[o]);
        }
    }
    assert forall|i: int, j: int, p: usize|
        0 <= i < j < cs.len() && #[trigger] owns(p1, t, cs[i], h, p) implies !#[trigger] owns(
        p1,
        t,
        cs[j],
        h,
        p,
    ) by {
        lemma_splice_index(children, keys, lo, hi, a, b, mc, mk, i);
        lemma_splice_index(children, keys, lo, hi, a, b, mc, mk, j);
        let oi = if i < a { i } else { i - m + (b - a + 1) };
        let oj = if j < a { j } else { j - m + (b - a + 1) };
        let mid_i = a <= i < a + m;
        let mid_j = a <= j < a + m;
        if mid_i && mid_j {
            assert(owns(p1, t, mc[i - a], h, p));
            assert(!owns(p1, t, mc[j - a], h, p));
        } else if !mid_i && !mid_j {
            assert(owns(p0, t, children[oi], h, p));
            assert(!owns(p0, t, children[oj], h, p));
            assert(owns(p1, t, children[oj], h, p) == owns(p0, t, children[oj], h, p));
        } else if mid_i {
            assert(cs[i] == mc[i - a]);
            assert(forest_owns(p1, t, mc, h, p));
            if owns(p1, t, cs[j], h, p) {
                assert(owns(p0, t, children[oj], h, p));
            }
        } else {
            assert(owns(p0, t, children[oi], h, p));
            if owns(p1, t, cs[j], h, p) {
                assert(cs[j] == mc[j - a]);
                assert(forest_owns(p1, t, mc, h, p));
            }
        }
    }
    assert forall|p: usize| #[trigger] forest_owns(p1, t, cs, h, p) implies forest_owns(
        p0,
        t,
        children,
        h,
        p,
    ) || !p0.contains_key(p) by {
        let j = choose|j: int|
            #![trigger cs[j]]
            0 <= j < cs.len() && owns(p1, t, cs[j], h, p);
        lemma_splice_index(children, keys, lo, hi, a, b, mc, mk, j);
        if a <= j < a + m {
            assert(cs[j] == mc[j - a]);
            assert(forest_owns(p1, t, mc, h, p));
            if p0.contains_key(p) {
                let i = choose|i: int|
                    #![trigger children[i]]
                    a <= i <= b && 0 <= i < children.len() && owns(p0, t, children[i], h, p);
                assert(owns(p0, t, children[i], h, p));
            }
        } else {
            let o = if j < a { j } else { j - m + (b - a + 1) };
            assert(owns(p0, t, children[o], h, p));
        }
    }
}

/// The keys of an exchanged node are sorted and in its span.
proof fn lemma_keys_spliced(
    keys: Seq<Seq<u8>>,
    lo: Option<Seq<u8>>,
    hi: Option<Seq<u8>>,
    a: int,
    b: int,
    mk: Seq<Seq<u8>>,
)
    requires
        0 <= a <= b <= keys.len(),
        strictly_sorted(keys),
        strictly_sorted(mk),
        forall|i: int|
            0 <= i < keys.len() ==> gt_lo(lo, #[trigger] keys[i]) && lt_hi(hi, keys[i]),
        forall|i: int|
            0 <= i < mk.len() ==> gt_lo(child_lo(keys, lo, a), #[trigger] mk[i]) && lt_hi(
                child_hi(keys, hi, b),
                mk[i],
            ),
    ensures
        ({
            let ks = keys_spliced(keys, a, b, mk);
            &&& strictly_sorted(ks)
            &&& forall|i: int|
                0 <= i < ks.len() ==> gt_lo(lo, #[trigger] ks[i]) && lt_hi(hi, ks[i])
        }),
{
    let ks = keys_spliced(keys, a, b, mk);
    let m = mk.len() as int;
    lemma_key_order();
    assert forall|i: int| 0 <= i < ks.len() implies gt_lo(lo, #[trigger] ks[i]) && lt_hi(
        hi,
        ks[i],
    ) by {
        if i < a {
            assert(ks[i] == keys[i]);
        } else if i < a + m {
            assert(ks[i] == mk[i - a]);
            assert(gt_lo(child_lo(keys, lo, a), mk[i - a]));
            if a > 0 {
                assert(gt_lo(lo, keys[a - 1]));
            }
            if b < keys.len() {
                assert(lt_hi(hi, keys[b]));
            }
        } else {
            assert(ks[i] == keys[i - a - m + b]);
        }
    }
    assert forall|i: int, j: int| 0 <= i < j < ks.len() implies key_lt(
        #[trigger] ks[i],
        #[trigger] ks[j],
    ) by {
        let oi = if i < a { i } else { i - a - m + b };
        let oj = if j < a { j } else { j - a - m + b };
        let mid_i = a <= i < a + m;
        let mid_j = a <= j < a + m;
        if !mid_i && !mid_j {
            assert(key_lt(keys[oi], keys[oj]));
        } else if mid_i && mid_j {
            assert(key_lt(mk[i - a], mk[j - a]));
        } else if mid_j {
            assert(gt_lo(child_lo(keys, lo, a), mk[j - a]));
            if i < a - 1 {
                assert(key_lt(keys[i], keys[a - 1]));
            }
        } else {
            assert(lt_hi(child_hi(keys, hi, b), mk[i - a]));
            if oj > b {
                assert(key_lt(keys[b], keys[oj]));
            }
        }
    }
}

/// A key in the span of the exchanged children is looked up among the new ones, any other key
/// as before.
pub proof fn lemma_exchange_lookup(
    p0: Pages,
    p1: Pages,
    t: TreeShape,
    children: Seq<usize>,
    keys: Seq<Seq<u8>>,
    h: nat,
    lo: Option<Seq<u8>>,
    hi: Option<Seq<u8>>,
    a: int,
    b: int,
    mc: Seq<usize>,
    mk: Seq<Seq<u8>>,
    k: Seq<u8>,
)
    requires
        exchanged(p0, p1, t, children, keys, h, lo, hi, a, b, mc, mk),
        in_span(lo, hi, k),
    ensures
        forest_lookup(
            p1,
            t,
            children_spliced(children, a, b, mc),
            keys_spliced(keys, a, b, mk),
            h,
            k,
        ) == if in_span(child_lo(keys, lo, a), child_hi(keys, hi, b), k) {
            forest_lookup(p1, t, mc, mk, h, k)
        } else {
            forest_lookup(p0, t, children, keys, h, k)
        },
        in_span(child_lo(keys, lo, a), child_hi(keys, hi, b), k) ==> a <= child_index(keys, k)
            <= b,
        !in_span(child_lo(keys, lo, a), child_hi(keys, hi, b), k) ==> !(a <= child_index(keys, k)
            <= b),
{
    let cs = children_spliced(children, a, b, mc);
    let ks = keys_spliced(keys, a, b, mk);
    let m = mc.len() as int;
    lemma_key_order();
    lemma_exchange(p0, p1, t, children, keys, h, lo, hi, a, b, mc, mk);
    lemma_outside(p0, p1, t, children, keys, h, lo, hi, a, b, mc, mk);
    let i = child_index(keys, k);
    lemma_span_of_index(keys, lo, hi, k);
    let la = child_lo(keys, lo, a);
    let hb = child_hi(keys, hi, b);
    if in_span(la, hb, k) {
        if i < a {
            assert(key_lt(k, keys[i]));
            if i < a - 1 {
                assert(key_lt(keys[i], keys[a - 1]));
            }
        }
        if i > b {
            assert(key_le(keys[i - 1], k));
            if i - 1 > b {
                assert(key_lt(keys[b], keys[i - 1]));
            }
        }
        let j = child_index(mk, k);
        lemma_span_of_index(mk, la, hb, k);
        lemma_splice_index(children, keys, lo, hi, a, b, mc, mk, a + j);
        lemma_index_by_span(ks, lo, hi, k, a + j);
    } else {
        assert(!(a <= i <= b)) by {
            if a <= i <= b {
                if a > 0 && !ge_lo(la, k) {
                    assert(key_le(keys[i - 1], k));
                    if i > a {
                        assert(key_lt(keys[a - 1], keys[i - 1]));
                    }
                }
                if b < keys.len() && !lt_hi(hb, k) {
                    assert(key_lt(k, keys[i]));
                    if i < b {
                        assert(key_lt(keys[i], keys[b]));
                    }
                }
            }
        }
        let j = if i < a { i } else { i + m - (b - a + 1) };
        lemma_splice_index(children, keys, lo, hi, a, b, mc, mk, j);
        lemma_index_by_span(ks, lo, hi, k, j);
        assert(lookup(p1, t, children[i], h, k) == lookup(p0, t, children[i], h, k));
    }
}

/// The leaves of an exchanged node are linked as before.
pub proof fn lemma_exchange_linked(
    p0: Pages,
    p1: Pages,
    t: TreeShape,
    children: Seq<usize>,
    keys: Seq<Seq<u8>>,
    h: nat,
    lo: Option<Seq<u8>>,
    hi: Option<Seq<u8>>,
    a: int,
    b: int,
    mc: Seq<usize>,
    mk: Seq<Seq<u8>>,
    next: usize,
)
    requires
        exchanged(p0, p1, t, children, keys, h, lo, hi, a, b, mc, mk),
        forest_linked(p0, t, children, h, next),
        forest_linked(p1, t, mc, h, leaf_after(p0, t, children, h, next, b)),
        first_leaf(p1, t, mc[0], h) == first_leaf(p0, t, children[a], h),
    ensures
        forest_linked(p1, t, children_spliced(children, a, b, mc), h, next),
        first_leaf(p1, t, children_spliced(children, a, b, mc)[0], h) == first_leaf(
            p0,
            t,
            children[0],
            h,
        ),
{
    let cs = children_spliced(children, a, b, mc);
    lemma_outside(p0, p1, t, children, keys, h, lo, hi, a, b, mc, mk);
    assert forall|j: int|
        #![trigger leaf_after(p1, t, cs, h, next, j)]
        0 <= j < cs.len() implies linked(
        p1,
        t,
        cs[j],
        h,
        leaf_after(p1, t, cs, h, next, j),
    ) by {
        lemma_linked_at(p0, p1, t, children, h, a, b, mc, next, j);
    }
    if a > 0 {
        assert(cs[0] == children[0]);
    } else {
        assert(cs[0] == mc[0]);
    }
}

proof fn lemma_linked_at(
    p0: Pages,
    p1: Pages,
    t: TreeShape,
    children: Seq<usize>,
    h: nat,
    a: int,
    b: int,
    mc: Seq<usize>,
    next: usize,
    j: int,
)
    requires
        0 <= a <= b < children.len(),
        mc.len() > 0,
        0 <= j < children_spliced(children, a, b, mc).len(),
        forest_linked(p0, t, children, h, next),
        forest_linked(p1, t, mc, h, leaf_after(p0, t, children, h, next, b)),
        first_leaf(p1, t, mc[0], h) == first_leaf(p0, t, children[a], h),
        forall|j: int|
            #![trigger children[j]]
            0 <= j < children.len() && !(a <= j <= b) ==> {
                &&& first_leaf(p1, t, children[j], h) == first_leaf(p0, t, children[j], h)
                &&& forall|next: usize| #[trigger]
                    linked(p0, t, children[j], h, next) ==> linked(p1, t, children[j], h, next)
            },
    ensures
        linked(
            p1,
            t,
            children_spliced(children, a, b, mc)[j],
            h,
            leaf_after(p1, t, children_spliced(children, a, b, mc), h, next, j),
        ),
{
    let cs = children_spliced(children, a, b, mc);
    let m = mc.len() as int;
    if a <= j < a + m {
        let q = j - a;
        assert(cs[j] == mc[q]);
        assert(linked(
            p1,
            t,
            mc[q],
            h,
            leaf_after(p1, t, mc, h, leaf_after(p0, t, children, h, next, b), q),
        ));
        if q + 1 < m {
            assert(cs[j + 1] == mc[q + 1]);
        } else if b + 1 < children.len() {
            assert(cs[j + 1] == children[b + 1]);
        }
    } else {
        let o = if j < a { j } else { j - m + (b - a + 1) };
        assert(cs[j] == children[o]);
        assert(linked(p0, t, children[o], h, leaf_after(p0, t, children, h, next, o)));
        if o + 1 < children.len() {
            if o + 1 == a {
                assert(cs[j + 1] == mc[0]);
            } else {
                assert(cs[j + 1] == children[o + 1]);
            }
        }
        assert(leaf_after(p1, t, cs, h, next, j) == leaf_after(p0, t, children, h, next, o));
    }
}

/// The children from `a` to `b` with the keys between them.
pub proof fn lemma_part(
    pages: Pages,
    t: TreeShape,
    children: Seq<usize>,
    keys: Seq<Seq<u8>>,
    h: nat,
    lo: Option<Seq<u8>>,
    hi: Option<Seq<u8>>,
    a: int,
    b: int,
)
    requires
        forest(pages, t, children, keys, h, lo, hi),
        0 <= a <= b < children.len(),
    ensures
        ({
            let cs = children.subrange(a, b + 1);
            let ks = keys.subrange(a, b);
            let la = child_lo(keys, lo, a);
            let hb = child_hi(keys, hi, b);
            &&& forest(pages, t, cs, ks, h, la, hb)
            &&& forall|p: usize| #[trigger]
                forest_owns(pages, t, cs, h, p) <==> range_owns(pages, t, children, h, a, b, p)
            &&& forall|k: Seq<u8>|
                in_span(lo, hi, k) && in_span(la, hb, k) ==> #[trigger] forest_lookup(
                    pages,
                    t,
                    cs,
                    ks,
                    h,
                    k,
                ) == forest_lookup(pages, t, children, keys, h, k)
            &&& forall|next: usize| #[trigger]
                forest_linked(pages, t, children, h, next) ==> forest_linked(
                    pages,
                    t,
                    cs,
                    h,
                    leaf_after(pages, t, children, h, next, b),
                )
        }),
{
    let cs = children.subrange(a, b + 1);
    let ks = keys.subrange(a, b);
    let la = child_lo(keys, lo, a);
    let hb = child_hi(keys, hi, b);
    lemma_key_order();
    assert(strictly_sorted(ks)) by {
        assert forall|i: int, j: int| 0 <= i < j < ks.len() implies key_lt(
            #[trigger] ks[i],
            #[trigger] ks[j],
        ) by {
            assert(key_lt(keys[a + i], keys[a + j]));
        }
    }
    assert forall|i: int| 0 <= i < ks.len() implies gt_lo(la, #[trigger] ks[i]) && lt_hi(
        hb,
        ks[i],
    ) by {
        assert(ks[i] == keys[a + i]);
        if a > 0 {
            assert(key_lt(keys[a - 1], keys[a + i]));
        }
        if b < keys.len() {
            assert(key_lt(keys[a + i], keys[b]));
        }
    }
    assert forall|j: int|
        #![trigger cs[j]]
        0 <= j < cs.len() implies subtree(
        pages,
        t,
        cs[j],
        h,
        child_lo(ks, la, j),
        child_hi(ks, hb, j),
        false,
    ) by {
        assert(cs[j] == children[a + j]);
        assert(child_lo(ks, la, j) == child_lo(keys, lo, a + j));
        assert(child_hi(ks, hb, j) == child_hi(keys, hi, a + j));
    }
    assert forall|i: int, j: int, p: usize|
        0 <= i < j < cs.len() && #[trigger] owns(pages, t, cs[i], h, p) implies !#[trigger] owns(
        pages,
        t,
        cs[j],
        h,
        p,
    ) by {
        assert(owns(pages, t, children[a + i], h, p));
        assert(!owns(pages, t, children[a + j], h, p));
    }
    assert forall|p: usize| #[trigger] forest_owns(pages, t, cs, h, p) <==> range_owns(
        pages,
        t,
        children,
        h,
        a,
        b,
        p,
    ) by {
        if forest_owns(pages, t, cs, h, p) {
            let j = choose|j: int|
                #![trigger cs[j]]
                0 <= j < cs.len() && owns(pages, t, cs[j], h, p);
            assert(owns(pages, t, children[a + j], h, p));
        }
        if range_owns(pages, t, children, h, a, b, p) {
            let j = choose|j: int|
                #![trigger children[j]]
                a <= j <= b && 0 <= j < children.len() && owns(pages, t, children[j], h, p);
            assert(owns(pages, t, cs[j - a], h, p));
        }
    }
    assert forall|k: Seq<u8>| in_span(lo, hi, k) && in_span(la, hb, k) implies
        #[trigger] forest_lookup(pages, t, cs, ks, h, k) == forest_lookup(
        pages,
        t,
        children,
        keys,
        h,
        k,
    ) by {
        lemma_span_of_index(ks, la, hb, k);
        let j = child_index(ks, k);
        assert(child_lo(ks, la, j) == child_lo(keys, lo, a + j));
        assert(child_hi(ks, hb, j) == child_hi(keys, hi, a + j));
        lemma_index_by_span(keys, lo, hi, k, a + j);
        assert(cs[j] == children[a + j]);
    }
    assert forall|next: usize| #[trigger] forest_linked(
        pages,
        t,
        children,
        h,
        next,
    ) implies forest_linked(
        pages,
        t,
        cs,
        h,
        leaf_after(pages, t, children, h, next, b),
    ) by {
        let nb = leaf_after(pages, t, children, h, next, b);
        assert forall|j: int|
            #![trigger leaf_after(pages, t, cs, h, nb, j)]
            0 <= j < cs.len() implies linked(
            pages,
            t,
            cs[j],
            h,
            leaf_after(pages, t, cs, h, nb, j),
        ) by {
            assert(linked(
                pages,
                t,
                children[a + j],
                h,
                leaf_after(pages, t, children, h, next, a + j),
            ));
            if j + 1 < cs.len() {
                assert(cs[j + 1] == children[a + j + 1]);
            }
        }
    }
}

/// Two lists of children, parted by a key, are one list.
pub proof fn lemma_join(
    pages: Pages,
    t: TreeShape,
    ca: Seq<usize>,
    ka: Seq<Seq<u8>>,
    sep: Seq<u8>,
    cb: Seq<usize>,
    kb: Seq<Seq<u8>>,
    h: nat,
    lo: Option<Seq<u8>>,
    hi: Option<Seq<u8>>,
)
    requires
        forest(pages, t, ca, ka, h, lo, Some(sep)),
        forest(pages, t, cb, kb, h, Some(sep), hi),
        gt_lo(lo, sep),
        lt_hi(hi, sep),
        forall|p: usize| #[trigger]
            forest_owns(pages, t, ca, h, p) ==> !forest_owns(pages, t, cb, h, p),
    ensures
        ({
            let cs = ca + cb;
            let ks = ka.push(sep) + kb;
            &&& forest(pages, t, cs, ks, h, lo, hi)
            &&& forall|p: usize| #[trigger]
                forest_owns(pages, t, cs, h, p) <==> forest_owns(pages, t, ca, h, p)
                    || forest_owns(pages, t, cb, h, p)
            &&& forall|k: Seq<u8>|
                in_span(lo, hi, k) ==> #[trigger] forest_lookup(pages, t, cs, ks, h, k) == if key_lt(
                    k,
                    sep,
                ) {
                    forest_lookup(pages, t, ca, ka, h, k)
                } else {
                    forest_lookup(pages, t, cb, kb, h, k)
                }
            &&& forall|next: usize|
                forest_linked(pages, t, ca, h, first_leaf(pages, t, cb[0], h))
                    && #[trigger] forest_linked(pages, t, cb, h, next) ==> forest_linked(
                    pages,
                    t,
                    cs,
                    h,
                    next,
                )
        }),
{
    let cs = ca + cb;
    let ks = ka.push(sep) + kb;
    let n = ca.len() as int;
    lemma_key_order();
    assert(strictly_sorted(ks)) by {
        assert forall|i: int, j: int| 0 <= i < j < ks.len() implies key_lt(
            #[trigger] ks[i],
            #[trigger] ks[j],
        ) by {
            if j < n - 1 {
                assert(key_lt(ka[i], ka[j]));
            } else if i >= n {
                assert(key_lt(kb[i - n], kb[j - n]));
            } else {
                if i < n - 1 {
                    assert(lt_hi(Some(sep), ka[i]));
                }
                if j >= n {
                    assert(gt_lo(Some(sep), kb[j - n]));
                }
            }
        }
    }
    assert forall|i: int| 0 <= i < ks.len() implies gt_lo(lo, #[trigger] ks[i]) && lt_hi(
        hi,
        ks[i],
    ) by {
        if i < n - 1 {
            assert(gt_lo(lo, ka[i]) && lt_hi(Some(sep), ka[i]));
        } else if i >= n {
            assert(gt_lo(Some(sep), kb[i - n]) && lt_hi(hi, kb[i - n]));
        }
    }
    assert forall|j: int|
        #![trigger cs[j]]
        0 <= j < cs.len() implies subtree(
        pages,
        t,
        cs[j],
        h,
        child_lo(ks, lo, j),
        child_hi(ks, hi, j),
        false,
    ) by {
        if j < n {
            assert(cs[j] == ca[j]);
            assert(child_lo(ks, lo, j) == child_lo(ka, lo, j));
            assert(child_hi(ks, hi, j) == child_hi(ka, Some(sep), j));
        } else {
            assert(cs[j] == cb[j - n]);
            assert(child_lo(ks, lo, j) == child_lo(kb, Some(sep), j - n));
            assert(child_hi(ks, hi, j) == child_hi(kb, hi, j - n));
        }
    }
    assert forall|i: int, j: int, p: usize|
        0 <= i < j < cs.len() && #[trigger] owns(pages, t, cs[i], h, p) implies !#[trigger] owns(
        pages,
        t,
        cs[j],
        h,
        p,
    ) by {
        if j < n {
            assert(owns(pages, t, ca[i], h, p));
            assert(!owns(pages, t, ca[j], h, p));
        } else if i >= n {
            assert(owns(pages, t, cb[i - n], h, p));
            assert(!owns(pages, t, cb[j - n], h, p));
        } else {
            assert(cs[i] == ca[i]);
            assert(forest_owns(pages, t, ca, h, p));
            if owns(pages, t, cs[j], h, p) {
                assert(cs[j] == cb[j - n]);
                assert(forest_owns(pages, t, cb, h, p));
            }
        }
    }
    assert forall|p: usize| #[trigger] forest_owns(pages, t, cs, h, p) <==> forest_owns(
        pages,
        t,
        ca,
        h,
        p,
    ) || forest_owns(pages, t, cb, h, p) by {
        if forest_owns(pages, t, cs, h, p) {
            let j = choose|j: int|
                #![trigger cs[j]]
                0 <= j < cs.len() && owns(pages, t, cs[j], h, p);
            if j < n {
                assert(ca[j] == cs[j]);
            } else {
                assert(cb[j - n] == cs[j]);
            }
        }
        if forest_owns(pages, t, ca, h, p) {
            let j = choose|j: int|
                #![trigger ca[j]]
                0 <= j < ca.len() && owns(pages, t, ca[j], h, p);
            assert(cs[j] == ca[j]);
        }
        if forest_owns(pages, t, cb, h, p) {
            let j = choose|j: int|
                #![trigger cb[j]]
                0 <= j < cb.len() && owns(pages, t, cb[j], h, p);
            assert(cs[n + j] == cb[j]);
        }
    }
    assert forall|k: Seq<u8>| in_span(lo, hi, k) implies #[trigger] forest_lookup(
        pages,
        t,
        cs,
        ks,
        h,
        k,
    ) == if key_lt(k, sep) {
        forest_lookup(pages, t, ca, ka, h, k)
    } else {
        forest_lookup(pages, t, cb, kb, h, k)
    } by {
        if key_lt(k, sep) {
            lemma_span_of_index(ka, lo, Some(sep), k);
            let j = child_index(ka, k);
            assert(child_lo(ks, lo, j) == child_lo(ka, lo, j));
            assert(child_hi(ks, hi, j) == child_hi(ka, Some(sep), j));
            lemma_index_by_span(ks, lo, hi, k, j);
            assert(cs[j] == ca[j]);
        } else {
            lemma_span_of_index(kb, Some(sep), hi, k);
            let j = child_index(kb, k);
            assert(child_lo(ks, lo, n + j) == child_lo(kb, Some(sep), j));
            assert(child_hi(ks, hi, n + j) == child_hi(kb, hi, j));
            lemma_index_by_span(ks, lo, hi, k, n + j);
            assert(cs[n + j] == cb[j]);
        }
    }
    assert forall|next: usize|
        forest_linked(pages, t, ca, h, first_leaf(pages, t, cb[0], h))
            && #[trigger] forest_linked(pages, t, cb, h, next) implies forest_linked(
        pages,
        t,
        cs,
        h,
        next,
    ) by {
        let na = first_leaf(pages, t, cb[0], h);
        assert forall|j: int|
            #![trigger leaf_after(pages, t, cs, h, next, j)]
            0 <= j < cs.len() implies linked(
            pages,
            t,
            cs[j],
            h,
            leaf_after(pages, t, cs, h, next, j),
        ) by {
            if j < n {
                assert(linked(pages, t, ca[j], h, leaf_after(pages, t, ca, h, na, j)));
                assert(cs[j] == ca[j]);
                if j + 1 < n {
                    assert(cs[j + 1] == ca[j + 1]);
                } else {
                    assert(cs[j + 1] == cb[0]);
                }
            } else {
                assert(linked(pages, t, cb[j - n], h, leaf_after(pages, t, cb, h, next, j - n)));
                assert(cs[j] == cb[j - n]);
                if j + 1 < cs.len() {
                    assert(cs[j + 1] == cb[j - n + 1]);
                }
            }
        }
    }
}

/// A tree has only one height.
pub proof fn lemma_one_height(
    pages: Pages,
    t: TreeShape,
    pid: usize,
    h1: nat,
    h2: nat,
    lo1: Option<Seq<u8>>,
    hi1: Option<Seq<u8>>,
    loose1: bool,
    lo2: Option<Seq<u8>>,
    hi2: Option<Seq<u8>>,
    loose2: bool,
)
    requires
        subtree(pages, t, pid, h1, lo1, hi1, loose1),
        subtree(pages, t, pid, h2, lo2, hi2, loose2),
    ensures
        h1 == h2,
    decreases h1,
{
    match node_of(pages[pid], t.key_len) {
        Some(NodeView::Internal(v)) => {
            let c = v.children[0];
            lemma_one_height(
                pages,
                t,
                c,
                (h1 - 1) as nat,
                (h2 - 1) as nat,
                child_lo(v.keys, lo1, 0),
                child_hi(v.keys, hi1, 0),
                false,
                child_lo(v.keys, lo2, 0),
                child_hi(v.keys, hi2, 0),
                false,
            );
        },
        _ => {},
    }
}

/// What a list of children is depends on their own pages alone.
pub proof fn lemma_forest_frame(
    a: Pages,
    b: Pages,
    t: TreeShape,
    children: Seq<usize>,
    keys: Seq<Seq<u8>>,
    h: nat,
    lo: Option<Seq<u8>>,
    hi: Option<Seq<u8>>,
)
    requires
        forest(a, t, children, keys, h, lo, hi),
        forall|p: usize| #[trigger]
            forest_owns(a, t, children, h, p) ==> b.contains_key(p) && b[p] == a[p],
    ensures
        forest(b, t, children, keys, h, lo, hi),
        forall|p: usize| #[trigger]
            forest_owns(b, t, children, h, p) == forest_owns(a, t, children, h, p),
        forall|k: Seq<u8>| #[trigger]
            forest_lookup(b, t, children, keys, h, k) == forest_lookup(
                a,
                t,
                children,
                keys,
                h,
                k,
            ),
        first_leaf(b, t, children[0], h) == first_leaf(a, t, children[0], h),
        forall|next: usize| #[trigger]
            forest_linked(a, t, children, h, next) ==> forest_linked(b, t, children, h, next),
{
    assert forall|j: int|
        #![trigger children[j]]
        0 <= j < children.len() implies {
        &&& subtree(b, t, children[j], h, child_lo(keys, lo, j), child_hi(keys, hi, j), false)
        &&& forall|p: usize| #[trigger]
            owns(b, t, children[j], h, p) == owns(a, t, children[j], h, p)
        &&& forall|k: Seq<u8>| #[trigger]
            lookup(b, t, children[j], h, k) == lookup(a, t, children[j], h, k)
        &&& first_leaf(b, t, children[j], h) == first_leaf(a, t, children[j], h)
        &&& forall|next: usize| #[trigger]
            linked(a, t, children[j], h, next) ==> linked(b, t, children[j], h, next)
    } by {
        assert forall|p: usize| #[trigger] owns(a, t, children[j], h, p) implies b.contains_key(p)
            && b[p] == a[p] by {
            assert(forest_owns(a, t, children, h, p));
        }
        lemma_frame(a, b, t, children[j], h, child_lo(keys, lo, j), child_hi(keys, hi, j), false);
    }
    assert forall|i: int, j: int, p: usize|
        0 <= i < j < children.len() && #[trigger] owns(b, t, children[i], h, p) implies
        !#[trigger] owns(b, t, children[j], h, p) by {
        assert(owns(a, t, children[i], h, p));
        assert(!owns(a, t, children[j], h, p));
    }
    assert forall|p: usize| #[trigger] forest_owns(b, t, children, h, p) == forest_owns(
        a,
        t,
        children,
        h,
        p,
    ) by {
        if forest_owns(b, t, children, h, p) {
            let j = choose|j: int|
                #![trigger children[j]]
                0 <= j < children.len() && owns(b, t, children[j], h, p);
            assert(owns(a, t, children[j], h, p));
        }
        if forest_owns(a, t, children, h, p) {
            let j = choose|j: int|
                #![trigger children[j]]
                0 <= j < children.len() && owns(a, t, children[j], h, p);
            assert(owns(b, t, children[j], h, p));
        }
    }
    assert forall|k: Seq<u8>| #[trigger] forest_lookup(b, t, children, keys, h, k)
        == forest_lookup(a, t, children, keys, h, k) by {
        lemma_index_in_range(keys, k);
        let j = child_index(keys, k);
        assert(lookup(b, t, children[j], h, k) == lookup(a, t, children[j], h, k));
    }
    assert forall|next: usize| #[trigger] forest_linked(
        a,
        t,
        children,
        h,
        next,
    ) implies forest_linked(b, t, children, h, next) by {
        assert forall|j: int|
            #![trigger leaf_after(b, t, children, h, next, j)]
            0 <= j < children.len() implies linked(
            b,
            t,
            children[j],
            h,
            leaf_after(b, t, children, h, next, j),
        ) by {
            if j + 1 < children.len() {
                assert(first_leaf(b, t, children[j + 1], h) == first_leaf(
                    a,
                    t,
                    children[j + 1],
                    h,
                ));
            }
            assert(linked(a, t, children[j], h, leaf_after(a, t, children, h, next, j)));
        }
    }
}

/// Pages that belong to a list of children exist.
pub proof fn lemma_forest_owned_exists(
    pages: Pages,
    t: TreeShape,
    children: Seq<usize>,
    keys: Seq<Seq<u8>>,
    h: nat,
    lo: Option<Seq<u8>>,
    hi: Option<Seq<u8>>,
)
    requires
        forest(pages, t, children, keys, h, lo, hi),
    ensures
        forall|p: usize| #[trigger]
            forest_owns(pages, t, children, h, p) ==> pages.contains_key(p) && p
                != INVALID_PAGE_ID,
{
    assert forall|p: usize| #[trigger] forest_owns(pages, t, children, h, p) implies
        pages.contains_key(p) && p != INVALID_PAGE_ID by {
        let j = choose|j: int|
            #![trigger children[j]]
            0 <= j < children.len() && owns(pages, t, children[j], h, p);
        lemma_owned_exists(
            pages,
            t,
            children[j],
            h,
            child_lo(keys, lo, j),
            child_hi(keys, hi, j),
            false,
        );
    }
}

/// A tree as a list of one child.
pub proof fn lemma_single(
    pages: Pages,
    t: TreeShape,
    c: usize,
    h: nat,
    lo: Option<Seq<u8>>,
    hi: Option<Seq<u8>>,
)
    requires
        subtree(pages, t, c, h, lo, hi, false),
    ensures
        ({
            let ks = Seq::<Seq<u8>>::empty();
            &&& forest(pages, t, seq![c], ks, h, lo, hi)
            &&& forall|p: usize| #[trigger]
                forest_owns(pages, t, seq![c], h, p) == owns(pages, t, c, h, p)
            &&& forall|k: Seq<u8>| #[trigger]
                forest_lookup(pages, t, seq![c], ks, h, k) == lookup(pages, t, c, h, k)
            &&& forall|next: usize| #[trigger]
                forest_linked(pages, t, seq![c], h, next) == linked(pages, t, c, h, next)
        }),
{
    let cs = seq![c];
    let ks = Seq::<Seq<u8>>::empty();
    assert forall|p: usize| #[trigger] forest_owns(pages, t, cs, h, p) == owns(
        pages,
        t,
        c,
        h,
        p,
    ) by {
        if owns(pages, t, c, h, p) {
            assert(owns(pages, t, cs[0], h, p));
        }
    }
    assert forall|k: Seq<u8>| #[trigger] forest_lookup(pages, t, cs, ks, h, k) == lookup(
        pages,
        t,
        c,
        h,
        k,
    ) by {
        lemma_index_in_range(ks, k);
    }
    assert forall|next: usize| #[trigger] forest_linked(pages, t, cs, h, next) == linked(
        pages,
        t,
        c,
        h,
        next,
    ) by {
        assert(leaf_after(pages, t, cs, h, next, 0) == next);
        if linked(pages, t, c, h, next) {
            assert forall|j: int|
                #![trigger leaf_after(pages, t, cs, h, next, j)]
                0 <= j < cs.len() implies linked(
                pages,
                t,
                cs[j],
                h,
                leaf_after(pages, t, cs, h, next, j),
            ) by {}
        }
    }
}

/// Two trees, parted by a key, as a list of two children.
pub proof fn lemma_pair(
    pages: Pages,
    t: TreeShape,
    c: usize,
    d: usize,
    sep: Seq<u8>,
    h: nat,
    lo: Option<Seq<u8>>,
    hi: Option<Seq<u8>>,
)
    requires
        subtree(pages, t, c, h, lo, Some(sep), false),
        subtree(pages, t, d, h, Some(sep), hi, false),
        gt_lo(lo, sep),
        lt_hi(hi, sep),
        forall|p: usize| #[trigger] owns(pages, t, c, h, p) ==> !owns(pages, t, d, h, p),
    ensures
        ({
            let cs = seq![c, d];
            let ks = seq![sep];
            &&& forest(pages, t, cs, ks, h, lo, hi)
            &&& forall|p: usize| #[trigger]
                forest_owns(pages, t, cs, h, p) <==> owns(pages, t, c, h, p) || owns(
                    pages,
                    t,
                    d,
                    h,
                    p,
                )
            &&& forall|k: Seq<u8>|
                in_span(lo, hi, k) ==> #[trigger] forest_lookup(pages, t, cs, ks, h, k) == if key_lt(
                    k,
                    sep,
                ) {
                    lookup(pages, t, c, h, k)
                } else {
                    lookup(pages, t, d, h, k)
                }
            &&& forall|next: usize|
                linked(pages, t, c, h, first_leaf(pages, t, d, h)) && #[trigger] linked(
                    pages,
                    t,
                    d,
                    h,
                    next,
                ) ==> forest_linked(pages, t, cs, h, next)
        }),
{
    let ks = Seq::<Seq<u8>>::empty();
    lemma_single(pages, t, c, h, lo, Some(sep));
    lemma_single(pages, t, d, h, Some(sep), hi);
    assert forall|p: usize| #[trigger] forest_owns(pages, t, seq![c], h, p) implies !forest_owns(
        pages,
        t,
        seq![d],
        h,
        p,
    ) by {
        assert(owns(pages, t, c, h, p));
    }
    lemma_join(pages, t, seq![c], ks, sep, seq![d], ks, h, lo, hi);
    assert(seq![c] + seq![d] =~= seq![c, d]);
    assert(ks.push(sep) + ks =~= seq![sep]);
    assert forall|next: usize|
        linked(pages, t, c, h, first_leaf(pages, t, d, h)) && #[trigger] linked(
            pages,
            t,
            d,
            h,
            next,
        ) implies forest_linked(pages, t, seq![c, d], h, next) by {
        assert(seq![d][0] == d);
        assert(forest_linked(pages, t, seq![c], h, first_leaf(pages, t, d, h)));
        assert(forest_linked(pages, t, seq![d], h, next));
    }
}

/// Pages outside of the tree below `pid` are as they were.
pub open spec fn untouched(p0: Pages, p1: Pages, t: TreeShape, pid: usize, h: nat) -> bool {
    forall|p: usize| #[trigger]
        p0.contains_key(p) && !owns(p0, t, pid, h, p) ==> p1.contains_key(p) && p1[p] == p0[p]
}

/// What the bytes of a page say as the header of a tree.
#[verifier::opaque]
pub open spec fn header_of(b: Seq<u8>) -> Option<HeaderPage> {
    match header_decoded(b) {
        Ok(hd) => Some(hd),
        Err(_) => None,
    }
}

/// The top node parts at least two children, or is a leaf.
pub open spec fn branches(pages: Pages, t: TreeShape, root: usize) -> bool {
    node_of(pages[root], t.key_len) matches Some(NodeView::Internal(v)) ==> v.keys.len() >= 1
}

/// The tree of height `h` that a header names.
pub open spec fn rooted(pages: Pages, t: TreeShape, hid: usize, hd: HeaderPage, h: nat) -> bool {
    &&& subtree(pages, t, hd.root_page_id, h, None, None, true)
    &&& linked(pages, t, hd.root_page_id, h, INVALID_PAGE_ID)
    &&& first_leaf(pages, t, hd.root_page_id, h) == hd.first_leaf_id
    &&& !owns(pages, t, hd.root_page_id, h, hid)
    &&& branches(pages, t, hd.root_page_id)
}

/// Page `hid` is the header of a tree of this shape.
pub open spec fn tree_ok(pages: Pages, t: TreeShape, hid: usize) -> bool {
    &&& t.valid()
    &&& pages.contains_key(hid)
    &&& header_of(pages[hid]) matches Some(hd) && {
        &&& hd.key_len == t.key_len
        &&& if hd.root_page_id == INVALID_PAGE_ID {
            hd.first_leaf_id == INVALID_PAGE_ID
        } else {
            exists|h: nat| rooted(pages, t, hid, hd, h)
        }
    }
}

/// The height of a tree that is not empty.
pub open spec fn tree_height(pages: Pages, t: TreeShape, hid: usize) -> nat {
    choose|h: nat| rooted(pages, t, hid, header_of(pages[hid])->0, h)
}

/// The tree holds no page but its header.
pub open spec fn tree_empty(pages: Pages, hid: usize) -> bool {
    (header_of(pages[hid])->0).root_page_id == INVALID_PAGE_ID
}

/// The record id that a tree holds for a key.
pub open spec fn tree_find(pages: Pages, t: TreeShape, hid: usize, k: Seq<u8>) -> Option<
    RecordId,
> {
    if tree_empty(pages, hid) {
        None
    } else {
        lookup(
            pages,
            t,
            (header_of(pages[hid])->0).root_page_id,
            tree_height(pages, t, hid),
            k,
        )
    }
}

/// Page `p` belongs to a tree.
pub open spec fn tree_owns(pages: Pages, t: TreeShape, hid: usize, p: usize) -> bool {
    p == hid || (!tree_empty(pages, hid) && owns(
        pages,
        t,
        (header_of(pages[hid])->0).root_page_id,
        tree_height(pages, t, hid),
        p,
    ))
}

/// The height is the one that is found.
pub proof fn lemma_tree_height(pages: Pages, t: TreeShape, hid: usize, hd: HeaderPage, h: nat)
    requires
        header_of(pages[hid]) == Some(hd),
        rooted(pages, t, hid, hd, h),
    ensures
        tree_height(pages, t, hid) == h,
{
    let g = tree_height(pages, t, hid);
    assert(rooted(pages, t, hid, hd, g));
    lemma_one_height(
        pages,
        t,
        hd.root_page_id,
        g,
        h,
        None,
        None,
        true,
        None,
        None,
        true,
    );
}

/// A tree depends on its own pages alone.
pub proof fn law_tree_frame(a: Pages, b: Pages, t: TreeShape, hid: usize)
    requires
        tree_ok(a, t, hid),
        forall|p: usize| #[trigger]
            tree_owns(a, t, hid, p) ==> b.contains_key(p) && b[p] == a[p],
    ensures
        tree_ok(b, t, hid),
        forall|k: Seq<u8>| #[trigger] tree_find(b, t, hid, k) == tree_find(a, t, hid, k),
        forall|p: usize| #[trigger] tree_owns(b, t, hid, p) == tree_owns(a, t, hid, p),
{
    assert(tree_owns(a, t, hid, hid));
    let hd = header_of(a[hid])->0;
    if hd.root_page_id != INVALID_PAGE_ID {
        let h = tree_height(a, t, hid);
        assert forall|p: usize| #[trigger] owns(a, t, hd.root_page_id, h, p) implies
            b.contains_key(p) && b[p] == a[p] by {
            assert(tree_owns(a, t, hid, p));
        }
        lemma_frame(a, b, t, hd.root_page_id, h, None, None, true);
        assert(owns(a, t, hd.root_page_id, h, hd.root_page_id));
        assert(!owns(b, t, hd.root_page_id, h, hid));
        assert(rooted(b, t, hid, hd, h));
        lemma_tree_height(b, t, hid, hd, h);
    }
}

/// Pages that belong to a tree exist.
pub proof fn law_tree_pages_exist(pages: Pages, t: TreeShape, hid: usize)
    requires
        tree_ok(pages, t, hid),
    ensures
        forall|p: usize| #[trigger] tree_owns(pages, t, hid, p) ==> pages.contains_key(p),
{
    let hd = header_of(pages[hid])->0;
    if hd.root_page_id != INVALID_PAGE_ID {
        let h = tree_height(pages, t, hid);
        lemma_owned_exists(pages, t, hd.root_page_id, h, None, None, true);
    }
}

/// A tree of height `h` has a page on each level.
proof fn lemma_levels(
    pages: Pages,
    t: TreeShape,
    pid: usize,
    h: nat,
    lo: Option<Seq<u8>>,
    hi: Option<Seq<u8>>,
    loose: bool,
) -> (levels: Set<int>)
    requires
        subtree(pages, t, pid, h, lo, hi, loose),
    ensures
        levels.finite(),
        levels.len() == h + 1,
        forall|p: int| #[trigger]
            levels.contains(p) ==> 0 <= p <= usize::MAX && owns(pages, t, pid, h, p as usize),
    decreases h,
{
    match node_of(pages[pid], t.key_len) {
        Some(NodeView::Internal(v)) => {
            let child = v.children[0];
            let below = lemma_levels(
                pages,
                t,
                child,
                (h - 1) as nat,
                child_lo(v.keys, lo, 0),
                child_hi(v.keys, hi, 0),
                false,
            );
            assert forall|p: int| #[trigger] below.contains(p) implies forest_owns(
                pages,
                t,
                v.children,
                (h - 1) as nat,
                p as usize,
            ) by {
                assert(owns(pages, t, v.children[0], (h - 1) as nat, p as usize));
            }
            assert(!below.contains(pid as int));
            below.insert(pid as int)
        },
        _ => Set::<int>::empty().insert(pid as int),
    }
}

/// A tree is not as high as there are numbers for its pages.
pub proof fn law_height(pages: Pages, t: TreeShape, hid: usize, n: int)
    requires
        tree_ok(pages, t, hid),
        !tree_empty(pages, hid),
        forall|p: usize| #[trigger] pages.contains_key(p) ==> p < n,
    ensures
        tree_height(pages, t, hid) < n,
{
    let hd = header_of(pages[hid])->0;
    let h = tree_height(pages, t, hid);
    assert(rooted(pages, t, hid, hd, h));
    lemma_owned_exists(pages, t, hd.root_page_id, h, None, None, true);
    let levels = lemma_levels(pages, t, hd.root_page_id, h, None, None, true);
    let all = vstd::set_lib::set_int_range(0, n);
    assert(pages.contains_key(hid));
    vstd::set_lib::lemma_int_range(0, n);
    assert forall|p: int| #[trigger] levels.contains(p) implies all.contains(p) by {
        assert(owns(pages, t, hd.root_page_id, h, p as usize));
        assert(pages.contains_key(p as usize));
    }
    vstd::set_lib::lemma_len_subset(levels, all);
}

} // verus!
