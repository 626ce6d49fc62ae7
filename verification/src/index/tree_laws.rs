//! What holds of every tree, whatever was stored in it and deleted from it.
use vstd::prelude::*;

use crate::catalog::index_schema::{key_le, key_lt, lemma_key_order, strictly_sorted};
use crate::index::b_plus_page::{InternalView, INVALID_PAGE_ID};
use crate::index::tree_model::{
    child_hi, child_lo, ge_lo, header_of, in_span, lt_hi, node_of, owns, rooted, subtree,
    tree_empty, tree_height, tree_ok, tree_owns, NodeView, Pages, TreeShape,
};
use crate::index::tree_scan::{
    chain, law_tree_chain, leaf_before, leaf_in_span, leaf_on, tree_leaves,
};

verus! {

/// Key `k` stands on the leaf page `q`.
pub open spec fn stands_on(pages: Pages, t: TreeShape, q: usize, k: Seq<u8>) -> bool {
    node_of(pages[q], t.key_len) matches Some(NodeView::Leaf(v)) && v.keys.contains(k)
}

/// Key `k` stands on a leaf below page `pid`, at most `h` levels down.
pub open spec fn stands_below(pages: Pages, t: TreeShape, pid: usize, h: nat, k: Seq<u8>) -> bool {
    exists|q: usize| owns(pages, t, pid, h, q) && #[trigger] stands_on(pages, t, q, k)
}

proof fn lemma_keys_in_span(
    pages: Pages,
    t: TreeShape,
    pid: usize,
    h: nat,
    lo: Option<Seq<u8>>,
    hi: Option<Seq<u8>>,
    loose: bool,
    fuel: nat,
    q: usize,
    k: Seq<u8>,
)
    requires
        subtree(pages, t, pid, h, lo, hi, loose),
        owns(pages, t, pid, fuel, q),
        stands_on(pages, t, q, k),
    ensures
        in_span(lo, hi, k),
    decreases h,
{
    match node_of(pages[pid], t.key_len) {
        Some(NodeView::Leaf(v)) => {
            let i = v.keys.index_of(k);
            assert(in_span(lo, hi, v.keys[i]));
        },
        Some(NodeView::Internal(v)) => {
            let j = choose|j: int|
                #![trigger v.children[j]]
                0 <= j < v.children.len() && owns(pages, t, v.children[j], (fuel - 1) as nat, q);
            let clo = child_lo(v.keys, lo, j);
            let chi = child_hi(v.keys, hi, j);
            assert(subtree(pages, t, v.children[j], (h - 1) as nat, clo, chi, false));
            lemma_keys_in_span(
                pages,
                t,
                v.children[j],
                (h - 1) as nat,
                clo,
                chi,
                false,
                (fuel - 1) as nat,
                q,
                k,
            );
            lemma_key_order();
            assert(ge_lo(lo, k));
            assert(lt_hi(hi, k));
        },
        None => {},
    }
}

/// Every page of a tree is the top of a smaller one.
proof fn lemma_owned_is_subtree(
    pages: Pages,
    t: TreeShape,
    pid: usize,
    h: nat,
    lo: Option<Seq<u8>>,
    hi: Option<Seq<u8>>,
    loose: bool,
    p: usize,
) -> (res: (nat, Option<Seq<u8>>, Option<Seq<u8>>, bool))
    requires
        subtree(pages, t, pid, h, lo, hi, loose),
        owns(pages, t, pid, h, p),
    ensures
        subtree(pages, t, p, res.0, res.1, res.2, res.3),
    decreases h,
{
    if p == pid {
        (h, lo, hi, loose)
    } else {
        match node_of(pages[pid], t.key_len) {
            Some(NodeView::Internal(v)) => {
                let j = choose|j: int|
                    #![trigger v.children[j]]
                    0 <= j < v.children.len() && owns(pages, t, v.children[j], (h - 1) as nat, p);
                let clo = child_lo(v.keys, lo, j);
                let chi = child_hi(v.keys, hi, j);
                assert(subtree(pages, t, v.children[j], (h - 1) as nat, clo, chi, false));
                lemma_owned_is_subtree(pages, t, v.children[j], (h - 1) as nat, clo, chi, false, p)
            },
            _ => (h, lo, hi, loose),
        }
    }
}

/// An internal node of a tree has one child more than it has separators, and its separators
/// ascend. Every key below a child comes before the separator behind it, and none comes before
/// the separator in front of it.
pub proof fn law_separators(pages: Pages, t: TreeShape, hid: usize, p: usize, v: InternalView)
    requires
        tree_ok(pages, t, hid),
        !tree_empty(pages, hid),
        tree_owns(pages, t, hid, p),
        p != hid,
        node_of(pages[p], t.key_len) == Some(NodeView::Internal(v)),
    ensures
        v.children.len() == v.keys.len() + 1,
        strictly_sorted(v.keys),
        forall|i: int, k: Seq<u8>|
            0 <= i < v.keys.len() && #[trigger] stands_below(
                pages,
                t,
                v.children[i],
                tree_height(pages, t, hid),
                k,
            ) ==> key_lt(k, v.keys[i]),
        forall|i: int, k: Seq<u8>|
            0 < i < v.children.len() && #[trigger] stands_below(
                pages,
                t,
                v.children[i],
                tree_height(pages, t, hid),
                k,
            ) ==> key_le(v.keys[i - 1], k),
{
    let hd = header_of(pages[hid])->0;
    let root = hd.root_page_id;
    let height = tree_height(pages, t, hid);
    assert(rooted(pages, t, hid, hd, height));
    let (h, lo, hi, loose) = lemma_owned_is_subtree(
        pages,
        t,
        root,
        height,
        None,
        None,
        true,
        p,
    );
    assert forall|i: int, k: Seq<u8>|
        0 <= i < v.children.len() && #[trigger] stands_below(
            pages,
            t,
            v.children[i],
            height,
            k,
        ) implies in_span(child_lo(v.keys, lo, i), child_hi(v.keys, hi, i), k) by {
        let q = choose|q: usize|
            owns(pages, t, v.children[i], height, q) && #[trigger] stands_on(pages, t, q, k);
        let clo = child_lo(v.keys, lo, i);
        let chi = child_hi(v.keys, hi, i);
        assert(subtree(pages, t, v.children[i], (h - 1) as nat, clo, chi, false));
        lemma_keys_in_span(
            pages,
            t,
            v.children[i],
            (h - 1) as nat,
            clo,
            chi,
            false,
            height,
            q,
            k,
        );
    }
}

/// The keys ascend along the leaves of a tree, from the first leaf to the last.
pub proof fn law_leaves_ascend(pages: Pages, t: TreeShape, hid: usize)
    requires
        tree_ok(pages, t, hid),
        !tree_empty(pages, hid),
    ensures
        ({
            let ls = tree_leaves(pages, t, hid);
            forall|i: int, a: int, j: int, b: int|
                #![trigger leaf_on(pages, t, ls[i]).keys[a], leaf_on(pages, t, ls[j]).keys[b]]
                0 <= i < ls.len() && 0 <= j < ls.len() && 0 <= a < leaf_on(
                    pages,
                    t,
                    ls[i],
                ).keys.len() && 0 <= b < leaf_on(pages, t, ls[j]).keys.len() && (i < j || (i == j
                    && a < b)) ==> key_lt(
                    leaf_on(pages, t, ls[i]).keys[a],
                    leaf_on(pages, t, ls[j]).keys[b],
                )
        }),
{
    law_tree_chain(pages, t, hid);
    let ls = tree_leaves(pages, t, hid);
    assert(chain(pages, t, ls, INVALID_PAGE_ID, None, None));
    assert forall|i: int, a: int, j: int, b: int|
        #![trigger leaf_on(pages, t, ls[i]).keys[a], leaf_on(pages, t, ls[j]).keys[b]]
        0 <= i < ls.len() && 0 <= j < ls.len() && 0 <= a < leaf_on(pages, t, ls[i]).keys.len() && 0
            <= b < leaf_on(pages, t, ls[j]).keys.len() && (i < j || (i == j && a
            < b)) implies key_lt(
        leaf_on(pages, t, ls[i]).keys[a],
        leaf_on(pages, t, ls[j]).keys[b],
    ) by {
        if i < j {
            assert(leaf_before(pages, t, ls[i], ls[j]));
        } else {
            assert(leaf_in_span(pages, t, ls[i], None, None));
        }
    }
}

} // verus!
