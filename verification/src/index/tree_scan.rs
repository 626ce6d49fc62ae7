//! The leaves of a tree as a chain, and the entries on it.
use vstd::prelude::*;

use crate::catalog::index_schema::{key_le, key_lt, lemma_key_order, IndexKey};
use crate::index::b_plus_page::{child_index, leaf_lookup, LeafView, INVALID_PAGE_ID};
use crate::index::leaf_laws::lemma_lookup;
use crate::index::tree_model::{
    child_hi, child_lo, first_leaf, forest, forest_linked, forest_owns, gt_lo, header_of, home_leaf,
    in_span, leaf_after, leaf_fits, lemma_index_in_range, lemma_span_of_index, linked, lookup,
    lt_hi, node_of, owns, rooted, subtree, tree_empty, tree_find, tree_height, tree_ok, NodeView,
    Pages, TreeShape,
};
use crate::table_heap::RecordId;

verus! {

/// The leaves below a page from left to right.
pub open spec fn leaves(pages: Pages, t: TreeShape, pid: usize, h: nat) -> Seq<usize>
    decreases h, 0nat,
{
    match node_of(pages[pid], t.key_len) {
        Some(NodeView::Internal(v)) => if h > 0 {
            forest_leaves(pages, t, v.children, (h - 1) as nat, v.children.len())
        } else {
            seq![pid]
        },
        _ => seq![pid],
    }
}

/// The leaves below the first `n` children from left to right.
pub open spec fn forest_leaves(
    pages: Pages,
    t: TreeShape,
    children: Seq<usize>,
    h: nat,
    n: nat,
) -> Seq<usize>
    decreases h, n + 1,
{
    if n == 0 {
        Seq::empty()
    } else {
        forest_leaves(pages, t, children, h, (n - 1) as nat) + leaves(
            pages,
            t,
            children[n - 1],
            h,
        )
    }
}

/// The leaf on a page.
pub open spec fn leaf_on(pages: Pages, t: TreeShape, p: usize) -> LeafView {
    match node_of(pages[p], t.key_len) {
        Some(NodeView::Leaf(v)) => v,
        _ => arbitrary(),
    }
}

/// Page `p` is a leaf whose keys lie from `lo` up to `hi`.
pub open spec fn leaf_in_span(
    pages: Pages,
    t: TreeShape,
    p: usize,
    lo: Option<Seq<u8>>,
    hi: Option<Seq<u8>>,
) -> bool {
    &&& pages.contains_key(p)
    &&& p != INVALID_PAGE_ID
    &&& node_of(pages[p], t.key_len) == Some(NodeView::Leaf(leaf_on(pages, t, p)))
    &&& leaf_fits(t, leaf_on(pages, t, p))
    &&& forall|i: int|
        0 <= i < leaf_on(pages, t, p).keys.len() ==> in_span(
            lo,
            hi,
            #[trigger] leaf_on(pages, t, p).keys[i],
        )
}

/// Every key on page `p` comes before every key on page `q`.
pub open spec fn leaf_before(pages: Pages, t: TreeShape, p: usize, q: usize) -> bool {
    forall|a: int, b: int|
        0 <= a < leaf_on(pages, t, p).keys.len() && 0 <= b < leaf_on(pages, t, q).keys.len()
            ==> key_lt(
            #[trigger] leaf_on(pages, t, p).keys[a],
            #[trigger] leaf_on(pages, t, q).keys[b],
        )
}

/// The leaf behind the leaf at position `i`.
pub open spec fn chain_next(ls: Seq<usize>, next: usize, i: int) -> usize {
    if i + 1 < ls.len() {
        ls[i + 1]
    } else {
        next
    }
}

/// The pages are leaves in key order, each of which points to the next one.
pub open spec fn chain(
    pages: Pages,
    t: TreeShape,
    ls: Seq<usize>,
    next: usize,
    lo: Option<Seq<u8>>,
    hi: Option<Seq<u8>>,
) -> bool {
    &&& ls.len() > 0
    &&& forall|i: int|
        #![trigger ls[i]]
        0 <= i < ls.len() ==> leaf_in_span(pages, t, ls[i], lo, hi)
    &&& forall|i: int|
        #![trigger chain_next(ls, next, i)]
        0 <= i < ls.len() ==> leaf_on(pages, t, ls[i]).next_leaf_id == chain_next(ls, next, i)
    &&& forall|i: int, j: int|
        0 <= i < j < ls.len() ==> leaf_before(pages, t, #[trigger] ls[i], #[trigger] ls[j])
    &&& ls.no_duplicates()
}

/// `k` belongs on the leaf at position `i`: earlier leaves hold smaller keys, later ones larger
/// keys.
pub open spec fn home_at(pages: Pages, t: TreeShape, ls: Seq<usize>, k: Seq<u8>, i: int) -> bool {
    &&& 0 <= i < ls.len()
    &&& forall|j: int, a: int|
        0 <= j < i && 0 <= a < leaf_on(pages, t, ls[j]).keys.len() ==> key_lt(
            #[trigger] leaf_on(pages, t, ls[j]).keys[a],
            k,
        )
    &&& forall|j: int, a: int|
        i < j < ls.len() && 0 <= a < leaf_on(pages, t, ls[j]).keys.len() ==> key_lt(
            k,
            #[trigger] leaf_on(pages, t, ls[j]).keys[a],
        )
}

pub open spec fn has_home(
    pages: Pages,
    t: TreeShape,
    ls: Seq<usize>,
    k: Seq<u8>,
    p: usize,
) -> bool {
    exists|i: int| #[trigger] home_at(pages, t, ls, k, i) && ls[i] == p
}

/// Two chains, one behind the other, are one chain.
proof fn lemma_chain_concat(
    pages: Pages,
    t: TreeShape,
    a: Seq<usize>,
    b: Seq<usize>,
    next: usize,
    lo: Option<Seq<u8>>,
    sep: Seq<u8>,
    hi: Option<Seq<u8>>,
)
    requires
        chain(pages, t, a, b[0], lo, Some(sep)),
        chain(pages, t, b, next, Some(sep), hi),
        gt_lo(lo, sep),
        lt_hi(hi, sep),
        forall|i: int, j: int| 0 <= i < a.len() && 0 <= j < b.len() ==> a[i] != b[j],
    ensures
        chain(pages, t, a + b, next, lo, hi),
{
    let s = a + b;
    let n = a.len() as int;
    lemma_key_order();
    assert forall|i: int| 0 <= i < s.len() implies (#[trigger] s[i] == if i < n {
        a[i]
    } else {
        b[i - n]
    }) by {}
    assert forall|i: int|
        #![trigger s[i]]
        0 <= i < s.len() implies leaf_in_span(pages, t, s[i], lo, hi) by {
        if i < n {
            assert(leaf_in_span(pages, t, a[i], lo, Some(sep)));
            assert forall|x: int| 0 <= x < leaf_on(pages, t, s[i]).keys.len() implies in_span(
                lo,
                hi,
                #[trigger] leaf_on(pages, t, s[i]).keys[x],
            ) by {
                assert(in_span(lo, Some(sep), leaf_on(pages, t, a[i]).keys[x]));
            }
        } else {
            assert(leaf_in_span(pages, t, b[i - n], Some(sep), hi));
            assert forall|x: int| 0 <= x < leaf_on(pages, t, s[i]).keys.len() implies in_span(
                lo,
                hi,
                #[trigger] leaf_on(pages, t, s[i]).keys[x],
            ) by {
                assert(in_span(Some(sep), hi, leaf_on(pages, t, b[i - n]).keys[x]));
            }
        }
    }
    assert forall|i: int|
        #![trigger chain_next(s, next, i)]
        0 <= i < s.len() implies leaf_on(pages, t, s[i]).next_leaf_id == chain_next(
        s,
        next,
        i,
    ) by {
        if i < n {
            assert(leaf_on(pages, t, a[i]).next_leaf_id == chain_next(a, b[0], i));
        } else {
            assert(leaf_on(pages, t, b[i - n]).next_leaf_id == chain_next(b, next, i - n));
        }
    }
    assert forall|i: int, j: int| 0 <= i < j < s.len() implies leaf_before(
        pages,
        t,
        #[trigger] s[i],
        #[trigger] s[j],
    ) by {
        if j < n {
            assert(leaf_before(pages, t, a[i], a[j]));
        } else if i >= n {
            assert(leaf_before(pages, t, b[i - n], b[j - n]));
        } else {
            assert(leaf_in_span(pages, t, a[i], lo, Some(sep)));
            assert(leaf_in_span(pages, t, b[j - n], Some(sep), hi));
            assert forall|x: int, y: int|
                0 <= x < leaf_on(pages, t, s[i]).keys.len() && 0 <= y < leaf_on(
                    pages,
                    t,
                    s[j],
                ).keys.len() implies key_lt(
                #[trigger] leaf_on(pages, t, s[i]).keys[x],
                #[trigger] leaf_on(pages, t, s[j]).keys[y],
            ) by {
                assert(in_span(lo, Some(sep), leaf_on(pages, t, a[i]).keys[x]));
                assert(in_span(Some(sep), hi, leaf_on(pages, t, b[j - n]).keys[y]));
            }
        }
    }
    assert forall|i: int, j: int| 0 <= i < s.len() && 0 <= j < s.len() && i != j implies s[i]
        != s[j] by {
        if i < n && j < n {
            assert(a[i] != a[j]);
        } else if i >= n && j >= n {
            assert(b[i - n] != b[j - n]);
        } else if i < n {
            assert(a[i] != b[j - n]);
        } else {
            assert(a[j] != b[i - n]);
        }
    }
}

/// A key that belongs on a leaf of the first chain belongs there in both together.
proof fn lemma_home_left(
    pages: Pages,
    t: TreeShape,
    a: Seq<usize>,
    b: Seq<usize>,
    next: usize,
    sep: Seq<u8>,
    hi: Option<Seq<u8>>,
    k: Seq<u8>,
    p: usize,
)
    requires
        chain(pages, t, b, next, Some(sep), hi),
        key_lt(k, sep),
        has_home(pages, t, a, k, p),
    ensures
        has_home(pages, t, a + b, k, p),
{
    let s = a + b;
    let n = a.len() as int;
    lemma_key_order();
    let i = choose|i: int| #[trigger] home_at(pages, t, a, k, i) && a[i] == p;
    assert(home_at(pages, t, s, k, i)) by {
        assert forall|j: int, x: int|
            0 <= j < i && 0 <= x < leaf_on(pages, t, s[j]).keys.len() implies key_lt(
            #[trigger] leaf_on(pages, t, s[j]).keys[x],
            k,
        ) by {
            assert(s[j] == a[j]);
        }
        assert forall|j: int, x: int|
            i < j < s.len() && 0 <= x < leaf_on(pages, t, s[j]).keys.len() implies key_lt(
            k,
            #[trigger] leaf_on(pages, t, s[j]).keys[x],
        ) by {
            if j < n {
                assert(s[j] == a[j]);
            } else {
                assert(s[j] == b[j - n]);
                assert(leaf_in_span(pages, t, b[j - n], Some(sep), hi));
                assert(in_span(Some(sep), hi, leaf_on(pages, t, b[j - n]).keys[x]));
            }
        }
    }
    assert(s[i] == p);
}

/// A key that belongs on a leaf of the second chain belongs there in both together.
proof fn lemma_home_right(
    pages: Pages,
    t: TreeShape,
    a: Seq<usize>,
    b: Seq<usize>,
    next: usize,
    lo: Option<Seq<u8>>,
    sep: Seq<u8>,
    k: Seq<u8>,
    p: usize,
)
    requires
        chain(pages, t, a, next, lo, Some(sep)),
        key_le(sep, k),
        has_home(pages, t, b, k, p),
    ensures
        has_home(pages, t, a + b, k, p),
{
    let s = a + b;
    let n = a.len() as int;
    lemma_key_order();
    let i = choose|i: int| #[trigger] home_at(pages, t, b, k, i) && b[i] == p;
    assert(home_at(pages, t, s, k, n + i)) by {
        assert forall|j: int, x: int|
            0 <= j < n + i && 0 <= x < leaf_on(pages, t, s[j]).keys.len() implies key_lt(
            #[trigger] leaf_on(pages, t, s[j]).keys[x],
            k,
        ) by {
            if j < n {
                assert(s[j] == a[j]);
                assert(leaf_in_span(pages, t, a[j], lo, Some(sep)));
                assert(in_span(lo, Some(sep), leaf_on(pages, t, a[j]).keys[x]));
            } else {
                assert(s[j] == b[j - n]);
            }
        }
        assert forall|j: int, x: int|
            n + i < j < s.len() && 0 <= x < leaf_on(pages, t, s[j]).keys.len() implies key_lt(
            k,
            #[trigger] leaf_on(pages, t, s[j]).keys[x],
        ) by {
            assert(s[j] == b[j - n]);
        }
    }
    assert(s[n + i] == p);
}

/// What holds of the leaves below a page.
pub open spec fn leaves_ok(
    pages: Pages,
    t: TreeShape,
    pid: usize,
    h: nat,
    lo: Option<Seq<u8>>,
    hi: Option<Seq<u8>>,
    next: usize,
) -> bool {
    let ls = leaves(pages, t, pid, h);
    &&& chain(pages, t, ls, next, lo, hi)
    &&& ls[0] == first_leaf(pages, t, pid, h)
    &&& forall|i: int|
        #![trigger ls[i]]
        0 <= i < ls.len() ==> owns(pages, t, pid, h, ls[i])
    &&& forall|k: Seq<u8>|
        in_span(lo, hi, k) ==> has_home(
            pages,
            t,
            ls,
            k,
            #[trigger] home_leaf(pages, t, pid, h, k),
        )
}

/// The leaves below a page form a chain in key order, in which every key has its place.
pub proof fn lemma_leaves(
    pages: Pages,
    t: TreeShape,
    pid: usize,
    h: nat,
    lo: Option<Seq<u8>>,
    hi: Option<Seq<u8>>,
    loose: bool,
    next: usize,
)
    requires
        subtree(pages, t, pid, h, lo, hi, loose),
        linked(pages, t, pid, h, next),
    ensures
        leaves_ok(pages, t, pid, h, lo, hi, next),
    decreases h, 0nat,
{
    match node_of(pages[pid], t.key_len) {
        Some(NodeView::Internal(v)) => {
            let g = (h - 1) as nat;
            let n = v.children.len();
            lemma_forest_leaves(pages, t, v.children, v.keys, g, lo, hi, next, n);
            let ls = forest_leaves(pages, t, v.children, g, n);
            assert(child_hi(v.keys, hi, n - 1) == hi);
            assert(leaf_after(pages, t, v.children, g, next, n - 1) == next);
            assert forall|i: int|
                #![trigger ls[i]]
                0 <= i < ls.len() implies owns(pages, t, pid, h, ls[i]) by {
                let j = choose|j: int|
                    #![trigger v.children[j]]
                    0 <= j < n && owns(pages, t, v.children[j], g, ls[i]);
                assert(forest_owns(pages, t, v.children, g, ls[i]));
            }
            assert forall|k: Seq<u8>| in_span(lo, hi, k) implies has_home(
                pages,
                t,
                ls,
                k,
                #[trigger] home_leaf(pages, t, pid, h, k),
            ) by {
                lemma_span_of_index(v.keys, lo, hi, k);
                let j = child_index(v.keys, k);
                let home = home_leaf(pages, t, v.children[j], g, k);
                assert(has_home(pages, t, ls, k, home));
            }
        },
        _ => {
            let ls = seq![pid];
            assert(leaves(pages, t, pid, h) == ls);
            assert(ls[0] == pid);
            assert(leaf_in_span(pages, t, pid, lo, hi));
            assert forall|i: int|
                #![trigger chain_next(ls, next, i)]
                0 <= i < ls.len() implies leaf_on(pages, t, ls[i]).next_leaf_id == chain_next(
                ls,
                next,
                i,
            ) by {}
            assert forall|k: Seq<u8>| in_span(lo, hi, k) implies has_home(
                pages,
                t,
                ls,
                k,
                #[trigger] home_leaf(pages, t, pid, h, k),
            ) by {
                assert(home_at(pages, t, ls, k, 0));
            }
        },
    }
}

/// The same of the first `n` children.
proof fn lemma_forest_leaves(
    pages: Pages,
    t: TreeShape,
    children: Seq<usize>,
    keys: Seq<Seq<u8>>,
    h: nat,
    lo: Option<Seq<u8>>,
    hi: Option<Seq<u8>>,
    next: usize,
    n: nat,
)
    requires
        forest(pages, t, children, keys, h, lo, hi),
        forest_linked(pages, t, children, h, next),
        1 <= n <= children.len(),
    ensures
        ({
            let ls = forest_leaves(pages, t, children, h, n);
            let hn = child_hi(keys, hi, n - 1);
            &&& chain(pages, t, ls, leaf_after(pages, t, children, h, next, n - 1), lo, hn)
            &&& ls[0] == first_leaf(pages, t, children[0], h)
            &&& forall|i: int|
                #![trigger ls[i]]
                0 <= i < ls.len() ==> exists|j: int|
                    #![trigger children[j]]
                    0 <= j < n && owns(pages, t, children[j], h, ls[i])
            &&& forall|k: Seq<u8>, j: int|
                in_span(lo, hn, k) && j == child_index(keys, k) && 0 <= j < n ==> has_home(
                    pages,
                    t,
                    ls,
                    k,
                    #[trigger] home_leaf(pages, t, children[j], h, k),
                )
        }),
    decreases h, n + 1,
{
    let m = n - 1;
    let c = children[m];
    let cl = leaves(pages, t, c, h);
    let ls = forest_leaves(pages, t, children, h, n);
    let hn = child_hi(keys, hi, m);
    let nx = leaf_after(pages, t, children, h, next, m);
    lemma_key_order();
    assert(linked(pages, t, children[m], h, leaf_after(pages, t, children, h, next, m)));
    lemma_leaves(pages, t, c, h, child_lo(keys, lo, m), hn, false, nx);
    if n == 1 {
        assert(forest_leaves(pages, t, children, h, 0) =~= Seq::<usize>::empty());
        assert(ls =~= cl);
        assert forall|i: int|
            #![trigger ls[i]]
            0 <= i < ls.len() implies exists|j: int|
            #![trigger children[j]]
            0 <= j < n && owns(pages, t, children[j], h, ls[i]) by {
            assert(owns(pages, t, c, h, cl[i]));
            assert(owns(pages, t, children[0], h, ls[i]));
        }
    } else {
        let pl = forest_leaves(pages, t, children, h, m as nat);
        let sep = keys[m - 1];
        lemma_forest_leaves(pages, t, children, keys, h, lo, hi, next, m as nat);
        assert(child_hi(keys, hi, m - 1) == Some(sep));
        assert(child_lo(keys, lo, m) == Some(sep));
        assert(leaf_after(pages, t, children, h, next, m - 1) == first_leaf(pages, t, c, h));
        assert(ls == pl + cl);
        assert(gt_lo(lo, sep));
        assert(lt_hi(hn, sep)) by {
            if m < keys.len() {
                assert(key_lt(keys[m - 1], keys[m]));
            }
        }
        assert forall|i: int, j: int| 0 <= i < pl.len() && 0 <= j < cl.len() implies pl[i]
            != cl[j] by {
            let q = choose|q: int|
                #![trigger children[q]]
                0 <= q < m && owns(pages, t, children[q], h, pl[i]);
            assert(owns(pages, t, c, h, cl[j]));
            if pl[i] == cl[j] {
                assert(owns(pages, t, children[q], h, pl[i]));
                assert(!owns(pages, t, children[m], h, pl[i]));
            }
        }
        lemma_chain_concat(pages, t, pl, cl, nx, lo, sep, hn);
        assert forall|i: int|
            #![trigger ls[i]]
            0 <= i < ls.len() implies exists|j: int|
            #![trigger children[j]]
            0 <= j < n && owns(pages, t, children[j], h, ls[i]) by {
            if i < pl.len() {
                assert(ls[i] == pl[i]);
                let q = choose|q: int|
                    #![trigger children[q]]
                    0 <= q < m && owns(pages, t, children[q], h, pl[i]);
                assert(owns(pages, t, children[q], h, ls[i]));
            } else {
                assert(ls[i] == cl[i - pl.len()]);
                assert(owns(pages, t, children[m], h, ls[i]));
            }
        }
        assert forall|k: Seq<u8>, j: int|
            in_span(lo, hn, k) && j == child_index(keys, k) && 0 <= j < n implies has_home(
            pages,
            t,
            ls,
            k,
            #[trigger] home_leaf(pages, t, children[j], h, k),
        ) by {
            lemma_index_in_range(keys, k);
            let p = home_leaf(pages, t, children[j], h, k);
            if j < m {
                assert(key_lt(k, keys[m - 1]));
                assert(in_span(lo, Some(sep), k));
                lemma_home_left(pages, t, pl, cl, nx, sep, hn, k, p);
            } else {
                assert(key_le(keys[m - 1], k));
                assert(in_span(Some(sep), hn, k));
                lemma_home_right(
                    pages,
                    t,
                    pl,
                    cl,
                    leaf_after(pages, t, children, h, next, m - 1),
                    lo,
                    sep,
                    k,
                    p,
                );
            }
        }
    }
    if n == 1 {
        assert forall|k: Seq<u8>, j: int|
            in_span(lo, hn, k) && j == child_index(keys, k) && 0 <= j < n implies has_home(
            pages,
            t,
            ls,
            k,
            #[trigger] home_leaf(pages, t, children[j], h, k),
        ) by {
            assert(children[j] == c);
        }
    }
}

/// A key is looked up on the leaf that it leads to.
pub proof fn lemma_home_lookup(
    pages: Pages,
    t: TreeShape,
    pid: usize,
    h: nat,
    lo: Option<Seq<u8>>,
    hi: Option<Seq<u8>>,
    loose: bool,
    k: Seq<u8>,
)
    requires
        subtree(pages, t, pid, h, lo, hi, loose),
    ensures
        lookup(pages, t, pid, h, k) == leaf_lookup(
            leaf_on(pages, t, home_leaf(pages, t, pid, h, k)),
            k,
        ),
    decreases h,
{
    match node_of(pages[pid], t.key_len) {
        Some(NodeView::Internal(v)) => {
            let g = (h - 1) as nat;
            lemma_index_in_range(v.keys, k);
            let j = child_index(v.keys, k);
            lemma_home_lookup(
                pages,
                t,
                v.children[j],
                g,
                child_lo(v.keys, lo, j),
                child_hi(v.keys, hi, j),
                false,
                k,
            );
        },
        _ => {},
    }
}

/// The leaves of a tree that is not empty.
pub open spec fn tree_leaves(pages: Pages, t: TreeShape, hid: usize) -> Seq<usize> {
    leaves(pages, t, (header_of(pages[hid])->0).root_page_id, tree_height(pages, t, hid))
}

/// Slot `s` of the leaf at position `j` holds an entry that is not deleted.
pub open spec fn live_at(
    pages: Pages,
    t: TreeShape,
    ls: Seq<usize>,
    j: int,
    s: int,
    k: Seq<u8>,
    r: RecordId,
) -> bool {
    let v = leaf_on(pages, t, ls[j]);
    &&& 0 <= j < ls.len()
    &&& 0 <= s < v.keys.len()
    &&& v.keys[s] == k
    &&& v.record_ids[s] == r
    &&& !v.tombstones.contains(s as u32)
}

/// The entries from slot `slot` of the leaf at position `i` on that are not deleted.
pub open spec fn entries_from(
    pages: Pages,
    t: TreeShape,
    ls: Seq<usize>,
    i: int,
    slot: nat,
) -> Seq<(Seq<u8>, RecordId)>
    decreases
            ls.len() - i,
            if slot <= leaf_on(pages, t, ls[i]).keys.len() {
                leaf_on(pages, t, ls[i]).keys.len() - slot
            } else {
                0
            },
{
    if i < 0 || i >= ls.len() {
        Seq::empty()
    } else {
        let v = leaf_on(pages, t, ls[i]);
        if slot >= v.keys.len() {
            entries_from(pages, t, ls, i + 1, 0)
        } else if v.tombstones.contains(slot as u32) {
            entries_from(pages, t, ls, i, slot + 1)
        } else {
            seq![(v.keys[slot as int], v.record_ids[slot as int])] + entries_from(
                pages,
                t,
                ls,
                i,
                slot + 1,
            )
        }
    }
}

/// Position `(j, s)` does not stand before `(i, slot)`.
pub open spec fn at_or_after(j: int, s: int, i: int, slot: int) -> bool {
    i < j || (j == i && slot <= s)
}

/// Entry `e` stands on a leaf, not before `(i, slot)`.
pub open spec fn stands_after(
    pages: Pages,
    t: TreeShape,
    ls: Seq<usize>,
    i: int,
    slot: int,
    e: (Seq<u8>, RecordId),
) -> bool {
    exists|j: int, s: int|
        at_or_after(j, s, i, slot) && #[trigger] live_at(pages, t, ls, j, s, e.0, e.1)
}

/// The keys of the entries ascend.
pub open spec fn ascending(es: Seq<(Seq<u8>, RecordId)>) -> bool {
    forall|a: int, b: int|
        0 <= a < b < es.len() ==> key_lt((#[trigger] es[a]).0, (#[trigger] es[b]).0)
}

/// Entries come in key order, and are those that stand on the leaves.
pub proof fn lemma_entries(
    pages: Pages,
    t: TreeShape,
    ls: Seq<usize>,
    next: usize,
    i: int,
    slot: nat,
)
    requires
        chain(pages, t, ls, next, None, None),
        0 <= i <= ls.len(),
    ensures
        ascending(entries_from(pages, t, ls, i, slot)),
        forall|x: int|
            #![trigger entries_from(pages, t, ls, i, slot)[x]]
            0 <= x < entries_from(pages, t, ls, i, slot).len() ==> stands_after(
                pages,
                t,
                ls,
                i,
                slot as int,
                entries_from(pages, t, ls, i, slot)[x],
            ),
        forall|j: int, s: int, k: Seq<u8>, r: RecordId|
            at_or_after(j, s, i, slot as int) && #[trigger] live_at(pages, t, ls, j, s, k, r)
                ==> entries_from(pages, t, ls, i, slot).contains((k, r)),
    decreases
            ls.len() - i,
            if slot <= leaf_on(pages, t, ls[i]).keys.len() {
                leaf_on(pages, t, ls[i]).keys.len() - slot
            } else {
                0
            },
{
    let es = entries_from(pages, t, ls, i, slot);
    if i < ls.len() {
        let v = leaf_on(pages, t, ls[i]);
        if slot >= v.keys.len() {
            lemma_entries(pages, t, ls, next, i + 1, 0);
            assert forall|x: int| 0 <= x < es.len() implies stands_after(
                pages,
                t,
                ls,
                i,
                slot as int,
                #[trigger] es[x],
            ) by {
                let e = entries_from(pages, t, ls, i + 1, 0)[x];
                assert(stands_after(pages, t, ls, i + 1, 0, e));
                let (j, s) = choose|j: int, s: int|
                    at_or_after(j, s, i + 1, 0) && #[trigger] live_at(
                        pages,
                        t,
                        ls,
                        j,
                        s,
                        e.0,
                        e.1,
                    );
                assert(at_or_after(j, s, i, slot as int));
            }
            assert forall|j: int, s: int, k: Seq<u8>, r: RecordId|
                at_or_after(j, s, i, slot as int) && #[trigger] live_at(
                    pages,
                    t,
                    ls,
                    j,
                    s,
                    k,
                    r,
                ) implies es.contains((k, r)) by {
                assert(at_or_after(j, s, i + 1, 0));
            }
        } else {
            let rest = entries_from(pages, t, ls, i, slot + 1);
            lemma_entries(pages, t, ls, next, i, slot + 1);
            let e0 = (v.keys[slot as int], v.record_ids[slot as int]);
            let dead = v.tombstones.contains(slot as u32);
            let off: int = if dead { 0 } else { 1 };
            assert forall|x: int| 0 <= x < es.len() && x >= off implies es[x] == rest[x - off] by {}
            assert forall|x: int| 0 <= x < rest.len() implies key_lt(
                e0.0,
                (#[trigger] rest[x]).0,
            ) by {
                assert(stands_after(pages, t, ls, i, slot as int + 1, rest[x]));
                let (j, s) = choose|j: int, s: int|
                    at_or_after(j, s, i, slot as int + 1) && #[trigger] live_at(
                        pages,
                        t,
                        ls,
                        j,
                        s,
                        rest[x].0,
                        rest[x].1,
                    );
                if j == i {
                    assert(key_lt(v.keys[slot as int], v.keys[s]));
                } else {
                    assert(leaf_before(pages, t, ls[i], ls[j]));
                    assert(key_lt(
                        leaf_on(pages, t, ls[i]).keys[slot as int],
                        leaf_on(pages, t, ls[j]).keys[s],
                    ));
                }
            }
            assert(leaf_in_span(pages, t, ls[i], None, None));
            assert forall|a: int, b: int| 0 <= a < b < es.len() implies key_lt(
                (#[trigger] es[a]).0,
                (#[trigger] es[b]).0,
            ) by {
                if dead {
                    assert(key_lt(rest[a].0, rest[b].0));
                } else if a == 0 {
                    assert(key_lt(e0.0, rest[b - 1].0));
                } else {
                    assert(key_lt(rest[a - 1].0, rest[b - 1].0));
                }
            }
            assert forall|x: int| 0 <= x < es.len() implies stands_after(
                pages,
                t,
                ls,
                i,
                slot as int,
                #[trigger] es[x],
            ) by {
                if x < off {
                    assert(live_at(pages, t, ls, i, slot as int, es[x].0, es[x].1));
                } else {
                    let e = rest[x - off];
                    assert(stands_after(pages, t, ls, i, slot as int + 1, e));
                    let (j, s) = choose|j: int, s: int|
                        at_or_after(j, s, i, slot as int + 1) && #[trigger] live_at(
                            pages,
                            t,
                            ls,
                            j,
                            s,
                            e.0,
                            e.1,
                        );
                    assert(at_or_after(j, s, i, slot as int));
                }
            }
            assert forall|j: int, s: int, k: Seq<u8>, r: RecordId|
                at_or_after(j, s, i, slot as int) && #[trigger] live_at(
                    pages,
                    t,
                    ls,
                    j,
                    s,
                    k,
                    r,
                ) implies es.contains((k, r)) by {
                if j == i && s == slot {
                    assert(es[0] == (k, r));
                } else {
                    assert(at_or_after(j, s, i, slot as int + 1));
                    assert(rest.contains((k, r)));
                    let x = choose|x: int| 0 <= x < rest.len() && rest[x] == (k, r);
                    assert(es[x + off] == (k, r));
                }
            }
        }
    }
}

/// The tree holds record id `r` for key `k`.
pub open spec fn tree_holds(
    pages: Pages,
    t: TreeShape,
    hid: usize,
    k: Seq<u8>,
    r: RecordId,
) -> bool {
    tree_find(pages, t, hid, k) == Some(r)
}

/// The leaves of a tree form a chain, and what the tree holds is what stands on them.
pub proof fn law_tree_chain(pages: Pages, t: TreeShape, hid: usize)
    requires
        tree_ok(pages, t, hid),
        !tree_empty(pages, hid),
    ensures
        chain(pages, t, tree_leaves(pages, t, hid), INVALID_PAGE_ID, None, None),
        tree_leaves(pages, t, hid)[0] == (header_of(pages[hid])->0).first_leaf_id,
        forall|k: Seq<u8>, r: RecordId| #[trigger]
            tree_holds(pages, t, hid, k, r) <==> exists|j: int, s: int| #[trigger]
                live_at(pages, t, tree_leaves(pages, t, hid), j, s, k, r),
{
    let hd = header_of(pages[hid])->0;
    let root = hd.root_page_id;
    let h = tree_height(pages, t, hid);
    let ls = tree_leaves(pages, t, hid);
    assert(rooted(pages, t, hid, hd, h));
    lemma_leaves(pages, t, root, h, None, None, true, INVALID_PAGE_ID);
    lemma_key_order();
    assert forall|k: Seq<u8>, r: RecordId| #[trigger]
        tree_holds(pages, t, hid, k, r) <==> exists|j: int, s: int| #[trigger]
            live_at(pages, t, ls, j, s, k, r) by {
        lemma_home_lookup(pages, t, root, h, None, None, true, k);
        let p = home_leaf(pages, t, root, h, k);
        assert(has_home(pages, t, ls, k, p));
        let i = choose|i: int| #[trigger] home_at(pages, t, ls, k, i) && ls[i] == p;
        let v = leaf_on(pages, t, ls[i]);
        assert(leaf_in_span(pages, t, ls[i], None, None));
        lemma_lookup(v, k);
        if tree_find(pages, t, hid, k) == Some(r) {
            let s = choose|s: int|
                0 <= s < v.keys.len() && #[trigger] v.keys[s] == k && v.record_ids[s] == r
                    && !v.tombstones.contains(s as u32);
            assert(live_at(pages, t, ls, i, s, k, r));
        }
        if exists|j: int, s: int| #[trigger] live_at(pages, t, ls, j, s, k, r) {
            let (j, s) = choose|j: int, s: int| #[trigger] live_at(pages, t, ls, j, s, k, r);
            if j < i {
                assert(key_lt(leaf_on(pages, t, ls[j]).keys[s], k));
            } else if j > i {
                assert(key_lt(k, leaf_on(pages, t, ls[j]).keys[s]));
            }
            assert(v.keys[s] == k);
        }
    }
}

/// A bound of a range of keys.
#[derive(Debug)]
pub enum KeyBound {
    Included(IndexKey),
    Excluded(IndexKey),
    Unbounded,
}

/// `k` does not lie before the lower bound `b`.
pub open spec fn above(b: KeyBound, k: Seq<u8>) -> bool {
    match b {
        KeyBound::Included(u) => key_le(u@, k),
        KeyBound::Excluded(u) => key_lt(u@, k),
        KeyBound::Unbounded => true,
    }
}

/// `k` does not lie behind the upper bound `b`.
pub open spec fn below(b: KeyBound, k: Seq<u8>) -> bool {
    match b {
        KeyBound::Included(u) => key_le(k, u@),
        KeyBound::Excluded(u) => key_lt(k, u@),
        KeyBound::Unbounded => true,
    }
}

/// The entries up to the first one that lies behind the bound.
pub open spec fn take_below(es: Seq<(Seq<u8>, RecordId)>, b: KeyBound) -> Seq<
    (Seq<u8>, RecordId),
>
    decreases es.len(),
{
    if es.len() == 0 || !below(b, es[0].0) {
        Seq::empty()
    } else {
        seq![es[0]] + take_below(es.drop_first(), b)
    }
}

/// Of ascending entries, those up to the bound are all that do not lie behind it.
pub proof fn lemma_take_below(es: Seq<(Seq<u8>, RecordId)>, b: KeyBound)
    requires
        ascending(es),
    ensures
        ascending(take_below(es, b)),
        forall|e: (Seq<u8>, RecordId)| #[trigger]
            take_below(es, b).contains(e) <==> es.contains(e) && below(b, e.0),
    decreases es.len(),
{
    let s = take_below(es, b);
    lemma_key_order();
    if es.len() > 0 {
        let rest = es.drop_first();
        assert(ascending(rest)) by {
            assert forall|x: int, y: int| 0 <= x < y < rest.len() implies key_lt(
                (#[trigger] rest[x]).0,
                (#[trigger] rest[y]).0,
            ) by {
                assert(key_lt(es[x + 1].0, es[y + 1].0));
            }
        }
        lemma_take_below(rest, b);
        let tail = take_below(rest, b);
        assert forall|e: (Seq<u8>, RecordId)| es.contains(e) <==> e == es[0] || rest.contains(
            e,
        ) by {
            if es.contains(e) {
                let k = choose|k: int| 0 <= k < es.len() && es[k] == e;
                if k > 0 {
                    assert(rest[k - 1] == e);
                }
            }
            if rest.contains(e) {
                let k = choose|k: int| 0 <= k < rest.len() && rest[k] == e;
                assert(es[k + 1] == e);
            }
        }
        if below(b, es[0].0) {
            assert forall|e: (Seq<u8>, RecordId)| s.contains(e) <==> e == es[0] || tail.contains(
                e,
            ) by {
                if s.contains(e) {
                    let k = choose|k: int| 0 <= k < s.len() && s[k] == e;
                    if k > 0 {
                        assert(tail[k - 1] == e);
                    }
                }
                if tail.contains(e) {
                    let k = choose|k: int| 0 <= k < tail.len() && tail[k] == e;
                    assert(s[k + 1] == e);
                }
                if e == es[0] {
                    assert(s[0] == e);
                }
            }
            assert forall|x: int, y: int| 0 <= x < y < s.len() implies key_lt(
                (#[trigger] s[x]).0,
                (#[trigger] s[y]).0,
            ) by {
                if x > 0 {
                    assert(key_lt(tail[x - 1].0, tail[y - 1].0));
                } else {
                    assert(tail.contains(tail[y - 1]));
                    assert(rest.contains(tail[y - 1]));
                    let k = choose|k: int| 0 <= k < rest.len() && rest[k] == tail[y - 1];
                    assert(key_lt(es[0].0, es[k + 1].0));
                }
            }
        } else {
            assert forall|e: (Seq<u8>, RecordId)| es.contains(e) implies !below(b, e.0) by {
                let k = choose|k: int| 0 <= k < es.len() && es[k] == e;
                if k > 0 {
                    assert(key_lt(es[0].0, es[k].0));
                }
            }
        }
    }
}

/// The entries are those of the tree between the bounds, in key order.
pub open spec fn is_range(
    pages: Pages,
    t: TreeShape,
    hid: usize,
    lower: KeyBound,
    upper: KeyBound,
    es: Seq<(Seq<u8>, RecordId)>,
) -> bool {
    &&& ascending(es)
    &&& forall|k: Seq<u8>, r: RecordId| #[trigger]
        es.contains((k, r)) <==> tree_find(pages, t, hid, k) == Some(r) && above(lower, k)
            && below(upper, k)
}

/// Where all keys before a position lie before the lower bound, and no key behind it does, the
/// entries from there on are the range.
pub proof fn lemma_range_from(
    pages: Pages,
    t: TreeShape,
    hid: usize,
    lower: KeyBound,
    upper: KeyBound,
    i: int,
    slot: nat,
)
    requires
        tree_ok(pages, t, hid),
        !tree_empty(pages, hid),
        0 <= i < tree_leaves(pages, t, hid).len(),
        forall|j: int, s: int|
            0 <= j < tree_leaves(pages, t, hid).len() && 0 <= s < leaf_on(
                pages,
                t,
                tree_leaves(pages, t, hid)[j],
            ).keys.len() ==> (at_or_after(j, s, i, slot as int) <==> above(
                lower,
                #[trigger] leaf_on(pages, t, tree_leaves(pages, t, hid)[j]).keys[s],
            )),
    ensures
        is_range(
            pages,
            t,
            hid,
            lower,
            upper,
            take_below(entries_from(pages, t, tree_leaves(pages, t, hid), i, slot), upper),
        ),
{
    let ls = tree_leaves(pages, t, hid);
    let all = entries_from(pages, t, ls, i, slot);
    let es = take_below(all, upper);
    law_tree_chain(pages, t, hid);
    lemma_entries(pages, t, ls, INVALID_PAGE_ID, i, slot);
    lemma_take_below(all, upper);
    assert forall|k: Seq<u8>, r: RecordId| #[trigger] es.contains((k, r)) <==> tree_find(
        pages,
        t,
        hid,
        k,
    ) == Some(r) && above(lower, k) && below(upper, k) by {
        if es.contains((k, r)) {
            assert(all.contains((k, r)));
            let x = choose|x: int| 0 <= x < all.len() && all[x] == (k, r);
            assert(stands_after(pages, t, ls, i, slot as int, all[x]));
            let (j, s) = choose|j: int, s: int|
                at_or_after(j, s, i, slot as int) && #[trigger] live_at(pages, t, ls, j, s, k, r);
            assert(live_at(pages, t, ls, j, s, k, r));
            assert(tree_holds(pages, t, hid, k, r));
            assert(leaf_on(pages, t, ls[j]).keys[s] == k);
        }
        if tree_find(pages, t, hid, k) == Some(r) && above(lower, k) && below(upper, k) {
            assert(tree_holds(pages, t, hid, k, r));
            let (j, s) = choose|j: int, s: int| #[trigger] live_at(pages, t, ls, j, s, k, r);
            assert(leaf_on(pages, t, ls[j]).keys[s] == k);
            assert(at_or_after(j, s, i, slot as int));
            assert(all.contains((k, r)));
        }
    }
}

} // verus!
