//! Filling up a page that holds too little from the page next to it.
use vstd::prelude::*;

use crate::catalog::index_schema::{key_le, key_lt, lemma_key_order, strictly_sorted, IndexKey};
use crate::index::b_plus_page::{
    entry_appended, entry_prepended, entry_removed, leaf_absorbed, leaf_lookup, leaves_joined,
    law_internal_shrinks, slots_below, valid_leaf, InternalPage, LeafPage, LeafView,
};
use crate::index::leaf_laws::{
    law_entry_appended, law_entry_prepended, law_entry_removed, law_leaves_joined,
    law_tombstones_trimmed, lemma_last_slot_gone, lemma_lookup, lemma_slot_none,
    lemma_strict_is_sorted,
};
use crate::index::tree_model::{internal_fits, keys_have_len, leaf_fits, TreeShape};
use crate::table_heap::RecordId;

verus! {

/// What two neighbouring leaves, parted by `sep`, show for a key.
pub open spec fn shown(l: LeafView, r: LeafView, sep: Seq<u8>, k: Seq<u8>) -> Option<RecordId> {
    if key_lt(k, sep) {
        leaf_lookup(l, k)
    } else {
        leaf_lookup(r, k)
    }
}

/// The keys of `l` come before `sep`, those of `r` do not.
pub open spec fn sep_between(l: LeafView, r: LeafView, sep: Seq<u8>) -> bool {
    &&& forall|j: int| 0 <= j < l.keys.len() ==> key_lt(#[trigger] l.keys[j], sep)
    &&& forall|j: int| 0 <= j < r.keys.len() ==> key_le(sep, #[trigger] r.keys[j])
}

/// Every key of `v` is one of `l` or of `r`.
pub open spec fn keys_from(v: LeafView, l: LeafView, r: LeafView) -> bool {
    forall|j: int|
        0 <= j < v.keys.len() ==> l.keys.contains(#[trigger] v.keys[j]) || r.keys.contains(
            v.keys[j],
        )
}

proof fn lemma_keys_from_self(l: LeafView, r: LeafView)
    ensures
        keys_from(l, l, r),
        keys_from(r, l, r),
{
    assert forall|j: int| 0 <= j < l.keys.len() implies l.keys.contains(#[trigger] l.keys[j])
        || r.keys.contains(l.keys[j]) by {}
    assert forall|j: int| 0 <= j < r.keys.len() implies l.keys.contains(#[trigger] r.keys[j])
        || r.keys.contains(r.keys[j]) by {}
}

/// Two leaves show the same as others between which a key moved.
pub open spec fn same_shown(
    l: LeafView,
    r: LeafView,
    sep: Seq<u8>,
    l0: LeafView,
    r0: LeafView,
    sep0: Seq<u8>,
) -> bool {
    forall|k: Seq<u8>| #[trigger] shown(l, r, sep, k) == shown(l0, r0, sep0, k)
}

/// The leaf to its right taken over, a leaf shows what both showed, and is half full.
pub proof fn lemma_merged_leaf(t: TreeShape, l: LeafView, r: LeafView, sep: Seq<u8>)
    requires
        leaf_fits(t, l),
        leaf_fits(t, r),
        sep_between(l, r, sep),
        l.keys.len() + r.keys.len() <= t.leaf_max,
        l.keys.len() + r.keys.len() + 1 >= 2 * (t.leaf_max / 2),
    ensures
        ({
            let w = leaf_absorbed(l, r);
            &&& leaf_fits(t, w)
            &&& valid_leaf(w)
            &&& w.keys.len() >= t.leaf_max / 2
            &&& w.next_leaf_id == r.next_leaf_id
            &&& forall|k: Seq<u8>| #[trigger] leaf_lookup(w, k) == shown(l, r, sep, k)
            &&& keys_from(w, l, r)
        }),
{
    let j = leaves_joined(l, r);
    let w = leaf_absorbed(l, r);
    law_leaves_joined(l, r, sep);
    law_tombstones_trimmed(j);
    assert(j.tombstones.len() <= j.keys.len()) by {
        lemma_slots_count(j.tombstones, j.keys.len() as int);
    }
    assert forall|i: int| 0 <= i < w.keys.len() implies (#[trigger] w.keys[i]).len() == t.key_len
        && (l.keys.contains(w.keys[i]) || r.keys.contains(w.keys[i])) by {
        assert(j.keys.contains(w.keys[i]));
        let q = choose|q: int| 0 <= q < j.keys.len() && j.keys[q] == w.keys[i];
        if q < l.keys.len() {
            assert(l.keys[q] == w.keys[i]);
        } else {
            assert(r.keys[q - l.keys.len()] == w.keys[i]);
        }
    }
    assert(leaf_fits(t, w));
    lemma_strict_is_sorted(w.keys);
}

/// There are no more marks than slots.
proof fn lemma_slots_count(s: Seq<u32>, n: int)
    requires
        s.no_duplicates(),
        slots_below(s, n),
        n >= 0,
    ensures
        s.len() <= n,
{
    let m = s.map_values(|x: u32| x as int);
    assert(m.no_duplicates());
    m.unique_seq_to_set();
    let all = vstd::set_lib::set_int_range(0, n);
    vstd::set_lib::lemma_int_range(0, n);
    assert(m.to_set().subset_of(all)) by {
        assert forall|x: int| m.to_set().contains(x) implies all.contains(x) by {
            let i = choose|i: int| 0 <= i < m.len() && m[i] == x;
            assert(s[i] < n);
        }
    }
    vstd::set_lib::lemma_len_subset(m.to_set(), all);
}

/// The first entry of the right leaf left it; where it was not deleted, it went to the end of
/// the left one.
proof fn lemma_moved_left(
    t: TreeShape,
    l: LeafView,
    r: LeafView,
    sep: Seq<u8>,
    tombstoned: bool,
)
    requires
        leaf_fits(t, l),
        leaf_fits(t, r),
        sep_between(l, r, sep),
        r.keys.len() >= 2,
        l.keys.len() < t.leaf_max,
        t.leaf_max < u32::MAX,
        tombstoned == r.tombstones.contains(0),
    ensures
        ({
            let r1 = entry_removed(r, 0);
            let l1 = entry_appended(l, r.keys[0], r.record_ids[0], tombstoned);
            &&& leaf_fits(t, r1)
            &&& r1.keys.len() == r.keys.len() - 1
            &&& keys_from(r1, l, r)
            &&& sep_between(l, r1, sep)
            &&& tombstoned ==> same_shown(l, r1, sep, l, r, sep)
            &&& l.tombstones.len() < l.capacity || !tombstoned ==> {
                &&& leaf_fits(t, l1)
                &&& valid_leaf(l1)
                &&& keys_from(l1, l, r)
                &&& sep_between(l1, r1, r1.keys[0])
                &&& same_shown(l1, r1, r1.keys[0], l, r, sep)
            }
        }),
{
    let r1 = entry_removed(r, 0);
    let key = r.keys[0];
    let rid = r.record_ids[0];
    let l1 = entry_appended(l, key, rid, tombstoned);
    lemma_key_order();
    law_entry_removed(r, 0);
    assert forall|j: int| 0 <= j < r1.keys.len() implies #[trigger] r1.keys[j] == r.keys[j + 1]
        && key_lt(key, r1.keys[j]) by {
        assert(key_lt(r.keys[0], r.keys[j + 1]));
    }
    assert forall|j: int| 0 <= j < r1.keys.len() implies (#[trigger] r1.keys[j]).len() == t.key_len
        && r.keys.contains(r1.keys[j]) && key_le(sep, r1.keys[j]) by {
        assert(r.keys[j + 1].len() == t.key_len);
        assert(key_le(sep, r.keys[j + 1]));
    }
    assert(leaf_fits(t, r1));
    assert forall|j: int| 0 <= j < l.keys.len() implies key_lt(#[trigger] l.keys[j], key) by {
        assert(key_lt(l.keys[j], sep));
        assert(key_le(sep, r.keys[0]));
    }
    law_entry_appended(l, key, rid, tombstoned);
    lemma_lookup(r, key);
    assert(leaf_lookup(r, key) == if tombstoned {
        None
    } else {
        Some(rid)
    });
    assert forall|j: int| 0 <= j < l.keys.len() implies #[trigger] l.keys[j] != key by {
        assert(key_lt(l.keys[j], key));
    }
    lemma_slot_none(l.keys, key);
    if tombstoned {
        assert forall|k: Seq<u8>| #[trigger] shown(l, r1, sep, k) == shown(l, r, sep, k) by {}
    }
    if l.tombstones.len() < l.capacity || !tombstoned {
        assert forall|j: int| 0 <= j < l1.keys.len() implies (#[trigger] l1.keys[j]).len()
            == t.key_len && (l.keys.contains(l1.keys[j]) || r.keys.contains(l1.keys[j]))
            && key_lt(l1.keys[j], r1.keys[0]) by {
            if j < l.keys.len() {
                assert(l1.keys[j] == l.keys[j]);
                assert(key_lt(l.keys[j], key));
            } else {
                assert(l1.keys[j] == r.keys[0]);
            }
        }
        assert(leaf_fits(t, l1));
        lemma_strict_is_sorted(l1.keys);
        assert(sep_between(l1, r1, r1.keys[0])) by {
            assert forall|j: int| 0 <= j < r1.keys.len() implies key_le(
                r1.keys[0],
                #[trigger] r1.keys[j],
            ) by {
                if j > 0 {
                    assert(key_lt(r1.keys[0], r1.keys[j]));
                }
            }
        }
        assert forall|k: Seq<u8>| #[trigger] shown(l1, r1, r1.keys[0], k) == shown(
            l,
            r,
            sep,
            k,
        ) by {
            if k != key {
                if key_lt(k, r1.keys[0]) && !key_lt(k, sep) {
                    // Between the separators only the moved key could stand.
                    assert forall|j: int| 0 <= j < r.keys.len() implies #[trigger] r.keys[j]
                        != k by {
                        if j > 0 {
                            assert(r1.keys[j - 1] == r.keys[j]);
                            if j > 1 {
                                assert(key_lt(r1.keys[0], r1.keys[j - 1]));
                            }
                        }
                    }
                    lemma_slot_none(r.keys, k);
                    assert forall|j: int| 0 <= j < l.keys.len() implies #[trigger] l.keys[j]
                        != k by {
                        assert(key_lt(l.keys[j], sep));
                    }
                    lemma_slot_none(l.keys, k);
                }
                if !key_lt(k, r1.keys[0]) && key_lt(k, sep) {
                    assert(key_le(sep, r1.keys[0]));
                }
            } else {
                assert(key_lt(key, r1.keys[0]));
                assert(key_le(sep, key));
            }
        }
    }
}

/// The last entry of the left leaf left it; where it was not deleted, it went to the front of
/// the right one.
proof fn lemma_moved_right(
    t: TreeShape,
    l: LeafView,
    r: LeafView,
    sep: Seq<u8>,
    tombstoned: bool,
)
    requires
        leaf_fits(t, l),
        leaf_fits(t, r),
        sep_between(l, r, sep),
        l.keys.len() >= 2,
        r.keys.len() < t.leaf_max,
        t.leaf_max < u32::MAX,
        tombstoned == l.tombstones.contains((l.keys.len() - 1) as u32),
    ensures
        ({
            let n = l.keys.len() as int;
            let l1 = entry_removed(l, n - 1);
            let r1 = entry_prepended(r, l.keys[n - 1], l.record_ids[n - 1], tombstoned);
            &&& leaf_fits(t, l1)
            &&& l1.keys.len() == l.keys.len() - 1
            &&& keys_from(l1, l, r)
            &&& sep_between(l1, r, sep)
            &&& tombstoned ==> same_shown(l1, r, sep, l, r, sep)
            &&& r.tombstones.len() < r.capacity || !tombstoned ==> {
                &&& leaf_fits(t, r1)
                &&& valid_leaf(r1)
                &&& keys_from(r1, l, r)
                &&& sep_between(l1, r1, r1.keys[0])
                &&& same_shown(l1, r1, r1.keys[0], l, r, sep)
            }
        }),
{
    let n = l.keys.len() as int;
    let l1 = entry_removed(l, n - 1);
    let key = l.keys[n - 1];
    let rid = l.record_ids[n - 1];
    let r1 = entry_prepended(r, key, rid, tombstoned);
    lemma_key_order();
    law_entry_removed(l, n - 1);
    assert forall|j: int| 0 <= j < l1.keys.len() implies #[trigger] l1.keys[j] == l.keys[j]
        && key_lt(l1.keys[j], key) by {
        assert(key_lt(l.keys[j], l.keys[n - 1]));
    }
    assert forall|j: int| 0 <= j < l1.keys.len() implies (#[trigger] l1.keys[j]).len() == t.key_len
        && l.keys.contains(l1.keys[j]) && key_lt(l1.keys[j], sep) by {
        assert(l.keys[j].len() == t.key_len);
        assert(key_lt(l.keys[j], sep));
    }
    assert(leaf_fits(t, l1));
    assert(key_lt(key, sep));
    assert forall|j: int| 0 <= j < r.keys.len() implies key_lt(key, #[trigger] r.keys[j]) by {
        assert(key_le(sep, r.keys[j]));
    }
    law_entry_prepended(r, key, rid, tombstoned);
    lemma_lookup(l, key);
    assert(leaf_lookup(l, key) == if tombstoned {
        None
    } else {
        Some(rid)
    });
    assert forall|j: int| 0 <= j < r.keys.len() implies #[trigger] r.keys[j] != key by {
        assert(key_lt(key, r.keys[j]));
    }
    lemma_slot_none(r.keys, key);
    if tombstoned {
        assert forall|k: Seq<u8>| #[trigger] shown(l1, r, sep, k) == shown(l, r, sep, k) by {}
    }
    if r.tombstones.len() < r.capacity || !tombstoned {
        assert forall|j: int| 0 <= j < r1.keys.len() implies (#[trigger] r1.keys[j]).len()
            == t.key_len && (l.keys.contains(r1.keys[j]) || r.keys.contains(r1.keys[j]))
            && key_le(key, r1.keys[j]) by {
            if j > 0 {
                assert(r1.keys[j] == r.keys[j - 1]);
                assert(key_lt(key, r.keys[j - 1]));
            } else {
                assert(r1.keys[j] == l.keys[n - 1]);
            }
        }
        assert(leaf_fits(t, r1));
        lemma_strict_is_sorted(r1.keys);
        assert(r1.keys[0] == key);
        assert(sep_between(l1, r1, key));
        assert forall|k: Seq<u8>| #[trigger] shown(l1, r1, key, k) == shown(l, r, sep, k) by {
            if k != key {
                if !key_lt(k, key) && key_lt(k, sep) {
                    assert forall|j: int| 0 <= j < l.keys.len() implies #[trigger] l.keys[j]
                        != k by {
                        if j < n - 1 {
                            assert(key_lt(l.keys[j], l.keys[n - 1]));
                        }
                    }
                    lemma_slot_none(l.keys, k);
                    assert forall|j: int| 0 <= j < r.keys.len() implies #[trigger] r.keys[j]
                        != k by {
                        assert(key_le(sep, r.keys[j]));
                    }
                    lemma_slot_none(r.keys, k);
                }
            }
        }
    }
}

/// Fills up one of two neighbouring leaves: with an entry of the other one, where that can
/// spare it, else by joining both on the left page. Returns whether they were joined.
///
/// An entry that is deleted moves only where there is room for its tombstone; otherwise it is
/// given up.
pub(crate) fn balance_leaves(
    left: &mut LeafPage,
    right: &mut LeafPage,
    left_is_short: bool,
    Ghost(t): Ghost<TreeShape>,
    Ghost(sep): Ghost<Seq<u8>>,
) -> (merged: bool)
    requires
        leaf_fits(t, old(left)@),
        leaf_fits(t, old(right)@),
        t.leaf_max < u32::MAX,
        sep_between(old(left)@, old(right)@, sep),
        ({
            let min = (t.leaf_max / 2) as int;
            let short = if left_is_short {
                old(left)@.keys.len()
            } else {
                old(right)@.keys.len()
            };
            let other = if left_is_short {
                old(right)@.keys.len()
            } else {
                old(left)@.keys.len()
            };
            &&& min >= 1
            &&& short + 1 == min
            &&& other >= min
        }),
    ensures
        final(left).base.page_type == old(left).base.page_type,
        final(right).base.page_type == old(right).base.page_type,
        leaf_fits(t, final(left)@),
        final(left)@.keys.len() >= t.leaf_max / 2,
        keys_from(final(left)@, old(left)@, old(right)@),
        merged ==> {
            &&& final(left)@.next_leaf_id == old(right)@.next_leaf_id
            &&& forall|k: Seq<u8>| #[trigger]
                leaf_lookup(final(left)@, k) == shown(old(left)@, old(right)@, sep, k)
        },
        !merged ==> {
            &&& leaf_fits(t, final(right)@)
            &&& keys_from(final(right)@, old(left)@, old(right)@)
            &&& final(left)@.next_leaf_id == old(left)@.next_leaf_id
            &&& final(right)@.next_leaf_id == old(right)@.next_leaf_id
            &&& final(right)@.keys.len() >= t.leaf_max / 2
            &&& sep_between(final(left)@, final(right)@, final(right)@.keys[0])
            &&& same_shown(
                final(left)@,
                final(right)@,
                final(right)@.keys[0],
                old(left)@,
                old(right)@,
                sep,
            )
        },
{
    let ghost l0 = left@;
    let ghost r0 = right@;
    proof {
        lemma_keys_from_self(l0, r0);
    }
    loop
        invariant
            left.base.page_type == old(left).base.page_type,
            right.base.page_type == old(right).base.page_type,
            l0 == old(left)@,
            r0 == old(right)@,
            leaf_fits(t, left@),
            leaf_fits(t, right@),
            t.leaf_max < u32::MAX,
            t.leaf_max / 2 >= 1,
            sep_between(left@, right@, sep),
            same_shown(left@, right@, sep, l0, r0, sep),
            keys_from(left@, l0, r0),
            keys_from(right@, l0, r0),
            left@.next_leaf_id == l0.next_leaf_id,
            right@.next_leaf_id == r0.next_leaf_id,
            left_is_short ==> left@.keys.len() + 1 == t.leaf_max / 2 && right@.keys.len()
                >= t.leaf_max / 2,
            !left_is_short ==> right@.keys.len() + 1 == t.leaf_max / 2 && left@.keys.len()
                >= t.leaf_max / 2,
        decreases left@.keys.len() + right@.keys.len(),
    {
        let ghost l = left@;
        let ghost r = right@;
        proof {
            lemma_strict_is_sorted(l.keys);
            lemma_strict_is_sorted(r.keys);
        }
        let spare: bool = if left_is_short {
            !right.would_be_underfull() && !right.is_underfull()
        } else {
            !left.would_be_underfull() && !left.is_underfull()
        };
        if !spare {
            proof {
                lemma_merged_leaf(t, l, r, sep);
            }
            left.absorb_right(right);
            proof {
                lemma_keys_from_trans(left@, l, r, l0, r0);
                assert forall|k: Seq<u8>| #[trigger] leaf_lookup(left@, k) == shown(
                    l0,
                    r0,
                    sep,
                    k,
                ) by {
                    assert(shown(l, r, sep, k) == shown(l0, r0, sep, k));
                }
            }
            return true;
        }
        if left_is_short {
            match right.pop_first() {
                Some((key, rid, tombstoned)) => {
                    proof {
                        lemma_moved_left(t, l, r, sep, tombstoned);
                        lemma_keys_from_trans(right@, l, r, l0, r0);
                    }
                    if !tombstoned || left.tombstones.len() < left.tombstone_capacity {
                        left.push_back(key, rid, tombstoned);
                        proof {
                            lemma_keys_from_trans(left@, l, r, l0, r0);
                            lemma_same_shown_trans(
                                left@,
                                right@,
                                right@.keys[0],
                                l,
                                r,
                                sep,
                                l0,
                                r0,
                                sep,
                            );
                        }
                        return false;
                    }
                    proof {
                        lemma_same_shown_trans(left@, right@, sep, l, r, sep, l0, r0, sep);
                    }
                },
                None => {},
            }
        } else {
            proof {
                let n = l.keys.len() as int;
                lemma_last_slot_gone(l.tombstones, n - 1);
                assert(l.keys.drop_last() =~= l.keys.remove(n - 1));
                assert(l.record_ids.drop_last() =~= l.record_ids.remove(n - 1));
            }
            match left.pop_last() {
                Some((key, rid, tombstoned)) => {
                    proof {
                        lemma_moved_right(t, l, r, sep, tombstoned);
                        assert(left@ == entry_removed(l, l.keys.len() - 1));
                        lemma_keys_from_trans(left@, l, r, l0, r0);
                        assert(slots_below(r.tombstones, u32::MAX as int)) by {
                            assert forall|i: int| 0 <= i < r.tombstones.len() implies
                                #[trigger] r.tombstones[i] < u32::MAX by {
                                assert(r.tombstones[i] < r.keys.len());
                            }
                        }
                    }
                    if !tombstoned || right.tombstones.len() < right.tombstone_capacity {
                        right.push_front(key, rid, tombstoned);
                        proof {
                            lemma_keys_from_trans(right@, l, r, l0, r0);
                            lemma_same_shown_trans(
                                left@,
                                right@,
                                right@.keys[0],
                                l,
                                r,
                                sep,
                                l0,
                                r0,
                                sep,
                            );
                        }
                        return false;
                    }
                    proof {
                        lemma_same_shown_trans(left@, right@, sep, l, r, sep, l0, r0, sep);
                    }
                },
                None => {},
            }
        }
    }
}

proof fn lemma_keys_from_trans(
    v: LeafView,
    l: LeafView,
    r: LeafView,
    l0: LeafView,
    r0: LeafView,
)
    requires
        keys_from(v, l, r),
        keys_from(l, l0, r0),
        keys_from(r, l0, r0),
    ensures
        keys_from(v, l0, r0),
{
    assert forall|j: int| 0 <= j < v.keys.len() implies l0.keys.contains(#[trigger] v.keys[j])
        || r0.keys.contains(v.keys[j]) by {
        if l.keys.contains(v.keys[j]) {
            let i = choose|i: int| 0 <= i < l.keys.len() && l.keys[i] == v.keys[j];
            assert(l0.keys.contains(l.keys[i]) || r0.keys.contains(l.keys[i]));
        } else {
            let i = choose|i: int| 0 <= i < r.keys.len() && r.keys[i] == v.keys[j];
            assert(l0.keys.contains(r.keys[i]) || r0.keys.contains(r.keys[i]));
        }
    }
}

proof fn lemma_same_shown_trans(
    l2: LeafView,
    r2: LeafView,
    sep2: Seq<u8>,
    l1: LeafView,
    r1: LeafView,
    sep1: Seq<u8>,
    l0: LeafView,
    r0: LeafView,
    sep0: Seq<u8>,
)
    requires
        same_shown(l2, r2, sep2, l1, r1, sep1),
        same_shown(l1, r1, sep1, l0, r0, sep0),
    ensures
        same_shown(l2, r2, sep2, l0, r0, sep0),
{
    assert forall|k: Seq<u8>| #[trigger] shown(l2, r2, sep2, k) == shown(l0, r0, sep0, k) by {
        assert(shown(l1, r1, sep1, k) == shown(l0, r0, sep0, k));
    }
}

/// Fills up one of two neighbouring nodes, which `sep` parts: with a child of the other one,
/// where that can spare it, else by joining both on the left page. Returns the key that parts
/// them afterwards; `None` where they were joined.
pub(crate) fn balance_nodes(
    left: &mut InternalPage,
    right: &mut InternalPage,
    sep: IndexKey,
    left_is_short: bool,
    Ghost(t): Ghost<TreeShape>,
) -> (res: Option<IndexKey>)
    requires
        internal_fits(t, old(left)@),
        internal_fits(t, old(right)@),
        t.internal_max < u32::MAX,
        sep@.len() == t.key_len,
        strictly_sorted(old(left)@.keys.push(sep@) + old(right)@.keys),
        ({
            let min = (t.internal_max / 2) as int;
            let short = if left_is_short {
                old(left)@.keys.len()
            } else {
                old(right)@.keys.len()
            };
            let other = if left_is_short {
                old(right)@.keys.len()
            } else {
                old(left)@.keys.len()
            };
            &&& min >= 1
            &&& short + 1 == min
            &&& other >= min
        }),
    ensures
        internal_fits(t, final(left)@),
        final(left)@.keys.len() >= t.internal_max / 2,
        ({
            let cs = old(left)@.children + old(right)@.children;
            let ks = old(left)@.keys.push(sep@) + old(right)@.keys;
            match res {
                None => final(left)@.children == cs && final(left)@.keys == ks,
                Some(s) => {
                    let mid = final(left)@.keys.len() as int;
                    &&& internal_fits(t, final(right)@)
                    &&& final(right)@.keys.len() >= t.internal_max / 2
                    &&& mid < ks.len()
                    &&& s@ == ks[mid]
                    &&& final(left)@.children == cs.subrange(0, mid + 1)
                    &&& final(left)@.keys == ks.subrange(0, mid)
                    &&& final(right)@.children == cs.subrange(mid + 1, cs.len() as int)
                    &&& final(right)@.keys == ks.subrange(mid + 1, ks.len() as int)
                },
            }
        }),
{
    let ghost l = left@;
    let ghost r = right@;
    let ghost cs = l.children + r.children;
    let ghost ks = l.keys.push(sep@) + r.keys;
    let ghost n = l.keys.len() as int;
    proof {
        assert(keys_have_len(ks, t.key_len)) by {
            assert forall|j: int| 0 <= j < ks.len() implies (#[trigger] ks[j]).len()
                == t.key_len by {
                if j < n {
                    assert(ks[j] == l.keys[j]);
                } else if j > n {
                    assert(ks[j] == r.keys[j - n - 1]);
                }
            }
        }
        lemma_strict_is_sorted(l.keys);
        lemma_strict_is_sorted(r.keys);
        lemma_strict_is_sorted(ks);
    }
    let spare: bool = if left_is_short {
        !right.would_be_underfull() && !right.is_underfull()
    } else {
        !left.would_be_underfull() && !left.is_underfull()
    };
    if !spare {
        left.absorb_right(sep, right);
        return None;
    }
    if left_is_short {
        proof {
            law_internal_shrinks(right@, 0);
        }
        let (rotated_key, rotated_child) = right.pop_first_child_and_key();
        proof {
            let mid = n + 1;
            assert(l.keys.push(sep@) =~= ks.subrange(0, mid));
            assert(l.children.push(rotated_child) =~= cs.subrange(0, mid + 1));
            assert(r.keys.drop_first() =~= ks.subrange(mid + 1, ks.len() as int));
            assert(r.children.drop_first() =~= cs.subrange(mid + 1, cs.len() as int));
            lemma_fitting_part(t, ks, 0, mid);
            lemma_fitting_part(t, ks, mid + 1, ks.len() as int);
            lemma_strict_is_sorted(ks.subrange(0, mid));
        }
        left.append_key_and_child(sep, rotated_child);
        Some(rotated_key)
    } else {
        proof {
            law_internal_shrinks(left@, 0);
        }
        let (rotated_key, rotated_child) = left.pop_last_child_and_key();
        proof {
            let mid = n - 1;
            assert(l.keys.drop_last() =~= ks.subrange(0, mid));
            assert(l.children.drop_last() =~= cs.subrange(0, mid + 1));
            assert(r.keys.insert(0, sep@) =~= ks.subrange(mid + 1, ks.len() as int));
            assert(r.children.insert(0, rotated_child) =~= cs.subrange(mid + 1, cs.len() as int));
            lemma_fitting_part(t, ks, 0, mid);
            lemma_fitting_part(t, ks, mid + 1, ks.len() as int);
            lemma_strict_is_sorted(ks.subrange(mid + 1, ks.len() as int));
        }
        right.prepend_child_and_key(sep, rotated_child);
        Some(rotated_key)
    }
}

proof fn lemma_fitting_part(t: TreeShape, keys: Seq<Seq<u8>>, a: int, b: int)
    requires
        strictly_sorted(keys),
        keys_have_len(keys, t.key_len),
        0 <= a <= b <= keys.len(),
    ensures
        strictly_sorted(keys.subrange(a, b)),
        keys_have_len(keys.subrange(a, b), t.key_len),
{
    let s = keys.subrange(a, b);
    assert forall|i: int, j: int| 0 <= i < j < s.len() implies key_lt(
        #[trigger] s[i],
        #[trigger] s[j],
    ) by {
        assert(key_lt(keys[a + i], keys[a + j]));
    }
    assert forall|j: int| 0 <= j < s.len() implies (#[trigger] s[j]).len() == t.key_len by {
        assert(s[j] == keys[a + j]);
    }
}

} // verus!
