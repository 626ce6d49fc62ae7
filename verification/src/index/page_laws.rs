//! What fits on a page, and in which order a leaf forgets what was deleted.
use vstd::prelude::*;

use crate::catalog::index_schema::{key_lt, lemma_key_order};
use crate::disk::PAGE_SIZE;
use crate::index::b_plus_page::{
    entry_appended, entry_prepended, entry_removed, first_not_before, internal_max_size,
    leaf_inserted, leaf_max_size, leaf_removed, leaf_split_left, leaf_split_right, leaves_joined,
    oldest_evicted, shifted_down, slot_of, slots_below, slots_left, slots_right, tombstone_room,
    tombstones_trimmed, without_slot, LeafView, INTERNAL_FIXED_HEADER_BYTES,
    LEAF_FIXED_HEADER_BYTES, PAGE_ID_ENCODED_BYTES, RECORD_ID_ENCODED_BYTES,
    TOMBSTONE_SLOT_ENCODED_BYTES,
};
use crate::index::leaf_laws::{
    law_leaf_insert, law_oldest_evicted, lemma_lookup, lemma_lower_bound_exists, lemma_slot_at,
    proper,
};
use crate::table_heap::RecordId;

verus! {

/// The bytes of an internal page with `n` keys and one child more.
pub open spec fn internal_bytes(key_len: int, n: int) -> int {
    INTERNAL_FIXED_HEADER_BYTES + n * key_len + (n + 1) * PAGE_ID_ENCODED_BYTES
}

/// The bytes of a leaf page with `n` entries and `t` tombstones.
pub open spec fn leaf_bytes(key_len: int, n: int, t: int) -> int {
    LEAF_FIXED_HEADER_BYTES + n * (key_len + RECORD_ID_ENCODED_BYTES)
        + TOMBSTONE_SLOT_ENCODED_BYTES + t * TOMBSTONE_SLOT_ENCODED_BYTES
}

/// An internal page takes as many keys as fit with one child more than there are keys, and a leaf
/// as many entries as fit beside an empty list of tombstones.
pub proof fn law_page_sizes(key_len: int, n: u32)
    requires
        0 <= key_len <= u32::MAX,
    ensures
        internal_max_size(key_len) == Some(n) <==> key_len > 0 && n > 0 && internal_bytes(
            key_len,
            n as int,
        ) <= PAGE_SIZE < internal_bytes(key_len, n + 1),
        leaf_max_size(key_len) == Some(n) <==> key_len > 0 && n > 0 && leaf_bytes(
            key_len,
            n as int,
            0,
        ) <= PAGE_SIZE < leaf_bytes(key_len, n + 1, 0),
        internal_max_size(key_len) is None <==> key_len == 0 || internal_bytes(key_len, 1)
            > PAGE_SIZE,
        leaf_max_size(key_len) is None <==> key_len == 0 || leaf_bytes(key_len, 1, 0) > PAGE_SIZE,
{
    let a = PAGE_SIZE - INTERNAL_FIXED_HEADER_BYTES - PAGE_ID_ENCODED_BYTES;
    let d = key_len + PAGE_ID_ENCODED_BYTES;
    lemma_quotient(a as int, d, n as int);
    lemma_quotient(a as int, d, 0);
    let b = PAGE_SIZE - LEAF_FIXED_HEADER_BYTES - TOMBSTONE_SLOT_ENCODED_BYTES;
    let e = key_len + RECORD_ID_ENCODED_BYTES;
    lemma_quotient(b as int, e, n as int);
    lemma_quotient(b as int, e, 0);
    assert(internal_bytes(key_len, n as int) == INTERNAL_FIXED_HEADER_BYTES + PAGE_ID_ENCODED_BYTES
        + n * d) by (nonlinear_arith)
        requires
            d == key_len + PAGE_ID_ENCODED_BYTES,
            internal_bytes(key_len, n as int) == INTERNAL_FIXED_HEADER_BYTES + n * key_len + (n + 1)
                * PAGE_ID_ENCODED_BYTES,
    ;
    assert(internal_bytes(key_len, n + 1) == INTERNAL_FIXED_HEADER_BYTES + PAGE_ID_ENCODED_BYTES
        + (n + 1) * d) by (nonlinear_arith)
        requires
            d == key_len + PAGE_ID_ENCODED_BYTES,
            internal_bytes(key_len, n + 1) == INTERNAL_FIXED_HEADER_BYTES + (n + 1) * key_len + (n
                + 1 + 1) * PAGE_ID_ENCODED_BYTES,
    ;
}

proof fn lemma_quotient(a: int, d: int, n: int)
    requires
        0 <= a,
        0 < d,
        0 <= n,
    ensures
        a / d == n <==> n * d <= a < (n + 1) * d,
        0 <= a / d <= a,
{
    let q = a / d;
    assert(q * d <= a < (q + 1) * d && 0 <= q <= a) by (nonlinear_arith)
        requires
            q == a / d,
            0 < d,
            0 <= a,
    ;
    if n * d <= a < (n + 1) * d {
        assert(n == q) by (nonlinear_arith)
            requires
                n * d <= a < (n + 1) * d,
                q * d <= a < (q + 1) * d,
                0 < d,
        ;
    }
}

/// A leaf has room for as many tombstones as are asked for, as far as they fit on the page behind
/// its entries.
pub proof fn law_tombstone_room(max_size: int, key_len: int, requested: int)
    requires
        0 < key_len,
        0 <= max_size,
        0 <= requested,
        leaf_bytes(key_len, max_size, 0) <= PAGE_SIZE,
    ensures
        ({
            let t = tombstone_room(max_size, key_len, requested);
            &&& 0 <= t <= requested
            &&& leaf_bytes(key_len, max_size, t) <= PAGE_SIZE
            &&& t < requested ==> leaf_bytes(key_len, max_size, t + 1) > PAGE_SIZE
        }),
{
}

/// The keys but for one, in order.
pub open spec fn others(keys: Seq<Seq<u8>>, key: Seq<u8>) -> Seq<Seq<u8>> {
    keys.filter(|k: Seq<u8>| k != key)
}

/// The keys of the entries that were deleted and are still on the leaf, the oldest first.
pub open spec fn deleted_keys(v: LeafView) -> Seq<Seq<u8>> {
    Seq::new(v.tombstones.len(), |i: int| v.keys[v.tombstones[i] as int])
}

proof fn lemma_down_slots(t: Seq<u32>, at: int)
    requires
        0 <= at <= u32::MAX,
        !t.contains(at as u32),
    ensures
        shifted_down(t, at).len() == t.len(),
        forall|i: int|
            0 <= i < t.len() ==> #[trigger] shifted_down(t, at)[i] == if t[i] > at {
                t[i] - 1
            } else {
                t[i] as int
            },
    decreases t.len(),
{
    if t.len() > 0 {
        let rest = t.drop_last();
        assert(!rest.contains(at as u32)) by {
            if rest.contains(at as u32) {
                let k = choose|k: int| 0 <= k < rest.len() && rest[k] == at as u32;
                assert(t[k] == at as u32);
            }
        }
        assert(t.contains(t.last())) by {
            assert(t[t.len() - 1] == t.last());
        }
        lemma_down_slots(rest, at);
    }
}

/// Taking out an entry that was not deleted forgets nothing that was.
proof fn lemma_removed_deleted(v: LeafView, at: int)
    requires
        slots_below(v.tombstones, v.keys.len() as int),
        0 <= at < v.keys.len() <= u32::MAX,
        !v.tombstones.contains(at as u32),
    ensures
        deleted_keys(entry_removed(v, at)) == deleted_keys(v),
{
    lemma_down_slots(v.tombstones, at);
    let w = entry_removed(v, at);
    assert forall|i: int| 0 <= i < v.tombstones.len() implies deleted_keys(w)[i] == deleted_keys(
        v,
    )[i] by {
        assert(v.tombstones[i] < v.keys.len());
        assert(v.tombstones.contains(v.tombstones[i]));
        assert(w.tombstones[i] == if v.tombstones[i] > at {
            v.tombstones[i] - 1
        } else {
            v.tombstones[i] as int
        });
    }
    assert(deleted_keys(w) =~= deleted_keys(v));
}

proof fn lemma_oldest(v: LeafView)
    requires
        proper(v),
        v.tombstones.len() > 0,
        v.keys.len() <= u32::MAX,
    ensures
        deleted_keys(oldest_evicted(v)) == deleted_keys(v).drop_first(),
        oldest_evicted(v).keys == v.keys.remove(v.tombstones[0] as int),
{
    let v1 = LeafView { tombstones: v.tombstones.drop_first(), ..v };
    let s = v.tombstones[0];
    assert(s < v.keys.len());
    assert(!v1.tombstones.contains(s)) by {
        if v1.tombstones.contains(s) {
            let k = choose|k: int| 0 <= k < v1.tombstones.len() && v1.tombstones[k] == s;
            assert(v.tombstones[k + 1] == v.tombstones[0]);
        }
    }
    assert(slots_below(v1.tombstones, v1.keys.len() as int)) by {
        assert forall|i: int| 0 <= i < v1.tombstones.len() implies #[trigger] v1.tombstones[i]
            < v1.keys.len() by {
            assert(v.tombstones[i + 1] < v.keys.len());
        }
    }
    lemma_removed_deleted(v1, s as int);
    assert(deleted_keys(v1) =~= deleted_keys(v).drop_first());
}

/// A deleted key is the youngest of those that are still on the leaf. Where there is no room for
/// it, the entry that was deleted longest ago leaves the leaf; where there is no room for any, the
/// entry leaves at once. No other entry leaves.
pub proof fn law_deletion_order(v: LeafView, key: Seq<u8>)
    requires
        proper(v),
        v.keys.len() <= u32::MAX,
        v.tombstones.len() <= v.capacity,
    ensures
        leaf_removed(v, key) matches Some(w) ==> {
            let gone = deleted_keys(v);
            if v.capacity == 0 {
                w.keys == others(v.keys, key) && deleted_keys(w) == gone
            } else if v.tombstones.len() == v.capacity {
                w.keys == others(v.keys, gone[0]) && deleted_keys(w)
                    == gone.drop_first().push(key)
            } else {
                w.keys == v.keys && deleted_keys(w) == gone.push(key)
            }
        },
{
    if leaf_removed(v, key) is Some {
        lemma_lookup(v, key);
        let w = leaf_removed(v, key)->0;
        let i = slot_of(v.keys, key)->0;
        assert(v.keys[i] == key);
        if v.capacity == 0 {
            lemma_removed_deleted(v, i);
            lemma_without_key(v, i);
        } else if v.tombstones.len() == v.capacity {
            let s = v.tombstones[0];
            lemma_oldest(v);
            assert(s < v.keys.len());
            assert(v.tombstones.contains(s));
            lemma_without_key(v, s as int);
            let u = oldest_evicted(v);
            let slot = if s < i {
                i - 1
            } else {
                i
            };
            assert(u.keys[slot] == key);
            assert(deleted_keys(w) =~= deleted_keys(u).push(key)) by {
                assert forall|k: int| 0 <= k < u.tombstones.len() implies deleted_keys(w)[k]
                    == deleted_keys(u)[k] by {}
            }
        } else {
            assert(deleted_keys(w) =~= deleted_keys(v).push(key));
        }
    }
}

/// The keys of a leaf without one of them.
proof fn lemma_without_key(v: LeafView, at: int)
    requires
        proper(v),
        0 <= at < v.keys.len(),
    ensures
        v.keys.remove(at) == others(v.keys, v.keys[at]),
{
    lemma_key_order();
    lemma_filter_one(v.keys, at, v.keys.len() as int);
    assert(v.keys.subrange(0, v.keys.len() as int) =~= v.keys);
}

proof fn lemma_filter_one(keys: Seq<Seq<u8>>, at: int, n: int)
    requires
        0 <= at < keys.len(),
        0 <= n <= keys.len(),
        forall|i: int| 0 <= i < keys.len() && i != at ==> #[trigger] keys[i] != keys[at],
    ensures
        others(keys.subrange(0, n), keys[at]) == if n <= at {
            keys.subrange(0, n)
        } else {
            keys.subrange(0, n).remove(at)
        },
    decreases n,
{
    reveal(Seq::filter);
    if n > 0 {
        lemma_filter_one(keys, at, n - 1);
        assert(keys.subrange(0, n).drop_last() =~= keys.subrange(0, n - 1));
        if n - 1 < at {
            assert(keys.subrange(0, n - 1).push(keys[n - 1]) =~= keys.subrange(0, n));
        } else if n - 1 > at {
            assert(keys.subrange(0, n - 1).remove(at).push(keys[n - 1]) =~= keys.subrange(
                0,
                n,
            ).remove(at));
        } else {
            assert(keys.subrange(0, n).remove(at) =~= keys.subrange(0, n - 1));
        }
    } else {
        assert(keys.subrange(0, 0) =~= Seq::empty());
    }
}

/// The leaf gives up what was deleted longest ago until the rest fits.
pub proof fn law_trimming_order(v: LeafView)
    requires
        proper(v),
    ensures
        deleted_keys(tombstones_trimmed(v)) == if v.tombstones.len() > v.capacity {
            deleted_keys(v).skip(v.tombstones.len() - v.capacity)
        } else {
            deleted_keys(v)
        },
    decreases v.tombstones.len(),
{
    if v.tombstones.len() > v.capacity {
        let u = oldest_evicted(v);
        law_oldest_evicted(v);
        lemma_oldest(v);
        law_trimming_order(u);
        let n = v.tombstones.len() - v.capacity;
        assert(deleted_keys(v).drop_first().skip(n - 1) =~= deleted_keys(v).skip(n));
        if n == 1 {
            assert(deleted_keys(v).drop_first() =~= deleted_keys(v).skip(1));
        }
    }
}

/// Of two leaves in one, what the left one deleted counts as older.
pub proof fn law_joining_order(l: LeafView, r: LeafView)
    requires
        proper(l),
        proper(r),
        l.keys.len() + r.keys.len() <= u32::MAX,
    ensures
        leaves_joined(l, r).keys == l.keys + r.keys,
        leaves_joined(l, r).record_ids == l.record_ids + r.record_ids,
        deleted_keys(leaves_joined(l, r)) == deleted_keys(l) + deleted_keys(r),
{
    let v = leaves_joined(l, r);
    assert forall|i: int| 0 <= i < v.tombstones.len() implies deleted_keys(v)[i] == (deleted_keys(l)
        + deleted_keys(r))[i] by {
        if i < l.tombstones.len() {
            assert(l.tombstones[i] < l.keys.len());
        } else {
            let k = i - l.tombstones.len();
            assert(r.tombstones[k] < r.keys.len());
        }
    }
    assert(deleted_keys(v) =~= deleted_keys(l) + deleted_keys(r));
}

/// A new entry at either end is the youngest of those deleted, where it is deleted.
pub proof fn law_borrowing_order(v: LeafView, key: Seq<u8>, rid: RecordId, tombstoned: bool)
    requires
        proper(v),
        v.keys.len() < u32::MAX,
    ensures
        ({
            let (a, b) = (
                entry_prepended(v, key, rid, tombstoned),
                entry_appended(v, key, rid, tombstoned),
            );
            let gone = if tombstoned {
                deleted_keys(v).push(key)
            } else {
                deleted_keys(v)
            };
            &&& a.keys == seq![key] + v.keys
            &&& a.record_ids == seq![rid] + v.record_ids
            &&& deleted_keys(a) == gone
            &&& b.keys == v.keys.push(key)
            &&& b.record_ids == v.record_ids.push(rid)
            &&& deleted_keys(b) == gone
        }),
{
    let (a, b) = (
        entry_prepended(v, key, rid, tombstoned),
        entry_appended(v, key, rid, tombstoned),
    );
    let gone = if tombstoned {
        deleted_keys(v).push(key)
    } else {
        deleted_keys(v)
    };
    assert(a.keys =~= seq![key] + v.keys);
    assert(a.record_ids =~= seq![rid] + v.record_ids);
    assert forall|i: int| 0 <= i < v.tombstones.len() implies deleted_keys(a)[i] == deleted_keys(
        v,
    )[i] && deleted_keys(b)[i] == deleted_keys(v)[i] by {
        assert(v.tombstones[i] < v.keys.len());
    }
    assert(deleted_keys(a) =~= gone);
    assert(deleted_keys(b) =~= gone);
}

proof fn lemma_split_slots(v: LeafView, mid: int, n: int)
    requires
        proper(v),
        0 <= mid <= v.keys.len(),
        0 < v.keys.len(),
        mid < v.keys.len(),
        0 <= n <= v.tombstones.len(),
    ensures
        ({
            let t = v.tombstones.subrange(0, n);
            let first = deleted_keys(LeafView { tombstones: t, ..v });
            let left = LeafView {
                keys: v.keys.subrange(0, mid),
                tombstones: slots_left(t, mid),
                ..v
            };
            let right = LeafView {
                keys: v.keys.subrange(mid, v.keys.len() as int),
                tombstones: slots_right(t, mid),
                ..v
            };
            &&& deleted_keys(left) == first.filter(|k: Seq<u8>| key_lt(k, v.keys[mid]))
            &&& deleted_keys(right) == first.filter(|k: Seq<u8>| !key_lt(k, v.keys[mid]))
        }),
    decreases n,
{
    reveal(Seq::filter);
    let t = v.tombstones.subrange(0, n);
    let first = deleted_keys(LeafView { tombstones: t, ..v });
    let (lk, rk) = (v.keys.subrange(0, mid), v.keys.subrange(mid, v.keys.len() as int));
    let left = deleted_keys(LeafView { keys: lk, tombstones: slots_left(t, mid), ..v });
    let right = deleted_keys(LeafView { keys: rk, tombstones: slots_right(t, mid), ..v });
    let p = |k: Seq<u8>| key_lt(k, v.keys[mid]);
    let q = |k: Seq<u8>| !key_lt(k, v.keys[mid]);
    if n == 0 {
        assert(left =~= first.filter(p));
        assert(right =~= first.filter(q));
    } else {
        lemma_split_slots(v, mid, n - 1);
        lemma_key_order();
        let u = v.tombstones.subrange(0, n - 1);
        assert(t.drop_last() =~= u);
        let before = deleted_keys(LeafView { tombstones: u, ..v });
        assert(first.drop_last() =~= before);
        let s = v.tombstones[n - 1];
        assert(t.last() == s);
        assert(s < v.keys.len());
        assert(first.last() == v.keys[s as int]);
        let l0 = deleted_keys(LeafView { keys: lk, tombstones: slots_left(u, mid), ..v });
        let r0 = deleted_keys(LeafView { keys: rk, tombstones: slots_right(u, mid), ..v });
        if s < mid {
            assert(key_lt(v.keys[s as int], v.keys[mid]));
            assert(left =~= l0.push(v.keys[s as int]));
            assert(right =~= r0);
        } else {
            assert(!key_lt(v.keys[s as int], v.keys[mid])) by {
                if s > mid {
                    assert(key_lt(v.keys[mid], v.keys[s as int]));
                }
            }
            assert(left =~= l0);
            assert(right =~= r0.push(v.keys[s as int]));
        }
        assert(first.filter(p) =~= if p(first.last()) {
            before.filter(p).push(first.last())
        } else {
            before.filter(p)
        });
        assert(first.filter(q) =~= if q(first.last()) {
            before.filter(q).push(first.last())
        } else {
            before.filter(q)
        });
    }
}

/// Of a split leaf each half keeps what was deleted of its own entries, in the same order.
pub proof fn law_splitting_order(v: LeafView, right_page_id: usize, right: LeafView)
    requires
        proper(v),
        v.keys.len() >= 2,
    ensures
        ({
            let l = leaf_split_left(v, right_page_id);
            let r = leaf_split_right(v, right);
            let sep = r.keys[0];
            &&& l.keys + r.keys == v.keys
            &&& l.record_ids + r.record_ids == v.record_ids
            &&& l.next_leaf_id == right_page_id
            &&& r.next_leaf_id == v.next_leaf_id
            &&& deleted_keys(l) == deleted_keys(v).filter(|k: Seq<u8>| key_lt(k, sep))
            &&& deleted_keys(r) == deleted_keys(v).filter(|k: Seq<u8>| !key_lt(k, sep))
        }),
{
    let l = leaf_split_left(v, right_page_id);
    let r = leaf_split_right(v, right);
    let mid = v.keys.len() as int / 2;
    lemma_split_slots(v, mid, v.tombstones.len() as int);
    assert(v.tombstones.subrange(0, v.tombstones.len() as int) =~= v.tombstones);
    assert(l.keys + r.keys =~= v.keys);
    assert(l.record_ids + r.record_ids =~= v.record_ids);
    assert(r.keys[0] == v.keys[mid]);
    let a = LeafView {
        keys: v.keys.subrange(0, mid),
        tombstones: slots_left(v.tombstones, mid),
        ..v
    };
    let b = LeafView {
        keys: v.keys.subrange(mid, v.keys.len() as int),
        tombstones: slots_right(v.tombstones, mid),
        ..v
    };
    assert(deleted_keys(l) =~= deleted_keys(a));
    assert(deleted_keys(r) =~= deleted_keys(b));
    assert(deleted_keys(LeafView { tombstones: v.tombstones, ..v }) =~= deleted_keys(v));
}

proof fn lemma_without_slot(t: Seq<u32>, slot: u32) -> (p: int)
    requires
        t.contains(slot),
    ensures
        0 <= p < t.len(),
        t[p] == slot,
        without_slot(t, slot) == t.remove(p),
    decreases t.len(),
{
    if t[0] == slot {
        assert(t.drop_first() =~= t.remove(0));
        0
    } else {
        let rest = t.drop_first();
        let k = choose|k: int| 0 <= k < t.len() && t[k] == slot;
        assert(rest[k - 1] == slot);
        let p = lemma_without_slot(rest, slot);
        assert(seq![t[0]] + rest.remove(p) =~= t.remove(p + 1));
        p + 1
    }
}

/// A key that comes back is no longer among those deleted, and its entry is where it was. A new
/// one goes to its place, and what was deleted stays so.
pub proof fn law_insertion_order(v: LeafView, key: Seq<u8>, rid: RecordId)
    requires
        proper(v),
        v.keys.len() < u32::MAX,
    ensures
        leaf_inserted(v, key, rid) matches Some(w) ==> {
            if v.keys.contains(key) {
                &&& w.keys == v.keys
                &&& exists|p: int|
                    0 <= p < deleted_keys(v).len() && #[trigger] deleted_keys(v)[p] == key
                        && deleted_keys(w) == deleted_keys(v).remove(p)
            } else {
                &&& others(w.keys, key) == v.keys
                &&& w.keys.len() == v.keys.len() + 1
                &&& deleted_keys(w) == deleted_keys(v)
            }
        },
{
    if leaf_inserted(v, key, rid) is Some {
        law_leaf_insert(v, key, rid);
        lemma_lookup(v, key);
        let w = leaf_inserted(v, key, rid)->0;
        match slot_of(v.keys, key) {
            Some(i) => {
                assert(v.keys[i] == key);
                let p = lemma_without_slot(v.tombstones, i as u32);
                assert(deleted_keys(v)[p] == key);
                assert(deleted_keys(w) =~= deleted_keys(v).remove(p));
            },
            None => {
                let at = first_not_before(v.keys, key);
                lemma_lower_bound_exists(v.keys, key);
                if v.keys.contains(key) {
                    let i = choose|i: int| 0 <= i < v.keys.len() && v.keys[i] == key;
                    lemma_slot_at(v.keys, i);
                }
                assert forall|i: int| 0 <= i < v.tombstones.len() implies deleted_keys(w)[i]
                    == deleted_keys(v)[i] by {
                    assert(v.tombstones[i] < v.keys.len());
                }
                assert(deleted_keys(w) =~= deleted_keys(v));
                assert(w.keys[at] == key);
                lemma_without_key(w, at);
                assert(w.keys.remove(at) =~= v.keys);
            },
        }
    }
}

} // verus!
