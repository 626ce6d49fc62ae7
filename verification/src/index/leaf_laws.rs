//! What the operations of a leaf page do to the entries that readers see.
use vstd::prelude::*;

use crate::catalog::index_schema::{
    is_lower_bound, key_le, key_lt, lemma_key_order, sorted, strictly_sorted,
};
use crate::index::b_plus_page::{
    entry_appended, entry_prepended, entry_removed, first_not_before, leaf_inserted, leaf_lookup,
    leaf_removed, leaf_split_left, leaf_split_right, leaves_joined, lemma_first_not_before,
    lemma_shifted_down, lemma_slots_split, lemma_without_last_slot, lemma_without_slot_bounds,
    oldest_evicted, shifted_down, shifted_up, slot_of, slots_below, slots_left, slots_right,
    tombstones_trimmed, without_slot, LeafView,
};
use crate::table_heap::RecordId;

verus! {

/// A leaf in which no key stands twice and no entry is marked as deleted twice.
pub open spec fn proper(v: LeafView) -> bool {
    &&& v.size == v.keys.len()
    &&& v.keys.len() == v.record_ids.len()
    &&& v.keys.len() <= u32::MAX
    &&& strictly_sorted(v.keys)
    &&& v.tombstones.no_duplicates()
    &&& slots_below(v.tombstones, v.keys.len() as int)
}

pub proof fn lemma_strict_is_sorted(keys: Seq<Seq<u8>>)
    requires
        strictly_sorted(keys),
    ensures
        sorted(keys),
{
}

/// Where a key stands in a leaf without repeated keys.
pub proof fn lemma_slot_at(keys: Seq<Seq<u8>>, i: int)
    requires
        strictly_sorted(keys),
        0 <= i < keys.len(),
    ensures
        slot_of(keys, keys[i]) == Some(i),
        is_lower_bound(keys, keys[i], i),
{
    assert(is_lower_bound(keys, keys[i], i)) by {
        assert forall|j: int| i <= j < keys.len() implies key_le(keys[i], #[trigger] keys[j]) by {
            if i < j {
                assert(key_lt(keys[i], keys[j]));
            }
        }
    }
    lemma_first_not_before(keys, keys[i], i);
}

/// A key that stands nowhere has no slot.
pub proof fn lemma_slot_none(keys: Seq<Seq<u8>>, key: Seq<u8>)
    requires
        forall|i: int| 0 <= i < keys.len() ==> #[trigger] keys[i] != key,
    ensures
        slot_of(keys, key) is None,
{
}

/// The record id that a leaf gives for a key, by slot.
pub proof fn lemma_lookup(v: LeafView, key: Seq<u8>)
    requires
        proper(v),
    ensures
        match leaf_lookup(v, key) {
            Some(r) => exists|i: int|
                0 <= i < v.keys.len() && #[trigger] v.keys[i] == key && v.record_ids[i] == r
                    && !v.tombstones.contains(i as u32),
            None => forall|i: int|
                0 <= i < v.keys.len() && #[trigger] v.keys[i] == key ==> v.tombstones.contains(
                    i as u32,
                ),
        },
        forall|i: int|
            0 <= i < v.keys.len() && #[trigger] v.keys[i] == key ==> leaf_lookup(v, key)
                == if v.tombstones.contains(i as u32) {
                None
            } else {
                Some(v.record_ids[i])
            },
{
    assert forall|i: int| 0 <= i < v.keys.len() && #[trigger] v.keys[i] == key implies leaf_lookup(
        v,
        key,
    ) == if v.tombstones.contains(i as u32) {
        None
    } else {
        Some(v.record_ids[i])
    } by {
        lemma_slot_at(v.keys, i);
    }
}

proof fn lemma_up_contains(t: Seq<u32>, at: int)
    requires
        slots_below(t, u32::MAX as int),
        0 <= at,
    ensures
        forall|x: u32| #[trigger]
            shifted_up(t, at).contains(x) <==> (x < at && t.contains(x)) || (x > at && t.contains(
                (x - 1) as u32,
            )),
        t.no_duplicates() ==> shifted_up(t, at).no_duplicates(),
        forall|n: int| #[trigger] slots_below(t, n) ==> slots_below(shifted_up(t, at), n + 1),
{
    let s = shifted_up(t, at);
    assert forall|x: u32| #[trigger] s.contains(x) <==> (x < at && t.contains(x)) || (x > at
        && t.contains((x - 1) as u32)) by {
        if s.contains(x) {
            let k = choose|k: int| 0 <= k < s.len() && s[k] == x;
            assert(t[k] < u32::MAX);
            assert(t.contains(t[k]));
        }
        if x < at && t.contains(x) {
            let k = choose|k: int| 0 <= k < t.len() && t[k] == x;
            assert(s[k] == x);
        }
        if x > at && t.contains((x - 1) as u32) {
            let k = choose|k: int| 0 <= k < t.len() && t[k] == (x - 1) as u32;
            assert(s[k] == x);
        }
    }
    if t.no_duplicates() {
        assert forall|i: int, j: int| 0 <= i < s.len() && 0 <= j < s.len() && i != j implies s[i]
            != s[j] by {
            assert(t[i] != t[j]);
            assert(t[i] < u32::MAX && t[j] < u32::MAX);
        }
    }
    assert forall|n: int| #[trigger] slots_below(t, n) implies slots_below(s, n + 1) by {
        assert forall|i: int| 0 <= i < s.len() implies #[trigger] s[i] < n + 1 by {
            assert(t[i] < n);
            assert(t[i] < u32::MAX);
        }
    }
}

proof fn lemma_push_contains(t: Seq<u32>, y: u32)
    ensures
        forall|x: u32| #[trigger] t.push(y).contains(x) <==> t.contains(x) || x == y,
        t.no_duplicates() && !t.contains(y) ==> t.push(y).no_duplicates(),
{
    let s = t.push(y);
    assert forall|x: u32| #[trigger] s.contains(x) <==> t.contains(x) || x == y by {
        if t.contains(x) {
            let k = choose|k: int| 0 <= k < t.len() && t[k] == x;
            assert(s[k] == x);
        }
        if x == y {
            assert(s[t.len() as int] == x);
        }
        if s.contains(x) {
            let k = choose|k: int| 0 <= k < s.len() && s[k] == x;
            if k < t.len() {
                assert(t[k] == x);
            }
        }
    }
    if t.no_duplicates() && !t.contains(y) {
        assert forall|i: int, j: int| 0 <= i < s.len() && 0 <= j < s.len() && i != j implies s[i]
            != s[j] by {
            if i < t.len() && j < t.len() {
                assert(t[i] != t[j]);
            } else if i < t.len() {
                assert(t.contains(t[i]));
            } else {
                assert(t.contains(t[j]));
            }
        }
    }
}

proof fn lemma_drop_last_contains(t: Seq<u32>)
    requires
        t.len() > 0,
    ensures
        forall|x: u32| #[trigger]
            t.contains(x) <==> t.drop_last().contains(x) || x == t.last(),
        t.no_duplicates() ==> t.drop_last().no_duplicates() && !t.drop_last().contains(t.last()),
{
    let s = t.drop_last();
    lemma_push_contains(s, t.last());
    assert(s.push(t.last()) =~= t);
    if t.no_duplicates() && s.contains(t.last()) {
        let k = choose|k: int| 0 <= k < s.len() && s[k] == t.last();
        assert(t[k] == t[t.len() - 1]);
    }
}

proof fn lemma_down_contains(t: Seq<u32>, at: int)
    requires
        0 <= at < u32::MAX,
    ensures
        forall|x: u32| #[trigger]
            shifted_down(t, at).contains(x) <==> (x < at && t.contains(x)) || (x >= at && x
                < u32::MAX && t.contains((x + 1) as u32)),
        t.no_duplicates() ==> shifted_down(t, at).no_duplicates(),
    decreases t.len(),
{
    let s = shifted_down(t, at);
    if t.len() > 0 {
        let rest = shifted_down(t.drop_last(), at);
        lemma_down_contains(t.drop_last(), at);
        lemma_drop_last_contains(t);
        let y = t.last();
        if y == at {
        } else if y > at {
            lemma_push_contains(rest, (y - 1) as u32);
        } else {
            lemma_push_contains(rest, y);
        }
    }
}

/// Taking an entry out hides that key and no other one.
pub proof fn law_entry_removed(v: LeafView, at: int)
    requires
        proper(v),
        0 <= at < v.keys.len(),
    ensures
        proper(entry_removed(v, at)),
        leaf_lookup(entry_removed(v, at), v.keys[at]) is None,
        forall|k: Seq<u8>|
            k != v.keys[at] ==> #[trigger] leaf_lookup(entry_removed(v, at), k) == leaf_lookup(
                v,
                k,
            ),
        entry_removed(v, at).keys.len() == v.keys.len() - 1,
        forall|j: int|
            0 <= j < v.keys.len() - 1 ==> #[trigger] entry_removed(v, at).keys[j] == v.keys[if j < at {
                j
            } else {
                j + 1
            }],
        !v.tombstones.contains(at as u32) ==> entry_removed(v, at).tombstones.len()
            == v.tombstones.len(),
        entry_removed(v, at).tombstones.len() <= v.tombstones.len(),
{
    let w = entry_removed(v, at);
    lemma_down_contains(v.tombstones, at);
    lemma_shifted_down(v.tombstones, at);
    assert(strictly_sorted(w.keys)) by {
        assert forall|i: int, j: int| 0 <= i < j < w.keys.len() implies key_lt(
            #[trigger] w.keys[i],
            #[trigger] w.keys[j],
        ) by {
            let a = if i < at { i } else { i + 1 };
            let b = if j < at { j } else { j + 1 };
            assert(key_lt(v.keys[a], v.keys[b]));
        }
    }
    assert(proper(w));
    lemma_key_order();
    assert forall|k: Seq<u8>| k != v.keys[at] implies #[trigger] leaf_lookup(w, k) == leaf_lookup(
        v,
        k,
    ) by {
        lemma_lookup(v, k);
        lemma_lookup(w, k);
        if exists|i: int| 0 <= i < v.keys.len() && #[trigger] v.keys[i] == k {
            let i = choose|i: int| 0 <= i < v.keys.len() && #[trigger] v.keys[i] == k;
            let j = if i < at { i } else { i - 1 };
            assert(w.keys[j] == k);
            assert(w.record_ids[j] == v.record_ids[i]);
            assert(w.tombstones.contains(j as u32) == v.tombstones.contains(i as u32));
        } else {
            lemma_slot_none(v.keys, k);
            assert forall|j: int| 0 <= j < w.keys.len() implies #[trigger] w.keys[j] != k by {
                let i = if j < at { j } else { j + 1 };
                assert(w.keys[j] == v.keys[i]);
            }
            lemma_slot_none(w.keys, k);
        }
    }
    assert forall|j: int| 0 <= j < w.keys.len() implies #[trigger] w.keys[j] != v.keys[at] by {
        let i = if j < at { j } else { j + 1 };
        assert(w.keys[j] == v.keys[i]);
        if i < at {
            assert(key_lt(v.keys[i], v.keys[at]));
        } else {
            assert(key_lt(v.keys[at], v.keys[i]));
        }
    }
    lemma_slot_none(w.keys, v.keys[at]);
}

/// Giving up the oldest tombstone changes nothing for readers.
pub proof fn law_oldest_evicted(v: LeafView)
    requires
        proper(v),
        v.tombstones.len() > 0,
    ensures
        proper(oldest_evicted(v)),
        forall|k: Seq<u8>| #[trigger] leaf_lookup(oldest_evicted(v), k) == leaf_lookup(v, k),
        oldest_evicted(v).tombstones.len() == v.tombstones.len() - 1,
        oldest_evicted(v).keys.len() == v.keys.len() - 1,
        forall|j: int|
            0 <= j < v.keys.len() - 1 ==> v.keys.contains(#[trigger] oldest_evicted(v).keys[j]),
{
    let s = v.tombstones[0];
    let v1 = LeafView { tombstones: v.tombstones.drop_first(), ..v };
    let w = oldest_evicted(v);
    assert(v.tombstones[0] < v.keys.len());
    assert forall|x: u32| x != s implies (#[trigger] v1.tombstones.contains(x)
        == v.tombstones.contains(x)) by {
        if v.tombstones.contains(x) {
            let k = choose|k: int| 0 <= k < v.tombstones.len() && v.tombstones[k] == x;
            assert(v1.tombstones[k - 1] == x);
        }
        if v1.tombstones.contains(x) {
            let k = choose|k: int| 0 <= k < v1.tombstones.len() && v1.tombstones[k] == x;
            assert(v.tombstones[k + 1] == x);
        }
    }
    assert(!v1.tombstones.contains(s)) by {
        if v1.tombstones.contains(s) {
            let k = choose|k: int| 0 <= k < v1.tombstones.len() && v1.tombstones[k] == s;
            assert(v.tombstones[k + 1] == v.tombstones[0]);
        }
    }
    assert(v1.tombstones.no_duplicates());
    assert(slots_below(v1.tombstones, v1.keys.len() as int));
    assert(proper(v1));
    law_entry_removed(v1, s as int);
    assert forall|k: Seq<u8>| #[trigger] leaf_lookup(w, k) == leaf_lookup(v, k) by {
        lemma_lookup(v, k);
        lemma_lookup(v1, k);
        if k == v.keys[s as int] {
            assert(v.tombstones.contains(s));
        } else if exists|i: int| 0 <= i < v.keys.len() && #[trigger] v.keys[i] == k {
            let i = choose|i: int| 0 <= i < v.keys.len() && #[trigger] v.keys[i] == k;
            assert(i != s);
            assert(v1.tombstones.contains(i as u32) == v.tombstones.contains(i as u32));
        } else {
            lemma_slot_none(v.keys, k);
        }
    }
    assert forall|j: int| 0 <= j < v.keys.len() - 1 implies v.keys.contains(
        #[trigger] w.keys[j],
    ) by {
        let i = if j < s { j } else { j + 1 };
        assert(w.keys[j] == v.keys[i]);
    }
}

/// After a key went in readers find it, and every other key is as before.
pub proof fn law_leaf_insert(v: LeafView, key: Seq<u8>, rid: RecordId)
    requires
        proper(v),
        v.keys.len() < u32::MAX,
    ensures
        leaf_inserted(v, key, rid) is None <==> leaf_lookup(v, key) is Some,
        leaf_inserted(v, key, rid) matches Some(w) ==> {
            &&& proper(w)
            &&& leaf_lookup(w, key) == Some(rid)
            &&& forall|k: Seq<u8>| k != key ==> #[trigger] leaf_lookup(w, k) == leaf_lookup(v, k)
            &&& forall|j: int|
                0 <= j < w.keys.len() ==> #[trigger] w.keys[j] == key || v.keys.contains(w.keys[j])
            &&& v.keys.len() <= w.keys.len() <= v.keys.len() + 1
            &&& w.tombstones.len() <= v.tombstones.len()
            &&& w.next_leaf_id == v.next_leaf_id
            &&& w.capacity == v.capacity
            &&& w.max_size == v.max_size
        },
{
    lemma_lookup(v, key);
    lemma_key_order();
    match slot_of(v.keys, key) {
        Some(i) => {
            if v.tombstones.contains(i as u32) {
                let w = leaf_inserted(v, key, rid)->0;
                lemma_without_slot_bounds(v.tombstones, i as u32);
                lemma_without_last_slot(v.tombstones, i as u32);
                assert(proper(w));
                lemma_lookup(w, key);
                assert(w.keys[i] == key);
                assert forall|k: Seq<u8>| k != key implies #[trigger] leaf_lookup(w, k)
                    == leaf_lookup(v, k) by {
                    lemma_lookup(v, k);
                    lemma_lookup(w, k);
                    if exists|j: int| 0 <= j < v.keys.len() && #[trigger] v.keys[j] == k {
                        let j = choose|j: int| 0 <= j < v.keys.len() && #[trigger] v.keys[j] == k;
                        assert(w.keys[j] == k);
                        assert(j != i);
                        assert(w.tombstones.contains(j as u32) == v.tombstones.contains(j as u32));
                    } else {
                        lemma_slot_none(v.keys, k);
                    }
                }
                assert forall|j: int| 0 <= j < w.keys.len() implies #[trigger] w.keys[j] == key
                    || v.keys.contains(w.keys[j]) by {
                    assert(v.keys[j] == w.keys[j]);
                }
            }
        },
        None => {
            let w = leaf_inserted(v, key, rid)->0;
            lemma_lower_bound_exists(v.keys, key);
            let at = first_not_before(v.keys, key);
            assert(is_lower_bound(v.keys, key, at));
            assert(slots_below(v.tombstones, u32::MAX as int));
            lemma_up_contains(v.tombstones, at);
            assert forall|i: int| at <= i < v.keys.len() implies key_lt(
                key,
                #[trigger] v.keys[i],
            ) by {
                assert(key_le(key, v.keys[i]));
                if v.keys[i] == key {
                    lemma_slot_at(v.keys, i);
                }
            }
            assert(strictly_sorted(w.keys)) by {
                assert forall|i: int, j: int| 0 <= i < j < w.keys.len() implies key_lt(
                    #[trigger] w.keys[i],
                    #[trigger] w.keys[j],
                ) by {
                    let a = if i < at { i } else { i - 1 };
                    let b = if j < at { j } else { j - 1 };
                    if i != at && j != at {
                        assert(key_lt(v.keys[a], v.keys[b]));
                    } else if i == at {
                        assert(key_lt(key, v.keys[b]));
                    } else {
                        assert(key_lt(v.keys[a], key));
                    }
                }
            }
            assert(slots_below(v.tombstones, v.keys.len() as int));
            assert(proper(w));
            lemma_lookup(w, key);
            assert(w.keys[at] == key);
            assert forall|k: Seq<u8>| k != key implies #[trigger] leaf_lookup(w, k) == leaf_lookup(
                v,
                k,
            ) by {
                lemma_lookup(v, k);
                lemma_lookup(w, k);
                if exists|i: int| 0 <= i < v.keys.len() && #[trigger] v.keys[i] == k {
                    let i = choose|i: int| 0 <= i < v.keys.len() && #[trigger] v.keys[i] == k;
                    let j = if i < at { i } else { i + 1 };
                    assert(w.keys[j] == k);
                    assert(w.record_ids[j] == v.record_ids[i]);
                    assert(w.tombstones.contains(j as u32) == v.tombstones.contains(i as u32));
                } else {
                    lemma_slot_none(v.keys, k);
                    assert forall|j: int| 0 <= j < w.keys.len() implies #[trigger] w.keys[j]
                        != k by {
                        if j != at {
                            let i = if j < at { j } else { j - 1 };
                            assert(w.keys[j] == v.keys[i]);
                        }
                    }
                    lemma_slot_none(w.keys, k);
                }
            }
            assert forall|j: int| 0 <= j < w.keys.len() implies #[trigger] w.keys[j] == key
                || v.keys.contains(w.keys[j]) by {
                if j != at {
                    let i = if j < at { j } else { j - 1 };
                    assert(w.keys[j] == v.keys[i]);
                }
            }
        },
    }
}

/// In a sorted list every key has its place.
pub proof fn lemma_lower_bound_exists(keys: Seq<Seq<u8>>, key: Seq<u8>)
    requires
        strictly_sorted(keys),
    ensures
        is_lower_bound(keys, key, first_not_before(keys, key)),
{
    let n = lemma_lower_bound_of(keys, key);
    lemma_first_not_before(keys, key, n);
}

proof fn lemma_lower_bound_of(keys: Seq<Seq<u8>>, key: Seq<u8>) -> (n: int)
    requires
        strictly_sorted(keys),
    ensures
        is_lower_bound(keys, key, n),
    decreases keys.len(),
{
    lemma_key_order();
    if keys.len() == 0 {
        0
    } else {
        let s = keys.drop_last();
        assert(strictly_sorted(s)) by {
            assert forall|i: int, j: int| 0 <= i < j < s.len() implies key_lt(
                #[trigger] s[i],
                #[trigger] s[j],
            ) by {
                assert(key_lt(keys[i], keys[j]));
            }
        }
        if key_lt(keys.last(), key) {
            assert forall|i: int| 0 <= i < keys.len() implies key_lt(#[trigger] keys[i], key) by {
                if i < keys.len() - 1 {
                    assert(key_lt(keys[i], keys[keys.len() - 1]));
                }
            }
            keys.len() as int
        } else {
            let n = lemma_lower_bound_of(s, key);
            assert forall|i: int| 0 <= i < n implies key_lt(#[trigger] keys[i], key) by {
                assert(s[i] == keys[i]);
            }
            assert forall|i: int| n <= i < keys.len() implies key_le(key, #[trigger] keys[i]) by {
                if i < s.len() {
                    assert(s[i] == keys[i]);
                }
            }
            n
        }
    }
}

/// After a key was deleted readers do not find it, and every other key is as before.
pub proof fn law_leaf_remove(v: LeafView, key: Seq<u8>)
    requires
        proper(v),
        v.tombstones.len() <= v.capacity,
    ensures
        leaf_removed(v, key) is None <==> leaf_lookup(v, key) is None,
        leaf_removed(v, key) matches Some(w) ==> {
            &&& proper(w)
            &&& w.tombstones.len() <= w.capacity
            &&& leaf_lookup(w, key) is None
            &&& forall|k: Seq<u8>| k != key ==> #[trigger] leaf_lookup(w, k) == leaf_lookup(v, k)
            &&& forall|j: int| 0 <= j < w.keys.len() ==> v.keys.contains(#[trigger] w.keys[j])
            &&& v.keys.len() - 1 <= w.keys.len() <= v.keys.len()
            &&& w.next_leaf_id == v.next_leaf_id
            &&& w.capacity == v.capacity
            &&& w.max_size == v.max_size
        },
{
    lemma_lookup(v, key);
    if leaf_removed(v, key) is Some {
        let i = slot_of(v.keys, key)->0;
        let w = leaf_removed(v, key)->0;
        if v.capacity == 0 {
            law_entry_removed(v, i);
            assert forall|j: int| 0 <= j < w.keys.len() implies v.keys.contains(
                #[trigger] w.keys[j],
            ) by {
                let a = if j < i { j } else { j + 1 };
                assert(w.keys[j] == v.keys[a]);
            }
        } else if v.tombstones.len() == v.capacity {
            let evicted = v.tombstones[0];
            assert(v.tombstones.contains(evicted));
            assert(evicted < v.keys.len());
            let u = oldest_evicted(v);
            law_oldest_evicted(v);
            let slot = if evicted < i { (i - 1) as u32 } else { i as u32 };
            assert(u.keys[slot as int] == key);
            lemma_lookup(u, key);
            assert(!u.tombstones.contains(slot));
            lemma_marked(u, slot);
        } else {
            lemma_marked(v, i as u32);
            assert forall|j: int| 0 <= j < w.keys.len() implies v.keys.contains(
                #[trigger] w.keys[j],
            ) by {
                assert(v.keys[j] == w.keys[j]);
            }
        }
    }
}

/// Marking an entry as deleted hides that key and no other one.
proof fn lemma_marked(v: LeafView, slot: u32)
    requires
        proper(v),
        slot < v.keys.len(),
        !v.tombstones.contains(slot),
    ensures
        ({
            let w = LeafView { tombstones: v.tombstones.push(slot), ..v };
            &&& proper(w)
            &&& leaf_lookup(w, v.keys[slot as int]) is None
            &&& forall|k: Seq<u8>|
                k != v.keys[slot as int] ==> #[trigger] leaf_lookup(w, k) == leaf_lookup(v, k)
        }),
{
    let w = LeafView { tombstones: v.tombstones.push(slot), ..v };
    lemma_push_contains(v.tombstones, slot);
    assert(slots_below(w.tombstones, w.keys.len() as int)) by {
        assert forall|k: int| 0 <= k < w.tombstones.len() implies #[trigger] w.tombstones[k]
            < w.keys.len() by {
            if k < v.tombstones.len() {
                assert(v.tombstones[k] < v.keys.len());
            }
        }
    }
    lemma_lookup(w, v.keys[slot as int]);
    assert(w.keys[slot as int] == v.keys[slot as int]);
    assert forall|k: Seq<u8>| k != v.keys[slot as int] implies #[trigger] leaf_lookup(w, k)
        == leaf_lookup(v, k) by {
        lemma_lookup(v, k);
        lemma_lookup(w, k);
        if exists|i: int| 0 <= i < v.keys.len() && #[trigger] v.keys[i] == k {
            let i = choose|i: int| 0 <= i < v.keys.len() && #[trigger] v.keys[i] == k;
            assert(w.keys[i] == k);
            assert(i != slot);
            assert(w.tombstones.contains(i as u32) == v.tombstones.contains(i as u32));
        } else {
            lemma_slot_none(v.keys, k);
        }
    }
}

proof fn lemma_split_contains(t: Seq<u32>, mid: int)
    requires
        0 <= mid <= u32::MAX,
    ensures
        forall|x: u32| #[trigger]
            slots_left(t, mid).contains(x) <==> t.contains(x) && x < mid,
        forall|x: u32| #[trigger]
            slots_right(t, mid).contains(x) <==> x + mid <= u32::MAX && t.contains(
                (x + mid) as u32,
            ),
        t.no_duplicates() ==> slots_left(t, mid).no_duplicates() && slots_right(
            t,
            mid,
        ).no_duplicates(),
    decreases t.len(),
{
    if t.len() > 0 {
        lemma_split_contains(t.drop_last(), mid);
        lemma_drop_last_contains(t);
        let y = t.last();
        if y < mid {
            lemma_push_contains(slots_left(t.drop_last(), mid), y);
        } else {
            lemma_push_contains(slots_right(t.drop_last(), mid), (y - mid) as u32);
        }
        assert forall|x: u32| #[trigger] slots_left(t, mid).contains(x) <==> t.contains(x) && x
            < mid by {
            assert(t.contains(x) <==> t.drop_last().contains(x) || x == y);
            assert(slots_left(t.drop_last(), mid).contains(x) <==> t.drop_last().contains(x) && x
                < mid);
        }
        assert forall|x: u32| #[trigger] slots_right(t, mid).contains(x) <==> x + mid <= u32::MAX
            && t.contains((x + mid) as u32) by {
            let z = (x + mid) as u32;
            assert(t.contains(z) <==> t.drop_last().contains(z) || z == y);
            assert(slots_right(t.drop_last(), mid).contains(x) <==> x + mid <= u32::MAX
                && t.drop_last().contains(z));
        }
    }
}

/// A key lies on the left of a separator in one part and on its right in the other: both
/// parts together show what the whole shows.
pub open spec fn parts_show(left: LeafView, right: LeafView, sep: Seq<u8>, v: LeafView) -> bool {
    forall|k: Seq<u8>| #[trigger]
        leaf_lookup(v, k) == if key_lt(k, sep) {
            leaf_lookup(left, k)
        } else {
            leaf_lookup(right, k)
        }
}

/// The two halves of a split leaf hold its entries, parted by the separator.
pub proof fn law_leaf_split(v: LeafView, right_page_id: usize, right: LeafView)
    requires
        proper(v),
        v.keys.len() >= 2,
    ensures
        ({
            let l = leaf_split_left(v, right_page_id);
            let r = leaf_split_right(v, right);
            let sep = r.keys[0];
            &&& proper(l)
            &&& proper(r)
            &&& l.keys.len() == v.keys.len() / 2
            &&& r.keys.len() == v.keys.len() - v.keys.len() / 2
            &&& parts_show(l, r, sep, v)
            &&& v.keys.contains(sep)
            &&& key_lt(v.keys[0], sep)
            &&& forall|j: int|
                0 <= j < l.keys.len() ==> key_lt(#[trigger] l.keys[j], sep) && v.keys.contains(
                    l.keys[j],
                )
            &&& forall|j: int|
                0 <= j < r.keys.len() ==> key_le(sep, #[trigger] r.keys[j]) && v.keys.contains(
                    r.keys[j],
                )
            &&& l.tombstones.len() <= v.tombstones.len()
            &&& r.tombstones.len() <= v.tombstones.len()
        }),
{
    let l = leaf_split_left(v, right_page_id);
    let r = leaf_split_right(v, right);
    let mid = v.keys.len() as int / 2;
    let sep = r.keys[0];
    lemma_key_order();
    lemma_split_contains(v.tombstones, mid);
    lemma_slots_split(v.tombstones, mid, v.keys.len() as int);
    assert(sep == v.keys[mid]);
    assert(key_lt(v.keys[0], v.keys[mid]));
    assert(strictly_sorted(l.keys)) by {
        assert forall|i: int, j: int| 0 <= i < j < l.keys.len() implies key_lt(
            #[trigger] l.keys[i],
            #[trigger] l.keys[j],
        ) by {
            assert(key_lt(v.keys[i], v.keys[j]));
        }
    }
    assert(strictly_sorted(r.keys)) by {
        assert forall|i: int, j: int| 0 <= i < j < r.keys.len() implies key_lt(
            #[trigger] r.keys[i],
            #[trigger] r.keys[j],
        ) by {
            assert(key_lt(v.keys[mid + i], v.keys[mid + j]));
        }
    }
    assert(proper(l));
    assert(proper(r));
    assert forall|j: int| 0 <= j < l.keys.len() implies key_lt(#[trigger] l.keys[j], sep)
        && v.keys.contains(l.keys[j]) by {
        assert(key_lt(v.keys[j], v.keys[mid]));
    }
    assert forall|j: int| 0 <= j < r.keys.len() implies key_le(sep, #[trigger] r.keys[j])
        && v.keys.contains(r.keys[j]) by {
        assert(r.keys[j] == v.keys[mid + j]);
        if j > 0 {
            assert(key_lt(v.keys[mid], v.keys[mid + j]));
        }
    }
    assert forall|k: Seq<u8>| #[trigger] leaf_lookup(v, k) == if key_lt(k, sep) {
        leaf_lookup(l, k)
    } else {
        leaf_lookup(r, k)
    } by {
        lemma_lookup(v, k);
        lemma_lookup(l, k);
        lemma_lookup(r, k);
        if exists|i: int| 0 <= i < v.keys.len() && #[trigger] v.keys[i] == k {
            let i = choose|i: int| 0 <= i < v.keys.len() && #[trigger] v.keys[i] == k;
            if i < mid {
                assert(key_lt(v.keys[i], v.keys[mid]));
                assert(l.keys[i] == k);
                assert(l.tombstones.contains(i as u32) == v.tombstones.contains(i as u32));
            } else {
                assert(r.keys[i - mid] == k);
                assert(key_le(sep, r.keys[i - mid]));
                assert(r.tombstones.contains((i - mid) as u32) == v.tombstones.contains(i as u32));
            }
        } else {
            lemma_slot_none(v.keys, k);
            assert forall|j: int| 0 <= j < l.keys.len() implies #[trigger] l.keys[j] != k by {
                assert(l.keys[j] == v.keys[j]);
            }
            assert forall|j: int| 0 <= j < r.keys.len() implies #[trigger] r.keys[j] != k by {
                assert(r.keys[j] == v.keys[mid + j]);
            }
            lemma_slot_none(l.keys, k);
            lemma_slot_none(r.keys, k);
        }
    }
}

/// Two leaves, parted by a separator, show the same as both in one.
pub proof fn law_leaves_joined(l: LeafView, r: LeafView, sep: Seq<u8>)
    requires
        proper(l),
        proper(r),
        l.keys.len() + r.keys.len() <= u32::MAX,
        forall|j: int| 0 <= j < l.keys.len() ==> key_lt(#[trigger] l.keys[j], sep),
        forall|j: int| 0 <= j < r.keys.len() ==> key_le(sep, #[trigger] r.keys[j]),
    ensures
        proper(leaves_joined(l, r)),
        parts_show(l, r, sep, leaves_joined(l, r)),
        leaves_joined(l, r).tombstones.len() == l.tombstones.len() + r.tombstones.len(),
{
    let v = leaves_joined(l, r);
    let n = l.keys.len() as int;
    lemma_key_order();
    let moved = r.tombstones.map_values(|s: u32| (s + l.keys.len()) as u32);
    assert forall|x: u32| #[trigger] v.tombstones.contains(x) <==> (x < n && l.tombstones.contains(
        x,
    )) || (x >= n && r.tombstones.contains((x - n) as u32)) by {
        if v.tombstones.contains(x) {
            let k = choose|k: int| 0 <= k < v.tombstones.len() && v.tombstones[k] == x;
            if k < l.tombstones.len() {
                assert(l.tombstones[k] == x);
            } else {
                let q = k - l.tombstones.len();
                assert(r.tombstones[q] < r.keys.len());
                assert(moved[q] == x);
                assert(r.tombstones.contains(r.tombstones[q]));
            }
        }
        if x < n && l.tombstones.contains(x) {
            let k = choose|k: int| 0 <= k < l.tombstones.len() && l.tombstones[k] == x;
            assert(v.tombstones[k] == x);
        }
        if x >= n && r.tombstones.contains((x - n) as u32) {
            let k = choose|k: int| 0 <= k < r.tombstones.len() && r.tombstones[k] == (x - n) as u32;
            assert(v.tombstones[l.tombstones.len() + k] == x);
        }
    }
    assert(slots_below(v.tombstones, v.keys.len() as int)) by {
        assert forall|i: int| 0 <= i < v.tombstones.len() implies #[trigger] v.tombstones[i]
            < v.keys.len() by {
            if i < l.tombstones.len() {
                assert(l.tombstones[i] < l.keys.len());
            } else {
                assert(r.tombstones[i - l.tombstones.len()] < r.keys.len());
            }
        }
    }
    assert(v.tombstones.no_duplicates()) by {
        assert forall|i: int, j: int|
            0 <= i < v.tombstones.len() && 0 <= j < v.tombstones.len() && i
                != j implies v.tombstones[i] != v.tombstones[j] by {
            let m = l.tombstones.len() as int;
            if i < m {
                assert(l.tombstones[i] < l.keys.len());
            } else {
                assert(r.tombstones[i - m] < r.keys.len());
            }
            if j < m {
                assert(l.tombstones[j] < l.keys.len());
            } else {
                assert(r.tombstones[j - m] < r.keys.len());
            }
            if i < m && j < m {
                assert(l.tombstones[i] != l.tombstones[j]);
            } else if i >= m && j >= m {
                assert(r.tombstones[i - m] != r.tombstones[j - m]);
            }
        }
    }
    assert(strictly_sorted(v.keys)) by {
        assert forall|i: int, j: int| 0 <= i < j < v.keys.len() implies key_lt(
            #[trigger] v.keys[i],
            #[trigger] v.keys[j],
        ) by {
            if j < n {
                assert(key_lt(l.keys[i], l.keys[j]));
            } else if i >= n {
                assert(key_lt(r.keys[i - n], r.keys[j - n]));
            } else {
                assert(key_lt(l.keys[i], sep));
                assert(key_le(sep, r.keys[j - n]));
            }
        }
    }
    assert(proper(v));
    assert forall|k: Seq<u8>| #[trigger] leaf_lookup(v, k) == if key_lt(k, sep) {
        leaf_lookup(l, k)
    } else {
        leaf_lookup(r, k)
    } by {
        lemma_lookup(v, k);
        lemma_lookup(l, k);
        lemma_lookup(r, k);
        if exists|i: int| 0 <= i < v.keys.len() && #[trigger] v.keys[i] == k {
            let i = choose|i: int| 0 <= i < v.keys.len() && #[trigger] v.keys[i] == k;
            if i < n {
                assert(l.keys[i] == k);
                assert(key_lt(l.keys[i], sep));
                assert(v.tombstones.contains(i as u32) == l.tombstones.contains(i as u32));
            } else {
                assert(r.keys[i - n] == k);
                assert(key_le(sep, r.keys[i - n]));
                assert(v.tombstones.contains(i as u32) == r.tombstones.contains((i - n) as u32));
            }
        } else {
            lemma_slot_none(v.keys, k);
            assert forall|j: int| 0 <= j < l.keys.len() implies #[trigger] l.keys[j] != k by {
                assert(l.keys[j] == v.keys[j]);
            }
            assert forall|j: int| 0 <= j < r.keys.len() implies #[trigger] r.keys[j] != k by {
                assert(r.keys[j] == v.keys[n + j]);
            }
            lemma_slot_none(l.keys, k);
            lemma_slot_none(r.keys, k);
        }
    }
}

/// Making the tombstones fit changes nothing for readers, and takes out one entry for each
/// tombstone too many.
pub proof fn law_tombstones_trimmed(v: LeafView)
    requires
        proper(v),
    ensures
        ({
            let w = tombstones_trimmed(v);
            &&& proper(w)
            &&& w.tombstones.len() <= w.capacity
            &&& forall|k: Seq<u8>| #[trigger] leaf_lookup(w, k) == leaf_lookup(v, k)
            &&& forall|j: int| 0 <= j < w.keys.len() ==> v.keys.contains(#[trigger] w.keys[j])
            &&& w.keys.len() == v.keys.len() - if v.tombstones.len() > v.capacity {
                v.tombstones.len() - v.capacity
            } else {
                0
            }
            &&& w.next_leaf_id == v.next_leaf_id
            &&& w.capacity == v.capacity
            &&& w.max_size == v.max_size
        }),
    decreases v.tombstones.len(),
{
    let w = tombstones_trimmed(v);
    if v.tombstones.len() > v.capacity {
        law_oldest_evicted(v);
        let u = oldest_evicted(v);
        law_tombstones_trimmed(u);
        assert forall|j: int| 0 <= j < w.keys.len() implies v.keys.contains(
            #[trigger] w.keys[j],
        ) by {
            assert(u.keys.contains(w.keys[j]));
            let i = choose|i: int| 0 <= i < u.keys.len() && u.keys[i] == w.keys[j];
            assert(v.keys.contains(u.keys[i]));
        }
    } else {
        assert forall|j: int| 0 <= j < w.keys.len() implies v.keys.contains(
            #[trigger] w.keys[j],
        ) by {
            assert(v.keys[j] == w.keys[j]);
        }
    }
}

/// A new last entry shows itself unless it is deleted, and hides nothing.
pub proof fn law_entry_appended(v: LeafView, key: Seq<u8>, rid: RecordId, tombstoned: bool)
    requires
        proper(v),
        v.keys.len() < u32::MAX,
        forall|j: int| 0 <= j < v.keys.len() ==> key_lt(#[trigger] v.keys[j], key),
    ensures
        ({
            let w = entry_appended(v, key, rid, tombstoned);
            &&& proper(w)
            &&& leaf_lookup(w, key) == if tombstoned {
                None
            } else {
                Some(rid)
            }
            &&& forall|k: Seq<u8>| k != key ==> #[trigger] leaf_lookup(w, k) == leaf_lookup(v, k)
        }),
{
    let w = entry_appended(v, key, rid, tombstoned);
    let n = v.keys.len() as int;
    lemma_key_order();
    assert(!v.tombstones.contains(n as u32)) by {
        if v.tombstones.contains(n as u32) {
            let k = choose|k: int| 0 <= k < v.tombstones.len() && v.tombstones[k] == n as u32;
            assert(v.tombstones[k] < v.keys.len());
        }
    }
    lemma_push_contains(v.tombstones, n as u32);
    assert(slots_below(w.tombstones, w.keys.len() as int)) by {
        assert forall|i: int| 0 <= i < w.tombstones.len() implies #[trigger] w.tombstones[i]
            < w.keys.len() by {
            if i < v.tombstones.len() {
                assert(v.tombstones[i] < v.keys.len());
            }
        }
    }
    assert(strictly_sorted(w.keys)) by {
        assert forall|i: int, j: int| 0 <= i < j < w.keys.len() implies key_lt(
            #[trigger] w.keys[i],
            #[trigger] w.keys[j],
        ) by {
            if j < n {
                assert(key_lt(v.keys[i], v.keys[j]));
            } else {
                assert(key_lt(v.keys[i], key));
            }
        }
    }
    assert(proper(w));
    lemma_lookup(w, key);
    assert(w.keys[n] == key);
    assert forall|k: Seq<u8>| k != key implies #[trigger] leaf_lookup(w, k) == leaf_lookup(
        v,
        k,
    ) by {
        lemma_lookup(v, k);
        lemma_lookup(w, k);
        if exists|i: int| 0 <= i < v.keys.len() && #[trigger] v.keys[i] == k {
            let i = choose|i: int| 0 <= i < v.keys.len() && #[trigger] v.keys[i] == k;
            assert(w.keys[i] == k);
            assert(w.tombstones.contains(i as u32) == v.tombstones.contains(i as u32));
        } else {
            lemma_slot_none(v.keys, k);
            assert forall|j: int| 0 <= j < w.keys.len() implies #[trigger] w.keys[j] != k by {
                if j < n {
                    assert(w.keys[j] == v.keys[j]);
                }
            }
            lemma_slot_none(w.keys, k);
        }
    }
}

/// A new first entry shows itself unless it is deleted, and hides nothing.
pub proof fn law_entry_prepended(v: LeafView, key: Seq<u8>, rid: RecordId, tombstoned: bool)
    requires
        proper(v),
        v.keys.len() < u32::MAX,
        forall|j: int| 0 <= j < v.keys.len() ==> key_lt(key, #[trigger] v.keys[j]),
    ensures
        ({
            let w = entry_prepended(v, key, rid, tombstoned);
            &&& proper(w)
            &&& leaf_lookup(w, key) == if tombstoned {
                None
            } else {
                Some(rid)
            }
            &&& forall|k: Seq<u8>| k != key ==> #[trigger] leaf_lookup(w, k) == leaf_lookup(v, k)
            &&& w.tombstones.len() == v.tombstones.len() + if tombstoned { 1int } else { 0int }
        }),
{
    let w = entry_prepended(v, key, rid, tombstoned);
    let moved = shifted_up(v.tombstones, 0);
    lemma_key_order();
    assert(slots_below(v.tombstones, u32::MAX as int)) by {
        assert forall|i: int| 0 <= i < v.tombstones.len() implies #[trigger] v.tombstones[i]
            < u32::MAX by {
            assert(v.tombstones[i] < v.keys.len());
        }
    }
    lemma_up_contains(v.tombstones, 0);
    lemma_push_contains(moved, 0);
    assert(slots_below(v.tombstones, v.keys.len() as int));
    assert(slots_below(moved, v.keys.len() as int + 1));
    assert(slots_below(w.tombstones, w.keys.len() as int)) by {
        assert forall|i: int| 0 <= i < w.tombstones.len() implies #[trigger] w.tombstones[i]
            < w.keys.len() by {
            if i < moved.len() {
                assert(moved[i] < v.keys.len() + 1);
            }
        }
    }
    assert(strictly_sorted(w.keys)) by {
        assert forall|i: int, j: int| 0 <= i < j < w.keys.len() implies key_lt(
            #[trigger] w.keys[i],
            #[trigger] w.keys[j],
        ) by {
            if i > 0 {
                assert(key_lt(v.keys[i - 1], v.keys[j - 1]));
            } else {
                assert(key_lt(key, v.keys[j - 1]));
            }
        }
    }
    assert(proper(w));
    lemma_lookup(w, key);
    assert(w.keys[0] == key);
    assert forall|k: Seq<u8>| k != key implies #[trigger] leaf_lookup(w, k) == leaf_lookup(
        v,
        k,
    ) by {
        lemma_lookup(v, k);
        lemma_lookup(w, k);
        if exists|i: int| 0 <= i < v.keys.len() && #[trigger] v.keys[i] == k {
            let i = choose|i: int| 0 <= i < v.keys.len() && #[trigger] v.keys[i] == k;
            assert(w.keys[i + 1] == k);
            assert(w.tombstones.contains((i + 1) as u32) == v.tombstones.contains(i as u32));
        } else {
            lemma_slot_none(v.keys, k);
            assert forall|j: int| 0 <= j < w.keys.len() implies #[trigger] w.keys[j] != k by {
                if j > 0 {
                    assert(w.keys[j] == v.keys[j - 1]);
                }
            }
            lemma_slot_none(w.keys, k);
        }
    }
}

/// Dropping the mark of the last slot is the same as taking that slot out.
pub proof fn lemma_last_slot_gone(t: Seq<u32>, last: int)
    requires
        t.no_duplicates(),
        slots_below(t, last + 1),
        0 <= last < u32::MAX,
    ensures
        without_slot(t, last as u32) == shifted_down(t, last),
        slots_below(without_slot(t, last as u32), last),
{
    lemma_without_last_slot(t, last as u32);
    if t.contains(last as u32) {
        lemma_gone_at(t, last);
    } else {
        lemma_gone_none(t, last);
    }
}

proof fn lemma_gone_none(t: Seq<u32>, last: int)
    requires
        slots_below(t, last + 1),
        !t.contains(last as u32),
        0 <= last < u32::MAX,
    ensures
        shifted_down(t, last) == t,
        without_slot(t, last as u32) == t,
    decreases t.len(),
{
    if t.len() > 0 {
        lemma_drop_last_contains(t);
        assert(t.contains(t.last()));
        assert(t[t.len() - 1] < last + 1);
        assert(slots_below(t.drop_last(), last + 1));
        lemma_gone_none(t.drop_last(), last);
        assert(t.drop_last().push(t.last()) =~= t);
    }
    lemma_without_absent(t, last as u32);
}

proof fn lemma_without_absent(t: Seq<u32>, x: u32)
    requires
        !t.contains(x),
    ensures
        without_slot(t, x) == t,
    decreases t.len(),
{
    if t.len() > 0 {
        assert(t.contains(t[0]));
        assert forall|y: u32| t.drop_first().contains(y) implies t.contains(y) by {
            let k = choose|k: int| 0 <= k < t.len() - 1 && t.drop_first()[k] == y;
            assert(t[k + 1] == y);
        }
        lemma_without_absent(t.drop_first(), x);
        assert(seq![t[0]] + t.drop_first() =~= t);
    }
}

proof fn lemma_gone_at(t: Seq<u32>, last: int)
    requires
        t.no_duplicates(),
        slots_below(t, last + 1),
        t.contains(last as u32),
        0 <= last < u32::MAX,
    ensures
        without_slot(t, last as u32) == shifted_down(t, last),
    decreases t.len(),
{
    let x = last as u32;
    lemma_drop_last_contains(t);
    let s = t.drop_last();
    assert(slots_below(s, last + 1));
    assert(t[t.len() - 1] < last + 1);
    if t.last() == x {
        lemma_gone_none(s, last);
        lemma_without_push(s, x, t.last());
        assert(s.push(t.last()) =~= t);
    } else {
        lemma_gone_at(s, last);
        lemma_without_push(s, x, t.last());
        assert(s.push(t.last()) =~= t);
    }
}

/// `without_slot` from the other end.
proof fn lemma_without_push(s: Seq<u32>, x: u32, y: u32)
    ensures
        without_slot(s.push(y), x) == if s.contains(x) {
            without_slot(s, x).push(y)
        } else if y == x {
            s
        } else {
            s.push(y)
        },
    decreases s.len(),
{
    let t = s.push(y);
    if s.len() == 0 {
        assert(t.drop_first() =~= s);
        assert(without_slot(s, x) == s);
        assert(seq![y] + s =~= t);
    } else {
        assert(t.drop_first() =~= s.drop_first().push(y));
        lemma_without_push(s.drop_first(), x, y);
        if s[0] == x {
            assert(s.contains(x));
        } else {
            assert(s.contains(x) == s.drop_first().contains(x)) by {
                if s.contains(x) {
                    let k = choose|k: int| 0 <= k < s.len() && s[k] == x;
                    assert(s.drop_first()[k - 1] == x);
                }
                if s.drop_first().contains(x) {
                    let k = choose|k: int|
                        0 <= k < s.drop_first().len() && s.drop_first()[k] == x;
                    assert(s[k + 1] == x);
                }
            }
            if s.drop_first().contains(x) {
                assert(seq![s[0]] + without_slot(s.drop_first(), x).push(y) =~= (seq![s[0]]
                    + without_slot(s.drop_first(), x)).push(y));
            } else if y == x {
                assert(seq![s[0]] + s.drop_first() =~= s);
            } else {
                assert(seq![s[0]] + s.drop_first().push(y) =~= t);
            }
        }
    }
}

} // verus!
