//! Index keys and their order.
use vstd::prelude::*;

use crate::table_heap::RecordId;

pub use crate::catalog::table_index::TableIndex;

verus! {

/// An encoded key. Keys are ordered byte by byte.
#[derive(Debug, PartialEq, Eq, PartialOrd, Ord)]
pub struct IndexKey(pub Vec<u8>);

#[derive(Debug, Clone, Copy, PartialEq, Eq)]
pub enum IndexValue {
    IndexValue(RecordId),
}

/// How a key stands to another one.
#[derive(Debug, Clone, Copy, PartialEq, Eq, Structural)]
pub enum KeyOrder {
    Less,
    Equal,
    Greater,
}

/// From position `i` on, `a` comes before `b` in lexicographic order.
pub open spec fn bytes_lt_from(a: Seq<u8>, b: Seq<u8>, i: int) -> bool
    decreases a.len() - i,
{
    if i < 0 || i >= b.len() {
        false
    } else if i >= a.len() {
        true
    } else if a[i] != b[i] {
        a[i] < b[i]
    } else {
        bytes_lt_from(a, b, i + 1)
    }
}

/// `a` comes before `b` in lexicographic order.
pub open spec fn key_lt(a: Seq<u8>, b: Seq<u8>) -> bool {
    bytes_lt_from(a, b, 0)
}

pub open spec fn key_le(a: Seq<u8>, b: Seq<u8>) -> bool {
    a == b || key_lt(a, b)
}

/// The keys of `keys` in the order they stand, each as its bytes.
pub open spec fn key_views(keys: Seq<IndexKey>) -> Seq<Seq<u8>> {
    keys.map_values(|k: IndexKey| k@)
}

/// No key comes after its successor.
pub open spec fn sorted(keys: Seq<Seq<u8>>) -> bool {
    forall|i: int, j: int| 0 <= i < j < keys.len() ==> key_le(#[trigger] keys[i], #[trigger] keys[j])
}

/// Every key comes before its successor.
pub open spec fn strictly_sorted(keys: Seq<Seq<u8>>) -> bool {
    forall|i: int, j: int| 0 <= i < j < keys.len() ==> key_lt(#[trigger] keys[i], #[trigger] keys[j])
}

/// The number of keys at the front that come before `key`.
pub open spec fn is_lower_bound(keys: Seq<Seq<u8>>, key: Seq<u8>, n: int) -> bool {
    &&& 0 <= n <= keys.len()
    &&& forall|i: int| 0 <= i < n ==> key_lt(#[trigger] keys[i], key)
    &&& forall|i: int| n <= i < keys.len() ==> key_le(key, #[trigger] keys[i])
}

/// The number of keys at the front that do not come after `key`.
pub open spec fn is_upper_bound(keys: Seq<Seq<u8>>, key: Seq<u8>, n: int) -> bool {
    &&& 0 <= n <= keys.len()
    &&& forall|i: int| 0 <= i < n ==> key_le(#[trigger] keys[i], key)
    &&& forall|i: int| n <= i < keys.len() ==> key_lt(key, #[trigger] keys[i])
}

impl View for IndexKey {
    type V = Seq<u8>;

    open spec fn view(&self) -> Seq<u8> {
        self.0@
    }
}

impl Clone for IndexKey {
    fn clone(&self) -> (res: Self)
        ensures
            res@ == self@,
    {
        IndexKey(vstd::slice::slice_to_vec(self.0.as_slice()))
    }
}

impl IndexKey {
    /// Where this key stands relative to `other`.
    pub fn compare(&self, other: &IndexKey) -> (res: KeyOrder)
        ensures
            res == KeyOrder::Less <==> key_lt(self@, other@),
            res == KeyOrder::Equal <==> self@ == other@,
            res == KeyOrder::Greater <==> key_lt(other@, self@),
    {
        let a = &self.0;
        let b = &other.0;
        let mut i: usize = 0;
        while i < a.len() && i < b.len()
            invariant
                i <= a@.len(),
                i <= b@.len(),
                a@ == self@,
                b@ == other@,
                forall|k: int| 0 <= k < i ==> #[trigger] a@[k] == b@[k],
                key_lt(a@, b@) == bytes_lt_from(a@, b@, i as int),
                key_lt(b@, a@) == bytes_lt_from(b@, a@, i as int),
            decreases a@.len() - i,
        {
            if a[i] < b[i] {
                return KeyOrder::Less;
            }
            if a[i] > b[i] {
                return KeyOrder::Greater;
            }
            i = i + 1;
        }
        if i < b.len() {
            KeyOrder::Less
        } else if i < a.len() {
            KeyOrder::Greater
        } else {
            assert(a@ =~= b@);
            KeyOrder::Equal
        }
    }

    pub fn same(&self, other: &IndexKey) -> (res: bool)
        ensures
            res == (self@ == other@),
    {
        match self.compare(other) {
            KeyOrder::Equal => true,
            _ => false,
        }
    }

    pub fn is_before(&self, other: &IndexKey) -> (res: bool)
        ensures
            res == key_lt(self@, other@),
    {
        match self.compare(other) {
            KeyOrder::Less => true,
            _ => false,
        }
    }
}

proof fn lemma_lt_from_irreflexive(a: Seq<u8>, i: int)
    ensures
        !bytes_lt_from(a, a, i),
    decreases a.len() - i,
{
    if 0 <= i < a.len() {
        lemma_lt_from_irreflexive(a, i + 1);
    }
}

proof fn lemma_lt_from_transitive(a: Seq<u8>, b: Seq<u8>, c: Seq<u8>, i: int)
    requires
        bytes_lt_from(a, b, i),
        bytes_lt_from(b, c, i),
    ensures
        bytes_lt_from(a, c, i),
    decreases a.len() - i,
{
    if i < a.len() && a[i] == b[i] && b[i] == c[i] {
        lemma_lt_from_transitive(a, b, c, i + 1);
    }
}

proof fn lemma_lt_from_total(a: Seq<u8>, b: Seq<u8>, i: int)
    requires
        0 <= i,
        i <= a.len(),
        i <= b.len(),
        forall|k: int| 0 <= k < i ==> #[trigger] a[k] == b[k],
    ensures
        bytes_lt_from(a, b, i) || bytes_lt_from(b, a, i) || a == b,
    decreases a.len() - i,
{
    if i < a.len() && i < b.len() {
        if a[i] == b[i] {
            lemma_lt_from_total(a, b, i + 1);
        }
    } else if a.len() == b.len() {
        assert(a =~= b);
    }
}

/// Keys are totally ordered: a key does not come before itself, the order is
/// transitive, and of two different keys one comes before the other.
pub proof fn lemma_key_order()
    ensures
        forall|a: Seq<u8>| !#[trigger] key_lt(a, a),
        forall|a: Seq<u8>, b: Seq<u8>, c: Seq<u8>|
            #[trigger] key_lt(a, b) && #[trigger] key_lt(b, c) ==> key_lt(a, c),
        forall|a: Seq<u8>, b: Seq<u8>| #[trigger] key_lt(a, b) || key_lt(b, a) || a == b,
{
    assert forall|a: Seq<u8>| !#[trigger] key_lt(a, a) by {
        lemma_lt_from_irreflexive(a, 0);
    }
    assert forall|a: Seq<u8>, b: Seq<u8>, c: Seq<u8>|
        #[trigger] key_lt(a, b) && #[trigger] key_lt(b, c) implies key_lt(a, c) by {
        lemma_lt_from_transitive(a, b, c, 0);
    }
    assert forall|a: Seq<u8>, b: Seq<u8>| #[trigger] key_lt(a, b) || key_lt(b, a) || a == b by {
        lemma_lt_from_total(a, b, 0);
    }
}

/// The number of keys of `keys` that come before `key`.
pub fn lower_bound(keys: &Vec<IndexKey>, key: &IndexKey) -> (n: usize)
    requires
        sorted(key_views(keys@)),
    ensures
        is_lower_bound(key_views(keys@), key@, n as int),
{
    let ghost kv = key_views(keys@);
    let mut lo: usize = 0;
    let mut hi: usize = keys.len();
    while lo < hi
        invariant
            lo <= hi <= keys@.len(),
            kv == key_views(keys@),
            sorted(kv),
            forall|i: int| 0 <= i < lo ==> key_lt(#[trigger] kv[i], key@),
            forall|i: int| hi <= i < kv.len() ==> key_le(key@, #[trigger] kv[i]),
        decreases hi - lo,
    {
        let mid: usize = lo + (hi - lo) / 2;
        proof {
            lemma_key_order();
            assert(kv[mid as int] == keys@[mid as int]@);
        }
        if keys[mid].is_before(key) {
            assert forall|i: int| 0 <= i < mid + 1 implies key_lt(#[trigger] kv[i], key@) by {
                if i < mid {
                    assert(key_le(kv[i], kv[mid as int]));
                }
            }
            lo = mid + 1;
        } else {
            assert forall|i: int| mid <= i < kv.len() implies key_le(key@, #[trigger] kv[i]) by {
                assert(key_lt(key@, kv[mid as int]) || key@ == kv[mid as int]);
                if i > mid {
                    assert(key_le(kv[mid as int], kv[i]));
                }
            }
            hi = mid;
        }
    }
    lo
}

/// The number of keys of `keys` that do not come after `key`.
pub fn upper_bound(keys: &Vec<IndexKey>, key: &IndexKey) -> (n: usize)
    requires
        sorted(key_views(keys@)),
    ensures
        is_upper_bound(key_views(keys@), key@, n as int),
{
    let ghost kv = key_views(keys@);
    let mut lo: usize = 0;
    let mut hi: usize = keys.len();
    while lo < hi
        invariant
            lo <= hi <= keys@.len(),
            kv == key_views(keys@),
            sorted(kv),
            forall|i: int| 0 <= i < lo ==> key_le(#[trigger] kv[i], key@),
            forall|i: int| hi <= i < kv.len() ==> key_lt(key@, #[trigger] kv[i]),
        decreases hi - lo,
    {
        let mid: usize = lo + (hi - lo) / 2;
        proof {
            lemma_key_order();
            assert(kv[mid as int] == keys@[mid as int]@);
        }
        if key.is_before(&keys[mid]) {
            assert forall|i: int| mid <= i < kv.len() implies key_lt(key@, #[trigger] kv[i]) by {
                if i > mid {
                    assert(key_le(kv[mid as int], kv[i]));
                }
            }
            hi = mid;
        } else {
            assert forall|i: int| 0 <= i < mid + 1 implies key_le(#[trigger] kv[i], key@) by {
                assert(key_lt(kv[mid as int], key@) || key@ == kv[mid as int]);
                if i < mid {
                    assert(key_le(kv[i], kv[mid as int]));
                }
            }
            lo = mid + 1;
        }
    }
    lo
}

} // verus!
