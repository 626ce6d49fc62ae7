//! In-memory form of the pages of a B+ tree.
use std::collections::VecDeque;
use vstd::prelude::*;

use crate::catalog::index_schema::{
    is_lower_bound, is_upper_bound, key_le, key_lt, key_views, lemma_key_order, lower_bound,
    sorted, upper_bound, IndexKey,
};
use crate::disk::PAGE_SIZE;
use crate::index::RemoveError;
use crate::table_heap::RecordId;

pub use crate::index::page_codec::{PageId, INVALID_PAGE_ID};
pub use crate::index::page_format::HeaderPage;

verus! {

/// The largest number of tombstones that a leaf keeps.
pub const NUM_TOMBSTONES: u32 = 256;

/// Each page id is stored as a u64.
pub const PAGE_ID_ENCODED_BYTES: usize = 8;

pub const RECORD_ID_ENCODED_BYTES: usize = 16;

pub const TOMBSTONE_SLOT_ENCODED_BYTES: usize = 4;

/// Common header, then size, max_size, child_count and a reserved word.
pub const INTERNAL_FIXED_HEADER_BYTES: usize = 24;

/// Common header, then size, max_size and next_leaf_id.
pub const LEAF_FIXED_HEADER_BYTES: usize = 24;

/// Common header, then key_len, a reserved word, root_page_id and first_leaf_id.
pub const HEADER_FIXED_HEADER_BYTES: usize = 32;

#[derive(Debug, Clone, Copy, PartialEq, Eq, Structural)]
pub enum PageType {
    Internal,
    Leaf,
}

#[derive(Debug)]
pub struct Base {
    pub page_type: PageType,
    pub size: u32,
    pub max_size: u32,
}

impl Base {
    pub fn new(page_type: PageType, max_size: u32) -> (res: Self)
        ensures
            res == (Base { page_type, size: 0, max_size }),
    {
        Self { page_type, size: 0, max_size }
    }

    pub fn is_leaf_page(&self) -> (res: bool)
        ensures
            res == (self.page_type == PageType::Leaf),
    {
        self.page_type == PageType::Leaf
    }

    pub fn min_size(&self) -> (res: u32)
        ensures
            res == self.max_size / 2,
    {
        self.max_size / 2
    }
}

pub enum Page {
    Internal(InternalPage),
    Leaf(LeafPage),
}

#[derive(Debug, Clone, Copy, PartialEq, Eq, Structural)]
pub enum PageKind {
    Internal,
    Leaf,
}

/// What an internal page holds.
#[verifier::ext_equal]
pub struct InternalView {
    pub children: Seq<PageId>,
    pub keys: Seq<Seq<u8>>,
    pub size: u32,
    pub max_size: u32,
}

/// One more than `max_size`, or the largest u32.
pub open spec fn size_limit(max_size: u32) -> int {
    if max_size == u32::MAX {
        u32::MAX as int
    } else {
        max_size + 1
    }
}

/// An internal page is empty, or its keys are sorted, separate its children, and
/// are at most one too many.
pub open spec fn valid_internal(v: InternalView) -> bool {
    ||| v.children.len() == 0 && v.keys.len() == 0
    ||| {
        &&& v.children.len() == v.keys.len() + 1
        &&& v.size == v.keys.len()
        &&& v.keys.len() <= size_limit(v.max_size)
        &&& sorted(v.keys)
    }
}

/// Which child to follow for `key`: the one behind all separators that do not come
/// after `key`.
pub open spec fn child_index(keys: Seq<Seq<u8>>, key: Seq<u8>) -> int {
    choose|n: int| is_upper_bound(keys, key, n)
}

pub proof fn lemma_child_index(keys: Seq<Seq<u8>>, key: Seq<u8>, n: int)
    requires
        is_upper_bound(keys, key, n),
    ensures
        child_index(keys, key) == n,
{
    lemma_key_order();
    let m = child_index(keys, key);
    assert(is_upper_bound(keys, key, m));
    if m < n {
        assert(key_le(keys[m], key));
        assert(key_lt(key, keys[m]));
    } else if n < m {
        assert(key_le(keys[n], key));
        assert(key_lt(key, keys[n]));
    }
}

/// The page after a separator with the child to its right went in.
pub open spec fn separator_inserted(v: InternalView, key: Seq<u8>, child: PageId) -> InternalView {
    let i = child_index(v.keys, key);
    InternalView {
        children: v.children.insert(i + 1, child),
        keys: v.keys.insert(i, key),
        size: (v.keys.len() + 1) as u32,
        max_size: v.max_size,
    }
}

/// The number of keys that fit on an internal page.
pub open spec fn internal_max_size(key_len: int) -> Option<u32> {
    let n = (PAGE_SIZE - INTERNAL_FIXED_HEADER_BYTES - PAGE_ID_ENCODED_BYTES) / (key_len
        + PAGE_ID_ENCODED_BYTES);
    if key_len == 0 || n == 0 {
        None
    } else {
        Some(n as u32)
    }
}

/// The number of entries that fit on a leaf page beside an empty tombstone section.
pub open spec fn leaf_max_size(key_len: int) -> Option<u32> {
    let n = (PAGE_SIZE - LEAF_FIXED_HEADER_BYTES - TOMBSTONE_SLOT_ENCODED_BYTES) / (key_len
        + RECORD_ID_ENCODED_BYTES);
    if key_len == 0 || n == 0 {
        None
    } else {
        Some(n as u32)
    }
}

#[derive(Debug)]
pub struct InternalPage {
    pub base: Base,
    /// The pages of the child nodes.
    pub children: Vec<PageId>,
    /// The separators: one fewer than there are children.
    pub keys: Vec<IndexKey>,
}

impl View for InternalPage {
    type V = InternalView;

    open spec fn view(&self) -> InternalView {
        InternalView {
            children: self.children@,
            keys: key_views(self.keys@),
            size: self.base.size,
            max_size: self.base.max_size,
        }
    }
}

/// No key of `keys` comes after its successor.
fn keys_sorted(keys: &Vec<IndexKey>) -> (res: bool)
    ensures
        res == sorted(key_views(keys@)),
{
    let ghost kv = key_views(keys@);
    let mut i: usize = 1;
    while i < keys.len()
        invariant
            1 <= i,
            keys@.len() > 0 ==> i <= keys@.len(),
            kv == key_views(keys@),
            forall|a: int, b: int|
                0 <= a < b < i && b < kv.len() ==> key_le(#[trigger] kv[a], #[trigger] kv[b]),
        decreases keys@.len() - i,
    {
        assert(kv[i as int] == keys@[i as int]@);
        assert(kv[i - 1] == keys@[i - 1]@);
        proof {
            lemma_key_order();
        }
        if keys[i].is_before(&keys[i - 1]) {
            assert(!key_le(kv[i - 1], kv[i as int]));
            return false;
        }
        assert(key_le(kv[i - 1], kv[i as int]));
        assert forall|a: int, b: int| 0 <= a < b < i + 1 && b < kv.len() implies key_le(
            #[trigger] kv[a],
            #[trigger] kv[b],
        ) by {
            if b == i && a < i - 1 {
                assert(key_le(kv[a], kv[i - 1]));
            }
        }
        i = i + 1;
    }
    true
}

impl InternalPage {
    pub fn new(max_size: u32) -> (res: Self)
        ensures
            res@ == (InternalView { children: seq![], keys: seq![], size: 0, max_size }),
            res.base.page_type == PageType::Internal,
    {
        let res = Self {
            base: Base::new(PageType::Internal, max_size),
            children: Vec::new(),
            keys: Vec::new(),
        };
        assert(res@.keys =~= seq![]);
        assert(res@.children =~= seq![]);
        res
    }

    /// The page id of the child at the given index.
    pub fn get_child(&self, idx: usize) -> (res: Option<&PageId>)
        ensures
            res == if idx < self.children@.len() {
                Some(&self.children@[idx as int])
            } else {
                None
            },
    {
        if idx < self.children.len() {
            Some(&self.children[idx])
        } else {
            None
        }
    }

    pub fn max_size_for_layout(key_len: usize) -> (res: Option<u32>)
        ensures
            res == internal_max_size(key_len as int),
    {
        if key_len == 0 {
            return None;
        }
        let denom: usize = match key_len.checked_add(PAGE_ID_ENCODED_BYTES) {
            Some(d) => d,
            None => {
                assert(8160int / (key_len + 8) == 0) by (nonlinear_arith)
                    requires
                        key_len + 8 > 8160,
                ;
                return None;
            },
        };
        let slack: usize = PAGE_SIZE - (INTERNAL_FIXED_HEADER_BYTES + PAGE_ID_ENCODED_BYTES);
        let n: usize = slack / denom;
        proof {
            vstd::arithmetic::div_mod::lemma_div_is_ordered_by_denominator(
                slack as int,
                1,
                denom as int,
            );
        }
        if n > 0 {
            Some(n as u32)
        } else {
            None
        }
    }

    /// The page is empty, or its keys are sorted, separate its children and are at
    /// most one too many.
    pub fn validate(&self) -> (res: bool)
        ensures
            res == valid_internal(self@),
    {
        if self.children.len() == 0 && self.keys.len() == 0 {
            return true;
        }
        let limit: u32 = self.base.max_size.saturating_add(1);
        assert(limit == size_limit(self.base.max_size));
        self.keys.len() < usize::MAX && self.children.len() == self.keys.len() + 1
            && self.base.size as usize == self.keys.len() && self.base.size <= limit
            && keys_sorted(&self.keys)
    }

    /// The index of the child to follow for `key`, or behind which a separator for
    /// `key` goes.
    pub fn find_child_index(&self, key: &IndexKey) -> (res: usize)
        requires
            sorted(self@.keys),
        ensures
            res == child_index(self@.keys, key@),
            is_upper_bound(self@.keys, key@, res as int),
    {
        let n: usize = upper_bound(&self.keys, key);
        proof {
            lemma_child_index(self@.keys, key@, n as int);
        }
        n
    }

    /// Inserts a child such that it stands to the right of the separator.
    pub fn insert_separator(&mut self, sep_key: IndexKey, right_child: PageId)
        requires
            sorted(old(self)@.keys),
            old(self)@.children.len() == old(self)@.keys.len() + 1,
            old(self)@.keys.len() < size_limit(old(self)@.max_size),
        ensures
            final(self)@ == separator_inserted(old(self)@, sep_key@, right_child),
            final(self).base.page_type == old(self).base.page_type,
            valid_internal(final(self)@),
    {
        let i: usize = self.find_child_index(&sep_key);
        let ghost kv = self@.keys;
        self.keys.insert(i, sep_key);
        self.children.insert(i + 1, right_child);
        self.base.size = self.keys.len() as u32;
        proof {
            assert(self@.keys =~= kv.insert(i as int, sep_key@));
            lemma_insert_keeps_sorted(kv, sep_key@, i as int);
        }
    }

    pub fn insert_key(&mut self, index: usize, key: IndexKey)
        requires
            index <= old(self)@.keys.len(),
            old(self)@.keys.len() < u32::MAX,
        ensures
            final(self)@ == (InternalView {
                keys: old(self)@.keys.insert(index as int, key@),
                size: (old(self)@.keys.len() + 1) as u32,
                ..old(self)@
            }),
            final(self).base.page_type == old(self).base.page_type,
    {
        let ghost kv = self@.keys;
        self.keys.insert(index, key);
        self.base.size = self.keys.len() as u32;
        assert(self@.keys =~= kv.insert(index as int, key@));
    }

    pub fn remove_key(&mut self, index: usize) -> (res: IndexKey)
        requires
            index < old(self)@.keys.len() <= u32::MAX,
        ensures
            res@ == old(self)@.keys[index as int],
            final(self)@ == (InternalView {
                keys: old(self)@.keys.remove(index as int),
                size: (old(self)@.keys.len() - 1) as u32,
                ..old(self)@
            }),
            final(self).base.page_type == old(self).base.page_type,
    {
        let ghost kv = self@.keys;
        let key = self.keys.remove(index);
        self.base.size = self.keys.len() as u32;
        assert(self@.keys =~= kv.remove(index as int));
        key
    }

    pub fn min_size(&self) -> (res: u32)
        ensures
            res == self@.max_size / 2,
    {
        self.base.min_size()
    }

    /// Moves the upper half to `right`. The middle key leaves the page: it is
    /// returned, to separate the two pages in their parent.
    pub fn split_into(&mut self, right: &mut InternalPage) -> (res: IndexKey)
        requires
            valid_internal(old(self)@),
            old(self)@.keys.len() > 0,
            old(right)@.children.len() == 0,
            old(right)@.keys.len() == 0,
            old(self)@.keys.len() - old(self)@.keys.len() / 2 - 1 <= size_limit(
                old(right)@.max_size,
            ),
        ensures
            ({
                let n = old(self)@.keys.len() as int;
                let mid = n / 2;
                &&& res@ == old(self)@.keys[mid]
                &&& final(self)@ == (InternalView {
                    children: old(self)@.children.subrange(0, mid + 1),
                    keys: old(self)@.keys.subrange(0, mid),
                    size: mid as u32,
                    max_size: old(self)@.max_size,
                })
                &&& final(right)@ == (InternalView {
                    children: old(self)@.children.subrange(mid + 1, n + 1),
                    keys: old(self)@.keys.subrange(mid + 1, n),
                    size: (n - mid - 1) as u32,
                    max_size: old(right)@.max_size,
                })
            }),
            final(self).base.page_type == old(self).base.page_type,
            final(right).base.page_type == old(right).base.page_type,
            valid_internal(final(self)@),
            valid_internal(final(right)@),
    {
        let ghost kv = self@.keys;
        let mid: usize = self.keys.len() / 2;
        right.keys = self.keys.split_off(mid + 1);
        let sep_key = self.keys.remove(mid);
        right.children = self.children.split_off(mid + 1);
        self.base.size = self.keys.len() as u32;
        right.base.size = right.keys.len() as u32;
        proof {
            assert(self@.keys =~= kv.subrange(0, mid as int));
            assert(right@.keys =~= kv.subrange(mid + 1, kv.len() as int));
            lemma_subrange_keeps_sorted(kv, 0, mid as int);
            lemma_subrange_keeps_sorted(kv, mid + 1, kv.len() as int);
        }
        sep_key
    }

    /// Takes over all of `right`, the page to the right of `sep_key`.
    pub fn absorb_right(&mut self, sep_key: IndexKey, right: &mut InternalPage)
        requires
            valid_internal(internal_absorbed(old(self)@, sep_key@, old(right)@)),
            valid_internal(old(self)@),
            valid_internal(old(right)@),
        ensures
            final(self)@ == internal_absorbed(old(self)@, sep_key@, old(right)@),
            final(right)@ == (InternalView { children: seq![], keys: seq![], ..old(right)@ }),
            final(self).base.page_type == old(self).base.page_type,
            final(right).base.page_type == old(right).base.page_type,
    {
        let ghost kv = self@.keys;
        let ghost rv = right@.keys;
        self.keys.push(sep_key);
        self.keys.append(&mut right.keys);
        self.children.append(&mut right.children);
        self.base.size = self.keys.len() as u32;
        assert(self@.keys =~= kv.push(sep_key@) + rv);
        assert(right@.keys =~= seq![]);
        assert(right@.children =~= seq![]);
    }

    pub fn is_full(&self) -> (res: bool)
        ensures
            res == (self@.size == self@.max_size),
    {
        self.base.size == self.base.max_size
    }

    pub fn is_underfull(&self) -> (res: bool)
        ensures
            res == (self@.size < self@.max_size / 2),
    {
        self.base.size < self.base.min_size()
    }

    /// Removes the separator between `children[left_child_index]` and its right
    /// neighbour, and that neighbour; returns both.
    pub fn remove_separator(&mut self, left_child_index: usize) -> (res: (IndexKey, PageId))
        requires
            left_child_index < old(self)@.keys.len(),
            left_child_index + 1 < old(self)@.children.len(),
            valid_internal(separator_removed(old(self)@, left_child_index as int)),
        ensures
            res.0@ == old(self)@.keys[left_child_index as int],
            res.1 == old(self)@.children[left_child_index + 1],
            final(self)@ == separator_removed(old(self)@, left_child_index as int),
            final(self).base.page_type == old(self).base.page_type,
    {
        let ghost kv = self@.keys;
        let children: usize = self.children.len();
        assert(children == self.children@.len());
        let sep_key = self.keys.remove(left_child_index);
        let right_child: PageId = self.children.remove(left_child_index + 1);
        self.base.size = self.keys.len() as u32;
        assert(self@.keys =~= kv.remove(left_child_index as int));
        (sep_key, right_child)
    }

    pub fn pop_last_child_and_key(&mut self) -> (res: (IndexKey, PageId))
        requires
            old(self)@.keys.len() > 0,
            old(self)@.children.len() > 0,
            valid_internal(last_popped(old(self)@)),
        ensures
            res.0@ == old(self)@.keys.last(),
            res.1 == old(self)@.children.last(),
            final(self)@ == last_popped(old(self)@),
            final(self).base.page_type == old(self).base.page_type,
    {
        let ghost kv = self@.keys;
        let last_child: usize = self.children.len() - 1;
        let child: PageId = self.children.remove(last_child);
        let last_key: usize = self.keys.len() - 1;
        let key = self.keys.remove(last_key);
        self.base.size = self.keys.len() as u32;
        assert(self@.keys =~= kv.drop_last());
        assert(self.children@ =~= old(self)@.children.drop_last());
        (key, child)
    }

    pub fn pop_first_child_and_key(&mut self) -> (res: (IndexKey, PageId))
        requires
            old(self)@.keys.len() > 0,
            old(self)@.children.len() > 0,
            valid_internal(first_popped(old(self)@)),
        ensures
            res.0@ == old(self)@.keys[0],
            res.1 == old(self)@.children[0],
            final(self)@ == first_popped(old(self)@),
            final(self).base.page_type == old(self).base.page_type,
    {
        let ghost kv = self@.keys;
        let child: PageId = self.children.remove(0);
        let key = self.keys.remove(0);
        self.base.size = self.keys.len() as u32;
        assert(self@.keys =~= kv.drop_first());
        assert(self.children@ =~= old(self)@.children.drop_first());
        (key, child)
    }

    pub fn replace_key(&mut self, idx: usize, new_key: IndexKey) -> (res: IndexKey)
        requires
            idx < old(self)@.keys.len(),
            valid_internal(
                (InternalView {
                    keys: old(self)@.keys.update(idx as int, new_key@),
                    ..old(self)@
                }),
            ),
        ensures
            res@ == old(self)@.keys[idx as int],
            final(self)@ == (InternalView {
                keys: old(self)@.keys.update(idx as int, new_key@),
                ..old(self)@
            }),
            final(self).base.page_type == old(self).base.page_type,
    {
        let ghost kv = self@.keys;
        let old_key = self.keys.remove(idx);
        self.keys.insert(idx, new_key);
        assert(self@.keys =~= kv.update(idx as int, new_key@));
        old_key
    }

    /// Puts in a new leftmost child, which `key` separates from the old one.
    pub fn prepend_child_and_key(&mut self, key: IndexKey, child: PageId)
        requires
            old(self)@.keys.len() < u32::MAX,
            valid_internal(child_prepended(old(self)@, key@, child)),
        ensures
            final(self)@ == child_prepended(old(self)@, key@, child),
            final(self).base.page_type == old(self).base.page_type,
    {
        let ghost kv = self@.keys;
        self.children.insert(0, child);
        self.keys.insert(0, key);
        self.base.size = self.keys.len() as u32;
        assert(self@.keys =~= kv.insert(0, key@));
    }

    /// Puts in a new rightmost child, which `key` separates from the old one.
    pub fn append_key_and_child(&mut self, key: IndexKey, child: PageId)
        requires
            old(self)@.keys.len() < u32::MAX,
            valid_internal(child_appended(old(self)@, key@, child)),
        ensures
            final(self)@ == child_appended(old(self)@, key@, child),
            final(self).base.page_type == old(self).base.page_type,
    {
        let ghost kv = self@.keys;
        self.keys.push(key);
        self.children.push(child);
        self.base.size = self.keys.len() as u32;
        assert(self@.keys =~= kv.push(key@));
    }

    pub fn is_overfull(&self) -> (res: bool)
        ensures
            res == (self@.size > self@.max_size),
    {
        self.base.size > self.base.max_size
    }

    pub fn would_be_underfull(&self) -> (res: bool)
        ensures
            res == (self@.size == self@.max_size / 2),
    {
        self.base.size == self.base.min_size()
    }
}

/// `v` together with the page to its right, which `key` separates from it.
pub open spec fn internal_absorbed(
    v: InternalView,
    key: Seq<u8>,
    right: InternalView,
) -> InternalView {
    InternalView {
        children: v.children + right.children,
        keys: v.keys.push(key) + right.keys,
        size: (v.keys.len() + 1 + right.keys.len()) as u32,
        max_size: v.max_size,
    }
}

/// The page without the separator at `i` and the child behind it.
pub open spec fn separator_removed(v: InternalView, i: int) -> InternalView {
    InternalView {
        children: v.children.remove(i + 1),
        keys: v.keys.remove(i),
        size: (v.keys.len() - 1) as u32,
        max_size: v.max_size,
    }
}

/// The page without its last separator and child.
pub open spec fn last_popped(v: InternalView) -> InternalView {
    InternalView {
        children: v.children.drop_last(),
        keys: v.keys.drop_last(),
        size: (v.keys.len() - 1) as u32,
        max_size: v.max_size,
    }
}

/// The page without its first separator and child.
pub open spec fn first_popped(v: InternalView) -> InternalView {
    InternalView {
        children: v.children.drop_first(),
        keys: v.keys.drop_first(),
        size: (v.keys.len() - 1) as u32,
        max_size: v.max_size,
    }
}

/// A valid page stays valid without a separator and a child.
pub proof fn law_internal_shrinks(v: InternalView, i: int)
    requires
        valid_internal(v),
        0 <= i < v.keys.len(),
    ensures
        valid_internal(separator_removed(v, i)),
        valid_internal(last_popped(v)),
        valid_internal(first_popped(v)),
{
    let n = v.keys.len() as int;
    lemma_remove_keeps_sorted(v.keys, i);
    lemma_subrange_keeps_sorted(v.keys, 0, n - 1);
    lemma_subrange_keeps_sorted(v.keys, 1, n);
    assert(v.keys.drop_last() =~= v.keys.subrange(0, n - 1));
}

pub open spec fn child_prepended(v: InternalView, key: Seq<u8>, child: PageId) -> InternalView {
    InternalView {
        children: v.children.insert(0, child),
        keys: v.keys.insert(0, key),
        size: (v.keys.len() + 1) as u32,
        max_size: v.max_size,
    }
}

pub open spec fn child_appended(v: InternalView, key: Seq<u8>, child: PageId) -> InternalView {
    InternalView {
        children: v.children.push(child),
        keys: v.keys.push(key),
        size: (v.keys.len() + 1) as u32,
        max_size: v.max_size,
    }
}

/// Merging two pages that came from one split gives the page back: what
/// `split_into` parts, `absorb_right` joins.
pub proof fn law_internal_split_then_absorb(v: InternalView, mid: int)
    requires
        v.children.len() == v.keys.len() + 1,
        v.size == v.keys.len(),
        0 <= mid < v.keys.len(),
    ensures
        ({
            let left = InternalView {
                children: v.children.subrange(0, mid + 1),
                keys: v.keys.subrange(0, mid),
                size: mid as u32,
                max_size: v.max_size,
            };
            let right = InternalView {
                children: v.children.subrange(mid + 1, v.children.len() as int),
                keys: v.keys.subrange(mid + 1, v.keys.len() as int),
                size: (v.keys.len() - mid - 1) as u32,
                max_size: v.max_size,
            };
            internal_absorbed(left, v.keys[mid], right) == v
        }),
{
    assert(v.children.subrange(0, mid + 1) + v.children.subrange(mid + 1, v.children.len() as int)
        =~= v.children);
    assert(v.keys.subrange(0, mid).push(v.keys[mid]) + v.keys.subrange(
        mid + 1,
        v.keys.len() as int,
    ) =~= v.keys);
}

pub proof fn lemma_subrange_keeps_sorted(keys: Seq<Seq<u8>>, lo: int, hi: int)
    requires
        sorted(keys),
        0 <= lo <= hi <= keys.len(),
    ensures
        sorted(keys.subrange(lo, hi)),
{
    let s = keys.subrange(lo, hi);
    assert forall|i: int, j: int| 0 <= i < j < s.len() implies key_le(
        #[trigger] s[i],
        #[trigger] s[j],
    ) by {
        assert(key_le(keys[lo + i], keys[lo + j]));
    }
}

pub proof fn lemma_remove_keeps_sorted(keys: Seq<Seq<u8>>, at: int)
    requires
        sorted(keys),
        0 <= at < keys.len(),
    ensures
        sorted(keys.remove(at)),
{
    let s = keys.remove(at);
    assert forall|i: int, j: int| 0 <= i < j < s.len() implies key_le(
        #[trigger] s[i],
        #[trigger] s[j],
    ) by {
        let a = if i < at { i } else { i + 1 };
        let b = if j < at { j } else { j + 1 };
        assert(key_le(keys[a], keys[b]));
    }
}

pub proof fn lemma_insert_keeps_sorted(keys: Seq<Seq<u8>>, key: Seq<u8>, at: int)
    requires
        sorted(keys),
        is_upper_bound(keys, key, at) || is_lower_bound(keys, key, at),
    ensures
        sorted(keys.insert(at, key)),
{
    lemma_key_order();
    let s = keys.insert(at, key);
    assert forall|i: int, j: int| 0 <= i < j < s.len() implies key_le(
        #[trigger] s[i],
        #[trigger] s[j],
    ) by {
        let a = if i < at { i } else { i - 1 };
        let b = if j < at { j } else { j - 1 };
        if i != at && j != at {
            assert(key_le(keys[a], keys[b]));
        } else if i == at {
            assert(key_le(key, keys[b]));
        } else {
            assert(key_le(keys[a], key));
        }
    }
}

#[derive(Debug)]
pub struct LeafPage {
    pub base: Base,
    pub keys: Vec<IndexKey>,
    pub record_ids: Vec<RecordId>,
    /// The leaf to the right, for range scans.
    pub next_leaf_id: PageId,
    /// The slots of the deleted entries, oldest first.
    pub tombstones: VecDeque<u32>,
    pub tombstone_capacity: usize,
}

/// What a leaf page holds.
#[verifier::ext_equal]
pub struct LeafView {
    pub keys: Seq<Seq<u8>>,
    pub record_ids: Seq<RecordId>,
    pub next_leaf_id: PageId,
    pub tombstones: Seq<u32>,
    pub capacity: usize,
    pub size: u32,
    pub max_size: u32,
}

impl View for LeafPage {
    type V = LeafView;

    open spec fn view(&self) -> LeafView {
        LeafView {
            keys: key_views(self.keys@),
            record_ids: self.record_ids@,
            next_leaf_id: self.next_leaf_id,
            tombstones: self.tombstones@,
            capacity: self.tombstone_capacity,
            size: self.base.size,
            max_size: self.base.max_size,
        }
    }
}

/// Every slot of `tombstones` is one of the first `n`.
pub open spec fn slots_below(tombstones: Seq<u32>, n: int) -> bool {
    forall|i: int| 0 <= i < tombstones.len() ==> #[trigger] tombstones[i] < n
}

/// A leaf page holds one record id for each key, its keys are sorted and at most one
/// too many, and its tombstones stand for entries of the page and fit.
pub open spec fn valid_leaf(v: LeafView) -> bool {
    &&& v.size == v.keys.len()
    &&& v.keys.len() == v.record_ids.len()
    &&& v.keys.len() <= size_limit(v.max_size)
    &&& sorted(v.keys)
    &&& v.tombstones.len() <= v.capacity
    &&& slots_below(v.tombstones, v.keys.len() as int)
}

/// The number of keys that come before `key`.
pub open spec fn first_not_before(keys: Seq<Seq<u8>>, key: Seq<u8>) -> int {
    choose|n: int| is_lower_bound(keys, key, n)
}

pub proof fn lemma_first_not_before(keys: Seq<Seq<u8>>, key: Seq<u8>, n: int)
    requires
        is_lower_bound(keys, key, n),
    ensures
        first_not_before(keys, key) == n,
{
    lemma_key_order();
    let m = first_not_before(keys, key);
    assert(is_lower_bound(keys, key, m));
    if m < n {
        assert(key_lt(keys[m], key));
        assert(key_le(key, keys[m]));
    } else if n < m {
        assert(key_lt(keys[n], key));
        assert(key_le(key, keys[n]));
    }
}

/// The slot that holds `key`; the first of them where `key` occurs more than once.
pub open spec fn slot_of(keys: Seq<Seq<u8>>, key: Seq<u8>) -> Option<int> {
    let n = first_not_before(keys, key);
    if 0 <= n < keys.len() && keys[n] == key {
        Some(n)
    } else {
        None
    }
}

/// The record id that a leaf gives for `key`: none where the entry is deleted.
pub open spec fn leaf_lookup(v: LeafView, key: Seq<u8>) -> Option<RecordId> {
    match slot_of(v.keys, key) {
        Some(i) => if v.tombstones.contains(i as u32) {
            None
        } else {
            Some(v.record_ids[i])
        },
        None => None,
    }
}

/// `tombstones` without the first occurrence of `slot`.
pub open spec fn without_slot(tombstones: Seq<u32>, slot: u32) -> Seq<u32>
    decreases tombstones.len(),
{
    if tombstones.len() == 0 {
        tombstones
    } else if tombstones[0] == slot {
        tombstones.drop_first()
    } else {
        seq![tombstones[0]] + without_slot(tombstones.drop_first(), slot)
    }
}

/// The slots after an entry went in at slot `at`.
pub open spec fn shifted_up(tombstones: Seq<u32>, at: int) -> Seq<u32> {
    tombstones.map_values(|s: u32| if s >= at { (s + 1) as u32 } else { s })
}

/// The slots after the entry at slot `at` left: `at` itself is gone.
pub open spec fn shifted_down(tombstones: Seq<u32>, at: int) -> Seq<u32>
    decreases tombstones.len(),
{
    if tombstones.len() == 0 {
        tombstones
    } else {
        let rest = shifted_down(tombstones.drop_last(), at);
        let s = tombstones.last();
        if s == at {
            rest
        } else if s > at {
            rest.push((s - 1) as u32)
        } else {
            rest.push(s)
        }
    }
}

/// The slots below `mid`, in their order.
pub open spec fn slots_left(tombstones: Seq<u32>, mid: int) -> Seq<u32>
    decreases tombstones.len(),
{
    if tombstones.len() == 0 {
        tombstones
    } else {
        let rest = slots_left(tombstones.drop_last(), mid);
        if tombstones.last() < mid {
            rest.push(tombstones.last())
        } else {
            rest
        }
    }
}

/// The slots from `mid` on, in their order, counted from `mid`.
pub open spec fn slots_right(tombstones: Seq<u32>, mid: int) -> Seq<u32>
    decreases tombstones.len(),
{
    if tombstones.len() == 0 {
        tombstones
    } else {
        let rest = slots_right(tombstones.drop_last(), mid);
        if tombstones.last() < mid {
            rest
        } else {
            rest.push((tombstones.last() - mid) as u32)
        }
    }
}

/// The leaf after the entry at slot `at` was taken out.
pub open spec fn entry_removed(v: LeafView, at: int) -> LeafView {
    LeafView {
        keys: v.keys.remove(at),
        record_ids: v.record_ids.remove(at),
        tombstones: shifted_down(v.tombstones, at),
        size: (v.keys.len() - 1) as u32,
        ..v
    }
}

/// The leaf after its oldest tombstone was given up and the entry taken out.
pub open spec fn oldest_evicted(v: LeafView) -> LeafView {
    entry_removed(
        LeafView { tombstones: v.tombstones.drop_first(), ..v },
        v.tombstones[0] as int,
    )
}

/// The leaf after `key` went in; `None` where it holds `key` already.
pub open spec fn leaf_inserted(v: LeafView, key: Seq<u8>, rid: RecordId) -> Option<LeafView> {
    match slot_of(v.keys, key) {
        Some(i) => if v.tombstones.contains(i as u32) {
            Some(
                LeafView {
                    record_ids: v.record_ids.update(i, rid),
                    tombstones: without_slot(v.tombstones, i as u32),
                    ..v
                },
            )
        } else {
            None
        },
        None => {
            let at = first_not_before(v.keys, key);
            Some(
                LeafView {
                    keys: v.keys.insert(at, key),
                    record_ids: v.record_ids.insert(at, rid),
                    tombstones: shifted_up(v.tombstones, at),
                    size: (v.keys.len() + 1) as u32,
                    ..v
                },
            )
        },
    }
}

/// The leaf after `key` was deleted; `None` where it does not hold `key`. The entry
/// becomes a tombstone; where those are full, the oldest of them makes room, and where
/// the leaf keeps none the entry is taken out at once.
pub open spec fn leaf_removed(v: LeafView, key: Seq<u8>) -> Option<LeafView> {
    match slot_of(v.keys, key) {
        Some(i) => if v.tombstones.contains(i as u32) {
            None
        } else if v.capacity == 0 {
            Some(entry_removed(v, i))
        } else if v.tombstones.len() == v.capacity {
            let evicted = v.tombstones[0];
            let w = oldest_evicted(v);
            let slot = if evicted < i { (i - 1) as u32 } else { i as u32 };
            Some(LeafView { tombstones: w.tombstones.push(slot), ..w })
        } else {
            Some(LeafView { tombstones: v.tombstones.push(i as u32), ..v })
        },
        None => None,
    }
}

/// The leaf with its oldest tombstones evicted until the rest fits.
pub open spec fn tombstones_trimmed(v: LeafView) -> LeafView
    decreases v.tombstones.len(),
{
    if v.tombstones.len() > v.capacity {
        proof {
            lemma_shifted_down(v.tombstones.drop_first(), v.tombstones[0] as int);
        }
        tombstones_trimmed(oldest_evicted(v))
    } else {
        v
    }
}

/// Both leaves in one, before the tombstones are made to fit.
pub open spec fn leaves_joined(v: LeafView, right: LeafView) -> LeafView {
    LeafView {
        keys: v.keys + right.keys,
        record_ids: v.record_ids + right.record_ids,
        next_leaf_id: right.next_leaf_id,
        tombstones: v.tombstones + right.tombstones.map_values(
            |s: u32| (s + v.keys.len()) as u32,
        ),
        size: (v.keys.len() + right.keys.len()) as u32,
        ..v
    }
}

/// `v` after it took over the leaf to its right.
pub open spec fn leaf_absorbed(v: LeafView, right: LeafView) -> LeafView {
    tombstones_trimmed(leaves_joined(v, right))
}

/// The left half of a split leaf, in front of the page `right_page_id`.
pub open spec fn leaf_split_left(v: LeafView, right_page_id: PageId) -> LeafView {
    let mid = v.keys.len() as int / 2;
    LeafView {
        keys: v.keys.subrange(0, mid),
        record_ids: v.record_ids.subrange(0, mid),
        next_leaf_id: right_page_id,
        tombstones: slots_left(v.tombstones, mid),
        size: mid as u32,
        ..v
    }
}

/// The right half of a split leaf, on the page that `right` describes.
pub open spec fn leaf_split_right(v: LeafView, right: LeafView) -> LeafView {
    let mid = v.keys.len() as int / 2;
    LeafView {
        keys: v.keys.subrange(mid, v.keys.len() as int),
        record_ids: v.record_ids.subrange(mid, v.keys.len() as int),
        next_leaf_id: v.next_leaf_id,
        tombstones: slots_right(v.tombstones, mid),
        size: (v.keys.len() - mid) as u32,
        ..right
    }
}

/// The leaf with a new first entry.
pub open spec fn entry_prepended(
    v: LeafView,
    key: Seq<u8>,
    rid: RecordId,
    tombstoned: bool,
) -> LeafView {
    let moved = shifted_up(v.tombstones, 0);
    LeafView {
        keys: v.keys.insert(0, key),
        record_ids: v.record_ids.insert(0, rid),
        tombstones: if tombstoned { moved.push(0) } else { moved },
        size: (v.keys.len() + 1) as u32,
        ..v
    }
}

/// The leaf with a new last entry.
pub open spec fn entry_appended(
    v: LeafView,
    key: Seq<u8>,
    rid: RecordId,
    tombstoned: bool,
) -> LeafView {
    LeafView {
        keys: v.keys.push(key),
        record_ids: v.record_ids.push(rid),
        tombstones: if tombstoned {
            v.tombstones.push(v.keys.len() as u32)
        } else {
            v.tombstones
        },
        size: (v.keys.len() + 1) as u32,
        ..v
    }
}

/// The entries of the first `n` slots that are not deleted, in key order.
pub open spec fn live_entries(v: LeafView, n: int) -> Seq<(Seq<u8>, RecordId)>
    decreases n,
{
    if n <= 0 {
        Seq::empty()
    } else {
        let rest = live_entries(v, n - 1);
        if v.tombstones.contains((n - 1) as u32) {
            rest
        } else {
            rest.push((v.keys[n - 1], v.record_ids[n - 1]))
        }
    }
}

/// The number of tombstones that a leaf of `max_size` entries has room for.
pub open spec fn tombstone_room(max_size: int, key_len: int, requested: int) -> int {
    let used = LEAF_FIXED_HEADER_BYTES + max_size * (key_len + RECORD_ID_ENCODED_BYTES)
        + TOMBSTONE_SLOT_ENCODED_BYTES;
    if key_len == 0 || used > PAGE_SIZE {
        0
    } else {
        let fit = (PAGE_SIZE - used) / (TOMBSTONE_SLOT_ENCODED_BYTES as int);
        if requested < fit {
            requested
        } else {
            fit
        }
    }
}

pub proof fn lemma_shifted_down(t: Seq<u32>, at: int)
    ensures
        shifted_down(t, at).len() <= t.len(),
        0 <= at && !t.contains(at as u32) && at <= u32::MAX ==> shifted_down(t, at).len()
            == t.len(),
        forall|n: int| #[trigger]
            slots_below(t, n) && 0 <= at < n ==> slots_below(shifted_down(t, at), n - 1),
    decreases t.len(),
{
    if t.len() > 0 {
        lemma_shifted_down(t.drop_last(), at);
        assert forall|n: int| #[trigger] slots_below(t, n) && 0 <= at < n implies slots_below(
            shifted_down(t, at),
            n - 1,
        ) by {
            assert(slots_below(t.drop_last(), n));
            assert(t[t.len() - 1] < n);
        }
        if 0 <= at <= u32::MAX && !t.contains(at as u32) {
            assert(t.last() != at as u32);
            assert forall|x: u32| t.drop_last().contains(x) implies t.contains(x) by {
                let k = choose|k: int| 0 <= k < t.len() - 1 && t.drop_last()[k] == x;
                assert(t[k] == x);
            }
        }
    }
}

proof fn lemma_without_slot_at(t: Seq<u32>, slot: u32, p: int)
    requires
        0 <= p < t.len(),
        t[p] == slot,
        forall|k: int| 0 <= k < p ==> t[k] != slot,
    ensures
        without_slot(t, slot) == t.remove(p),
    decreases p,
{
    if p == 0 {
        assert(t.remove(0) =~= t.drop_first());
    } else {
        lemma_without_slot_at(t.drop_first(), slot, p - 1);
        assert(seq![t[0]] + t.drop_first().remove(p - 1) =~= t.remove(p));
    }
}

proof fn lemma_without_absent_slot(t: Seq<u32>, slot: u32)
    requires
        !t.contains(slot),
    ensures
        without_slot(t, slot) == t,
    decreases t.len(),
{
    if t.len() > 0 {
        assert(t[0] != slot);
        assert forall|x: u32| t.drop_first().contains(x) implies t.contains(x) by {
            let k = choose|k: int| 0 <= k < t.len() - 1 && t.drop_first()[k] == x;
            assert(t[k + 1] == x);
        }
        lemma_without_absent_slot(t.drop_first(), slot);
        assert(seq![t[0]] + t.drop_first() =~= t);
    }
}

pub proof fn lemma_slots_split(t: Seq<u32>, mid: int, n: int)
    requires
        slots_below(t, n),
        0 <= mid <= n,
    ensures
        slots_below(slots_left(t, mid), mid),
        slots_below(slots_right(t, mid), n - mid),
        slots_left(t, mid).len() + slots_right(t, mid).len() == t.len(),
    decreases t.len(),
{
    if t.len() > 0 {
        assert(t[t.len() - 1] < n);
        assert(slots_below(t.drop_last(), n));
        lemma_slots_split(t.drop_last(), mid, n);
    }
}

impl LeafPage {
    pub fn max_size_for_layout(key_len: usize) -> (res: Option<u32>)
        ensures
            res == leaf_max_size(key_len as int),
    {
        if key_len == 0 {
            return None;
        }
        let entry_bytes: usize = match key_len.checked_add(RECORD_ID_ENCODED_BYTES) {
            Some(d) => d,
            None => {
                assert(8164int / (key_len + 16) == 0) by (nonlinear_arith)
                    requires
                        key_len + 16 > 8164,
                ;
                return None;
            },
        };
        let slack: usize = PAGE_SIZE - (LEAF_FIXED_HEADER_BYTES + TOMBSTONE_SLOT_ENCODED_BYTES);
        let n: usize = slack / entry_bytes;
        proof {
            vstd::arithmetic::div_mod::lemma_div_is_ordered_by_denominator(
                slack as int,
                1,
                entry_bytes as int,
            );
        }
        if n > 0 {
            Some(n as u32)
        } else {
            None
        }
    }

    pub fn tombstone_capacity_for_layout(max_size: u32, key_len: u32, requested: u32) -> (res: u32)
        ensures
            res == tombstone_room(max_size as int, key_len as int, requested as int),
    {
        if key_len == 0 {
            return 0;
        }
        let ghost product = max_size * (key_len + RECORD_ID_ENCODED_BYTES);
        assert(product >= 0) by (nonlinear_arith)
            requires
                product == max_size * (key_len + RECORD_ID_ENCODED_BYTES),
        ;
        let entry_bytes: usize = match (key_len as usize).checked_add(RECORD_ID_ENCODED_BYTES) {
            Some(v) => v,
            None => {
                if max_size == 0 {
                    assert(product == 0) by (nonlinear_arith)
                        requires
                            product == max_size * (key_len + RECORD_ID_ENCODED_BYTES),
                            max_size == 0,
                    ;
                    return Self::room_after(LEAF_FIXED_HEADER_BYTES, requested);
                }
                assert(product > PAGE_SIZE) by (nonlinear_arith)
                    requires
                        product == max_size * (key_len + RECORD_ID_ENCODED_BYTES),
                        max_size >= 1,
                        key_len + RECORD_ID_ENCODED_BYTES > PAGE_SIZE,
                ;
                return 0;
            },
        };
        let entries: usize = match (max_size as usize).checked_mul(entry_bytes) {
            Some(v) => v,
            None => { return 0; },
        };
        let live_needed: usize = match LEAF_FIXED_HEADER_BYTES.checked_add(entries) {
            Some(v) => v,
            None => { return 0; },
        };
        Self::room_after(live_needed, requested)
    }

    /// The number of tombstones, at most `requested`, that fit behind `live_needed` bytes.
    fn room_after(live_needed: usize, requested: u32) -> (res: u32)
        ensures
            res == if live_needed + TOMBSTONE_SLOT_ENCODED_BYTES > PAGE_SIZE {
                0
            } else {
                let fit = (PAGE_SIZE - live_needed - TOMBSTONE_SLOT_ENCODED_BYTES) / (
                TOMBSTONE_SLOT_ENCODED_BYTES as int);
                if requested < fit {
                    requested as int
                } else {
                    fit
                }
            },
    {
        if live_needed >= PAGE_SIZE {
            return 0;
        }
        let slack: usize = PAGE_SIZE - live_needed;
        if slack < TOMBSTONE_SLOT_ENCODED_BYTES {
            return 0;
        }
        let fit: usize = (slack - TOMBSTONE_SLOT_ENCODED_BYTES) / TOMBSTONE_SLOT_ENCODED_BYTES;
        if (requested as usize) < fit {
            requested
        } else {
            fit as u32
        }
    }

    pub fn new(max_size: u32, num_tombstones: u32) -> (res: Self)
        ensures
            res@ == (LeafView {
                keys: seq![],
                record_ids: seq![],
                next_leaf_id: INVALID_PAGE_ID,
                tombstones: seq![],
                capacity: num_tombstones as usize,
                size: 0,
                max_size,
            }),
            res.base.page_type == PageType::Leaf,
            valid_leaf(res@),
    {
        let res = Self {
            base: Base::new(PageType::Leaf, max_size),
            keys: Vec::new(),
            record_ids: Vec::new(),
            next_leaf_id: INVALID_PAGE_ID,
            tombstones: VecDeque::new(),
            tombstone_capacity: num_tombstones as usize,
        };
        assert(res@.keys =~= seq![]);
        assert(res@.record_ids =~= seq![]);
        assert(res@.tombstones =~= seq![]);
        res
    }

    /// The page holds one record id for each key, its keys are sorted and at most one
    /// too many, and its tombstones stand for entries of the page and fit.
    pub fn validate(&self) -> (res: bool)
        ensures
            res == valid_leaf(self@),
    {
        let limit: u32 = self.base.max_size.saturating_add(1);
        assert(limit == size_limit(self.base.max_size));
        if !(self.base.size as usize == self.keys.len() && self.keys.len() == self.record_ids.len()
            && self.base.size <= limit && keys_sorted(&self.keys) && self.tombstones.len()
            <= self.tombstone_capacity) {
            return false;
        }
        Self::slots_in_range(&self.tombstones, self.keys.len())
    }

    pub(crate) fn slots_in_range(tombstones: &VecDeque<u32>, n: usize) -> (res: bool)
        ensures
            res == slots_below(tombstones@, n as int),
    {
        let mut i: usize = 0;
        while i < tombstones.len()
            invariant
                i <= tombstones@.len(),
                forall|k: int| 0 <= k < i ==> #[trigger] tombstones@[k] < n,
            decreases tombstones@.len() - i,
        {
            if tombstones[i] as usize >= n {
                assert(!(tombstones@[i as int] < n));
                return false;
            }
            i = i + 1;
        }
        true
    }

    pub fn lower_bound(&self, key: &IndexKey) -> (res: usize)
        requires
            sorted(self@.keys),
        ensures
            is_lower_bound(self@.keys, key@, res as int),
            res == first_not_before(self@.keys, key@),
    {
        let n: usize = lower_bound(&self.keys, key);
        proof {
            lemma_first_not_before(self@.keys, key@, n as int);
        }
        n
    }

    pub fn upper_bound(&self, key: &IndexKey) -> (res: usize)
        requires
            sorted(self@.keys),
        ensures
            is_upper_bound(self@.keys, key@, res as int),
            res == child_index(self@.keys, key@),
    {
        let n: usize = upper_bound(&self.keys, key);
        proof {
            lemma_child_index(self@.keys, key@, n as int);
        }
        n
    }

    /// The slot that holds `key`.
    fn find(&self, key: &IndexKey) -> (res: Option<usize>)
        requires
            sorted(self@.keys),
        ensures
            match res {
                Some(i) => slot_of(self@.keys, key@) == Some(i as int) && i < self.keys@.len(),
                None => slot_of(self@.keys, key@) is None,
            },
    {
        let n: usize = self.lower_bound(key);
        if n < self.keys.len() {
            assert(self@.keys[n as int] == self.keys@[n as int]@);
            if self.keys[n].same(key) {
                return Some(n);
            }
        }
        None
    }

    /// The record id stored for `key`; none where the entry is deleted.
    pub fn get(&self, key: &IndexKey) -> (res: Option<RecordId>)
        requires
            valid_leaf(self@),
        ensures
            res == leaf_lookup(self@, key@),
    {
        match self.find(key) {
            Some(pos) => {
                if self.is_tombstoned(pos as u32) {
                    return None;
                }
                Some(self.record_ids[pos])
            },
            None => None,
        }
    }

    pub fn is_tombstoned(&self, slot: u32) -> (res: bool)
        ensures
            res == self@.tombstones.contains(slot),
    {
        let mut i: usize = 0;
        while i < self.tombstones.len()
            invariant
                i <= self.tombstones@.len(),
                forall|k: int| 0 <= k < i ==> #[trigger] self.tombstones@[k] != slot,
            decreases self.tombstones@.len() - i,
        {
            if self.tombstones[i] == slot {
                assert(self.tombstones@[i as int] == slot);
                return true;
            }
            i = i + 1;
        }
        false
    }

    fn remove_tombstone(&mut self, slot: u32) -> (res: bool)
        ensures
            res == old(self)@.tombstones.contains(slot),
            final(self)@ == (LeafView {
                tombstones: without_slot(old(self)@.tombstones, slot),
                ..old(self)@
            }),
            final(self).base.page_type == old(self).base.page_type,
    {
        let mut i: usize = 0;
        while i < self.tombstones.len()
            invariant
                *self == *old(self),
                i <= self.tombstones@.len(),
                forall|k: int| 0 <= k < i ==> #[trigger] self.tombstones@[k] != slot,
            decreases self.tombstones@.len() - i,
        {
            if self.tombstones[i] == slot {
                proof {
                    lemma_without_slot_at(self.tombstones@, slot, i as int);
                }
                let _removed = self.tombstones.remove(i);
                return true;
            }
            i = i + 1;
        }
        proof {
            lemma_without_absent_slot(self.tombstones@, slot);
        }
        false
    }

    fn adjust_tombstones_after_insert(&mut self, insert_at: u32)
        requires
            slots_below(old(self)@.tombstones, u32::MAX as int),
        ensures
            final(self)@ == (LeafView {
                tombstones: shifted_up(old(self)@.tombstones, insert_at as int),
                ..old(self)@
            }),
            final(self).base.page_type == old(self).base.page_type,
    {
        let ghost t = self.tombstones@;
        let mut out: VecDeque<u32> = VecDeque::new();
        let mut i: usize = 0;
        while i < self.tombstones.len()
            invariant
                *self == *old(self),
                t == self.tombstones@,
                slots_below(t, u32::MAX as int),
                i <= t.len(),
                out@ == shifted_up(t, insert_at as int).subrange(0, i as int),
            decreases t.len() - i,
        {
            let s: u32 = self.tombstones[i];
            assert(t[i as int] < u32::MAX);
            if s >= insert_at {
                out.push_back(s + 1);
            } else {
                out.push_back(s);
            }
            i = i + 1;
            assert(out@ =~= shifted_up(t, insert_at as int).subrange(0, i as int));
        }
        assert(out@ =~= shifted_up(t, insert_at as int));
        self.tombstones = out;
    }

    fn adjust_tombstones_after_remove(&mut self, removed_at: u32)
        ensures
            final(self)@ == (LeafView {
                tombstones: shifted_down(old(self)@.tombstones, removed_at as int),
                ..old(self)@
            }),
            final(self).base.page_type == old(self).base.page_type,
    {
        let ghost t = self.tombstones@;
        let mut out: VecDeque<u32> = VecDeque::new();
        let mut i: usize = 0;
        while i < self.tombstones.len()
            invariant
                *self == *old(self),
                t == self.tombstones@,
                i <= t.len(),
                out@ == shifted_down(t.subrange(0, i as int), removed_at as int),
            decreases t.len() - i,
        {
            let s: u32 = self.tombstones[i];
            assert(t.subrange(0, i + 1).drop_last() =~= t.subrange(0, i as int));
            if s != removed_at {
                if s > removed_at {
                    out.push_back(s - 1);
                } else {
                    out.push_back(s);
                }
            }
            i = i + 1;
        }
        assert(t.subrange(0, t.len() as int) =~= t);
        self.tombstones = out;
    }

    fn physical_remove_at(&mut self, slot: u32)
        requires
            slot < old(self)@.keys.len() <= u32::MAX,
            old(self)@.keys.len() == old(self)@.record_ids.len(),
        ensures
            final(self)@ == entry_removed(old(self)@, slot as int),
            final(self).base.page_type == old(self).base.page_type,
    {
        let ghost kv = self@.keys;
        let idx: usize = slot as usize;
        let _key = self.keys.remove(idx);
        let _rid = self.record_ids.remove(idx);
        assert(self@.keys =~= kv.remove(idx as int));
        self.base.size = self.keys.len() as u32;
        self.adjust_tombstones_after_remove(slot);
    }

    /// Gives up the oldest tombstone and takes its entry out of the page.
    fn evict_oldest_tombstone(&mut self) -> (res: u32)
        requires
            old(self)@.tombstones.len() > 0,
            slots_below(old(self)@.tombstones, old(self)@.keys.len() as int),
            old(self)@.keys.len() <= u32::MAX,
            old(self)@.keys.len() == old(self)@.record_ids.len(),
        ensures
            res == old(self)@.tombstones[0],
            final(self)@ == oldest_evicted(old(self)@),
            final(self).base.page_type == old(self).base.page_type,
    {
        match self.tombstones.pop_front() {
            Some(evicted) => {
                assert(self.tombstones@ =~= old(self)@.tombstones.drop_first());
                assert(old(self)@.tombstones[0] < old(self)@.keys.len());
                self.physical_remove_at(evicted);
                evicted
            },
            None => 0,
        }
    }

    /// Stores an entry. A deleted entry of the same key is taken into use again; a live
    /// one makes the call fail.
    pub fn insert(&mut self, key: IndexKey, record_id: RecordId) -> (res: Result<(), ()>)
        requires
            valid_leaf(old(self)@),
            slot_of(old(self)@.keys, key@) is None ==> old(self)@.keys.len() < size_limit(
                old(self)@.max_size,
            ),
        ensures
            match leaf_inserted(old(self)@, key@, record_id) {
                Some(v) => res is Ok && final(self)@ == v,
                None => res is Err && final(self)@ == old(self)@,
            },
            final(self).base.page_type == old(self).base.page_type,
            valid_leaf(final(self)@),
    {
        let ghost v = self@;
        let pos: usize = self.lower_bound(&key);
        let found: bool = if pos < self.keys.len() {
            assert(v.keys[pos as int] == self.keys@[pos as int]@);
            self.keys[pos].same(&key)
        } else {
            false
        };
        if found {
            let slot: u32 = pos as u32;
            if !self.is_tombstoned(slot) {
                return Err(());
            }
            self.record_ids.set(pos, record_id);
            let _removed = self.remove_tombstone(slot);
            proof {
                lemma_without_slot_bounds(v.tombstones, slot);
            }
            Ok(())
        } else {
            let insert_at: u32 = pos as u32;
            self.keys.insert(pos, key);
            self.record_ids.insert(pos, record_id);
            assert(self@.keys =~= v.keys.insert(pos as int, key@));
            assert(slots_below(v.tombstones, u32::MAX as int));
            self.adjust_tombstones_after_insert(insert_at);
            self.base.size = self.keys.len() as u32;
            proof {
                lemma_insert_keeps_sorted(v.keys, key@, pos as int);
            }
            Ok(())
        }
    }

    /// Moves the upper half to `right`, whose page id is `right_page_id`, and returns the
    /// key that separates the two: the first one of the right page, where it stays.
    pub fn split_into(&mut self, right: &mut LeafPage, right_page_id: PageId) -> (res: IndexKey)
        requires
            valid_leaf(old(self)@),
            old(self)@.keys.len() > 0,
            old(right)@.keys.len() == 0,
            old(right)@.record_ids.len() == 0,
            valid_leaf(leaf_split_right(old(self)@, old(right)@)),
        ensures
            final(self)@ == leaf_split_left(old(self)@, right_page_id),
            final(right)@ == leaf_split_right(old(self)@, old(right)@),
            res@ == final(right)@.keys[0],
            final(self).base.page_type == old(self).base.page_type,
            final(right).base.page_type == old(right).base.page_type,
            valid_leaf(final(self)@),
    {
        let ghost v = self@;
        let mid: usize = self.keys.len() / 2;
        let mid_slot: u32 = mid as u32;
        right.keys = self.keys.split_off(mid);
        right.record_ids = self.record_ids.split_off(mid);
        assert(self@.keys =~= v.keys.subrange(0, mid as int));
        assert(right@.keys =~= v.keys.subrange(mid as int, v.keys.len() as int));

        let ghost t = self.tombstones@;
        let mut left_tombstones: VecDeque<u32> = VecDeque::new();
        let mut right_tombstones: VecDeque<u32> = VecDeque::new();
        let mut i: usize = 0;
        while i < self.tombstones.len()
            invariant
                t == self.tombstones@,
                i <= t.len(),
                left_tombstones@ == slots_left(t.subrange(0, i as int), mid_slot as int),
                right_tombstones@ == slots_right(t.subrange(0, i as int), mid_slot as int),
            decreases t.len() - i,
        {
            let slot: u32 = self.tombstones[i];
            assert(t.subrange(0, i + 1).drop_last() =~= t.subrange(0, i as int));
            if slot < mid_slot {
                left_tombstones.push_back(slot);
            } else {
                right_tombstones.push_back(slot - mid_slot);
            }
            i = i + 1;
        }
        assert(t.subrange(0, t.len() as int) =~= t);
        self.tombstones = left_tombstones;
        right.tombstones = right_tombstones;

        right.next_leaf_id = self.next_leaf_id;
        self.next_leaf_id = right_page_id;

        self.base.size = self.keys.len() as u32;
        right.base.size = right.keys.len() as u32;
        proof {
            lemma_subrange_keeps_sorted(v.keys, 0, mid as int);
            lemma_slots_split(t, mid as int, v.keys.len() as int);
            assert(right@.keys[0] == right.keys@[0]@);
        }
        right.keys[0].clone()
    }

    /// Takes over all of `right`. Deletes recorded there count as more recent than those
    /// recorded here; the oldest ones make room where there are too many.
    pub fn absorb_right(&mut self, right: &mut LeafPage)
        requires
            valid_leaf(old(self)@),
            valid_leaf(old(right)@),
            old(self)@.keys.len() + old(right)@.keys.len() <= u32::MAX,
            valid_leaf(leaf_absorbed(old(self)@, old(right)@)),
        ensures
            final(self)@ == leaf_absorbed(old(self)@, old(right)@),
            final(right)@ == (LeafView {
                keys: seq![],
                record_ids: seq![],
                tombstones: seq![],
                ..old(right)@
            }),
            final(self).base.page_type == old(self).base.page_type,
            final(right).base.page_type == old(right).base.page_type,
    {
        let ghost v = self@;
        let ghost r = right@;
        let left_len: u32 = self.keys.len() as u32;
        self.keys.append(&mut right.keys);
        self.record_ids.append(&mut right.record_ids);
        self.next_leaf_id = right.next_leaf_id;
        self.base.size = self.keys.len() as u32;
        assert(self@.keys =~= v.keys + r.keys);

        let ghost moved = r.tombstones.map_values(|s: u32| (s + v.keys.len()) as u32);
        let mut i: usize = 0;
        while i < right.tombstones.len()
            invariant
                right.tombstones@ == r.tombstones,
                right.keys@.len() == 0,
                right.record_ids@.len() == 0,
                right@ == (LeafView { keys: right@.keys, record_ids: right@.record_ids, ..r }),
                right.base.page_type == old(right).base.page_type,
                i <= r.tombstones.len(),
                left_len == v.keys.len(),
                left_len + r.keys.len() <= u32::MAX,
                slots_below(r.tombstones, r.keys.len() as int),
                moved == r.tombstones.map_values(|s: u32| (s + v.keys.len()) as u32),
                self@ == (LeafView {
                    tombstones: v.tombstones + moved.subrange(0, i as int),
                    ..leaves_joined(v, r)
                }),
                self.base.page_type == old(self).base.page_type,
            decreases r.tombstones.len() - i,
        {
            let slot: u32 = right.tombstones[i];
            assert(r.tombstones[i as int] < r.keys.len());
            self.tombstones.push_back(slot + left_len);
            i = i + 1;
            assert(self.tombstones@ =~= v.tombstones + moved.subrange(0, i as int));
        }
        assert(moved.subrange(0, moved.len() as int) =~= moved);
        right.tombstones = VecDeque::new();
        assert(right@.keys =~= seq![]);
        assert(right@.record_ids =~= seq![]);
        assert(right@.tombstones =~= seq![]);
        proof {
            lemma_joined_slots(v, r);
        }
        while self.tombstones.len() > self.tombstone_capacity
            invariant
                tombstones_trimmed(self@) == leaf_absorbed(v, r),
                slots_below(self@.tombstones, self@.keys.len() as int),
                self@.keys.len() == self@.record_ids.len(),
                self@.keys.len() <= u32::MAX,
                self.base.page_type == old(self).base.page_type,
            decreases self.tombstones@.len(),
        {
            let ghost w = self@;
            let _evicted: u32 = self.evict_oldest_tombstone();
            proof {
                assert(w.tombstones[0] < w.keys.len());
                assert(slots_below(w.tombstones.drop_first(), w.keys.len() as int));
                lemma_shifted_down(w.tombstones.drop_first(), w.tombstones[0] as int);
            }
        }
    }

    pub fn is_full(&self) -> (res: bool)
        ensures
            res == (self@.size == self@.max_size),
    {
        self.base.size == self.base.max_size
    }

    pub fn is_overfull(&self) -> (res: bool)
        ensures
            res == (self@.size > self@.max_size),
    {
        self.base.size > self.base.max_size
    }

    pub fn min_size(&self) -> (res: u32)
        ensures
            res == self@.max_size / 2,
    {
        self.base.min_size()
    }

    pub fn is_underfull(&self) -> (res: bool)
        ensures
            res == (self@.size < self@.max_size / 2),
    {
        self.base.size < self.base.min_size()
    }

    pub fn would_be_underfull(&self) -> (res: bool)
        ensures
            res == (self@.size == self@.max_size / 2),
    {
        self.base.size == self.base.min_size()
    }

    /// Whether an entry for `key` stands on the page, deleted or not.
    pub fn key_exists(&self, key: &IndexKey) -> (res: bool)
        requires
            sorted(self@.keys),
        ensures
            res == (slot_of(self@.keys, key@) is Some),
    {
        match self.find(key) {
            Some(_) => true,
            None => false,
        }
    }

    /// Deletes the entry for `key`.
    pub fn remove_key(&mut self, key: &IndexKey) -> (res: Result<(), RemoveError>)
        requires
            valid_leaf(old(self)@),
        ensures
            match leaf_removed(old(self)@, key@) {
                Some(v) => res == Ok::<(), RemoveError>(()) && final(self)@ == v,
                None => res == Err::<(), RemoveError>(RemoveError::KeyNotFound) && final(self)@
                    == old(self)@,
            },
            final(self).base.page_type == old(self).base.page_type,
            valid_leaf(final(self)@),
    {
        let ghost v = self@;
        let pos: usize = match self.find(key) {
            Some(pos) => pos,
            None => { return Err(RemoveError::KeyNotFound); },
        };
        let mut slot: u32 = pos as u32;
        if self.is_tombstoned(slot) {
            return Err(RemoveError::KeyNotFound);
        }
        proof {
            lemma_remove_keeps_sorted(v.keys, pos as int);
            lemma_shifted_down(v.tombstones, pos as int);
        }
        // Without room for tombstones, the entry is taken out at once.
        if self.tombstone_capacity == 0 {
            self.physical_remove_at(slot);
            return Ok(());
        }
        // Where the tombstones are full, the oldest one makes room.
        if self.tombstones.len() == self.tombstone_capacity {
            proof {
                assert(v.tombstones[0] < v.keys.len());
                assert(slots_below(v.tombstones.drop_first(), v.keys.len() as int));
                lemma_shifted_down(v.tombstones.drop_first(), v.tombstones[0] as int);
                lemma_remove_keeps_sorted(v.keys, v.tombstones[0] as int);
                assert(v.tombstones.contains(v.tombstones[0]));
            }
            let evicted: u32 = self.evict_oldest_tombstone();
            if evicted < slot {
                slot = slot - 1;
            }
        }
        self.tombstones.push_back(slot);
        Ok(())
    }

    /// Takes the first entry out; also says whether it was deleted.
    pub fn pop_first(&mut self) -> (res: Option<(IndexKey, RecordId, bool)>)
        requires
            valid_leaf(old(self)@),
        ensures
            match res {
                None => old(self)@.keys.len() == 0 && final(self)@ == old(self)@,
                Some((key, rid, tombstoned)) => {
                    &&& old(self)@.keys.len() > 0
                    &&& key@ == old(self)@.keys[0]
                    &&& rid == old(self)@.record_ids[0]
                    &&& tombstoned == old(self)@.tombstones.contains(0)
                    &&& final(self)@ == entry_removed(old(self)@, 0)
                },
            },
            final(self).base.page_type == old(self).base.page_type,
            valid_leaf(final(self)@),
    {
        if self.keys.len() == 0 {
            return None;
        }
        let ghost v = self@;
        let was_tombstoned: bool = self.is_tombstoned(0);
        let key = self.keys.remove(0);
        let rid = self.record_ids.remove(0);
        self.base.size = self.keys.len() as u32;
        assert(self@.keys =~= v.keys.remove(0));
        self.adjust_tombstones_after_remove(0);
        proof {
            lemma_remove_keeps_sorted(v.keys, 0);
            lemma_shifted_down(v.tombstones, 0);
        }
        Some((key, rid, was_tombstoned))
    }

    /// Takes the last entry out; also says whether it was deleted.
    pub fn pop_last(&mut self) -> (res: Option<(IndexKey, RecordId, bool)>)
        requires
            valid_leaf(old(self)@),
            // No second mark for the last slot stays behind.
            old(self)@.keys.len() > 0 ==> slots_below(
                without_slot(old(self)@.tombstones, (old(self)@.keys.len() - 1) as u32),
                old(self)@.keys.len() - 1,
            ),
        ensures
            match res {
                None => old(self)@.keys.len() == 0 && final(self)@ == old(self)@,
                Some((key, rid, tombstoned)) => {
                    let n = old(self)@.keys.len();
                    &&& n > 0
                    &&& key@ == old(self)@.keys[n - 1]
                    &&& rid == old(self)@.record_ids[n - 1]
                    &&& tombstoned == old(self)@.tombstones.contains((n - 1) as u32)
                    &&& final(self)@ == (LeafView {
                        keys: old(self)@.keys.drop_last(),
                        record_ids: old(self)@.record_ids.drop_last(),
                        tombstones: without_slot(old(self)@.tombstones, (n - 1) as u32),
                        size: (n - 1) as u32,
                        ..old(self)@
                    })
                },
            },
            final(self).base.page_type == old(self).base.page_type,
            valid_leaf(final(self)@),
    {
        if self.keys.len() == 0 {
            return None;
        }
        let ghost v = self@;
        let last: usize = self.keys.len() - 1;
        let slot: u32 = last as u32;
        let was_tombstoned: bool = self.is_tombstoned(slot);
        let key = self.keys.remove(last);
        let rid = self.record_ids.remove(last);
        assert(self@.keys =~= v.keys.drop_last());
        assert(self.record_ids@ =~= v.record_ids.drop_last());
        let _removed: bool = self.remove_tombstone(slot);
        self.base.size = self.keys.len() as u32;
        proof {
            lemma_subrange_keeps_sorted(v.keys, 0, last as int);
            assert(v.keys.drop_last() =~= v.keys.subrange(0, last as int));
            lemma_without_slot_bounds(v.tombstones, slot);
        }
        Some((key, rid, was_tombstoned))
    }

    pub fn push_front(&mut self, key: IndexKey, record_id: RecordId, tombstoned: bool)
        requires
            slots_below(old(self)@.tombstones, u32::MAX as int),
            old(self)@.keys.len() < u32::MAX,
            valid_leaf(entry_prepended(old(self)@, key@, record_id, tombstoned)),
        ensures
            final(self)@ == entry_prepended(old(self)@, key@, record_id, tombstoned),
            final(self).base.page_type == old(self).base.page_type,
    {
        let ghost v = self@;
        self.adjust_tombstones_after_insert(0);
        self.keys.insert(0, key);
        self.record_ids.insert(0, record_id);
        assert(self@.keys =~= v.keys.insert(0, key@));
        if tombstoned {
            self.tombstones.push_back(0);
        }
        self.base.size = self.keys.len() as u32;
    }

    pub fn push_back(&mut self, key: IndexKey, record_id: RecordId, tombstoned: bool)
        requires
            old(self)@.keys.len() < u32::MAX,
            valid_leaf(entry_appended(old(self)@, key@, record_id, tombstoned)),
        ensures
            final(self)@ == entry_appended(old(self)@, key@, record_id, tombstoned),
            final(self).base.page_type == old(self).base.page_type,
    {
        let ghost v = self@;
        let slot: u32 = self.keys.len() as u32;
        self.keys.push(key);
        self.record_ids.push(record_id);
        assert(self@.keys =~= v.keys.push(key@));
        if tombstoned {
            self.tombstones.push_back(slot);
        }
        self.base.size = self.keys.len() as u32;
    }

    /// The entries that are not deleted, in key order.
    pub fn iter(&self) -> (res: Vec<(&IndexKey, &RecordId)>)
        requires
            valid_leaf(self@),
        ensures
            res@.map_values(|e: (&IndexKey, &RecordId)| (e.0@, *e.1)) == live_entries(
                self@,
                self@.keys.len() as int,
            ),
    {
        let mut out: Vec<(&IndexKey, &RecordId)> = Vec::new();
        let ghost project = |e: (&IndexKey, &RecordId)| (e.0@, *e.1);
        assert(out@.map_values(project) =~= live_entries(self@, 0));
        let mut i: usize = 0;
        while i < self.keys.len()
            invariant
                i <= self.keys@.len(),
                self.keys@.len() == self.record_ids@.len(),
                self.keys@.len() <= u32::MAX,
                project == (|e: (&IndexKey, &RecordId)| (e.0@, *e.1)),
                out@.map_values(project) == live_entries(self@, i as int),
            decreases self.keys@.len() - i,
        {
            if !self.is_tombstoned(i as u32) {
                let ghost before = out@;
                out.push((&self.keys[i], &self.record_ids[i]));
                assert(out@.map_values(project) =~= before.map_values(project).push(
                    (self@.keys[i as int], self@.record_ids[i as int]),
                ));
            }
            i = i + 1;
        }
        out
    }
}

pub proof fn lemma_without_slot_bounds(t: Seq<u32>, slot: u32)
    ensures
        without_slot(t, slot).len() <= t.len(),
        t.contains(slot) ==> without_slot(t, slot).len() == t.len() - 1,
        forall|n: int| #[trigger] slots_below(t, n) ==> slots_below(without_slot(t, slot), n),
        forall|x: u32| x != slot ==> (#[trigger] without_slot(t, slot).contains(x) == t.contains(x)),
    decreases t.len(),
{
    if t.contains(slot) {
        let p = lemma_first_position(t, slot);
        lemma_without_slot_at(t, slot, p);
        assert forall|n: int| #[trigger] slots_below(t, n) implies slots_below(
            without_slot(t, slot),
            n,
        ) by {
            let s = t.remove(p);
            assert forall|i: int| 0 <= i < s.len() implies #[trigger] s[i] < n by {
                if i < p {
                    assert(t[i] < n);
                } else {
                    assert(t[i + 1] < n);
                }
            }
        }
        assert forall|x: u32| x != slot implies (#[trigger] without_slot(t, slot).contains(x)
            == t.contains(x)) by {
            let s = t.remove(p);
            if t.contains(x) {
                let k = choose|k: int| 0 <= k < t.len() && t[k] == x;
                if k < p {
                    assert(s[k] == x);
                } else {
                    assert(s[k - 1] == x);
                }
            }
            if s.contains(x) {
                let k = choose|k: int| 0 <= k < s.len() && s[k] == x;
                if k < p {
                    assert(t[k] == x);
                } else {
                    assert(t[k + 1] == x);
                }
            }
        }
    } else {
        lemma_without_absent_slot(t, slot);
    }
}

/// Where `slot` first occurs.
proof fn lemma_first_position(t: Seq<u32>, slot: u32) -> (p: int)
    requires
        t.contains(slot),
    ensures
        0 <= p < t.len(),
        t[p] == slot,
        forall|k: int| 0 <= k < p ==> t[k] != slot,
    decreases t.len(),
{
    if t[0] == slot {
        0
    } else {
        let k = choose|k: int| 0 <= k < t.len() && t[k] == slot;
        assert(t.drop_first()[k - 1] == slot);
        let q = lemma_first_position(t.drop_first(), slot);
        assert forall|k: int| 0 <= k < q + 1 implies t[k] != slot by {
            if k > 0 {
                assert(t.drop_first()[k - 1] != slot);
            }
        }
        q + 1
    }
}

/// A slot that occurs once is gone afterwards.
pub proof fn lemma_without_last_slot(t: Seq<u32>, slot: u32)
    requires
        t.no_duplicates(),
    ensures
        !without_slot(t, slot).contains(slot),
        without_slot(t, slot).no_duplicates(),
        slots_below(t, slot + 1) ==> slots_below(without_slot(t, slot), slot as int),
{
    let s = without_slot(t, slot);
    if t.contains(slot) {
        let p = lemma_first_position(t, slot);
        lemma_without_slot_at(t, slot, p);
        assert forall|k: int| 0 <= k < s.len() implies #[trigger] s[k] != slot by {
            if k < p {
                assert(s[k] == t[k]);
            } else {
                assert(s[k] == t[k + 1]);
                assert(t[p] != t[k + 1]);
            }
        }
        assert forall|i: int, j: int| 0 <= i < s.len() && 0 <= j < s.len() && i != j implies s[i]
            != s[j] by {
            let a = if i < p { i } else { i + 1 };
            let b = if j < p { j } else { j + 1 };
            assert(t[a] != t[b]);
        }
    } else {
        lemma_without_absent_slot(t, slot);
        assert forall|k: int| 0 <= k < s.len() implies #[trigger] s[k] != slot by {
            assert(t.contains(t[k]));
        }
    }
    lemma_without_slot_bounds(t, slot);
    if slots_below(t, slot + 1) {
        assert forall|k: int| 0 <= k < s.len() implies #[trigger] s[k] < slot by {
            assert(s[k] < slot + 1);
        }
    }
}

proof fn lemma_joined_slots(v: LeafView, r: LeafView)
    requires
        slots_below(v.tombstones, v.keys.len() as int),
        slots_below(r.tombstones, r.keys.len() as int),
        v.keys.len() + r.keys.len() <= u32::MAX,
    ensures
        slots_below(leaves_joined(v, r).tombstones, (v.keys.len() + r.keys.len()) as int),
{
    let t = leaves_joined(v, r).tombstones;
    assert forall|i: int| 0 <= i < t.len() implies #[trigger] t[i] < v.keys.len()
        + r.keys.len() by {
        if i < v.tombstones.len() {
            assert(v.tombstones[i] < v.keys.len());
        } else {
            assert(r.tombstones[i - v.tombstones.len()] < r.keys.len());
        }
    }
}

} // verus!
