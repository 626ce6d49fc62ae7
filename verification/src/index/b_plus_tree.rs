//! The B+ tree index over pages of the buffer pool.
use vstd::prelude::*;

use crate::buffer_pool::{BpmError, BufferPoolManager};
use crate::catalog::index_schema::{key_le, key_lt, strictly_sorted, IndexKey, IndexValue};
use crate::disk::{is_missing, PAGE_SIZE};
use crate::index::b_plus_page::{
    child_index, internal_max_size, law_internal_shrinks, leaf_inserted, leaf_lookup,
    leaf_max_size, leaf_removed, leaf_split_right, separator_inserted, tombstone_room,
    valid_internal, valid_leaf, HeaderPage, InternalPage, InternalView, LeafPage, LeafView, Page,
    PageId, PageType, INVALID_PAGE_ID, NUM_TOMBSTONES,
};
use crate::index::leaf_laws::{
    law_leaf_insert, law_leaf_remove, lemma_slot_none, lemma_strict_is_sorted,
};
use crate::index::page_codec::{KIND_INTERNAL, KIND_LEAF};
use crate::index::page_format::{
    entry_bytes, header_decoded, internal_bytes, internal_encode_error, law_header_roundtrip,
    law_internal_roundtrip, law_leaf_roundtrip, leaf_bytes, leaf_encode_error, lemma_misfit,
};
use crate::index::rebalance::{balance_leaves, balance_nodes, sep_between};
use crate::index::tree_insert::{
    forest_grown, grown, keeps_branching, lemma_child_grown, lemma_child_parted, lemma_halves_fit,
    lemma_leaf_grown, lemma_leaf_inserted_fits, lemma_leaf_parted, lemma_node_grown,
    lemma_node_parted, lemma_separator_spliced, parted, with_key,
};
use crate::index::tree_model::{
    branches, child_hi, child_lo, children_spliced, deleted_at, empty_leaf, entered_at, first_leaf,
    forest_linked, forest_lookup, forest_owns, header_of, home_leaf, in_span, internal_fits,
    keys_have_len, keys_spliced, law_height, leaf_after, leaf_fits, leaf_rewritten,
    lemma_forest_frame, lemma_forest_owned_exists, lemma_frame, lemma_index_in_range,
    lemma_owned_exists, lemma_pair, lemma_span_of_index, lemma_tree_height, linked, lookup,
    node_of, owns, rooted, subtree, tree_empty, tree_find, tree_height, tree_ok, tree_owns,
    untouched, NodeView, Pages, TreeShape,
};
use crate::index::tree_remove::{
    lemma_children_joined, lemma_leaves_merged, lemma_leaves_shared, lemma_neighbours,
    lemma_nodes_merged, lemma_nodes_shared, lemma_settled_in_place, neighbours, node_min,
    node_size, settled,
};
use crate::index::tree_scan::leaf_on;
use crate::index::{IndexError, InsertError, InsertResult, RemoveError, RemoveResult};
use crate::table_heap::RecordId;

verus! {

pub struct BPlusTree {
    pub header_page_id: PageId,
    pub key_len: u32,
    pub index_name: String,
    pub leaf_max_size: u32,
    pub internal_max_size: u32,
}

/// What every operation on the pages of a tree keeps of the pool.
pub open spec fn carried(a: &BufferPoolManager, b: &BufferPoolManager) -> bool {
    &&& b.wf()
    &&& b.num_frames() == a.num_frames()
    &&& a.ready() ==> b.ready()
    &&& a.ids_fresh() ==> b.ids_fresh()
    &&& a.next_page_id() <= b.next_page_id()
    &&& forall|q: usize| #[trigger] b.pins(q) == a.pins(q)
    &&& forall|p: usize| #[trigger] a.pages().contains_key(p) ==> b.pages().contains_key(p)
}

/// The operation failed because the pool could not provide a page.
pub open spec fn pool_failed<T>(res: Result<T, IndexError>) -> bool {
    res matches Err(IndexError::BpmError(_))
}

/// The page holds a node of a tree of this shape.
pub open spec fn node_fits(t: TreeShape, n: Option<NodeView>) -> bool {
    match n {
        Some(NodeView::Leaf(v)) => leaf_fits(t, v),
        Some(NodeView::Internal(v)) => internal_fits(t, v),
        None => false,
    }
}

proof fn lemma_leaf_valid(t: TreeShape, v: LeafView)
    requires
        leaf_fits(t, v),
    ensures
        valid_leaf(v),
{
    lemma_strict_is_sorted(v.keys);
}

proof fn lemma_internal_valid(t: TreeShape, v: InternalView)
    requires
        internal_fits(t, v),
    ensures
        valid_internal(v),
{
    lemma_strict_is_sorted(v.keys);
}

/// Leaves of a tree can be stored.
proof fn lemma_leaf_storable(t: TreeShape, v: LeafView)
    requires
        t.valid(),
        leaf_fits(t, v),
    ensures
        leaf_encode_error(v, t.key_len as int) is None,
        t.key_len > 0,
        t.capacity() == tombstone_room(t.leaf_max as int, t.key_len as int, NUM_TOMBSTONES as int),
{
    let kl = t.key_len as int;
    let e = entry_bytes(kl);
    let n = v.keys.len() as int;
    let m = t.leaf_max as int;
    let k = v.tombstones.len() as int;
    lemma_misfit(v.keys, kl, 0);
    assert(m * e <= 8164 && n * e <= m * e && n * e >= 0) by (nonlinear_arith)
        requires
            m == 8164int / e,
            e > 0,
            0 <= n <= m,
    ;
    assert(e <= 8164) by (nonlinear_arith)
        requires
            m * e <= 8164,
            m >= 1,
            e > 0,
    ;
    let room = tombstone_room(m, kl, NUM_TOMBSTONES as int);
    assert(24 + m * e + 4 <= PAGE_SIZE);
    assert(room >= 0 && 4 * room <= PAGE_SIZE - (24 + m * e + 4));
    assert(room <= usize::MAX);
    assert(k <= room);
    assert(leaf_bytes(v, kl) <= PAGE_SIZE);
}

/// Internal nodes of a tree can be stored.
proof fn lemma_internal_storable(t: TreeShape, v: InternalView)
    requires
        t.valid(),
        internal_fits(t, v),
    ensures
        internal_encode_error(v, t.key_len as int) is None,
        t.key_len > 0,
{
    let kl = t.key_len as int;
    let n = v.keys.len() as int;
    let m = t.internal_max as int;
    lemma_misfit(v.keys, kl, 0);
    assert(m * (kl + 8) <= 8160 && n * (kl + 8) <= m * (kl + 8) && n * kl + n * 8 == n * (kl + 8)
        && n * kl >= 0) by (nonlinear_arith)
        requires
            m == 8160int / (kl + 8),
            kl > 0,
            0 <= n <= m,
    ;
    assert(internal_bytes(v, kl) <= PAGE_SIZE);
}

impl BPlusTree {
    pub open spec fn shape(&self) -> TreeShape {
        TreeShape {
            key_len: self.key_len,
            leaf_max: self.leaf_max_size,
            internal_max: self.internal_max_size,
        }
    }

    /// Reads the node on a page.
    pub(crate) fn read_node(&self, bpm: &mut BufferPoolManager, page_id: PageId) -> (res: Result<
        Page,
        IndexError,
    >)
        requires
            old(bpm).wf(),
            self.shape().valid(),
            old(bpm).pages().contains_key(page_id),
            node_fits(self.shape(), node_of(old(bpm).pages()[page_id], self.key_len)),
        ensures
            final(bpm).wf(),
            final(bpm).same_pages(old(bpm)),
            old(bpm).ready() ==> final(bpm).ready(),
            match res {
                Ok(Page::Leaf(leaf)) => {
                    &&& node_of(old(bpm).pages()[page_id], self.key_len) == Some(
                        NodeView::Leaf(leaf@),
                    )
                    &&& leaf.base.page_type == PageType::Leaf
                    &&& valid_leaf(leaf@)
                },
                Ok(Page::Internal(node)) => {
                    &&& node_of(old(bpm).pages()[page_id], self.key_len) == Some(
                        NodeView::Internal(node@),
                    )
                    &&& node.base.page_type == PageType::Internal
                    &&& valid_internal(node@)
                },
                Err(_) => pool_failed(res) && !old(bpm).ready(),
            },
    {
        let data = match bpm.load(page_id) {
            Ok(d) => d,
            Err(e) => { return Err(IndexError::BpmError(e)); },
        };
        proof {
            reveal(node_of);
            match node_of(data@, self.key_len) {
                Some(NodeView::Leaf(v)) => {
                    lemma_leaf_valid(self.shape(), v);
                },
                Some(NodeView::Internal(v)) => {
                    lemma_internal_valid(self.shape(), v);
                },
                None => {},
            }
        }
        match Page::decode(data.as_slice(), self.key_len) {
            Ok(page) => Ok(page),
            Err(e) => Err(IndexError::PageError(e)),
        }
    }

    /// Stores a leaf on a page.
    fn write_leaf(&self, bpm: &mut BufferPoolManager, page_id: PageId, leaf: &LeafPage) -> (res:
        Result<(), IndexError>)
        requires
            old(bpm).wf(),
            self.shape().valid(),
            old(bpm).pages().contains_key(page_id),
            leaf_fits(self.shape(), leaf@),
        ensures
            carried(old(bpm), final(bpm)),
            final(bpm).next_page_id() == old(bpm).next_page_id(),
            match res {
                Ok(_) => {
                    &&& final(bpm).pages() == old(bpm).pages().insert(
                        page_id,
                        final(bpm).pages()[page_id],
                    )
                    &&& node_of(final(bpm).pages()[page_id], self.key_len) == Some(
                        NodeView::Leaf(leaf@),
                    )
                },
                Err(_) => pool_failed(res) && !old(bpm).ready() && final(bpm).pages() == old(bpm).pages(),
            },
    {
        proof {
            lemma_leaf_valid(self.shape(), leaf@);
            lemma_leaf_storable(self.shape(), leaf@);
        }
        let mut data: Vec<u8> = vec![0u8; PAGE_SIZE];
        match leaf.encode(data.as_mut_slice(), self.key_len) {
            Ok(_) => {},
            Err(e) => { return Err(IndexError::PageError(e)); },
        }
        proof {
            law_leaf_roundtrip(data@, leaf@, self.key_len as int);
            reveal(node_of);
            assert(data@[6] == KIND_LEAF);
            assert(node_of(data@, self.key_len) == Some(NodeView::Leaf(leaf@)));
        }
        match bpm.store(page_id, data.as_slice()) {
            Ok(_) => Ok(()),
            Err(e) => Err(IndexError::BpmError(e)),
        }
    }

    /// Stores an internal node on a page.
    fn write_internal(
        &self,
        bpm: &mut BufferPoolManager,
        page_id: PageId,
        node: &InternalPage,
    ) -> (res: Result<(), IndexError>)
        requires
            old(bpm).wf(),
            self.shape().valid(),
            old(bpm).pages().contains_key(page_id),
            internal_fits(self.shape(), node@),
        ensures
            carried(old(bpm), final(bpm)),
            final(bpm).next_page_id() == old(bpm).next_page_id(),
            match res {
                Ok(_) => {
                    &&& final(bpm).pages() == old(bpm).pages().insert(
                        page_id,
                        final(bpm).pages()[page_id],
                    )
                    &&& node_of(final(bpm).pages()[page_id], self.key_len) == Some(
                        NodeView::Internal(node@),
                    )
                },
                Err(_) => pool_failed(res) && !old(bpm).ready() && final(bpm).pages() == old(bpm).pages(),
            },
    {
        proof {
            lemma_internal_valid(self.shape(), node@);
            lemma_internal_storable(self.shape(), node@);
        }
        let mut data: Vec<u8> = vec![0u8; PAGE_SIZE];
        match node.encode(data.as_mut_slice(), self.key_len) {
            Ok(_) => {},
            Err(e) => { return Err(IndexError::PageError(e)); },
        }
        proof {
            law_internal_roundtrip(data@, node@, self.key_len as int);
            reveal(node_of);
            assert(data@[6] == KIND_INTERNAL);
            assert(node_of(data@, self.key_len) == Some(NodeView::Internal(node@)));
        }
        match bpm.store(page_id, data.as_slice()) {
            Ok(_) => Ok(()),
            Err(e) => Err(IndexError::BpmError(e)),
        }
    }

    /// Creates a page for a new node.
    fn new_node_page(&self, bpm: &mut BufferPoolManager) -> (res: Result<PageId, IndexError>)
        requires
            old(bpm).wf(),
            old(bpm).ids_fresh(),
        ensures
            carried(old(bpm), final(bpm)),
            match res {
                Ok(id) => {
                    &&& id == old(bpm).next_page_id()
                    &&& id != INVALID_PAGE_ID
                    &&& !old(bpm).pages().contains_key(id)
                    &&& final(bpm).pages().contains_key(id)
                    &&& final(bpm).next_page_id() == id + 1
                    &&& forall|p: usize| #[trigger]
                        old(bpm).pages().contains_key(p) ==> final(bpm).pages()[p] == old(bpm).pages()[p]
                },
                Err(_) => pool_failed(res) && !(old(bpm).ready() && old(bpm).next_page_id()
                    < usize::MAX) && final(bpm).pages() == old(bpm).pages()
                    && final(bpm).next_page_id() == old(bpm).next_page_id(),
            },
    {
        assert(!old(bpm).pages().contains_key(old(bpm).next_page_id()));
        match bpm.allocate() {
            Ok(id) => Ok(id),
            Err(e) => Err(IndexError::BpmError(e)),
        }
    }
}

/// The shape leaves room for at least one entry on each page, and for no more than a u32 counts.
proof fn lemma_shape_bounds(t: TreeShape)
    requires
        t.valid(),
    ensures
        1 <= t.leaf_max <= 8164,
        1 <= t.internal_max <= 8160,
        t.key_len > 0,
{
    let e = t.key_len as int + 16;
    let d = t.key_len as int + 8;
    assert(8164int / e <= 8164) by (nonlinear_arith)
        requires
            e >= 1,
    ;
    assert(8160int / d <= 8160) by (nonlinear_arith)
        requires
            d >= 1,
    ;
    assert(8164int / e >= 0) by (nonlinear_arith)
        requires
            e >= 1,
    ;
    assert(8160int / d >= 0) by (nonlinear_arith)
        requires
            d >= 1,
    ;
}

impl BPlusTree {
    /// Inserts a key into the tree below a page. Where the node on the page comes apart, returns
    /// the key and the page of its right part.
    fn insert_into(
        &self,
        bpm: &mut BufferPoolManager,
        page_id: PageId,
        key: &IndexKey,
        rid: RecordId,
        Ghost(h): Ghost<nat>,
        Ghost(lo): Ghost<Option<Seq<u8>>>,
        Ghost(hi): Ghost<Option<Seq<u8>>>,
        Ghost(loose): Ghost<bool>,
        Ghost(next): Ghost<usize>,
    ) -> (res: Result<Option<(IndexKey, PageId)>, IndexError>)
        requires
            old(bpm).wf(),
            old(bpm).ids_fresh(),
            self.shape().valid(),
            subtree(old(bpm).pages(), self.shape(), page_id, h, lo, hi, loose),
            linked(old(bpm).pages(), self.shape(), page_id, h, next),
            in_span(lo, hi, key@),
            key@.len() == self.key_len,
        ensures
            carried(old(bpm), final(bpm)),
            final(bpm).next_page_id() <= old(bpm).next_page_id() + h + 1,
            untouched(old(bpm).pages(), final(bpm).pages(), self.shape(), page_id, h),
            pool_failed(res) ==> !(old(bpm).ready() && old(bpm).next_page_id() + h
                < usize::MAX),
            match res {
                Ok(None) => {
                    &&& lookup(old(bpm).pages(), self.shape(), page_id, h, key@) is None
                    &&& grown(
                        old(bpm).pages(),
                        final(bpm).pages(),
                        self.shape(),
                        page_id,
                        h,
                        lo,
                        hi,
                        loose,
                        next,
                        key@,
                        Some(rid),
                    )
                    &&& keeps_branching(
                        old(bpm).pages(),
                        final(bpm).pages(),
                        self.shape(),
                        page_id,
                    )
                    &&& entered_at(
                        old(bpm).pages(),
                        final(bpm).pages(),
                        self.shape(),
                        home_leaf(old(bpm).pages(), self.shape(), page_id, h, key@),
                        key@,
                        rid,
                        old(bpm).next_page_id(),
                        false,
                    )
                },
                Ok(Some((sep, right))) => {
                    &&& lookup(old(bpm).pages(), self.shape(), page_id, h, key@) is None
                    &&& parted(
                        old(bpm).pages(),
                        final(bpm).pages(),
                        self.shape(),
                        page_id,
                        h,
                        lo,
                        hi,
                        next,
                        key@,
                        Some(rid),
                        sep@,
                        right,
                    )
                    &&& entered_at(
                        old(bpm).pages(),
                        final(bpm).pages(),
                        self.shape(),
                        home_leaf(old(bpm).pages(), self.shape(), page_id, h, key@),
                        key@,
                        rid,
                        old(bpm).next_page_id(),
                        true,
                    )
                },
                Err(e) => pool_failed(res) || {
                    &&& e == IndexError::Insert(InsertError::DuplicateKey)
                    &&& lookup(old(bpm).pages(), self.shape(), page_id, h, key@) is Some
                    &&& final(bpm).pages() == old(bpm).pages()
                },
            },
        decreases h,
    {
        let ghost t = self.shape();
        let ghost p0 = bpm.pages();
        proof {
            lemma_shape_bounds(t);
        }
        let page = match self.read_node(bpm, page_id) {
            Ok(p) => p,
            Err(e) => { return Err(e); },
        };
        match page {
            Page::Leaf(leaf) => {
                let mut leaf = leaf;
                self.insert_into_leaf(
                    bpm,
                    page_id,
                    &mut leaf,
                    key,
                    rid,
                    Ghost(lo),
                    Ghost(hi),
                    Ghost(loose),
                    Ghost(next),
                )
            },
            Page::Internal(node) => {
                let mut node = node;
                let ghost v = node@;
                let ghost g = (h - 1) as nat;
                let i: usize = node.find_child_index(key);
                let child: PageId = node.children[i];
                proof {
                    lemma_span_of_index(v.keys, lo, hi, key@);
                    assert(v.children[i as int] == child);
                    assert(linked(
                        p0,
                        t,
                        v.children[i as int],
                        g,
                        leaf_after(p0, t, v.children, g, next, i as int),
                    ));
                }
                let split = match self.insert_into(
                    bpm,
                    child,
                    key,
                    rid,
                    Ghost(g),
                    Ghost(child_lo(v.keys, lo, i as int)),
                    Ghost(child_hi(v.keys, hi, i as int)),
                    Ghost(false),
                    Ghost(leaf_after(p0, t, v.children, g, next, i as int)),
                ) {
                    Ok(s) => s,
                    Err(e) => {
                        proof {
                            lemma_untouched_up(p0, bpm.pages(), t, page_id, h, v, i as int);
                        }
                        return Err(e);
                    },
                };
                let ghost p1 = bpm.pages();
                proof {
                    lemma_untouched_up(p0, p1, t, page_id, h, v, i as int);
                }
                match split {
                    None => {
                        proof {
                            lemma_child_grown(
                                p0,
                                p1,
                                t,
                                v.children,
                                v.keys,
                                g,
                                lo,
                                hi,
                                next,
                                key@,
                                Some(rid),
                                i as int,
                            );
                            assert(!forest_owns(p0, t, v.children, g, page_id));
                            assert(p1.contains_key(page_id) && p1[page_id] == p0[page_id]);
                            lemma_node_grown(
                                p0,
                                p1,
                                p1,
                                t,
                                page_id,
                                h,
                                lo,
                                hi,
                                loose,
                                loose,
                                next,
                                key@,
                                Some(rid),
                                v,
                                v,
                            );
                        }
                        Ok(None)
                    },
                    Some((sep, right)) => {
                        proof {
                            lemma_child_parted(
                                p0,
                                p1,
                                t,
                                v.children,
                                v.keys,
                                g,
                                lo,
                                hi,
                                next,
                                key@,
                                Some(rid),
                                i as int,
                                sep@,
                                right,
                            );
                            lemma_separator_spliced(v, lo, hi, i as int, sep@, right);
                            lemma_strict_is_sorted(v.keys);
                        }
                        let res = self.insert_into_node(
                            bpm,
                            page_id,
                            &mut node,
                            sep,
                            right,
                            key,
                            rid,
                            Ghost(p0),
                            Ghost(h),
                            Ghost(lo),
                            Ghost(hi),
                            Ghost(loose),
                            Ghost(next),
                        );
                        proof {
                            if res is Ok {
                                let home = home_leaf(p0, t, child, g, key@);
                                let fresh = old(bpm).next_page_id();
                                assert(node_of(p0[page_id], t.key_len) is Some);
                                assert(home != page_id);
                                assert(!p0.contains_key(fresh));
                                assert(p1.contains_key(home) && p1.contains_key(fresh));
                                assert(entered_at(
                                    p0,
                                    bpm.pages(),
                                    t,
                                    home,
                                    key@,
                                    rid,
                                    fresh,
                                    true,
                                ));
                            }
                        }
                        res
                    },
                }
            },
        }
    }

    /// Inserts a key into a leaf, which may come apart.
    fn insert_into_leaf(
        &self,
        bpm: &mut BufferPoolManager,
        page_id: PageId,
        leaf: &mut LeafPage,
        key: &IndexKey,
        rid: RecordId,
        Ghost(lo): Ghost<Option<Seq<u8>>>,
        Ghost(hi): Ghost<Option<Seq<u8>>>,
        Ghost(loose): Ghost<bool>,
        Ghost(next): Ghost<usize>,
    ) -> (res: Result<Option<(IndexKey, PageId)>, IndexError>)
        requires
            old(bpm).wf(),
            old(bpm).ids_fresh(),
            self.shape().valid(),
            subtree(old(bpm).pages(), self.shape(), page_id, 0, lo, hi, loose),
            linked(old(bpm).pages(), self.shape(), page_id, 0, next),
            node_of(old(bpm).pages()[page_id], self.key_len) == Some(NodeView::Leaf(old(leaf)@)),
            in_span(lo, hi, key@),
            key@.len() == self.key_len,
        ensures
            carried(old(bpm), final(bpm)),
            final(bpm).next_page_id() <= old(bpm).next_page_id() + 1,
            untouched(old(bpm).pages(), final(bpm).pages(), self.shape(), page_id, 0),
            pool_failed(res) ==> !(old(bpm).ready() && old(bpm).next_page_id() < usize::MAX),
            match res {
                Ok(None) => {
                    &&& lookup(old(bpm).pages(), self.shape(), page_id, 0, key@) is None
                    &&& grown(
                        old(bpm).pages(),
                        final(bpm).pages(),
                        self.shape(),
                        page_id,
                        0,
                        lo,
                        hi,
                        loose,
                        next,
                        key@,
                        Some(rid),
                    )
                    &&& keeps_branching(
                        old(bpm).pages(),
                        final(bpm).pages(),
                        self.shape(),
                        page_id,
                    )
                    &&& entered_at(
                        old(bpm).pages(),
                        final(bpm).pages(),
                        self.shape(),
                        page_id,
                        key@,
                        rid,
                        old(bpm).next_page_id(),
                        false,
                    )
                },
                Ok(Some((sep, right))) => {
                    &&& lookup(old(bpm).pages(), self.shape(), page_id, 0, key@) is None
                    &&& parted(
                        old(bpm).pages(),
                        final(bpm).pages(),
                        self.shape(),
                        page_id,
                        0,
                        lo,
                        hi,
                        next,
                        key@,
                        Some(rid),
                        sep@,
                        right,
                    )
                    &&& entered_at(
                        old(bpm).pages(),
                        final(bpm).pages(),
                        self.shape(),
                        page_id,
                        key@,
                        rid,
                        old(bpm).next_page_id(),
                        true,
                    )
                },
                Err(e) => pool_failed(res) || {
                    &&& e == IndexError::Insert(InsertError::DuplicateKey)
                    &&& lookup(old(bpm).pages(), self.shape(), page_id, 0, key@) is Some
                    &&& final(bpm).pages() == old(bpm).pages()
                },
            },
    {
        let ghost t = self.shape();
        let ghost p0 = bpm.pages();
        let ghost v = leaf@;
        proof {
            lemma_shape_bounds(t);
            lemma_leaf_valid(t, v);
            law_leaf_insert(v, key@, rid);
        }
        match leaf.insert(key.clone(), rid) {
            Ok(_) => {},
            Err(_) => { return Err(IndexError::Insert(InsertError::DuplicateKey)); },
        }
        let ghost w = leaf@;
        proof {
            lemma_leaf_inserted_fits(t, v, key@, rid);
        }
        if !leaf.is_overfull() {
            match self.write_leaf(bpm, page_id, leaf) {
                Ok(_) => {},
                Err(e) => { return Err(e); },
            }
            proof {
                lemma_leaf_grown(
                    p0,
                    bpm.pages(),
                    t,
                    page_id,
                    lo,
                    hi,
                    loose,
                    next,
                    key@,
                    rid,
                    v,
                    w,
                );
            }
            return Ok(None);
        }
        let right_id: PageId = match self.new_node_page(bpm) {
            Ok(id) => id,
            Err(e) => { return Err(e); },
        };
        let ghost p1 = bpm.pages();
        let cap: u32 = LeafPage::tombstone_capacity_for_layout(
            self.leaf_max_size,
            self.key_len,
            NUM_TOMBSTONES,
        );
        let mut right_leaf = LeafPage::new(self.leaf_max_size, cap);
        let ghost empty = right_leaf@;
        proof {
            lemma_halves_fit(t, w, right_id, empty);
            lemma_leaf_valid(t, leaf_split_right(w, empty));
            assert(w.keys.len() == t.leaf_max + 1);
            assert(empty =~= empty_leaf(t));
        }
        let sep = leaf.split_into(&mut right_leaf, right_id);
        match self.write_leaf(bpm, page_id, leaf) {
            Ok(_) => {},
            Err(e) => { return Err(e); },
        }
        match self.write_leaf(bpm, right_id, &right_leaf) {
            Ok(_) => {},
            Err(e) => { return Err(e); },
        }
        proof {
            lemma_leaf_parted(
                p0,
                bpm.pages(),
                t,
                page_id,
                lo,
                hi,
                loose,
                next,
                key@,
                rid,
                v,
                w,
                empty,
                right_id,
            );
        }
        Ok(Some((sep, right_id)))
    }

    /// Puts the right part of a child into its parent, which may come apart in turn.
    fn insert_into_node(
        &self,
        bpm: &mut BufferPoolManager,
        page_id: PageId,
        node: &mut InternalPage,
        sep: IndexKey,
        right: PageId,
        key: &IndexKey,
        rid: RecordId,
        Ghost(p0): Ghost<Pages>,
        Ghost(h): Ghost<nat>,
        Ghost(lo): Ghost<Option<Seq<u8>>>,
        Ghost(hi): Ghost<Option<Seq<u8>>>,
        Ghost(loose): Ghost<bool>,
        Ghost(next): Ghost<usize>,
    ) -> (res: Result<Option<(IndexKey, PageId)>, IndexError>)
        requires
            h > 0,
            old(bpm).wf(),
            old(bpm).ids_fresh(),
            self.shape().valid(),
            subtree(p0, self.shape(), page_id, h, lo, hi, loose),
            node_of(p0[page_id], self.key_len) == Some(NodeView::Internal(old(node)@)),
            sep@.len() == self.key_len,
            strictly_sorted(separator_inserted(old(node)@, sep@, right).keys),
            ({
                let w = separator_inserted(old(node)@, sep@, right);
                forest_grown(
                    p0,
                    old(bpm).pages(),
                    self.shape(),
                    old(node)@.children,
                    old(node)@.keys,
                    w.children,
                    w.keys,
                    (h - 1) as nat,
                    lo,
                    hi,
                    next,
                    key@,
                    Some(rid),
                )
            }),
            forall|p: usize| #[trigger]
                p0.contains_key(p) ==> old(bpm).pages().contains_key(p) && (!forest_owns(
                    p0,
                    self.shape(),
                    old(node)@.children,
                    (h - 1) as nat,
                    p,
                ) ==> old(bpm).pages()[p] == p0[p]),
        ensures
            carried(old(bpm), final(bpm)),
            final(bpm).next_page_id() <= old(bpm).next_page_id() + 1,
            untouched(p0, final(bpm).pages(), self.shape(), page_id, h),
            forall|p: usize| #[trigger]
                old(bpm).pages().contains_key(p) && p != page_id ==> final(bpm).pages()[p] == old(
                    bpm).pages()[p],
            pool_failed(res) ==> !(old(bpm).ready() && old(bpm).next_page_id() < usize::MAX),
            match res {
                Ok(None) => grown(
                    p0,
                    final(bpm).pages(),
                    self.shape(),
                    page_id,
                    h,
                    lo,
                    hi,
                    loose,
                    next,
                    key@,
                    Some(rid),
                ) && keeps_branching(p0, final(bpm).pages(), self.shape(), page_id),
                Ok(Some((s, r))) => parted(
                    p0,
                    final(bpm).pages(),
                    self.shape(),
                    page_id,
                    h,
                    lo,
                    hi,
                    next,
                    key@,
                    Some(rid),
                    s@,
                    r,
                ),
                Err(_) => pool_failed(res),
            },
    {
        let ghost t = self.shape();
        let ghost p1 = bpm.pages();
        let ghost v = node@;
        let ghost w = separator_inserted(v, sep@, right);
        proof {
            lemma_shape_bounds(t);
            lemma_strict_is_sorted(v.keys);
            lemma_index_in_range(v.keys, sep@);
            assert(keys_have_len(w.keys, t.key_len)) by {
                let i = child_index(v.keys, sep@);
                assert forall|j: int| 0 <= j < w.keys.len() implies (#[trigger] w.keys[j]).len()
                    == t.key_len by {
                    if j < i {
                        assert(w.keys[j] == v.keys[j]);
                    } else if j > i {
                        assert(w.keys[j] == v.keys[j - 1]);
                    }
                }
            }
            assert(untouched(p0, p1, t, page_id, h)) by {
                assert forall|p: usize| #[trigger]
                    p0.contains_key(p) && !owns(p0, t, page_id, h, p) implies p1.contains_key(p)
                    && p1[p] == p0[p] by {
                    assert(!forest_owns(p0, t, v.children, (h - 1) as nat, p));
                }
            }
            assert(!forest_owns(p0, t, v.children, (h - 1) as nat, page_id));
        }
        node.insert_separator(sep, right);
        if !node.is_overfull() {
            match self.write_internal(bpm, page_id, node) {
                Ok(_) => {},
                Err(e) => { return Err(e); },
            }
            proof {
                lemma_node_grown(
                    p0,
                    p1,
                    bpm.pages(),
                    t,
                    page_id,
                    h,
                    lo,
                    hi,
                    loose,
                    loose,
                    next,
                    key@,
                    Some(rid),
                    v,
                    w,
                );
            }
            return Ok(None);
        }
        let new_id: PageId = match self.new_node_page(bpm) {
            Ok(id) => id,
            Err(e) => { return Err(e); },
        };
        let mut right_node = InternalPage::new(self.internal_max_size);
        let new_sep = node.split_into(&mut right_node);
        let ghost mid = w.keys.len() as int / 2;
        proof {
            lemma_strict_part(w.keys, 0, mid);
            lemma_strict_part(w.keys, mid + 1, w.keys.len() as int);
            assert(keys_have_len(node@.keys, t.key_len)) by {
                assert forall|j: int| 0 <= j < node@.keys.len() implies (
                #[trigger] node@.keys[j]).len() == t.key_len by {
                    assert(node@.keys[j] == w.keys[j]);
                }
            }
            assert(keys_have_len(right_node@.keys, t.key_len)) by {
                assert forall|j: int| 0 <= j < right_node@.keys.len() implies (
                #[trigger] right_node@.keys[j]).len() == t.key_len by {
                    assert(right_node@.keys[j] == w.keys[mid + 1 + j]);
                }
            }
        }
        match self.write_internal(bpm, page_id, node) {
            Ok(_) => {},
            Err(e) => { return Err(e); },
        }
        match self.write_internal(bpm, new_id, &right_node) {
            Ok(_) => {},
            Err(e) => { return Err(e); },
        }
        proof {
            lemma_node_parted(
                p0,
                p1,
                bpm.pages(),
                t,
                page_id,
                h,
                lo,
                hi,
                loose,
                next,
                key@,
                Some(rid),
                v,
                w.children,
                w.keys,
                mid,
                node@,
                right_node@,
                new_id,
            );
        }
        Ok(Some((new_sep, new_id)))
    }
}

proof fn lemma_strict_part(keys: Seq<Seq<u8>>, a: int, b: int)
    requires
        strictly_sorted(keys),
        0 <= a <= b <= keys.len(),
    ensures
        strictly_sorted(keys.subrange(a, b)),
{
    let s = keys.subrange(a, b);
    assert forall|i: int, j: int| 0 <= i < j < s.len() implies key_lt(
        #[trigger] s[i],
        #[trigger] s[j],
    ) by {
        assert(key_lt(keys[a + i], keys[a + j]));
    }
}

/// The leaf for a key belongs to the tree.
proof fn lemma_home_owned(
    pages: Pages,
    t: TreeShape,
    pid: usize,
    h: nat,
    lo: Option<Seq<u8>>,
    hi: Option<Seq<u8>>,
    loose: bool,
    k: Seq<u8>,
)
    requires
        subtree(pages, t, pid, h, lo, hi, loose),
        in_span(lo, hi, k),
    ensures
        owns(pages, t, pid, h, home_leaf(pages, t, pid, h, k)),
    decreases h,
{
    match node_of(pages[pid], t.key_len) {
        Some(NodeView::Internal(v)) => {
            let i = child_index(v.keys, k);
            lemma_strict_is_sorted(v.keys);
            lemma_span_of_index(v.keys, lo, hi, k);
            let (clo, chi) = (child_lo(v.keys, lo, i), child_hi(v.keys, hi, i));
            assert(subtree(pages, t, v.children[i], (h - 1) as nat, clo, chi, false));
            lemma_home_owned(pages, t, v.children[i], (h - 1) as nat, clo, chi, false, k);
        },
        _ => {},
    }
}

/// What is outside of the tree is outside of the child.
proof fn lemma_untouched_up(
    p0: Pages,
    p1: Pages,
    t: TreeShape,
    pid: usize,
    h: nat,
    v: InternalView,
    i: int,
)
    requires
        h > 0,
        node_of(p0[pid], t.key_len) == Some(NodeView::Internal(v)),
        0 <= i < v.children.len(),
        untouched(p0, p1, t, v.children[i], (h - 1) as nat),
    ensures
        untouched(p0, p1, t, pid, h),
        forall|p: usize| #[trigger]
            p0.contains_key(p) && !forest_owns(p0, t, v.children, (h - 1) as nat, p)
                ==> p1.contains_key(p) && p1[p] == p0[p],
{
    assert forall|p: usize| #[trigger]
        p0.contains_key(p) && !forest_owns(p0, t, v.children, (h - 1) as nat, p) implies
        p1.contains_key(p) && p1[p] == p0[p] by {
        assert(!owns(p0, t, v.children[i], (h - 1) as nat, p));
    }
    assert forall|p: usize| #[trigger] p0.contains_key(p) && !owns(p0, t, pid, h, p) implies
        p1.contains_key(p) && p1[p] == p0[p] by {
        assert(!forest_owns(p0, t, v.children, (h - 1) as nat, p));
    }
}

/// Keys of this length cannot be indexed: no entry of one of the page kinds fits.
pub open spec fn unusable_key_len(key_len: u32) -> bool {
    leaf_max_size(key_len as int) is None || internal_max_size(key_len as int) is None
}

impl BPlusTree {
    /// The pages hold this tree.
    pub open spec fn wf(&self, pages: Pages) -> bool {
        tree_ok(pages, self.shape(), self.header_page_id)
    }

    /// The record id that the tree holds for a key.
    pub open spec fn find(&self, pages: Pages, k: Seq<u8>) -> Option<RecordId> {
        tree_find(pages, self.shape(), self.header_page_id, k)
    }

    /// Page `p` belongs to the tree.
    pub open spec fn owns(&self, pages: Pages, p: usize) -> bool {
        tree_owns(pages, self.shape(), self.header_page_id, p)
    }

    /// The tree has never held a key, or lost its last page.
    pub open spec fn is_empty(&self, pages: Pages) -> bool {
        tree_empty(pages, self.header_page_id)
    }

    pub open spec fn height(&self, pages: Pages) -> nat {
        tree_height(pages, self.shape(), self.header_page_id)
    }

    /// `e` says why the pages hold no header of this tree.
    pub open spec fn header_error(&self, pages: Pages, e: IndexError) -> bool {
        let b = pages[self.header_page_id];
        if !pages.contains_key(self.header_page_id) {
            e matches IndexError::BpmError(BpmError::Io(io)) && is_missing(io, self.header_page_id)
        } else {
            match header_decoded(b) {
                Err(c) => e == IndexError::PageError(c),
                Ok(hd) => hd.key_len != self.key_len && e == IndexError::Insert(
                    InsertError::InvalidKey,
                ),
            }
        }
    }

    /// The pool can provide all pages that an insert may need.
    pub open spec fn room_to_insert(&self, bpm: &BufferPoolManager) -> bool {
        &&& bpm.ready()
        &&& if self.is_empty(bpm.pages()) {
            bpm.next_page_id() < usize::MAX
        } else {
            bpm.next_page_id() + self.height(bpm.pages()) + 1 < usize::MAX
        }
    }

    /// The leaf on which a key stands, or would stand.
    pub open spec fn home(&self, pages: Pages, k: Seq<u8>) -> usize {
        home_leaf(
            pages,
            self.shape(),
            (header_of(pages[self.header_page_id])->0).root_page_id,
            self.height(pages),
            k,
        )
    }

    /// A key was entered into the leaf where it belongs. In an empty tree this is a new leaf on
    /// page `fresh`, the root. Else the leaf may have been split, with its right part on page
    /// `fresh`.
    pub open spec fn entered(
        &self,
        p0: Pages,
        p1: Pages,
        key: Seq<u8>,
        rid: RecordId,
        fresh: usize,
    ) -> bool {
        if self.is_empty(p0) {
            &&& (header_of(p1[self.header_page_id])->0).root_page_id == fresh
            &&& leaf_inserted(empty_leaf(self.shape()), key, rid) matches Some(w) && node_of(
                p1[fresh],
                self.key_len,
            ) == Some(NodeView::Leaf(w))
        } else {
            exists|is_split: bool| #[trigger]
                entered_at(p0, p1, self.shape(), self.home(p0, key), key, rid, fresh, is_split)
        }
    }

    /// A key was deleted from the leaf where it stood. Where that leaf is still at least half
    /// full, or is the root and holds a key, nothing else changed. A root without keys is dropped.
    pub open spec fn deleted(&self, p0: Pages, p1: Pages, key: Seq<u8>) -> bool {
        let t = self.shape();
        let home = self.home(p0, key);
        node_of(p0[home], t.key_len) matches Some(NodeView::Leaf(v)) && leaf_removed(v, key)
            matches Some(w) && if self.height(p0) == 0 {
            if w.keys.len() > 0 {
                leaf_rewritten(p0, p1, t, home, w)
            } else {
                self.is_empty(p1)
            }
        } else {
            w.keys.len() >= t.leaf_max / 2 ==> leaf_rewritten(p0, p1, t, home, w)
        }
    }

    /// Pages that belong to others are as they were, and the tree took over none of them.
    pub open spec fn stays_apart(&self, p0: Pages, p1: Pages) -> bool {
        &&& forall|p: usize| #[trigger]
            p0.contains_key(p) && !self.owns(p0, p) ==> p1.contains_key(p) && p1[p] == p0[p]
        &&& forall|p: usize| #[trigger]
            self.owns(p1, p) ==> self.owns(p0, p) || !p0.contains_key(p)
    }

    /// Creates an empty tree for keys of length `key_len`.
    pub fn new(index_name: String, key_len: u32, bpm: &mut BufferPoolManager) -> (res: Result<
        Self,
        IndexError,
    >)
        requires
            old(bpm).wf(),
            old(bpm).ids_fresh(),
        ensures
            carried(old(bpm), final(bpm)),
            match res {
                Ok(tree) => {
                    &&& !unusable_key_len(key_len)
                    &&& tree.index_name == index_name
                    &&& tree.key_len == key_len
                    &&& tree.header_page_id == old(bpm).next_page_id()
                    &&& final(bpm).next_page_id() == old(bpm).next_page_id() + 1
                    &&& tree.wf(final(bpm).pages())
                    &&& tree.is_empty(final(bpm).pages())
                    &&& final(bpm).pages() == old(bpm).pages().insert(
                        tree.header_page_id,
                        final(bpm).pages()[tree.header_page_id],
                    )
                },
                Err(e) => {
                    &&& final(bpm).pages() == old(bpm).pages()
                    &&& final(bpm).next_page_id() == old(bpm).next_page_id()
                    &&& if unusable_key_len(key_len) {
                        e == IndexError::Insert(InsertError::InvalidKey)
                    } else {
                        pool_failed(res) && !(old(bpm).has_frame() && old(bpm).next_page_id()
                            < usize::MAX)
                    }
                },
            },
    {
        let leaf_capacity: u32 = match LeafPage::max_size_for_layout(key_len as usize) {
            Some(c) => c,
            None => { return Err(IndexError::Insert(InsertError::InvalidKey)); },
        };
        let internal_capacity: u32 = match InternalPage::max_size_for_layout(key_len as usize) {
            Some(c) => c,
            None => { return Err(IndexError::Insert(InsertError::InvalidKey)); },
        };
        let header = HeaderPage {
            root_page_id: INVALID_PAGE_ID,
            first_leaf_id: INVALID_PAGE_ID,
            key_len,
        };
        let mut data: Vec<u8> = vec![0u8; PAGE_SIZE];
        match header.encode(data.as_mut_slice()) {
            Ok(_) => {},
            Err(e) => { return Err(IndexError::PageError(e)); },
        }
        proof {
            law_header_roundtrip(data@, header);
            reveal(header_of);
            assert(!old(bpm).pages().contains_key(old(bpm).next_page_id()));
        }
        match bpm.create(data.as_slice()) {
            Ok(header_page_id) => Ok(
                Self {
                    header_page_id,
                    key_len,
                    index_name,
                    leaf_max_size: leaf_capacity,
                    internal_max_size: internal_capacity,
                },
            ),
            Err(e) => Err(IndexError::BpmError(e)),
        }
    }

    /// Reads the header of the tree.
    pub fn read_header(&self, bpm: &mut BufferPoolManager) -> (res: Result<HeaderPage, IndexError>)
        requires
            old(bpm).wf(),
        ensures
            final(bpm).wf(),
            final(bpm).same_pages(old(bpm)),
            old(bpm).ready() ==> final(bpm).ready(),
            match res {
                Ok(hd) => old(bpm).pages().contains_key(self.header_page_id) && header_of(
                    old(bpm).pages()[self.header_page_id],
                ) == Some(hd) && hd.key_len == self.key_len,
                Err(e) => self.header_error(old(bpm).pages(), e) || (pool_failed(res)
                    && !old(bpm).ready()),
            },
            self.wf(old(bpm).pages()) && res is Err ==> pool_failed(res) && !old(bpm).ready(),
    {
        proof {
            reveal(header_of);
        }
        let data = match bpm.load(self.header_page_id) {
            Ok(d) => d,
            Err(e) => { return Err(IndexError::BpmError(e)); },
        };
        let header = match HeaderPage::decode(data.as_slice()) {
            Ok(h) => h,
            Err(e) => { return Err(IndexError::PageError(e)); },
        };
        if header.key_len != self.key_len {
            return Err(IndexError::Insert(InsertError::InvalidKey));
        }
        Ok(header)
    }

    /// Stores the header of the tree.
    fn write_header(&self, bpm: &mut BufferPoolManager, header: &HeaderPage) -> (res: Result<
        (),
        IndexError,
    >)
        requires
            old(bpm).wf(),
            old(bpm).pages().contains_key(self.header_page_id),
            header.key_len > 0,
        ensures
            carried(old(bpm), final(bpm)),
            final(bpm).next_page_id() == old(bpm).next_page_id(),
            match res {
                Ok(_) => {
                    &&& final(bpm).pages() == old(bpm).pages().insert(
                        self.header_page_id,
                        final(bpm).pages()[self.header_page_id],
                    )
                    &&& header_of(final(bpm).pages()[self.header_page_id]) == Some(*header)
                },
                Err(_) => pool_failed(res) && !old(bpm).ready() && final(bpm).pages() == old(bpm).pages(),
            },
    {
        let mut data: Vec<u8> = vec![0u8; PAGE_SIZE];
        match header.encode(data.as_mut_slice()) {
            Ok(_) => {},
            Err(e) => { return Err(IndexError::PageError(e)); },
        }
        proof {
            law_header_roundtrip(data@, *header);
            reveal(header_of);
        }
        match bpm.store(self.header_page_id, data.as_slice()) {
            Ok(_) => Ok(()),
            Err(e) => Err(IndexError::BpmError(e)),
        }
    }

    /// Inserts a key into the tree, which may grow by a level.
    pub fn insert_pessimistic(
        &self,
        bpm: &mut BufferPoolManager,
        key: &IndexKey,
        val: IndexValue,
    ) -> (res: InsertResult)
        requires
            old(bpm).wf(),
            old(bpm).ids_fresh(),
            self.wf(old(bpm).pages()),
            key@.len() == self.key_len,
        ensures
            carried(old(bpm), final(bpm)),
            forall|p: usize| #[trigger]
                old(bpm).pages().contains_key(p) && !self.owns(old(bpm).pages(), p) ==> final(bpm).pages()[p] == old(bpm).pages()[p],
            pool_failed(res) ==> !self.room_to_insert(old(bpm)),
            match res {
                Ok(_) => {
                    &&& self.find(old(bpm).pages(), key@) is None
                    &&& self.wf(final(bpm).pages())
                    &&& self.stays_apart(old(bpm).pages(), final(bpm).pages())
                    &&& !self.is_empty(final(bpm).pages())
                    &&& forall|k: Seq<u8>| #[trigger]
                        self.find(final(bpm).pages(), k) == with_key(
                            self.find(old(bpm).pages(), k),
                            key@,
                            Some(val->IndexValue_0),
                            k,
                        )
                    &&& self.entered(
                        old(bpm).pages(),
                        final(bpm).pages(),
                        key@,
                        val->IndexValue_0,
                        old(bpm).next_page_id(),
                    )
                },
                Err(e) => pool_failed(res) || {
                    &&& e == IndexError::Insert(InsertError::DuplicateKey)
                    &&& self.find(old(bpm).pages(), key@) is Some
                    &&& final(bpm).pages() == old(bpm).pages()
                },
            },
    {
        let IndexValue::IndexValue(record_id) = val;
        let ghost t = self.shape();
        let ghost hid = self.header_page_id;
        let ghost p0 = bpm.pages();
        let mut header = match self.read_header(bpm) {
            Ok(h) => h,
            Err(e) => { return Err(e); },
        };
        let ghost hd = header;
        proof {
            lemma_shape_bounds(t);
        }
        if header.root_page_id == INVALID_PAGE_ID {
            return self.insert_first(bpm, key, record_id);
        }
        let root_id: PageId = header.root_page_id;
        let ghost h = self.height(p0);
        assert(rooted(p0, t, hid, hd, h));
        let split = match self.insert_into(
            bpm,
            root_id,
            key,
            record_id,
            Ghost(h),
            Ghost(None),
            Ghost(None),
            Ghost(true),
            Ghost(INVALID_PAGE_ID),
        ) {
            Ok(s) => s,
            Err(e) => {
                return Err(e);
            },
        };
        let ghost p1 = bpm.pages();
        assert(p1.contains_key(hid) && p1[hid] == p0[hid]);
        match split {
            None => {
                proof {
                    lemma_root_grown(p0, p1, t, hid, hd, h, key@, Some(record_id));
                    assert(entered_at(
                        p0,
                        p1,
                        t,
                        self.home(p0, key@),
                        key@,
                        record_id,
                        old(bpm).next_page_id(),
                        false,
                    ));
                }
                Ok(())
            },
            Some((sep, right_id)) => {
                let new_root_id: PageId = match self.new_node_page(bpm) {
                    Ok(id) => id,
                    Err(e) => { return Err(e); },
                };
                let mut new_root = InternalPage::new(self.internal_max_size);
                new_root.children.push(root_id);
                assert(new_root@.children =~= seq![root_id]);
                assert(new_root@.keys =~= seq![]);
                proof {
                    lemma_index_in_range(new_root@.keys, sep@);
                }
                new_root.insert_separator(sep, right_id);
                assert(new_root@.children =~= seq![root_id, right_id]);
                assert(new_root@.keys =~= seq![sep@]);
                match self.write_internal(bpm, new_root_id, &new_root) {
                    Ok(_) => {},
                    Err(e) => { return Err(e); },
                }
                header.root_page_id = new_root_id;
                match self.write_header(bpm, &header) {
                    Ok(_) => {},
                    Err(e) => { return Err(e); },
                }
                proof {
                    lemma_root_parted(
                        p0,
                        p1,
                        bpm.pages(),
                        t,
                        hid,
                        hd,
                        h,
                        key@,
                        Some(record_id),
                        sep@,
                        right_id,
                        new_root_id,
                        new_root@,
                    );
                    let home = self.home(p0, key@);
                    let fresh = old(bpm).next_page_id();
                    assert(node_of(p0[home], t.key_len) is Some);
                    lemma_home_owned(p0, t, root_id, h, None, None, true, key@);
                    assert(home != hid);
                    assert(!p0.contains_key(fresh));
                    assert(fresh != hid);
                    assert(p1.contains_key(home) && p1.contains_key(fresh));
                    assert(entered_at(p0, bpm.pages(), t, home, key@, record_id, fresh, true));
                }
                Ok(())
            },
        }
    }

    /// Inserts the first key: the tree becomes a single leaf.
    fn insert_first(&self, bpm: &mut BufferPoolManager, key: &IndexKey, record_id: RecordId) -> (res:
        InsertResult)
        requires
            old(bpm).wf(),
            old(bpm).ids_fresh(),
            self.wf(old(bpm).pages()),
            self.is_empty(old(bpm).pages()),
            key@.len() == self.key_len,
        ensures
            carried(old(bpm), final(bpm)),
            forall|p: usize| #[trigger]
                old(bpm).pages().contains_key(p) && !self.owns(old(bpm).pages(), p) ==> final(bpm).pages()[p] == old(bpm).pages()[p],
            match res {
                Ok(_) => {
                    &&& self.wf(final(bpm).pages())
                    &&& self.stays_apart(old(bpm).pages(), final(bpm).pages())
                    &&& !self.is_empty(final(bpm).pages())
                    &&& forall|k: Seq<u8>| #[trigger]
                        self.find(final(bpm).pages(), k) == with_key(None, key@, Some(record_id), k)
                    &&& self.entered(
                        old(bpm).pages(),
                        final(bpm).pages(),
                        key@,
                        record_id,
                        old(bpm).next_page_id(),
                    )
                },
                Err(_) => pool_failed(res) && !self.room_to_insert(old(bpm)),
            },
    {
        let ghost t = self.shape();
        let ghost hid = self.header_page_id;
        let ghost p0 = bpm.pages();
        proof {
            lemma_shape_bounds(t);
        }
        let leaf_id: PageId = match self.new_node_page(bpm) {
            Ok(id) => id,
            Err(e) => { return Err(e); },
        };
        let cap: u32 = LeafPage::tombstone_capacity_for_layout(
            self.leaf_max_size,
            self.key_len,
            NUM_TOMBSTONES,
        );
        let mut leaf = LeafPage::new(self.leaf_max_size, cap);
        let ghost empty = leaf@;
        proof {
            assert(leaf_fits(t, empty));
            law_leaf_insert(empty, key@, record_id);
            lemma_slot_none(empty.keys, key@);
        }
        match leaf.insert(key.clone(), record_id) {
            Ok(_) => {},
            Err(_) => { return Err(IndexError::Insert(InsertError::DuplicateKey)); },
        }
        let ghost w = leaf@;
        proof {
            assert(empty =~= empty_leaf(t));
            lemma_leaf_inserted_fits(t, empty, key@, record_id);
        }
        match self.write_leaf(bpm, leaf_id, &leaf) {
            Ok(_) => {},
            Err(e) => { return Err(e); },
        }
        let header = HeaderPage {
            root_page_id: leaf_id,
            first_leaf_id: leaf_id,
            key_len: self.key_len,
        };
        match self.write_header(bpm, &header) {
            Ok(_) => {},
            Err(e) => { return Err(e); },
        }
        proof {
            let p1 = bpm.pages();
            assert(subtree(p1, t, leaf_id, 0, None, None, true));
            assert(rooted(p1, t, hid, header, 0));
            lemma_tree_height(p1, t, hid, header, 0);
            assert forall|k: Seq<u8>| #[trigger] self.find(p1, k) == with_key(
                None,
                key@,
                Some(record_id),
                k,
            ) by {
                lemma_slot_none(empty.keys, k);
                assert(leaf_lookup(empty, k) is None);
                assert(self.find(p1, k) == leaf_lookup(w, k));
            }
            assert forall|p: usize| #[trigger] self.owns(p1, p) implies self.owns(p0, p)
                || !p0.contains_key(p) by {}
        }
        Ok(())
    }

    /// The number of levels below a page.
    fn levels(
        &self,
        bpm: &mut BufferPoolManager,
        page_id: PageId,
        Ghost(h): Ghost<nat>,
        Ghost(lo): Ghost<Option<Seq<u8>>>,
        Ghost(hi): Ghost<Option<Seq<u8>>>,
        Ghost(loose): Ghost<bool>,
    ) -> (res: usize)
        requires
            old(bpm).wf(),
            old(bpm).ready(),
            self.shape().valid(),
            subtree(old(bpm).pages(), self.shape(), page_id, h, lo, hi, loose),
            h <= usize::MAX,
        ensures
            final(bpm).wf(),
            final(bpm).ready(),
            final(bpm).same_pages(old(bpm)),
            res == h,
        decreases h,
    {
        match self.read_node(bpm, page_id) {
            Ok(Page::Internal(node)) => {
                let ghost v = node@;
                let child: PageId = node.children[0];
                proof {
                    assert(v.children[0] == child);
                    assert(subtree(
                        bpm.pages(),
                        self.shape(),
                        v.children[0],
                        (h - 1) as nat,
                        child_lo(v.keys, lo, 0),
                        child_hi(v.keys, hi, 0),
                        false,
                    ));
                }
                1 + self.levels(
                    bpm,
                    child,
                    Ghost((h - 1) as nat),
                    Ghost(child_lo(v.keys, lo, 0)),
                    Ghost(child_hi(v.keys, hi, 0)),
                    Ghost(false),
                )
            },
            _ => 0,
        }
    }

    /// Whether there are numbers for all pages that an insert may need.
    pub fn has_room(&self, bpm: &mut BufferPoolManager) -> (res: bool)
        requires
            old(bpm).wf(),
            old(bpm).ready(),
            old(bpm).ids_fresh(),
            self.wf(old(bpm).pages()),
        ensures
            final(bpm).wf(),
            final(bpm).ready(),
            final(bpm).same_pages(old(bpm)),
            res == self.room_to_insert(old(bpm)),
    {
        let ghost pages = bpm.pages();
        let ghost t = self.shape();
        proof {
            if !self.is_empty(pages) {
                law_height(pages, t, self.header_page_id, bpm.next_page_id() as int);
            }
        }
        let next: usize = bpm.next_id();
        if next < usize::MAX / 2 {
            return true;
        }
        match self.read_header(bpm) {
            Ok(header) => {
                if header.root_page_id == INVALID_PAGE_ID {
                    next < usize::MAX
                } else {
                    let ghost h = self.height(pages);
                    assert(rooted(pages, t, self.header_page_id, header, h));
                    let levels: usize = self.levels(
                        bpm,
                        header.root_page_id,
                        Ghost(h),
                        Ghost(None),
                        Ghost(None),
                        Ghost(true),
                    );
                    levels < usize::MAX - next && levels + 1 < usize::MAX - next
                }
            },
            Err(_) => true,
        }
    }

    /// Stores a key that the tree does not hold yet.
    pub fn insert(&self, bpm: &mut BufferPoolManager, key: IndexKey, val: IndexValue) -> (res:
        InsertResult)
        requires
            old(bpm).wf(),
            old(bpm).ids_fresh(),
            self.wf(old(bpm).pages()),
        ensures
            carried(old(bpm), final(bpm)),
            forall|p: usize| #[trigger]
                old(bpm).pages().contains_key(p) && !self.owns(old(bpm).pages(), p) ==> final(bpm).pages()[p] == old(bpm).pages()[p],
            pool_failed(res) ==> !self.room_to_insert(old(bpm)),
            match res {
                Ok(_) => {
                    &&& key@.len() == self.key_len
                    &&& self.find(old(bpm).pages(), key@) is None
                    &&& self.wf(final(bpm).pages())
                    &&& self.stays_apart(old(bpm).pages(), final(bpm).pages())
                    &&& !self.is_empty(final(bpm).pages())
                    &&& forall|k: Seq<u8>| #[trigger]
                        self.find(final(bpm).pages(), k) == with_key(
                            self.find(old(bpm).pages(), k),
                            key@,
                            Some(val->IndexValue_0),
                            k,
                        )
                    &&& self.entered(
                        old(bpm).pages(),
                        final(bpm).pages(),
                        key@,
                        val->IndexValue_0,
                        old(bpm).next_page_id(),
                    )
                },
                Err(e) => pool_failed(res) || {
                    &&& final(bpm).pages() == old(bpm).pages()
                    &&& if key@.len() != self.key_len {
                        e == IndexError::Insert(InsertError::InvalidKey)
                    } else {
                        &&& e == IndexError::Insert(InsertError::DuplicateKey)
                        &&& self.find(old(bpm).pages(), key@) is Some
                    }
                },
            },
    {
        if key.0.len() != self.key_len as usize {
            return Err(IndexError::Insert(InsertError::InvalidKey));
        }
        self.insert_pessimistic(bpm, &key, val)
    }
}

/// The root took the key.
proof fn lemma_root_grown(
    p0: Pages,
    p1: Pages,
    t: TreeShape,
    hid: usize,
    hd: HeaderPage,
    h: nat,
    key: Seq<u8>,
    val: Option<RecordId>,
)
    requires
        tree_ok(p0, t, hid),
        header_of(p0[hid]) == Some(hd),
        hd.root_page_id != INVALID_PAGE_ID,
        rooted(p0, t, hid, hd, h),
        p1.contains_key(hid),
        p1[hid] == p0[hid],
        grown(
            p0,
            p1,
            t,
            hd.root_page_id,
            h,
            None,
            None,
            true,
            INVALID_PAGE_ID,
            key,
            val,
        ),
        keeps_branching(p0, p1, t, hd.root_page_id),
        forall|p: usize| #[trigger] p0.contains_key(p) ==> p1.contains_key(p),
    ensures
        tree_ok(p1, t, hid),
        forall|k: Seq<u8>| #[trigger]
            tree_find(p1, t, hid, k) == with_key(tree_find(p0, t, hid, k), key, val, k),
        forall|p: usize| #[trigger]
            tree_owns(p1, t, hid, p) ==> tree_owns(p0, t, hid, p) || !p0.contains_key(p),
        forall|p: usize| #[trigger]
            p0.contains_key(p) && !tree_owns(p0, t, hid, p) ==> p1.contains_key(p) && p1[p]
                == p0[p],
{
    let root = hd.root_page_id;
    assert(branches(p1, t, root)) by {
        match node_of(p0[root], t.key_len) {
            Some(NodeView::Internal(v)) => {},
            _ => {
                assert(h == 0);
            },
        }
    }
    lemma_root_changed(p0, p1, t, hid, hd, h, key, val);
}

/// The root took the key and came apart: a new root holds both parts.
proof fn lemma_root_parted(
    p0: Pages,
    p1: Pages,
    p2: Pages,
    t: TreeShape,
    hid: usize,
    hd: HeaderPage,
    h: nat,
    key: Seq<u8>,
    val: Option<RecordId>,
    sep: Seq<u8>,
    right: usize,
    new_root: usize,
    w: InternalView,
)
    requires
        tree_ok(p0, t, hid),
        header_of(p0[hid]) == Some(hd),
        hd.root_page_id != INVALID_PAGE_ID,
        rooted(p0, t, hid, hd, h),
        parted(
            p0,
            p1,
            t,
            hd.root_page_id,
            h,
            None,
            None,
            INVALID_PAGE_ID,
            key,
            val,
            sep,
            right,
        ),
        forall|p: usize| #[trigger] p0.contains_key(p) ==> p1.contains_key(p),
        !p1.contains_key(new_root),
        new_root != INVALID_PAGE_ID,
        p2.contains_key(hid),
        p2.contains_key(new_root),
        header_of(p2[hid]) == Some(HeaderPage { root_page_id: new_root, ..hd }),
        node_of(p2[new_root], t.key_len) == Some(NodeView::Internal(w)),
        w.children == seq![hd.root_page_id, right],
        w.keys == seq![sep],
        internal_fits(t, w),
        forall|p: usize|
            p != hid && p != new_root && #[trigger] p1.contains_key(p) ==> p2.contains_key(p)
                && p2[p] == p1[p],
    ensures
        tree_ok(p2, t, hid),
        forall|k: Seq<u8>| #[trigger]
            tree_find(p2, t, hid, k) == with_key(tree_find(p0, t, hid, k), key, val, k),
        forall|p: usize| #[trigger]
            tree_owns(p2, t, hid, p) ==> tree_owns(p0, t, hid, p) || !p0.contains_key(p),
        forall|p: usize| #[trigger]
            p0.contains_key(p) && !tree_owns(p0, t, hid, p) ==> p2.contains_key(p) && p2[p]
                == p0[p],
{
    let root = hd.root_page_id;
    let cs = seq![root, right];
    let ks = seq![sep];
    let hd2 = HeaderPage { root_page_id: new_root, ..hd };
    lemma_tree_height(p0, t, hid, hd, h);
    lemma_pair(p1, t, root, right, sep, h, None, None);
    lemma_forest_owned_exists(p1, t, cs, ks, h, None, None);
    assert forall|p: usize| #[trigger] forest_owns(p1, t, cs, h, p) implies p != hid && p
        != new_root && p2.contains_key(p) && p2[p] == p1[p] by {
        assert(owns(p1, t, root, h, p) || owns(p1, t, right, h, p));
        assert(!owns(p0, t, root, h, hid));
        assert(p1.contains_key(p));
    }
    lemma_forest_frame(p1, p2, t, cs, ks, h, None, None);
    let g = h + 1;
    assert(!forest_owns(p2, t, cs, h, new_root)) by {
        assert(forest_owns(p2, t, cs, h, new_root) == forest_owns(p1, t, cs, h, new_root));
    }
    assert((g - 1) as nat == h);
    assert(subtree(p2, t, new_root, g, None, None, true));
    assert(forest_linked(p1, t, cs, h, INVALID_PAGE_ID));
    assert(linked(p2, t, new_root, g, INVALID_PAGE_ID));
    assert(cs[0] == root);
    assert(first_leaf(p2, t, new_root, g) == hd.first_leaf_id);
    assert(!owns(p2, t, new_root, g, hid)) by {
        assert(forest_owns(p2, t, cs, h, hid) == forest_owns(p1, t, cs, h, hid));
        assert(p0.contains_key(hid));
        assert(p1.contains_key(hid));
    }
    assert(rooted(p2, t, hid, hd2, g));
    lemma_tree_height(p2, t, hid, hd2, g);
    assert forall|k: Seq<u8>| #[trigger] tree_find(p2, t, hid, k) == with_key(
        tree_find(p0, t, hid, k),
        key,
        val,
        k,
    ) by {
        let found = lookup(p1, t, root, h, k);
        assert(forest_lookup(p2, t, cs, ks, h, k) == forest_lookup(p1, t, cs, ks, h, k));
        assert(lookup(p2, t, new_root, g, k) == forest_lookup(p2, t, cs, ks, h, k));
    }
    assert forall|p: usize| #[trigger] tree_owns(p2, t, hid, p) implies tree_owns(p0, t, hid, p)
        || !p0.contains_key(p) by {
        if p != hid && p != new_root {
            assert(owns(p2, t, new_root, g, p));
            assert(forest_owns(p2, t, cs, h, p) == forest_owns(p1, t, cs, h, p));
            assert(owns(p1, t, root, h, p) || owns(p1, t, right, h, p));
        }
    }
    assert forall|p: usize| #[trigger] p0.contains_key(p) && !tree_owns(p0, t, hid, p) implies
        p2.contains_key(p) && p2[p] == p0[p] by {
        assert(!owns(p0, t, root, h, p));
        assert(p1.contains_key(p));
    }
}

/// Where leaves hold more than one entry, so do internal nodes.
proof fn lemma_fanout(t: TreeShape)
    requires
        t.valid(),
        t.leaf_max >= 2,
    ensures
        t.internal_max >= 2,
{
    let e = t.key_len as int + 16;
    let d = t.key_len as int + 8;
    assert(e <= 4082) by (nonlinear_arith)
        requires
            8164int / e >= 2,
            e >= 1,
    ;
    assert(8160int / d >= 2) by (nonlinear_arith)
        requires
            d <= 4074,
            d >= 1,
    ;
}

impl BPlusTree {
    /// Fills up one of two neighbouring nodes on the pages `ca` and `cb`, which `sep` parts.
    /// Returns the key that parts them afterwards; `None` where both are on page `ca` now.
    fn settle(
        &self,
        bpm: &mut BufferPoolManager,
        ca: PageId,
        cb: PageId,
        sep: IndexKey,
        left_is_short: bool,
        Ghost(g): Ghost<nat>,
        Ghost(lo): Ghost<Option<Seq<u8>>>,
        Ghost(hi): Ghost<Option<Seq<u8>>>,
        Ghost(next): Ghost<usize>,
    ) -> (res: Result<Option<IndexKey>, IndexError>)
        requires
            old(bpm).wf(),
            self.shape().valid(),
            neighbours(old(bpm).pages(), self.shape(), ca, cb, sep@, g, lo, hi, next),
            ({
                let na = node_of(old(bpm).pages()[ca], self.key_len);
                let nb = node_of(old(bpm).pages()[cb], self.key_len);
                let (short, other) = if left_is_short {
                    (na, nb)
                } else {
                    (nb, na)
                };
                &&& node_size(short) + 1 == node_min(self.shape(), short)
                &&& node_size(other) >= node_min(self.shape(), other)
            }),
        ensures
            carried(old(bpm), final(bpm)),
            final(bpm).next_page_id() == old(bpm).next_page_id(),
            forall|p: usize| #[trigger]
                old(bpm).pages().contains_key(p) && !owns(
                    old(bpm).pages(),
                    self.shape(),
                    ca,
                    g,
                    p,
                ) && !owns(old(bpm).pages(), self.shape(), cb, g, p) ==> final(bpm).pages()[p]
                    == old(bpm).pages()[p],
            match res {
                Ok(None) => settled(
                    old(bpm).pages(),
                    final(bpm).pages(),
                    self.shape(),
                    ca,
                    cb,
                    sep@,
                    g,
                    lo,
                    hi,
                    next,
                    seq![ca],
                    Seq::<Seq<u8>>::empty(),
                ),
                Ok(Some(s)) => s@.len() == self.key_len && settled(
                    old(bpm).pages(),
                    final(bpm).pages(),
                    self.shape(),
                    ca,
                    cb,
                    sep@,
                    g,
                    lo,
                    hi,
                    next,
                    seq![ca, cb],
                    seq![s@],
                ),
                Err(_) => pool_failed(res) && !old(bpm).ready(),
            },
    {
        let ghost t = self.shape();
        let ghost p1 = bpm.pages();
        proof {
            lemma_shape_bounds(t);
            assert(owns(p1, t, ca, g, ca));
            assert(owns(p1, t, cb, g, cb));
            assert(ca != cb);
        }
        let left_page = match self.read_node(bpm, ca) {
            Ok(p) => p,
            Err(e) => { return Err(e); },
        };
        let right_page = match self.read_node(bpm, cb) {
            Ok(p) => p,
            Err(e) => { return Err(e); },
        };
        match (left_page, right_page) {
            (Page::Leaf(left), Page::Leaf(right)) => {
                let mut left = left;
                let mut right = right;
                let ghost l = left@;
                let ghost r = right@;
                assert(sep_between(l, r, sep@)) by {
                    assert forall|j: int| 0 <= j < l.keys.len() implies key_lt(
                        #[trigger] l.keys[j],
                        sep@,
                    ) by {
                        assert(in_span(lo, Some(sep@), l.keys[j]));
                    }
                    assert forall|j: int| 0 <= j < r.keys.len() implies key_le(
                        sep@,
                        #[trigger] r.keys[j],
                    ) by {
                        assert(in_span(Some(sep@), hi, r.keys[j]));
                    }
                }
                let merged: bool = balance_leaves(
                    &mut left,
                    &mut right,
                    left_is_short,
                    Ghost(t),
                    Ghost(sep@),
                );
                match self.write_leaf(bpm, ca, &left) {
                    Ok(_) => {},
                    Err(e) => { return Err(e); },
                }
                if merged {
                    proof {
                        lemma_leaves_merged(
                            p1,
                            bpm.pages(),
                            t,
                            ca,
                            cb,
                            sep@,
                            lo,
                            hi,
                            next,
                            l,
                            r,
                            left@,
                        );
                    }
                    return Ok(None);
                }
                match self.write_leaf(bpm, cb, &right) {
                    Ok(_) => {},
                    Err(e) => { return Err(e); },
                }
                assert(right@.keys[0] == right.keys@[0]@);
                let new_sep = right.keys[0].clone();
                proof {
                    lemma_leaves_shared(
                        p1,
                        bpm.pages(),
                        t,
                        ca,
                        cb,
                        sep@,
                        lo,
                        hi,
                        next,
                        l,
                        r,
                        left@,
                        right@,
                    );
                }
                Ok(Some(new_sep))
            },
            (Page::Internal(left), Page::Internal(right)) => {
                let mut left = left;
                let mut right = right;
                let ghost l = left@;
                let ghost r = right@;
                let ghost ks = l.keys.push(sep@) + r.keys;
                proof {
                    lemma_children_joined(p1, t, ca, cb, sep@, g, lo, hi, next, l, r);
                }
                match balance_nodes(&mut left, &mut right, sep, left_is_short, Ghost(t)) {
                    None => {
                        match self.write_internal(bpm, ca, &left) {
                            Ok(_) => {},
                            Err(e) => { return Err(e); },
                        }
                        proof {
                            lemma_nodes_merged(
                                p1,
                                bpm.pages(),
                                t,
                                ca,
                                cb,
                                sep@,
                                g,
                                lo,
                                hi,
                                next,
                                l,
                                r,
                                left@,
                            );
                        }
                        Ok(None)
                    },
                    Some(new_sep) => {
                        match self.write_internal(bpm, ca, &left) {
                            Ok(_) => {},
                            Err(e) => { return Err(e); },
                        }
                        match self.write_internal(bpm, cb, &right) {
                            Ok(_) => {},
                            Err(e) => { return Err(e); },
                        }
                        proof {
                            lemma_nodes_shared(
                                p1,
                                bpm.pages(),
                                t,
                                ca,
                                cb,
                                sep@,
                                g,
                                lo,
                                hi,
                                next,
                                l,
                                r,
                                left@,
                                right@,
                            );
                            let mid = left@.keys.len() as int;
                            let n = l.keys.len() as int;
                            assert(ks[mid].len() == self.key_len) by {
                                if mid < n {
                                    assert(ks[mid] == l.keys[mid]);
                                } else if mid > n {
                                    assert(ks[mid] == r.keys[mid - n - 1]);
                                }
                            }
                        }
                        Ok(Some(new_sep))
                    },
                }
            },
            _ => {
                // Neighbours have the same height.
                assert(false);
                Err(IndexError::Lookup)
            },
        }
    }

    /// Deletes a key from the tree below a page. Returns whether the node on the page holds too
    /// little now.
    fn remove_from(
        &self,
        bpm: &mut BufferPoolManager,
        page_id: PageId,
        key: &IndexKey,
        Ghost(h): Ghost<nat>,
        Ghost(lo): Ghost<Option<Seq<u8>>>,
        Ghost(hi): Ghost<Option<Seq<u8>>>,
        Ghost(loose): Ghost<bool>,
        Ghost(next): Ghost<usize>,
    ) -> (res: Result<bool, IndexError>)
        requires
            old(bpm).wf(),
            self.shape().valid(),
            subtree(old(bpm).pages(), self.shape(), page_id, h, lo, hi, loose),
            loose ==> branches(old(bpm).pages(), self.shape(), page_id),
            linked(old(bpm).pages(), self.shape(), page_id, h, next),
            in_span(lo, hi, key@),
            key@.len() == self.key_len,
        ensures
            carried(old(bpm), final(bpm)),
            final(bpm).next_page_id() == old(bpm).next_page_id(),
            untouched(old(bpm).pages(), final(bpm).pages(), self.shape(), page_id, h),
            pool_failed(res) ==> !old(bpm).ready(),
            match res {
                Ok(short) => {
                    let n0 = node_of(old(bpm).pages()[page_id], self.key_len);
                    let n1 = node_of(final(bpm).pages()[page_id], self.key_len);
                    &&& lookup(old(bpm).pages(), self.shape(), page_id, h, key@) is Some
                    &&& grown(
                        old(bpm).pages(),
                        final(bpm).pages(),
                        self.shape(),
                        page_id,
                        h,
                        lo,
                        hi,
                        loose || short,
                        next,
                        key@,
                        None,
                    )
                    &&& short == (node_size(n1) < node_min(self.shape(), n1))
                    &&& node_size(n0) <= node_size(n1) + 1
                    &&& h > 0 && node_size(n1) < node_size(n0) ==> self.internal_max_size >= 2
                    &&& deleted_at(
                        old(bpm).pages(),
                        final(bpm).pages(),
                        self.shape(),
                        home_leaf(old(bpm).pages(), self.shape(), page_id, h, key@),
                        key@,
                        h == 0,
                    )
                },
                Err(e) => pool_failed(res) || {
                    &&& e == IndexError::Remove(RemoveError::KeyNotFound)
                    &&& lookup(old(bpm).pages(), self.shape(), page_id, h, key@) is None
                    &&& final(bpm).pages() == old(bpm).pages()
                },
            },
        decreases h,
    {
        let ghost t = self.shape();
        let ghost p0 = bpm.pages();
        proof {
            lemma_shape_bounds(t);
        }
        let page = match self.read_node(bpm, page_id) {
            Ok(p) => p,
            Err(e) => { return Err(e); },
        };
        match page {
            Page::Leaf(leaf) => {
                let mut leaf = leaf;
                let ghost v = leaf@;
                proof {
                    law_leaf_remove(v, key@);
                }
                match leaf.remove_key(key) {
                    Ok(_) => {},
                    Err(e) => { return Err(IndexError::Remove(e)); },
                }
                let ghost w = leaf@;
                proof {
                    assert forall|j: int| 0 <= j < w.keys.len() implies (
                    #[trigger] w.keys[j]).len() == t.key_len && in_span(lo, hi, w.keys[j]) by {
                        assert(v.keys.contains(w.keys[j]));
                        let i = choose|i: int| 0 <= i < v.keys.len() && v.keys[i] == w.keys[j];
                        assert(v.keys[i].len() == t.key_len);
                        assert(in_span(lo, hi, v.keys[i]));
                    }
                    assert(leaf_fits(t, w));
                }
                let short: bool = leaf.is_underfull();
                match self.write_leaf(bpm, page_id, &leaf) {
                    Ok(_) => {},
                    Err(e) => { return Err(e); },
                }
                proof {
                    let p1 = bpm.pages();
                    assert(untouched(p0, p1, t, page_id, 0)) by {
                        assert forall|p: usize| #[trigger]
                            p0.contains_key(p) && !owns(p0, t, page_id, 0, p) implies
                            p1.contains_key(p) && p1[p] == p0[p] by {}
                    }
                }
                Ok(short)
            },
            Page::Internal(node) => {
                let mut node = node;
                let ghost v = node@;
                let ghost g = (h - 1) as nat;
                let i: usize = node.find_child_index(key);
                let child: PageId = node.children[i];
                proof {
                    lemma_span_of_index(v.keys, lo, hi, key@);
                    assert(v.children[i as int] == child);
                    assert(linked(
                        p0,
                        t,
                        v.children[i as int],
                        g,
                        leaf_after(p0, t, v.children, g, next, i as int),
                    ));
                }
                let short: bool = match self.remove_from(
                    bpm,
                    child,
                    key,
                    Ghost(g),
                    Ghost(child_lo(v.keys, lo, i as int)),
                    Ghost(child_hi(v.keys, hi, i as int)),
                    Ghost(false),
                    Ghost(leaf_after(p0, t, v.children, g, next, i as int)),
                ) {
                    Ok(s) => s,
                    Err(e) => {
                        proof {
                            lemma_untouched_up(p0, bpm.pages(), t, page_id, h, v, i as int);
                        }
                        return Err(e);
                    },
                };
                let ghost p1 = bpm.pages();
                proof {
                    lemma_untouched_up(p0, p1, t, page_id, h, v, i as int);
                    assert(!forest_owns(p0, t, v.children, g, page_id));
                    assert(p1.contains_key(page_id) && p1[page_id] == p0[page_id]);
                    let home = home_leaf(p0, t, child, g, key@);
                    assert(home_leaf(p0, t, page_id, h, key@) == home);
                    if leaf_rewritten(
                        p0,
                        p1,
                        t,
                        home,
                        leaf_removed(leaf_on(p0, t, home), key@)->0,
                    ) && leaf_removed(leaf_on(p0, t, home), key@)->0.keys.len() >= t.leaf_max
                        / 2 {
                        assert(subtree(
                            p0,
                            t,
                            v.children[i as int],
                            g,
                            child_lo(v.keys, lo, i as int),
                            child_hi(v.keys, hi, i as int),
                            false,
                        ));
                        if g > 0 {
                            assert(home != child);
                            assert(p1[child] == p0[child]);
                        }
                        assert(!short);
                    }
                }
                if !short {
                    proof {
                        lemma_child_grown(
                            p0,
                            p1,
                            t,
                            v.children,
                            v.keys,
                            g,
                            lo,
                            hi,
                            next,
                            key@,
                            None,
                            i as int,
                        );
                        lemma_node_grown(
                            p0,
                            p1,
                            p1,
                            t,
                            page_id,
                            h,
                            lo,
                            hi,
                            loose,
                            loose,
                            next,
                            key@,
                            None,
                            v,
                            v,
                        );
                    }
                    return Ok(node.is_underfull());
                }
                self.refill(
                    bpm,
                    page_id,
                    &mut node,
                    i,
                    key,
                    Ghost(p0),
                    Ghost(h),
                    Ghost(lo),
                    Ghost(hi),
                    Ghost(loose),
                    Ghost(next),
                )
            },
        }
    }

    /// Fills up child `i` of a node from its neighbour: from the right one where it is the first
    /// child, else from the left one.
    fn refill(
        &self,
        bpm: &mut BufferPoolManager,
        page_id: PageId,
        node: &mut InternalPage,
        i: usize,
        key: &IndexKey,
        Ghost(p0): Ghost<Pages>,
        Ghost(h): Ghost<nat>,
        Ghost(lo): Ghost<Option<Seq<u8>>>,
        Ghost(hi): Ghost<Option<Seq<u8>>>,
        Ghost(loose): Ghost<bool>,
        Ghost(next): Ghost<usize>,
    ) -> (res: Result<bool, IndexError>)
        requires
            h > 0,
            old(bpm).wf(),
            self.shape().valid(),
            subtree(p0, self.shape(), page_id, h, lo, hi, loose),
            loose ==> branches(p0, self.shape(), page_id),
            linked(p0, self.shape(), page_id, h, next),
            node_of(p0[page_id], self.key_len) == Some(NodeView::Internal(old(node)@)),
            in_span(lo, hi, key@),
            i == child_index(old(node)@.keys, key@),
            0 <= i < old(node)@.children.len(),
            ({
                let v = old(node)@;
                let g = (h - 1) as nat;
                let c = v.children[i as int];
                let n0 = node_of(p0[c], self.key_len);
                let n1 = node_of(old(bpm).pages()[c], self.key_len);
                &&& grown(
                    p0,
                    old(bpm).pages(),
                    self.shape(),
                    c,
                    g,
                    child_lo(v.keys, lo, i as int),
                    child_hi(v.keys, hi, i as int),
                    true,
                    leaf_after(p0, self.shape(), v.children, g, next, i as int),
                    key@,
                    None,
                )
                &&& node_size(n1) < node_min(self.shape(), n1)
                &&& node_size(n0) <= node_size(n1) + 1
            }),
            old(bpm).pages().contains_key(page_id),
        ensures
            carried(old(bpm), final(bpm)),
            final(bpm).next_page_id() == old(bpm).next_page_id(),
            untouched(p0, final(bpm).pages(), self.shape(), page_id, h),
            pool_failed(res) ==> !old(bpm).ready(),
            match res {
                Ok(short) => {
                    let n0 = node_of(p0[page_id], self.key_len);
                    let n1 = node_of(final(bpm).pages()[page_id], self.key_len);
                    &&& grown(
                        p0,
                        final(bpm).pages(),
                        self.shape(),
                        page_id,
                        h,
                        lo,
                        hi,
                        loose || short,
                        next,
                        key@,
                        None,
                    )
                    &&& short == (node_size(n1) < node_min(self.shape(), n1))
                    &&& node_size(n0) <= node_size(n1) + 1
                    &&& h > 0 && node_size(n1) < node_size(n0) ==> self.internal_max_size >= 2
                },
                Err(_) => pool_failed(res),
            },
    {
        let ghost t = self.shape();
        let ghost p1 = bpm.pages();
        let ghost v = node@;
        let ghost g = (h - 1) as nat;
        let ghost c = v.children[i as int];
        proof {
            lemma_shape_bounds(t);
            lemma_strict_is_sorted(v.keys);
            // The child held at least half before, and what it holds is of the same kind.
            assert(subtree(
                p0,
                t,
                v.children[i as int],
                g,
                child_lo(v.keys, lo, i as int),
                child_hi(v.keys, hi, i as int),
                false,
            ));
            if g == 0 {
                assert(t.leaf_max >= 2);
                lemma_fanout(t);
            }
            assert(t.internal_max >= 2);
            assert(v.keys.len() >= 1);
        }
        let (a, left_is_short): (usize, bool) = if i == 0 {
            (0, true)
        } else {
            (i - 1, false)
        };
        assert(v.keys[a as int] == node.keys@[a as int]@);
        let ca: PageId = node.children[a];
        let cb: PageId = node.children[a + 1];
        let sep = node.keys[a].clone();
        proof {
            assert(v.keys[a as int].len() == t.key_len);
            lemma_neighbours(
                p0,
                p1,
                t,
                v.children,
                v.keys,
                g,
                lo,
                hi,
                next,
                key@,
                None,
                i as int,
                a as int,
            );
        }
        let settled_at = match self.settle(
            bpm,
            ca,
            cb,
            sep,
            left_is_short,
            Ghost(g),
            Ghost(child_lo(v.keys, lo, a as int)),
            Ghost(child_hi(v.keys, hi, a + 1)),
            Ghost(leaf_after(p0, t, v.children, g, next, a + 1)),
        ) {
            Ok(s) => s,
            Err(e) => {
                proof {
                    lemma_untouched_pair(
                        p0,
                        p1,
                        bpm.pages(),
                        t,
                        page_id,
                        h,
                        v,
                        lo,
                        hi,
                        next,
                        key@,
                        i as int,
                        a as int,
                    );
                }
                return Err(e);
            },
        };
        let ghost p2 = bpm.pages();
        let ghost (mc, mk) = refilled(v, a as int, settled_at);
        let ghost cs = children_spliced(v.children, a as int, a + 1, mc);
        let ghost ks = keys_spliced(v.keys, a as int, a + 1, mk);
        proof {
            lemma_settled_in_place(
                p0,
                p1,
                p2,
                t,
                v.children,
                v.keys,
                g,
                lo,
                hi,
                next,
                key@,
                None,
                i as int,
                a as int,
                mc,
                mk,
            );
            assert(keys_have_len(ks, t.key_len)) by {
                assert forall|j: int| 0 <= j < ks.len() implies (#[trigger] ks[j]).len()
                    == t.key_len by {
                    if j < a {
                        assert(ks[j] == v.keys[j]);
                    } else if j >= a + mk.len() {
                        assert(ks[j] == v.keys[j - mk.len() + 1]);
                    } else {
                        assert(ks[j] == mk[0]);
                    }
                }
            }
            lemma_untouched_pair(
                p0,
                p1,
                p2,
                t,
                page_id,
                h,
                v,
                lo,
                hi,
                next,
                key@,
                i as int,
                a as int,
            );
        }
        self.write_refilled(
            bpm,
            page_id,
            node,
            a,
            settled_at,
            key,
            Ghost(p0),
            Ghost(h),
            Ghost(lo),
            Ghost(hi),
            Ghost(loose),
            Ghost(next),
        )
    }

    /// Writes a node after the children `a` and `a + 1` were filled up.
    fn write_refilled(
        &self,
        bpm: &mut BufferPoolManager,
        page_id: PageId,
        node: &mut InternalPage,
        a: usize,
        settled_at: Option<IndexKey>,
        key: &IndexKey,
        Ghost(p0): Ghost<Pages>,
        Ghost(h): Ghost<nat>,
        Ghost(lo): Ghost<Option<Seq<u8>>>,
        Ghost(hi): Ghost<Option<Seq<u8>>>,
        Ghost(loose): Ghost<bool>,
        Ghost(next): Ghost<usize>,
    ) -> (res: Result<bool, IndexError>)
        requires
            h > 0,
            old(bpm).wf(),
            self.shape().valid(),
            subtree(p0, self.shape(), page_id, h, lo, hi, loose),
            node_of(p0[page_id], self.key_len) == Some(NodeView::Internal(old(node)@)),
            a + 1 < old(node)@.children.len(),
            self.internal_max_size >= 2,
            old(bpm).pages().contains_key(page_id),
            untouched(p0, old(bpm).pages(), self.shape(), page_id, h),
            ({
                let v = old(node)@;
                let (mc, mk) = refilled(v, a as int, settled_at);
                let cs = children_spliced(v.children, a as int, a + 1, mc);
                let ks = keys_spliced(v.keys, a as int, a + 1, mk);
                &&& keys_have_len(ks, self.key_len)
                &&& forest_grown(
                    p0,
                    old(bpm).pages(),
                    self.shape(),
                    v.children,
                    v.keys,
                    cs,
                    ks,
                    (h - 1) as nat,
                    lo,
                    hi,
                    next,
                    key@,
                    None,
                )
            }),
            forall|p: usize| #[trigger]
                p0.contains_key(p) && !forest_owns(
                    p0,
                    self.shape(),
                    old(node)@.children,
                    (h - 1) as nat,
                    p,
                ) ==> old(bpm).pages().contains_key(p) && old(bpm).pages()[p] == p0[p],
        ensures
            carried(old(bpm), final(bpm)),
            final(bpm).next_page_id() == old(bpm).next_page_id(),
            untouched(p0, final(bpm).pages(), self.shape(), page_id, h),
            pool_failed(res) ==> !old(bpm).ready(),
            match res {
                Ok(short) => {
                    let n0 = node_of(p0[page_id], self.key_len);
                    let n1 = node_of(final(bpm).pages()[page_id], self.key_len);
                    &&& grown(
                        p0,
                        final(bpm).pages(),
                        self.shape(),
                        page_id,
                        h,
                        lo,
                        hi,
                        loose || short,
                        next,
                        key@,
                        None,
                    )
                    &&& short == (node_size(n1) < node_min(self.shape(), n1))
                    &&& node_size(n0) <= node_size(n1) + 1
                    &&& h > 0 && node_size(n1) < node_size(n0) ==> self.internal_max_size >= 2
                },
                Err(_) => pool_failed(res),
            },
    {
        let ghost t = self.shape();
        let ghost p2 = bpm.pages();
        let ghost v = node@;
        let ghost (mc, mk) = refilled(v, a as int, settled_at);
        let ghost cs = children_spliced(v.children, a as int, a + 1, mc);
        let ghost ks = keys_spliced(v.keys, a as int, a + 1, mk);
        proof {
            lemma_shape_bounds(t);
            lemma_strict_is_sorted(v.keys);
            assert(strictly_sorted(ks));
            lemma_strict_is_sorted(ks);
        }
        match settled_at {
            None => {
                proof {
                    assert(v.children.remove(a + 1) =~= cs);
                    assert(v.keys.remove(a as int) =~= ks);
                    law_internal_shrinks(node@, a as int);
                }
                let _removed = node.remove_separator(a);
            },
            Some(new_sep) => {
                proof {
                    assert(v.children =~= cs);
                    assert(v.keys.update(a as int, new_sep@) =~= ks);
                }
                let _old = node.replace_key(a, new_sep);
            },
        }
        let short: bool = node.is_underfull();
        match self.write_internal(bpm, page_id, node) {
            Ok(_) => {},
            Err(e) => { return Err(e); },
        }
        proof {
            lemma_node_grown(
                p0,
                p2,
                bpm.pages(),
                t,
                page_id,
                h,
                lo,
                hi,
                loose,
                loose || short,
                next,
                key@,
                None,
                v,
                node@,
            );
        }
        Ok(short)
    }
}

/// The children, with the keys between them, that stand for the children `a` and `a + 1` of a
/// node after those were filled up.
spec fn refilled(v: InternalView, a: int, settled_at: Option<IndexKey>) -> (
    Seq<usize>,
    Seq<Seq<u8>>,
) {
    match settled_at {
        None => (seq![v.children[a]], Seq::<Seq<u8>>::empty()),
        Some(s) => (seq![v.children[a], v.children[a + 1]], seq![s@]),
    }
}

/// What is outside of the tree stays as it was while two of its children are filled up.
proof fn lemma_untouched_pair(
    p0: Pages,
    p1: Pages,
    p2: Pages,
    t: TreeShape,
    pid: usize,
    h: nat,
    v: InternalView,
    lo: Option<Seq<u8>>,
    hi: Option<Seq<u8>>,
    next: usize,
    key: Seq<u8>,
    i: int,
    a: int,
)
    requires
        h > 0,
        node_of(p0[pid], t.key_len) == Some(NodeView::Internal(v)),
        subtree(p0, t, pid, h, lo, hi, true),
        linked(p0, t, pid, h, next),
        0 <= a <= i <= a + 1 < v.children.len(),
        v.keys[a].len() == t.key_len,
        grown(
            p0,
            p1,
            t,
            v.children[i],
            (h - 1) as nat,
            child_lo(v.keys, lo, i),
            child_hi(v.keys, hi, i),
            true,
            leaf_after(p0, t, v.children, (h - 1) as nat, next, i),
            key,
            None,
        ),
        forall|p: usize| #[trigger]
            p1.contains_key(p) && !owns(p1, t, v.children[a], (h - 1) as nat, p) && !owns(
                p1,
                t,
                v.children[a + 1],
                (h - 1) as nat,
                p,
            ) ==> p2.contains_key(p) && p2[p] == p1[p],
    ensures
        untouched(p0, p2, t, pid, h),
{
    let g = (h - 1) as nat;
    let o = if i == a { a + 1 } else { a };
    let d = v.children[o];
    lemma_neighbours(
        p0,
        p1,
        t,
        v.children,
        v.keys,
        g,
        lo,
        hi,
        next,
        key,
        None,
        i,
        a,
    );
    assert forall|p: usize| #[trigger] p0.contains_key(p) && !owns(p0, t, pid, h, p) implies
        p2.contains_key(p) && p2[p] == p0[p] by {
        assert(!forest_owns(p0, t, v.children, g, p));
        assert(!owns(p0, t, v.children[i], g, p));
        assert(!owns(p0, t, v.children[o], g, p));
        assert(owns(p1, t, d, g, p) == owns(p0, t, d, g, p));
        assert(p1.contains_key(p) && p1[p] == p0[p]);
        assert(!owns(p1, t, v.children[i], g, p));
        assert(!owns(p1, t, v.children[o], g, p));
    }
}

impl BPlusTree {
    /// Deletes a key from the tree, which may lose a level.
    pub fn remove_pessimistic(&self, bpm: &mut BufferPoolManager, key: &IndexKey) -> (res:
        RemoveResult)
        requires
            old(bpm).wf(),
            self.wf(old(bpm).pages()),
            key@.len() == self.key_len,
        ensures
            carried(old(bpm), final(bpm)),
            final(bpm).next_page_id() == old(bpm).next_page_id(),
            forall|p: usize| #[trigger]
                old(bpm).pages().contains_key(p) && !self.owns(old(bpm).pages(), p) ==> final(
                    bpm).pages()[p] == old(bpm).pages()[p],
            pool_failed(res) ==> !old(bpm).ready(),
            match res {
                Ok(_) => {
                    &&& self.find(old(bpm).pages(), key@) is Some
                    &&& self.wf(final(bpm).pages())
                    &&& self.stays_apart(old(bpm).pages(), final(bpm).pages())
                    &&& forall|k: Seq<u8>| #[trigger]
                        self.find(final(bpm).pages(), k) == with_key(
                            self.find(old(bpm).pages(), k),
                            key@,
                            None,
                            k,
                        )
                    &&& self.deleted(old(bpm).pages(), final(bpm).pages(), key@)
                },
                Err(e) => pool_failed(res) || {
                    &&& e == IndexError::Remove(RemoveError::KeyNotFound)
                    &&& self.find(old(bpm).pages(), key@) is None
                    &&& final(bpm).pages() == old(bpm).pages()
                },
            },
    {
        let ghost t = self.shape();
        let ghost hid = self.header_page_id;
        let ghost p0 = bpm.pages();
        let mut header = match self.read_header(bpm) {
            Ok(h) => h,
            Err(e) => { return Err(e); },
        };
        let ghost hd = header;
        proof {
            lemma_shape_bounds(t);
        }
        if header.root_page_id == INVALID_PAGE_ID {
            return Err(IndexError::Remove(RemoveError::KeyNotFound));
        }
        let root_id: PageId = header.root_page_id;
        let ghost h = self.height(p0);
        assert(rooted(p0, t, hid, hd, h));
        match self.remove_from(
            bpm,
            root_id,
            key,
            Ghost(h),
            Ghost(None),
            Ghost(None),
            Ghost(true),
            Ghost(INVALID_PAGE_ID),
        ) {
            Ok(_) => {},
            Err(e) => { return Err(e); },
        }
        let ghost p1 = bpm.pages();
        assert(p1.contains_key(hid) && p1[hid] == p0[hid]);
        proof {
            lemma_tree_height(p0, t, hid, hd, h);
        }
        match self.read_node(bpm, root_id) {
            Ok(Page::Leaf(leaf)) => {
                if leaf.keys.len() == 0 {
                    // The last entry is gone.
                    header.root_page_id = INVALID_PAGE_ID;
                    header.first_leaf_id = INVALID_PAGE_ID;
                    match self.write_header(bpm, &header) {
                        Ok(_) => {},
                        Err(e) => { return Err(e); },
                    }
                    proof {
                        let p2 = bpm.pages();
                        assert forall|k: Seq<u8>| #[trigger] self.find(p2, k) == with_key(
                            self.find(p0, k),
                            key@,
                            None,
                            k,
                        ) by {
                            lemma_slot_none(leaf@.keys, k);
                            assert(lookup(p1, t, root_id, h, k) == leaf_lookup(leaf@, k));
                        }
                        assert forall|p: usize| #[trigger]
                            p0.contains_key(p) && !self.owns(p0, p) implies p2.contains_key(p)
                            && p2[p] == p0[p] by {
                            assert(!owns(p0, t, root_id, h, p));
                            assert(p1.contains_key(p));
                        }
                    }
                } else {
                    proof {
                        lemma_root_changed(p0, p1, t, hid, hd, h, key@, None);
                    }
                }
                Ok(())
            },
            Ok(Page::Internal(node)) => {
                if node.children.len() == 1 {
                    // The only child becomes the root.
                    let child: PageId = node.children[0];
                    header.root_page_id = child;
                    match self.write_header(bpm, &header) {
                        Ok(_) => {},
                        Err(e) => { return Err(e); },
                    }
                    proof {
                        lemma_root_lowered(
                            p0,
                            p1,
                            bpm.pages(),
                            t,
                            hid,
                            hd,
                            h,
                            key@,
                            None,
                            node@,
                        );
                    }
                } else {
                    proof {
                        lemma_root_changed(p0, p1, t, hid, hd, h, key@, None);
                    }
                }
                Ok(())
            },
            Err(e) => Err(e),
        }
    }

    /// Deletes a key that the tree holds.
    pub fn remove(&self, bpm: &mut BufferPoolManager, key: IndexKey) -> (res: RemoveResult)
        requires
            old(bpm).wf(),
            self.wf(old(bpm).pages()),
        ensures
            carried(old(bpm), final(bpm)),
            final(bpm).next_page_id() == old(bpm).next_page_id(),
            forall|p: usize| #[trigger]
                old(bpm).pages().contains_key(p) && !self.owns(old(bpm).pages(), p) ==> final(
                    bpm).pages()[p] == old(bpm).pages()[p],
            pool_failed(res) ==> !old(bpm).ready(),
            match res {
                Ok(_) => {
                    &&& key@.len() == self.key_len
                    &&& self.find(old(bpm).pages(), key@) is Some
                    &&& self.wf(final(bpm).pages())
                    &&& self.stays_apart(old(bpm).pages(), final(bpm).pages())
                    &&& forall|k: Seq<u8>| #[trigger]
                        self.find(final(bpm).pages(), k) == with_key(
                            self.find(old(bpm).pages(), k),
                            key@,
                            None,
                            k,
                        )
                    &&& self.deleted(old(bpm).pages(), final(bpm).pages(), key@)
                },
                Err(e) => pool_failed(res) || {
                    &&& final(bpm).pages() == old(bpm).pages()
                    &&& if key@.len() != self.key_len {
                        e == IndexError::Insert(InsertError::InvalidKey)
                    } else {
                        &&& e == IndexError::Remove(RemoveError::KeyNotFound)
                        &&& self.find(old(bpm).pages(), key@) is None
                    }
                },
            },
    {
        if key.0.len() != self.key_len as usize {
            return Err(IndexError::Insert(InsertError::InvalidKey));
        }
        self.remove_pessimistic(bpm, &key)
    }

    /// The leaf that holds `key`, if any leaf does.
    pub(crate) fn find_leaf(&self, bpm: &mut BufferPoolManager, key: &IndexKey) -> (res: Result<
        LeafPage,
        IndexError,
    >)
        requires
            old(bpm).wf(),
            self.wf(old(bpm).pages()),
        ensures
            final(bpm).wf(),
            final(bpm).same_pages(old(bpm)),
            old(bpm).ready() ==> final(bpm).ready(),
            match res {
                Ok(leaf) => {
                    let pages = old(bpm).pages();
                    let root = (header_of(pages[self.header_page_id])->0).root_page_id;
                    let home = home_leaf(pages, self.shape(), root, self.height(pages), key@);
                    &&& !self.is_empty(pages)
                    &&& node_of(pages[home], self.key_len) == Some(NodeView::Leaf(leaf@))
                    &&& leaf_fits(self.shape(), leaf@)
                    &&& valid_leaf(leaf@)
                    &&& leaf_lookup(leaf@, key@) == self.find(pages, key@)
                },
                Err(e) => if self.is_empty(old(bpm).pages()) {
                    e == IndexError::Lookup || (pool_failed(res) && !old(bpm).ready())
                } else {
                    pool_failed(res) && !old(bpm).ready()
                },
            },
    {
        let ghost t = self.shape();
        let ghost pages = bpm.pages();
        let header = match self.read_header(bpm) {
            Ok(h) => h,
            Err(e) => { return Err(e); },
        };
        if header.root_page_id == INVALID_PAGE_ID {
            return Err(IndexError::Lookup);
        }
        let ghost root = header.root_page_id;
        let ghost top = self.height(pages);
        assert(rooted(pages, t, self.header_page_id, header, top));
        let mut current: PageId = header.root_page_id;
        let ghost mut h = top;
        let ghost mut lo: Option<Seq<u8>> = None;
        let ghost mut hi: Option<Seq<u8>> = None;
        let ghost mut loose = true;
        loop
            invariant
                bpm.wf(),
                bpm.same_pages(old(bpm)),
                old(bpm).ready() ==> bpm.ready(),
                pages == old(bpm).pages(),
                t == self.shape(),
                t.valid(),
                self.wf(pages),
                !self.is_empty(pages),
                root == (header_of(pages[self.header_page_id])->0).root_page_id,
                top == self.height(pages),
                subtree(pages, t, current, h, lo, hi, loose),
                lookup(pages, t, current, h, key@) == lookup(pages, t, root, top, key@),
                home_leaf(pages, t, current, h, key@) == home_leaf(pages, t, root, top, key@),
            decreases h,
        {
            match self.read_node(bpm, current) {
                Ok(Page::Leaf(leaf)) => {
                    return Ok(leaf);
                },
                Ok(Page::Internal(node)) => {
                    let ghost v = node@;
                    let i: usize = node.find_child_index(key);
                    proof {
                        lemma_index_in_range(v.keys, key@);
                        lo = child_lo(v.keys, lo, i as int);
                        hi = child_hi(v.keys, hi, i as int);
                        loose = false;
                        h = (h - 1) as nat;
                        assert(v.children[i as int] == node.children@[i as int]);
                    }
                    current = node.children[i];
                },
                Err(e) => {
                    return Err(e);
                },
            }
        }
    }

    /// The value that the tree holds for a key.
    pub fn search(&self, bpm: &mut BufferPoolManager, key: &IndexKey) -> (res: Result<
        Option<IndexValue>,
        IndexError,
    >)
        requires
            old(bpm).wf(),
            self.wf(old(bpm).pages()),
        ensures
            final(bpm).wf(),
            final(bpm).same_pages(old(bpm)),
            old(bpm).ready() ==> final(bpm).ready(),
            pool_failed(res) ==> !old(bpm).ready(),
            match res {
                Ok(found) => {
                    &&& key@.len() == self.key_len
                    &&& !self.is_empty(old(bpm).pages())
                    &&& found == match self.find(old(bpm).pages(), key@) {
                        Some(rid) => Some(IndexValue::IndexValue(rid)),
                        None => None,
                    }
                },
                Err(e) => pool_failed(res) || if key@.len() != self.key_len {
                    e == IndexError::Insert(InsertError::InvalidKey)
                } else {
                    e == IndexError::Lookup && self.is_empty(old(bpm).pages())
                },
            },
    {
        if key.0.len() != self.key_len as usize {
            return Err(IndexError::Insert(InsertError::InvalidKey));
        }
        match self.find_leaf(bpm, key) {
            Ok(leaf) => match leaf.get(key) {
                Some(rid) => Ok(Some(IndexValue::IndexValue(rid))),
                None => Ok(None),
            },
            Err(e) => Err(e),
        }
    }
}

/// The tree below the root was changed for a key, and the root is still the root.
proof fn lemma_root_changed(
    p0: Pages,
    p1: Pages,
    t: TreeShape,
    hid: usize,
    hd: HeaderPage,
    h: nat,
    key: Seq<u8>,
    val: Option<RecordId>,
)
    requires
        tree_ok(p0, t, hid),
        header_of(p0[hid]) == Some(hd),
        hd.root_page_id != INVALID_PAGE_ID,
        rooted(p0, t, hid, hd, h),
        p1.contains_key(hid),
        p1[hid] == p0[hid],
        grown(
            p0,
            p1,
            t,
            hd.root_page_id,
            h,
            None,
            None,
            true,
            INVALID_PAGE_ID,
            key,
            val,
        ),
        branches(p1, t, hd.root_page_id),
    ensures
        tree_ok(p1, t, hid),
        forall|k: Seq<u8>| #[trigger]
            tree_find(p1, t, hid, k) == with_key(tree_find(p0, t, hid, k), key, val, k),
        forall|p: usize| #[trigger]
            tree_owns(p1, t, hid, p) ==> tree_owns(p0, t, hid, p) || !p0.contains_key(p),
        forall|p: usize| #[trigger]
            p0.contains_key(p) && !tree_owns(p0, t, hid, p) ==> p1.contains_key(p) && p1[p]
                == p0[p],
{
    let root = hd.root_page_id;
    lemma_tree_height(p0, t, hid, hd, h);
    assert(!owns(p1, t, root, h, hid));
    assert(rooted(p1, t, hid, hd, h));
    lemma_tree_height(p1, t, hid, hd, h);
    assert forall|k: Seq<u8>| #[trigger] tree_find(p1, t, hid, k) == with_key(
        tree_find(p0, t, hid, k),
        key,
        val,
        k,
    ) by {
        assert(lookup(p1, t, root, h, k) == with_key(lookup(p0, t, root, h, k), key, val, k));
    }
    assert forall|p: usize| #[trigger] tree_owns(p1, t, hid, p) implies tree_owns(p0, t, hid, p)
        || !p0.contains_key(p) by {
        if p != hid {
            assert(owns(p1, t, root, h, p));
        }
    }
    assert forall|p: usize| #[trigger] p0.contains_key(p) && !tree_owns(p0, t, hid, p) implies
        p1.contains_key(p) && p1[p] == p0[p] by {
        assert(!owns(p0, t, root, h, p));
    }
}

/// The root was left with one child, which became the root.
proof fn lemma_root_lowered(
    p0: Pages,
    p1: Pages,
    p2: Pages,
    t: TreeShape,
    hid: usize,
    hd: HeaderPage,
    h: nat,
    key: Seq<u8>,
    val: Option<RecordId>,
    w: InternalView,
)
    requires
        tree_ok(p0, t, hid),
        header_of(p0[hid]) == Some(hd),
        hd.root_page_id != INVALID_PAGE_ID,
        rooted(p0, t, hid, hd, h),
        grown(
            p0,
            p1,
            t,
            hd.root_page_id,
            h,
            None,
            None,
            true,
            INVALID_PAGE_ID,
            key,
            val,
        ),
        node_of(p1[hd.root_page_id], t.key_len) == Some(NodeView::Internal(w)),
        w.children.len() == 1,
        t.internal_max >= 2,
        p2.contains_key(hid),
        header_of(p2[hid]) == Some(HeaderPage { root_page_id: w.children[0], ..hd }),
        forall|p: usize| p != hid && #[trigger] p1.contains_key(p) ==> p2.contains_key(p) && p2[p]
            == p1[p],
    ensures
        tree_ok(p2, t, hid),
        forall|k: Seq<u8>| #[trigger]
            tree_find(p2, t, hid, k) == with_key(tree_find(p0, t, hid, k), key, val, k),
        forall|p: usize| #[trigger]
            tree_owns(p2, t, hid, p) ==> tree_owns(p0, t, hid, p) || !p0.contains_key(p),
        forall|p: usize| #[trigger]
            p0.contains_key(p) && !tree_owns(p0, t, hid, p) ==> p2.contains_key(p) && p2[p]
                == p0[p],
{
    let root = hd.root_page_id;
    let c = w.children[0];
    let g = (h - 1) as nat;
    let hd2 = HeaderPage { root_page_id: c, ..hd };
    lemma_tree_height(p0, t, hid, hd, h);
    assert(w.keys =~= Seq::<Seq<u8>>::empty());
    assert(subtree(p1, t, c, g, None, None, false)) by {
        assert(child_lo(w.keys, None, 0) == None::<Seq<u8>>);
        assert(child_hi(w.keys, None, 0) == None::<Seq<u8>>);
    }
    lemma_owned_exists(p1, t, c, g, None, None, false);
    assert forall|p: usize| #[trigger] owns(p1, t, c, g, p) implies owns(p1, t, root, h, p) && p
        != hid by {
        assert(owns(p1, t, w.children[0], g, p));
        assert(forest_owns(p1, t, w.children, g, p));
        assert(owns(p1, t, root, h, p));
        assert(p0.contains_key(hid));
    }
    assert forall|p: usize| #[trigger] owns(p1, t, c, g, p) implies p2.contains_key(p) && p2[p]
        == p1[p] by {
        assert(p1.contains_key(p));
    }
    lemma_frame(p1, p2, t, c, g, None, None, false);
    assert(linked(p1, t, c, g, INVALID_PAGE_ID)) by {
        assert(leaf_after(p1, t, w.children, g, INVALID_PAGE_ID, 0) == INVALID_PAGE_ID);
    }
    assert(subtree(p2, t, c, g, None, None, true));
    assert(first_leaf(p1, t, root, h) == first_leaf(p1, t, c, g));
    assert(!owns(p2, t, c, g, hid)) by {
        assert(owns(p2, t, c, g, hid) == owns(p1, t, c, g, hid));
    }
    assert(branches(p2, t, c));
    assert(rooted(p2, t, hid, hd2, g));
    lemma_tree_height(p2, t, hid, hd2, g);
    assert forall|k: Seq<u8>| #[trigger] tree_find(p2, t, hid, k) == with_key(
        tree_find(p0, t, hid, k),
        key,
        val,
        k,
    ) by {
        lemma_index_in_range(w.keys, k);
        assert(lookup(p1, t, root, h, k) == with_key(lookup(p0, t, root, h, k), key, val, k));
        assert(lookup(p1, t, root, h, k) == forest_lookup(p1, t, w.children, w.keys, g, k));
        assert(lookup(p2, t, c, g, k) == lookup(p1, t, c, g, k));
    }
    assert forall|p: usize| #[trigger] tree_owns(p2, t, hid, p) implies tree_owns(p0, t, hid, p)
        || !p0.contains_key(p) by {
        if p != hid {
            assert(owns(p2, t, c, g, p) == owns(p1, t, c, g, p));
            assert(owns(p1, t, root, h, p));
        }
    }
    assert forall|p: usize| #[trigger] p0.contains_key(p) && !tree_owns(p0, t, hid, p) implies
        p2.contains_key(p) && p2[p] == p0[p] by {
        assert(!owns(p0, t, root, h, p));
        assert(p1.contains_key(p));
    }
}

} // verus!
