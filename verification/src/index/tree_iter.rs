//! Walking over the leaves and the entries of a tree.
use std::collections::HashSet;
use vstd::prelude::*;

use crate::buffer_pool::{can_pin, pin_error, BpmError, BufferPoolManager};
use crate::catalog::index_schema::{
    is_lower_bound, is_upper_bound, key_le, key_lt, lemma_key_order, IndexKey, IndexValue,
};
use crate::disk::is_missing;
use crate::index::b_plus_page::{valid_leaf, LeafPage, LeafView, PageId, INVALID_PAGE_ID};
use crate::index::b_plus_tree::{pool_failed, BPlusTree};
use crate::index::leaf_laws::lemma_strict_is_sorted;
use crate::index::page_codec::PageCodecError;
use crate::index::page_format::leaf_decoded;
use crate::index::tree_model::{
    header_of, home_leaf, node_of, rooted, tree_empty, tree_height, tree_ok, NodeView, Pages,
    TreeShape,
};
use crate::index::tree_scan::{
    above, at_or_after, below, chain, chain_next, entries_from, has_home, home_at, is_range,
    law_tree_chain, leaf_in_span, leaf_on, lemma_leaves, lemma_range_from, take_below, tree_leaves,
    KeyBound,
};
use crate::index::IndexError;
use crate::table_heap::RecordId;

verus! {

broadcast use vstd::std_specs::hash::group_hash_axioms;

/// Walks along the chain of leaves.
pub struct LeafPagesIter {
    pub key_len: u32,
    pub next_leaf_id: PageId,
    pub seen: HashSet<PageId>,
    pub finished: bool,
}

/// The end of the chain was reached, or an error met.
pub open spec fn walk_over(it: LeafPagesIter) -> bool {
    it.finished || it.next_leaf_id == INVALID_PAGE_ID
}

impl LeafPagesIter {
    /// The next leaf, with its page.
    pub fn next(&mut self, bpm: &mut BufferPoolManager) -> (res: Option<
        Result<(PageId, LeafPage), IndexError>,
    >)
        requires
            old(bpm).wf(),
            !walk_over(*old(self)) && old(bpm).pages().contains_key(
                old(self).next_leaf_id,
            ) ==> (leaf_decoded(
                old(bpm).pages()[old(self).next_leaf_id],
                old(self).key_len as int,
            ) matches Ok(v) ==> valid_leaf(v)),
        ensures
            final(bpm).wf(),
            final(bpm).same_pages(old(bpm)),
            old(bpm).ready() ==> final(bpm).ready(),
            final(self).key_len == old(self).key_len,
            ({
                let id = old(self).next_leaf_id;
                let found = leaf_decoded(old(bpm).pages()[id], old(self).key_len as int);
                if walk_over(*old(self)) {
                    &&& res is None
                    &&& final(self).finished
                } else if old(self).seen@.contains(id) {
                    &&& res == Some(
                        Err::<(PageId, LeafPage), IndexError>(
                            IndexError::PageError(
                                PageCodecError::Malformed("leaf chain contains a cycle"),
                            ),
                        ),
                    )
                    &&& final(self).finished
                } else if !can_pin(old(bpm), id) {
                    &&& res matches Some(Err(IndexError::BpmError(e))) && pin_error(
                        old(bpm),
                        id,
                        e,
                    )
                    &&& final(self).finished
                } else {
                    match found {
                        Ok(v) => {
                            &&& res matches Some(Ok((p, leaf))) && p == id && leaf@ == v
                            &&& final(self).next_leaf_id == v.next_leaf_id
                            &&& final(self).seen@ == old(self).seen@.insert(id)
                            &&& !final(self).finished
                        },
                        Err(e) => {
                            &&& res == Some(
                                Err::<(PageId, LeafPage), IndexError>(IndexError::PageError(e)),
                            )
                            &&& final(self).finished
                        },
                    }
                }
            }),
    {
        if self.finished || self.next_leaf_id == INVALID_PAGE_ID {
            self.finished = true;
            return None;
        }
        let leaf_id: PageId = self.next_leaf_id;
        if !self.seen.insert(leaf_id) {
            self.finished = true;
            return Some(
                Err(
                    IndexError::PageError(PageCodecError::Malformed("leaf chain contains a cycle")),
                ),
            );
        }
        let data = match bpm.load(leaf_id) {
            Ok(d) => d,
            Err(e) => {
                self.finished = true;
                return Some(Err(IndexError::BpmError(e)));
            },
        };
        match LeafPage::decode(data.as_slice(), self.key_len) {
            Ok(leaf) => {
                self.next_leaf_id = leaf.next_leaf_id;
                Some(Ok((leaf_id, leaf)))
            },
            Err(e) => {
                self.finished = true;
                Some(Err(IndexError::PageError(e)))
            },
        }
    }

    /// The walk stands in front of the leaf at position `i` of the chain.
    pub open spec fn at(&self, t: TreeShape, ls: Seq<usize>, i: int) -> bool {
        &&& self.key_len == t.key_len
        &&& !self.finished
        &&& 0 <= i <= ls.len()
        &&& self.next_leaf_id == if i < ls.len() {
            ls[i]
        } else {
            INVALID_PAGE_ID
        }
        &&& forall|p: usize| #[trigger]
            self.seen@.contains(p) ==> exists|j: int| 0 <= j < i && #[trigger] ls[j] == p
    }
}

/// A leaf of a chain is what its page says.
proof fn lemma_leaf_decodes(pages: Pages, t: TreeShape, p: usize)
    requires
        leaf_in_span(pages, t, p, None, None),
    ensures
        leaf_decoded(pages[p], t.key_len as int) == Ok::<LeafView, PageCodecError>(
            leaf_on(pages, t, p),
        ),
        valid_leaf(leaf_on(pages, t, p)),
{
    reveal(node_of);
    lemma_strict_is_sorted(leaf_on(pages, t, p).keys);
}

/// Walks over the entries of a tree up to a bound.
pub struct BPlusTreeIter {
    pub shape: TreeShape,
    pub header_page_id: PageId,
    pub leaves_iter: LeafPagesIter,
    pub current_leaf: Option<LeafPage>,
    pub slot_idx: usize,
    pub upper_bound: KeyBound,
    /// The position of the current leaf in the chain.
    pub pos: Ghost<int>,
}

impl BPlusTreeIter {
    /// The iterator stands on a leaf of its tree, or is done.
    pub open spec fn wf(&self, pages: Pages) -> bool {
        let ls = tree_leaves(pages, self.shape, self.header_page_id);
        &&& tree_ok(pages, self.shape, self.header_page_id)
        &&& !tree_empty(pages, self.header_page_id)
        &&& self.current_leaf matches Some(leaf) ==> {
            &&& 0 <= self.pos@ < ls.len()
            &&& node_of(pages[ls[self.pos@]], self.shape.key_len) == Some(NodeView::Leaf(leaf@))
            &&& self.leaves_iter.at(self.shape, ls, self.pos@ + 1)
        }
    }

    /// The entries that are still to come.
    pub open spec fn remaining(&self, pages: Pages) -> Seq<(Seq<u8>, RecordId)> {
        if self.current_leaf is None {
            Seq::empty()
        } else {
            take_below(
                entries_from(
                    pages,
                    self.shape,
                    tree_leaves(pages, self.shape, self.header_page_id),
                    self.pos@,
                    self.slot_idx as nat,
                ),
                self.upper_bound,
            )
        }
    }

    /// The next entry.
    pub fn next(&mut self, bpm: &mut BufferPoolManager) -> (res: Option<
        Result<(IndexKey, IndexValue), IndexError>,
    >)
        requires
            old(bpm).wf(),
            old(self).wf(old(bpm).pages()),
        ensures
            final(bpm).wf(),
            final(bpm).same_pages(old(bpm)),
            old(bpm).ready() ==> final(bpm).ready(),
            final(self).wf(final(bpm).pages()),
            final(self).shape == old(self).shape,
            final(self).header_page_id == old(self).header_page_id,
            final(self).upper_bound == old(self).upper_bound,
            ({
                let before = old(self).remaining(old(bpm).pages());
                let after = final(self).remaining(old(bpm).pages());
                match res {
                    Some(Ok((k, v))) => {
                        &&& before.len() > 0
                        &&& v matches IndexValue::IndexValue(r) && (k@, r) == before[0]
                        &&& after == before.drop_first()
                    },
                    Some(Err(e)) => {
                        &&& e is BpmError
                        &&& !old(bpm).ready()
                        &&& after.len() == 0
                    },
                    None => before.len() == 0 && after.len() == 0,
                }
            }),
    {
        let ghost pages = bpm.pages();
        let ghost t = self.shape;
        let ghost hid = self.header_page_id;
        let ghost ls = tree_leaves(pages, t, hid);
        let ghost before = self.remaining(pages);
        proof {
            law_tree_chain(pages, t, hid);
        }
        loop
            invariant
                bpm.wf(),
                bpm.same_pages(old(bpm)),
                old(bpm).ready() ==> bpm.ready(),
                pages == old(bpm).pages(),
                t == self.shape,
                hid == self.header_page_id,
                ls == tree_leaves(pages, t, hid),
                chain(pages, t, ls, INVALID_PAGE_ID, None, None),
                self.wf(pages),
                self.shape == old(self).shape,
                self.header_page_id == old(self).header_page_id,
                self.upper_bound == old(self).upper_bound,
                before == old(self).remaining(pages),
                self.remaining(pages) == before,
            decreases
                    ls.len() - self.pos@,
                    if self.current_leaf is None {
                        0
                    } else {
                        leaf_on(pages, t, ls[self.pos@]).keys.len() + 1 - self.slot_idx
                    },
        {
            let ghost i = self.pos@;
            let leaf = match &self.current_leaf {
                Some(leaf) => leaf,
                None => {
                    return None;
                },
            };
            let ghost v = leaf@;
            assert(leaf_in_span(pages, t, ls[i], None, None));
            assert(leaf_on(pages, t, ls[i]) == v);
            proof {
                lemma_leaf_decodes(pages, t, ls[i]);
            }
            if self.slot_idx >= leaf.keys.len() {
                proof {
                    assert(entries_from(pages, t, ls, i, self.slot_idx as nat) == entries_from(
                        pages,
                        t,
                        ls,
                        i + 1,
                        0,
                    ));
                    if i + 1 < ls.len() {
                        assert(leaf_in_span(pages, t, ls[i + 1], None, None));
                        lemma_leaf_decodes(pages, t, ls[i + 1]);
                        assert(!self.leaves_iter.seen@.contains(ls[i + 1])) by {
                            if self.leaves_iter.seen@.contains(ls[i + 1]) {
                                let j = choose|j: int| 0 <= j < i + 1 && #[trigger] ls[j] == ls[i
                                    + 1];
                                assert(ls[j] != ls[i + 1]);
                            }
                        }
                    }
                }
                match self.leaves_iter.next(bpm) {
                    None => {
                        assert(entries_from(pages, t, ls, i + 1, 0).len() == 0);
                        self.current_leaf = None;
                        return None;
                    },
                    Some(Err(e)) => {
                        self.current_leaf = None;
                        return Some(Err(e));
                    },
                    Some(Ok((_, next_leaf))) => {
                        proof {
                            assert(leaf_on(pages, t, ls[i + 1]).next_leaf_id == chain_next(
                                ls,
                                INVALID_PAGE_ID,
                                i + 1,
                            ));
                            assert(self.leaves_iter.at(t, ls, i + 2)) by {
                                assert forall|p: usize| #[trigger]
                                    self.leaves_iter.seen@.contains(p) implies exists|j: int|
                                    0 <= j < i + 2 && #[trigger] ls[j] == p by {
                                    if p == ls[i + 1] {
                                        assert(ls[i + 1] == p);
                                    } else {
                                        let j = choose|j: int|
                                            0 <= j < i + 1 && #[trigger] ls[j] == p;
                                        assert(ls[j] == p);
                                    }
                                }
                            }
                        }
                        self.current_leaf = Some(next_leaf);
                        self.slot_idx = 0;
                        self.pos = Ghost(i + 1);
                        continue ;
                    },
                }
            }
            let slot: usize = self.slot_idx;
            assert(v.keys[slot as int] == leaf.keys@[slot as int]@);
            if leaf.is_tombstoned(slot as u32) {
                self.slot_idx = slot + 1;
                continue ;
            }
            let past_upper: bool = match &self.upper_bound {
                KeyBound::Included(u) => u.is_before(&leaf.keys[slot]),
                KeyBound::Excluded(u) => !leaf.keys[slot].is_before(u),
                KeyBound::Unbounded => false,
            };
            proof {
                lemma_key_order();
                assert(past_upper == !below(self.upper_bound, v.keys[slot as int]));
            }
            let ghost all = entries_from(pages, t, ls, i, slot as nat);
            let ghost rest = entries_from(pages, t, ls, i, slot as nat + 1);
            assert(all == seq![(v.keys[slot as int], v.record_ids[slot as int])] + rest);
            assert(all.drop_first() =~= rest);
            if past_upper {
                self.current_leaf = None;
                return None;
            }
            let key = leaf.keys[slot].clone();
            let rid = leaf.record_ids[slot];
            self.slot_idx = slot + 1;
            assert(self.remaining(pages) =~= before.drop_first());
            return Some(Ok((key, IndexValue::IndexValue(rid))));
        }
    }

    /// All entries that are still to come.
    pub fn collect(self, bpm: &mut BufferPoolManager) -> (res: Result<
        Vec<(IndexKey, IndexValue)>,
        IndexError,
    >)
        requires
            old(bpm).wf(),
            self.wf(old(bpm).pages()),
        ensures
            final(bpm).wf(),
            final(bpm).same_pages(old(bpm)),
            old(bpm).ready() ==> final(bpm).ready(),
            match res {
                Ok(es) => entry_views(es@) == self.remaining(old(bpm).pages()),
                Err(e) => e is BpmError && !old(bpm).ready(),
            },
    {
        let mut it = self;
        let ghost pages = bpm.pages();
        let ghost all = it.remaining(pages);
        let mut out: Vec<(IndexKey, IndexValue)> = Vec::new();
        assert(entry_views(out@) + it.remaining(pages) =~= all);
        loop
            invariant
                bpm.wf(),
                bpm.same_pages(old(bpm)),
                old(bpm).ready() ==> bpm.ready(),
                pages == old(bpm).pages(),
                it.wf(pages),
                entry_views(out@) + it.remaining(pages) == all,
                all == self.remaining(old(bpm).pages()),
            decreases it.remaining(pages).len(),
        {
            let ghost before = it.remaining(pages);
            let ghost got = out@;
            match it.next(bpm) {
                Some(Ok((k, v))) => {
                    out.push((k, v));
                    assert(entry_views(out@) =~= entry_views(got).push(before[0]));
                    assert(entry_views(out@) + it.remaining(pages) =~= entry_views(got) + before);
                },
                Some(Err(e)) => {
                    return Err(e);
                },
                None => {
                    assert(entry_views(out@) =~= all);
                    return Ok(out);
                },
            }
        }
    }
}

/// Entries as plain values.
pub open spec fn entry_views(es: Seq<(IndexKey, IndexValue)>) -> Seq<(Seq<u8>, RecordId)> {
    es.map_values(|e: (IndexKey, IndexValue)| (e.0@, e.1->IndexValue_0))
}

impl BPlusTree {
    /// A walk over the leaves of the tree from left to right.
    pub fn leaf_pages(&self, bpm: &mut BufferPoolManager) -> (res: Result<
        LeafPagesIter,
        IndexError,
    >)
        requires
            old(bpm).wf(),
        ensures
            final(bpm).wf(),
            final(bpm).same_pages(old(bpm)),
            old(bpm).ready() ==> final(bpm).ready(),
            match res {
                Ok(it) => {
                    &&& old(bpm).pages().contains_key(self.header_page_id)
                    &&& header_of(old(bpm).pages()[self.header_page_id]) matches Some(hd)
                        && hd.key_len == self.key_len && it.next_leaf_id == hd.first_leaf_id
                    &&& it.key_len == self.key_len
                    &&& it.seen@ == Set::<usize>::empty()
                    &&& !it.finished
                },
                Err(e) => self.header_error(old(bpm).pages(), e) || (pool_failed(res)
                    && !old(bpm).ready()),
            },
            self.wf(old(bpm).pages()) ==> match res {
                Ok(it) => {
                    &&& self.is_empty(old(bpm).pages()) ==> walk_over(it)
                    &&& !self.is_empty(old(bpm).pages()) ==> it.at(
                        self.shape(),
                        tree_leaves(old(bpm).pages(), self.shape(), self.header_page_id),
                        0,
                    )
                },
                Err(_) => pool_failed(res) && !old(bpm).ready(),
            },
    {
        proof {
            if self.wf(bpm.pages()) && !self.is_empty(bpm.pages()) {
                law_tree_chain(bpm.pages(), self.shape(), self.header_page_id);
            }
        }
        match self.read_header(bpm) {
            Ok(header) => Ok(
                LeafPagesIter {
                    key_len: self.key_len,
                    next_leaf_id: header.first_leaf_id,
                    seen: HashSet::new(),
                    finished: false,
                },
            ),
            Err(e) => Err(e),
        }
    }

    /// A walk over the entries between two bounds in key order.
    pub fn scan(&self, bpm: &mut BufferPoolManager, lower: &KeyBound, upper: KeyBound) -> (res:
        Result<BPlusTreeIter, IndexError>)
        requires
            old(bpm).wf(),
            self.wf(old(bpm).pages()),
        ensures
            final(bpm).wf(),
            final(bpm).same_pages(old(bpm)),
            old(bpm).ready() ==> final(bpm).ready(),
            match res {
                Ok(it) => {
                    let pages = old(bpm).pages();
                    &&& !self.is_empty(pages)
                    &&& it.wf(pages)
                    &&& it.shape == self.shape()
                    &&& it.header_page_id == self.header_page_id
                    &&& is_range(
                        pages,
                        self.shape(),
                        self.header_page_id,
                        *lower,
                        upper,
                        it.remaining(pages),
                    )
                },
                Err(e) => {
                    ||| pool_failed(res) && !old(bpm).ready()
                    ||| self.is_empty(old(bpm).pages()) && if lower !is Unbounded {
                        e is Lookup
                    } else {
                        !old(bpm).pages().contains_key(INVALID_PAGE_ID) ==> (e matches
                            IndexError::BpmError(BpmError::Io(io)) && is_missing(
                            io,
                            INVALID_PAGE_ID,
                        ))
                    }
                },
            },
    {
        let ghost pages = bpm.pages();
        let ghost t = self.shape();
        let ghost hid = self.header_page_id;
        let ghost ls = tree_leaves(pages, t, hid);
        proof {
            if !self.is_empty(pages) {
                law_tree_chain(pages, t, hid);
            }
        }
        let (leaf, slot): (LeafPage, usize) = match lower {
            KeyBound::Unbounded => {
                let header = match self.read_header(bpm) {
                    Ok(h) => h,
                    Err(e) => { return Err(e); },
                };
                let data = match bpm.load(header.first_leaf_id) {
                    Ok(d) => d,
                    Err(e) => {
                        proof {
                            if !self.is_empty(pages) {
                                assert(leaf_in_span(pages, t, ls[0], None, None));
                            }
                        }
                        return Err(IndexError::BpmError(e));
                    },
                };
                if header.first_leaf_id == INVALID_PAGE_ID {
                    proof {
                        if !self.is_empty(pages) {
                            assert(leaf_in_span(pages, t, ls[0], None, None));
                        }
                    }
                    return Err(IndexError::Lookup);
                }
                proof {
                    assert(leaf_in_span(pages, t, ls[0], None, None));
                    lemma_leaf_decodes(pages, t, ls[0]);
                }
                match LeafPage::decode(data.as_slice(), self.key_len) {
                    Ok(leaf) => (leaf, 0),
                    Err(e) => { return Err(IndexError::PageError(e)); },
                }
            },
            KeyBound::Excluded(key) => {
                let leaf = match self.find_leaf(bpm, key) {
                    Ok(l) => l,
                    Err(e) => { return Err(e); },
                };
                let slot: usize = leaf.upper_bound(key);
                (leaf, slot)
            },
            KeyBound::Included(key) => {
                let leaf = match self.find_leaf(bpm, key) {
                    Ok(l) => l,
                    Err(e) => { return Err(e); },
                };
                let slot: usize = leaf.lower_bound(key);
                (leaf, slot)
            },
        };
        let ghost pos = self.start_pos(pages, *lower);
        proof {
            lemma_start(pages, t, hid, *lower, leaf@, slot as int, pos);
            lemma_range_from(pages, t, hid, *lower, upper, pos, slot as nat);
            assert(leaf_on(pages, t, ls[pos]).next_leaf_id == chain_next(
                ls,
                INVALID_PAGE_ID,
                pos,
            ));
        }
        let leaves_iter = LeafPagesIter {
            key_len: self.key_len,
            next_leaf_id: leaf.next_leaf_id,
            seen: HashSet::new(),
            finished: false,
        };
        Ok(
            BPlusTreeIter {
                shape: TreeShape {
                    key_len: self.key_len,
                    leaf_max: self.leaf_max_size,
                    internal_max: self.internal_max_size,
                },
                header_page_id: self.header_page_id,
                leaves_iter,
                current_leaf: Some(leaf),
                slot_idx: slot,
                upper_bound: upper,
                pos: Ghost(pos),
            },
        )
    }

    /// The position of the leaf that a range starts on.
    spec fn start_pos(&self, pages: Pages, lower: KeyBound) -> int {
        let t = self.shape();
        let ls = tree_leaves(pages, t, self.header_page_id);
        let root = (header_of(pages[self.header_page_id])->0).root_page_id;
        let h = self.height(pages);
        match lower {
            KeyBound::Unbounded => 0,
            KeyBound::Included(k) => choose|i: int| #[trigger]
                home_at(pages, t, ls, k@, i) && ls[i] == home_leaf(pages, t, root, h, k@),
            KeyBound::Excluded(k) => choose|i: int| #[trigger]
                home_at(pages, t, ls, k@, i) && ls[i] == home_leaf(pages, t, root, h, k@),
        }
    }
}

/// The slot on the leaf that a range starts on parts the keys by the lower bound.
proof fn lemma_start(
    pages: Pages,
    t: TreeShape,
    hid: usize,
    lower: KeyBound,
    v: LeafView,
    slot: int,
    pos: int,
)
    requires
        tree_ok(pages, t, hid),
        !tree_empty(pages, hid),
        ({
            let ls = tree_leaves(pages, t, hid);
            let root = (header_of(pages[hid])->0).root_page_id;
            let h = tree_height(pages, t, hid);
            match lower {
                KeyBound::Unbounded => pos == 0 && slot == 0 && leaf_on(pages, t, ls[0]) == v,
                KeyBound::Included(k) => {
                    &&& pos == (choose|i: int| #[trigger]
                        home_at(pages, t, ls, k@, i) && ls[i] == home_leaf(pages, t, root, h, k@))
                    &&& node_of(pages[home_leaf(pages, t, root, h, k@)], t.key_len) == Some(
                        NodeView::Leaf(v),
                    )
                    &&& is_lower_bound(v.keys, k@, slot)
                },
                KeyBound::Excluded(k) => {
                    &&& pos == (choose|i: int| #[trigger]
                        home_at(pages, t, ls, k@, i) && ls[i] == home_leaf(pages, t, root, h, k@))
                    &&& node_of(pages[home_leaf(pages, t, root, h, k@)], t.key_len) == Some(
                        NodeView::Leaf(v),
                    )
                    &&& is_upper_bound(v.keys, k@, slot)
                },
            }
        }),
    ensures
        ({
            let ls = tree_leaves(pages, t, hid);
            &&& 0 <= pos < ls.len()
            &&& leaf_on(pages, t, ls[pos]) == v
            &&& node_of(pages[ls[pos]], t.key_len) == Some(NodeView::Leaf(v))
            &&& forall|j: int, s: int|
                0 <= j < ls.len() && 0 <= s < leaf_on(pages, t, ls[j]).keys.len() ==> (at_or_after(
                    j,
                    s,
                    pos,
                    slot,
                ) <==> above(lower, #[trigger] leaf_on(pages, t, ls[j]).keys[s]))
        }),
{
    let ls = tree_leaves(pages, t, hid);
    let hd = header_of(pages[hid])->0;
    let root = hd.root_page_id;
    let h = tree_height(pages, t, hid);
    lemma_key_order();
    law_tree_chain(pages, t, hid);
    assert(rooted(pages, t, hid, hd, h));
    lemma_leaves(pages, t, root, h, None, None, true, INVALID_PAGE_ID);
    assert(leaf_in_span(pages, t, ls[0], None, None));
    match lower {
        KeyBound::Unbounded => {},
        KeyBound::Included(k) => {
            assert(has_home(pages, t, ls, k@, home_leaf(pages, t, root, h, k@)));
            assert(home_at(pages, t, ls, k@, pos));
            assert forall|j: int, s: int|
                0 <= j < ls.len() && 0 <= s < leaf_on(pages, t, ls[j]).keys.len() implies (
            at_or_after(j, s, pos, slot) <==> above(
                lower,
                #[trigger] leaf_on(pages, t, ls[j]).keys[s],
            )) by {
                if j == pos {
                    assert(leaf_on(pages, t, ls[j]).keys[s] == v.keys[s]);
                    if s < slot {
                        assert(key_lt(v.keys[s], k@));
                    } else {
                        assert(key_le(k@, v.keys[s]));
                    }
                }
            }
        },
        KeyBound::Excluded(k) => {
            assert(has_home(pages, t, ls, k@, home_leaf(pages, t, root, h, k@)));
            assert(home_at(pages, t, ls, k@, pos));
            assert forall|j: int, s: int|
                0 <= j < ls.len() && 0 <= s < leaf_on(pages, t, ls[j]).keys.len() implies (
            at_or_after(j, s, pos, slot) <==> above(
                lower,
                #[trigger] leaf_on(pages, t, ls[j]).keys[s],
            )) by {
                if j == pos {
                    assert(leaf_on(pages, t, ls[j]).keys[s] == v.keys[s]);
                    if s < slot {
                        assert(key_le(v.keys[s], k@));
                    } else {
                        assert(key_lt(k@, v.keys[s]));
                    }
                }
            }
        },
    }
}

} // verus!
