//! Keeping the indexes of a table in step with its rows.
use vstd::prelude::*;

use crate::buffer_pool::{BpmError, BufferPoolManager};
use crate::catalog::registry::{is_table, positions};
use crate::catalog::table_index::TableIndex;
use crate::catalog::Catalog;
use crate::index::b_plus_tree::carried;
use crate::index::tree_insert::with_key;
use crate::index::tree_model::{law_height, law_tree_frame, law_tree_pages_exist, Pages};
use crate::index::{IndexError, InsertError, RemoveError};
use crate::processor::expression::ExecutorError;
use crate::processor::stream::{index_failure, index_message};
use crate::table_heap::{RecordId, Tuple};

verus! {

/// Only the page of table `i` changed, and the table kept its slots: the catalog is still in
/// order.
pub proof fn lemma_heap_changed(c: Catalog, p0: Pages, p1: Pages, i: int)
    requires
        c.wf(p0),
        0 <= i < c.tables@.len(),
        ({
            let h = c.tables@[i].info.heap;
            &&& p1 == p0.insert(h.last_page_id, p1[h.last_page_id])
            &&& h.wf(p1)
            &&& h.rows(p0).len() <= h.rows(p1).len()
        }),
    ensures
        c.wf(p1),
        c.other_tables_kept(p0, p1, i),
        forall|j: int| 0 <= j < c.indexes@.len() ==> #[trigger] c.index_kept(p0, p1, j),
{
    let page = c.tables@[i].info.heap.last_page_id;
    assert forall|j: int| 0 <= j < c.indexes@.len() implies #[trigger] c.index_kept(p0, p1, j)
        && c.indexes@[j].index.wf(p1) && (forall|p: usize| #[trigger]
        c.indexes@[j].index.idx.owns(p1, p) == c.indexes@[j].index.idx.owns(p0, p)) by {
        let idx = c.indexes@[j].index.idx;
        assert(c.indexes@[j].index.wf(p0));
        assert(!idx.owns(p0, page)) by {
            assert(!c.indexes@[j].index.idx.owns(p0, c.tables@[i].info.heap.last_page_id));
        }
        law_tree_pages_exist(p0, idx.shape(), idx.header_page_id);
        assert forall|p: usize| #[trigger]
            crate::index::tree_model::tree_owns(
                p0,
                idx.shape(),
                idx.header_page_id,
                p,
            ) implies p1.contains_key(p) && p1[p] == p0[p] by {
            assert(idx.owns(p0, p));
        }
        law_tree_frame(p0, p1, idx.shape(), idx.header_page_id);
    }
    assert forall|j: int, p: usize| 0 <= j < c.indexes@.len() implies #[trigger] c.indexes@[
        j].index.idx.owns(p1, p) == c.indexes@[j].index.idx.owns(p0, p) by {
        assert(c.index_kept(p0, p1, j));
    }
    assert forall|j: int| 0 <= j < c.indexes@.len() implies (
    #[trigger] c.indexes@[j]).index.wf(p1) by {
        assert(c.index_kept(p0, p1, j));
    }
    assert forall|k: int| 0 <= k < c.tables@.len() implies (#[trigger] c.tables@[k]).info.heap.wf(
        p1,
    ) by {
        assert(c.tables@[k].info.heap.wf(p0));
        if k != i {
            lemma_heaps_apart(c, p0, i, k);
        }
    }
    assert forall|k: int| 0 <= k < c.tables@.len() && k != i implies #[trigger] c.rows(p1, k)
        == c.rows(p0, k) by {
        assert(c.tables@[k].info.heap.wf(p0));
        lemma_heaps_apart(c, p0, i, k);
    }
    assert(c.laid_out(p1));
    assert forall|k: int, j: int, key: Seq<u8>|
        0 <= j < c.indexes@.len() && #[trigger] is_table(
            c.tables@,
            c.indexes@[j].table_oid,
            k,
        ) implies ((#[trigger] c.indexes@[j].index.find(p1, key)) matches Some(rid)
        ==> c.tables@[k].info.heap.has_slot(p1, rid)) by {
        assert(c.index_kept(p0, p1, j));
        assert(c.indexes@[j].index.find(p1, key) == c.indexes@[j].index.find(p0, key));
        if k != i {
            assert(c.rows(p1, k) == c.rows(p0, k));
        }
    }
}

proof fn lemma_heaps_apart(c: Catalog, pages: Pages, i: int, k: int)
    requires
        c.wf(pages),
        0 <= i < c.tables@.len(),
        0 <= k < c.tables@.len(),
        i != k,
    ensures
        c.tables@[i].info.heap.last_page_id != c.tables@[k].info.heap.last_page_id,
{
    if i < k {
        assert(c.tables@[i].info.heap.last_page_id != c.tables@[k].info.heap.last_page_id);
    } else {
        assert(c.tables@[k].info.heap.last_page_id != c.tables@[i].info.heap.last_page_id);
    }
}

/// Only pages of index `n` changed: the catalog is still in order, as long as what the index
/// holds stands for slots of its table.
pub proof fn lemma_index_changed(c: Catalog, p0: Pages, p1: Pages, n: int)
    requires
        c.wf(p0),
        0 <= n < c.indexes@.len(),
        c.indexes@[n].index.wf(p1),
        c.indexes@[n].index.idx.stays_apart(p0, p1),
        forall|i: int, k: Seq<u8>| #[trigger]
            is_table(c.tables@, c.indexes@[n].table_oid, i) ==> ((
            #[trigger] c.indexes@[n].index.find(p1, k)) matches Some(rid)
                ==> c.tables@[i].info.heap.has_slot(p0, rid)),
    ensures
        c.wf(p1),
        c.other_tables_kept(p0, p1, -1),
        forall|j: int|
            0 <= j < c.indexes@.len() && j != n ==> #[trigger] c.index_kept(p0, p1, j),
{
    let idx = c.indexes@[n].index.idx;
    assert forall|p: usize| #[trigger] p0.contains_key(p) && !idx.owns(p0, p) implies p1.contains_key(
        p,
    ) && p1[p] == p0[p] by {}
    assert forall|j: int| 0 <= j < c.indexes@.len() && j != n implies #[trigger] c.index_kept(
        p0,
        p1,
        j,
    ) && c.indexes@[j].index.wf(p1) && (forall|p: usize| #[trigger]
        c.indexes@[j].index.idx.owns(p1, p) == c.indexes@[j].index.idx.owns(p0, p)) by {
        let other = c.indexes@[j].index.idx;
        assert(c.indexes@[j].index.wf(p0));
        law_tree_pages_exist(p0, other.shape(), other.header_page_id);
        assert forall|p: usize| #[trigger]
            crate::index::tree_model::tree_owns(
                p0,
                other.shape(),
                other.header_page_id,
                p,
            ) implies p1.contains_key(p) && p1[p] == p0[p] by {
            assert(other.owns(p0, p));
            assert(!(c.indexes@[j].index.idx.owns(p0, p) && c.indexes@[n].index.idx.owns(p0, p)));
            assert(p0.contains_key(p) && !idx.owns(p0, p));
        }
        law_tree_frame(p0, p1, other.shape(), other.header_page_id);
    }
    assert forall|k: int| 0 <= k < c.tables@.len() implies (#[trigger] c.tables@[k]).info.heap.wf(
        p1,
    ) && c.rows(p1, k) == c.rows(p0, k) by {
        let h = c.tables@[k].info.heap;
        assert(h.wf(p0));
        assert(!c.indexes@[n].index.idx.owns(p0, c.tables@[k].info.heap.last_page_id));
        assert(p0.contains_key(h.last_page_id) && !idx.owns(p0, h.last_page_id));
    }
    assert forall|j: int| 0 <= j < c.indexes@.len() implies (
    #[trigger] c.indexes@[j]).index.wf(p1) by {
        if j != n {
            assert(c.index_kept(p0, p1, j));
        }
    }
    assert forall|k: int, j: int|
        0 <= k < c.tables@.len() && 0 <= j < c.indexes@.len() implies !(
    #[trigger] c.indexes@[j]).index.idx.owns(
        p1,
        (#[trigger] c.tables@[k]).info.heap.last_page_id,
    ) by {
        let page = c.tables@[k].info.heap.last_page_id;
        assert(c.tables@[k].info.heap.wf(p0));
        assert(!c.indexes@[j].index.idx.owns(p0, page));
        if j != n {
            assert(c.index_kept(p0, p1, j));
        } else if idx.owns(p1, page) {
            assert(idx.owns(p0, page) || !p0.contains_key(page));
        }
    }
    assert forall|j: int, k: int, p: usize|
        0 <= j < c.indexes@.len() && 0 <= k < c.indexes@.len() && j != k implies !(
    #[trigger] c.indexes@[j].index.idx.owns(p1, p) && #[trigger] c.indexes@[k].index.idx.owns(
        p1,
        p,
    )) by {
        if j != n {
            assert(c.index_kept(p0, p1, j));
        }
        if k != n {
            assert(c.index_kept(p0, p1, k));
        }
        lemma_still_apart(c, p0, p1, n, j, k, p);
    }
    assert(c.laid_out(p1));
    assert forall|k: int, j: int, key: Seq<u8>|
        0 <= j < c.indexes@.len() && #[trigger] is_table(
            c.tables@,
            c.indexes@[j].table_oid,
            k,
        ) implies ((#[trigger] c.indexes@[j].index.find(p1, key)) matches Some(rid)
        ==> c.tables@[k].info.heap.has_slot(p1, rid)) by {
        assert(c.tables@[k].info.heap.wf(p1) && c.rows(p1, k) == c.rows(p0, k));
        if j != n {
            assert(c.index_kept(p0, p1, j));
            assert(c.indexes@[j].index.find(p1, key) == c.indexes@[j].index.find(p0, key));
        }
    }
}

proof fn lemma_still_apart(c: Catalog, p0: Pages, p1: Pages, n: int, j: int, k: int, p: usize)
    requires
        c.wf(p0),
        0 <= n < c.indexes@.len(),
        0 <= j < c.indexes@.len(),
        0 <= k < c.indexes@.len(),
        j != k,
        c.indexes@[n].index.idx.stays_apart(p0, p1),
        j != n ==> c.indexes@[j].index.idx.owns(p1, p) == c.indexes@[j].index.idx.owns(p0, p),
        k != n ==> c.indexes@[k].index.idx.owns(p1, p) == c.indexes@[k].index.idx.owns(p0, p),
    ensures
        !(c.indexes@[j].index.idx.owns(p1, p) && c.indexes@[k].index.idx.owns(p1, p)),
{
    let (a, b) = (c.indexes@[j].index.idx, c.indexes@[k].index.idx);
    assert(!(c.indexes@[j].index.idx.owns(p0, p) && c.indexes@[k].index.idx.owns(p0, p)));
    assert(c.indexes@[j].index.wf(p0));
    assert(c.indexes@[k].index.wf(p0));
    law_tree_pages_exist(p0, a.shape(), a.header_page_id);
    law_tree_pages_exist(p0, b.shape(), b.header_page_id);
    if a.owns(p1, p) && b.owns(p1, p) {
        if j == n {
            assert(a.owns(p0, p) || !p0.contains_key(p));
            assert(b.owns(p0, p));
        } else if k == n {
            assert(b.owns(p0, p) || !p0.contains_key(p));
            assert(a.owns(p0, p));
        }
    }
}

/// What happens to the rows of a table: one may go, one may come.
pub struct RowChange {
    pub removed: Option<Tuple>,
    pub added: Option<(Tuple, RecordId)>,
}

#[verifier::ext_equal]
pub struct ChangeView {
    pub removed: Option<Seq<u8>>,
    pub added: Option<(Seq<u8>, RecordId)>,
}

impl View for RowChange {
    type V = ChangeView;

    open spec fn view(&self) -> ChangeView {
        ChangeView {
            removed: match self.removed {
                Some(t) => Some(t.data@),
                None => None,
            },
            added: match self.added {
                Some((t, rid)) => Some((t.data@, rid)),
                None => None,
            },
        }
    }
}

impl ChangeView {
    /// The rows have all the bytes that the index reads.
    pub open spec fn covered_by(self, index: TableIndex) -> bool {
        &&& self.removed matches Some(d) ==> index.covers(d)
        &&& self.added matches Some((d, rid)) ==> index.covers(d)
    }

    /// What the index holds for `k` once the row that goes is out of it.
    pub open spec fn found_without(self, index: TableIndex, pages: Pages, k: Seq<u8>) -> Option<
        RecordId,
    > {
        match self.removed {
            Some(d) => index.found_after_remove(pages, d, k),
            None => index.find(pages, k),
        }
    }

    /// What the index holds for `k` once it follows the change.
    pub open spec fn found(self, index: TableIndex, pages: Pages, k: Seq<u8>) -> Option<RecordId> {
        let before = self.found_without(index, pages, k);
        match self.added {
            Some((d, rid)) => if index.null_key(d) {
                before
            } else {
                with_key(before, index.key_of(d), Some(rid), k)
            },
            None => before,
        }
    }

    /// The row that goes is not in the index.
    pub open spec fn is_missing(self, index: TableIndex, pages: Pages) -> bool {
        self.removed matches Some(d) && !index.null_key(d) && index.find(
            pages,
            index.key_of(d),
        ) is None
    }

    /// The row that comes has a key that the index holds for another row.
    pub open spec fn is_duplicate(self, index: TableIndex, pages: Pages) -> bool {
        self.added matches Some((d, rid)) && !index.null_key(d) && self.found_without(
            index,
            pages,
            index.key_of(d),
        ) is Some
    }

    /// The index can follow the change.
    pub open spec fn accepted_by(self, index: TableIndex, pages: Pages) -> bool {
        !self.is_missing(index, pages) && !self.is_duplicate(index, pages)
    }

    /// The index holds what it held, or that without the row that goes.
    pub open spec fn half_done(self, index: TableIndex, p0: Pages, p1: Pages) -> bool {
        ||| forall|k: Seq<u8>| #[trigger] index.find(p1, k) == index.find(p0, k)
        ||| forall|k: Seq<u8>| #[trigger] index.find(p1, k) == self.found_without(index, p0, k)
    }
}

/// So few page numbers are left that a tree may have more levels than there are.
pub open spec fn ids_spent(bpm: &BufferPoolManager) -> bool {
    bpm.next_page_id() >= usize::MAX / 2
}

/// Why an index does not follow a change: it has no room for a row that comes, as `spent` says,
/// the row that goes is not in it, or it holds the key of the row that comes.
pub open spec fn refuses(
    index: TableIndex,
    pages: Pages,
    change: ChangeView,
    spent: bool,
    e: IndexError,
) -> bool {
    ||| spent && change.added is Some && e == IndexError::BpmError(BpmError::NoFreeFrame)
    ||| change.is_missing(index, pages) && e == IndexError::Remove(RemoveError::KeyNotFound)
    ||| !change.is_missing(index, pages) && change.is_duplicate(index, pages) && e
        == IndexError::Insert(InsertError::DuplicateKey)
}

/// An index does not follow a change, and `e` says why.
pub open spec fn refused_with(
    index: TableIndex,
    pages: Pages,
    change: ChangeView,
    spent: bool,
    e: Seq<char>,
) -> bool {
    exists|x: IndexError| #[trigger]
        refuses(index, pages, change, spent, x) && e == index_message(x)
}

/// Lets one index follow a change.
fn follow(index: &TableIndex, bpm: &mut BufferPoolManager, change: &RowChange) -> (res: Result<
    (),
    IndexError,
>)
    requires
        old(bpm).wf(),
        old(bpm).ready(),
        old(bpm).ids_fresh(),
        index.wf(old(bpm).pages()),
        change@.covered_by(*index),
    ensures
        carried(old(bpm), final(bpm)),
        ({
            let (p0, p1) = (old(bpm).pages(), final(bpm).pages());
            &&& index.wf(p1)
            &&& index.idx.stays_apart(p0, p1)
            &&& match res {
                Ok(_) => {
                    &&& change@.accepted_by(*index, p0)
                    &&& forall|k: Seq<u8>| #[trigger]
                        index.find(p1, k) == change@.found(*index, p0, k)
                },
                Err(e) => {
                    &&& change@.half_done(*index, p0, p1)
                    &&& refuses(*index, p0, change@, ids_spent(final(bpm)), e)
                },
            }
        }),
{
    let ghost p0 = bpm.pages();
    if let Some(t) = &change.removed {
        match index.remove(bpm, t) {
            Ok(_) => {},
            Err(e) => { return Err(e); },
        }
    }
    let ghost p1 = bpm.pages();
    assert forall|k: Seq<u8>| #[trigger] index.find(p1, k) == change@.found_without(
        *index,
        p0,
        k,
    ) by {}
    if let Some((t, rid)) = &change.added {
        proof {
            if !index.idx.is_empty(p1) {
                law_height(
                    p1,
                    index.idx.shape(),
                    index.idx.header_page_id,
                    bpm.next_page_id() as int,
                );
            }
        }
        if !index.idx.has_room(bpm) {
            return Err(IndexError::BpmError(BpmError::NoFreeFrame));
        }
        match index.insert(bpm, t, *rid) {
            Ok(_) => {},
            Err(e) => { return Err(e); },
        }
    }
    let ghost p2 = bpm.pages();
    proof {
        assert(index.idx.stays_apart(p0, p2)) by {
            lemma_apart_twice(index.idx, p0, p1, p2);
        }
        assert forall|k: Seq<u8>| #[trigger] index.find(p2, k) == change@.found(*index, p0, k) by {
            assert(index.find(p1, k) == change@.found_without(*index, p0, k));
        }
    }
    Ok(())
}

proof fn lemma_apart_twice(
    tree: crate::index::BPlusTree,
    p0: Pages,
    p1: Pages,
    p2: Pages,
)
    requires
        tree.stays_apart(p0, p1),
        tree.stays_apart(p1, p2),
    ensures
        tree.stays_apart(p0, p2),
{
    assert forall|p: usize| #[trigger] p0.contains_key(p) && !tree.owns(p0, p) implies p2.contains_key(
        p,
    ) && p2[p] == p0[p] by {
        assert(p1.contains_key(p) && p1[p] == p0[p]);
        if tree.owns(p1, p) {
            assert(tree.owns(p0, p) || !p0.contains_key(p));
        }
    }
    assert forall|p: usize| #[trigger] tree.owns(p2, p) implies tree.owns(p0, p)
        || !p0.contains_key(p) by {
        if tree.owns(p1, p) {
        } else {
            assert(!p1.contains_key(p));
            if p0.contains_key(p) && !tree.owns(p0, p) {
                assert(p1.contains_key(p));
            }
            if p0.contains_key(p) {
                assert(tree.owns(p0, p));
            }
        }
    }
}

/// Where the indexes on a table stand in the catalog.
pub open spec fn index_positions(c: &Catalog, oid: u32) -> Seq<int> {
    positions(c.indexes@, oid, true, c.indexes@.len() as int)
}

/// All indexes on the table cover the rows of a change.
pub open spec fn all_cover(c: &Catalog, oid: u32, change: ChangeView) -> bool {
    forall|a: int|
        0 <= a < index_positions(c, oid).len() ==> change.covered_by(
            c.indexes@[#[trigger] index_positions(c, oid)[a]].index,
        )
}

/// The first `m` indexes on the table followed the change, the others from `rest` on did not.
pub open spec fn followed(
    c: &Catalog,
    oid: u32,
    p0: Pages,
    p1: Pages,
    change: ChangeView,
    m: int,
    rest: int,
) -> bool {
    let ps = index_positions(c, oid);
    &&& forall|a: int| 0 <= a < m ==> #[trigger] index_follows(c, ps[a], p0, p1, change)
    &&& forall|a: int| rest <= a < ps.len() ==> #[trigger] c.index_kept(p0, p1, ps[a])
}

pub open spec fn index_follows(
    c: &Catalog,
    j: int,
    p0: Pages,
    p1: Pages,
    change: ChangeView,
) -> bool {
    forall|k: Seq<u8>| #[trigger]
        c.indexes@[j].index.find(p1, k) == change.found(c.indexes@[j].index, p0, k)
}

/// Indexes on other tables find what they found.
pub open spec fn elsewhere_kept(c: &Catalog, oid: u32, p0: Pages, p1: Pages) -> bool {
    forall|j: int|
        0 <= j < c.indexes@.len() && (#[trigger] c.indexes@[j]).table_oid != oid ==> c.index_kept(
            p0,
            p1,
            j,
        )
}

/// How the indexes on a table came out of a change that table `i` went through.
pub open spec fn upkeep_done(
    c: &Catalog,
    oid: u32,
    p0: Pages,
    p1: Pages,
    change: ChangeView,
    spent: bool,
    res: Result<(), ExecutorError>,
) -> bool {
    let ps = index_positions(c, oid);
    match res {
        Ok(_) => {
            &&& c.wf(p1)
            &&& c.other_tables_kept(p0, p1, -1)
            &&& elsewhere_kept(c, oid, p0, p1)
            &&& forall|a: int| 0 <= a < ps.len() ==> change.accepted_by(
                c.indexes@[#[trigger] ps[a]].index,
                p0,
            )
            &&& followed(c, oid, p0, p1, change, ps.len() as int, ps.len() as int)
        },
        Err(e) => exists|m: int| #[trigger]
            upkeep_stopped(c, oid, p0, p1, change, spent, m, e.0@),
    }
}

/// The index at place `m` among those of the table refused the change: the ones before it
/// followed, the ones behind it did not.
pub open spec fn upkeep_stopped(
    c: &Catalog,
    oid: u32,
    p0: Pages,
    p1: Pages,
    change: ChangeView,
    spent: bool,
    m: int,
    e: Seq<char>,
) -> bool {
    let ps = index_positions(c, oid);
    &&& 0 <= m < ps.len()
    &&& c.wf(p1)
    &&& c.other_tables_kept(p0, p1, -1)
    &&& elsewhere_kept(c, oid, p0, p1)
    &&& followed(c, oid, p0, p1, change, m, m + 1)
    &&& change.half_done(c.indexes@[ps[m]].index, p0, p1)
    &&& refused_with(c.indexes@[ps[m]].index, p0, change, spent, e)
}

/// Whether all indexes on a table cover the rows of a change.
pub fn change_fits(c: &Catalog, oid: u32, change: &RowChange) -> (res: bool)
    requires
        c.valid(),
    ensures
        res == all_cover(c, oid, change@),
{
    proof {
        crate::catalog::registry::lemma_positions(c.indexes@, oid, true, c.indexes@.len() as int);
    }
    let ghost ps = index_positions(c, oid);
    let mut j: usize = 0;
    while j < c.indexes.len()
        invariant
            j <= c.indexes@.len(),
            c.valid(),
            ps == index_positions(c, oid),
            forall|a: int|
                0 <= a < ps.len() ==> 0 <= #[trigger] ps[a] < c.indexes@.len() && c.indexes@[
                    ps[a]].table_oid == oid,
            forall|k: int|
                0 <= k < c.indexes@.len() && (#[trigger] c.indexes@[k]).table_oid == oid
                    ==> ps.contains(k),
            forall|k: int|
                0 <= k < j && (#[trigger] c.indexes@[k]).table_oid == oid ==> change@.covered_by(
                    c.indexes@[k].index,
                ),
        decreases c.indexes@.len() - j,
    {
        assert(c.index_fits(c.indexes@[j as int]));
        if c.indexes[j].table_oid == oid {
            let index = &c.indexes[j].index;
            let removed_ok: bool = match &change.removed {
                Some(t) => index.fits(t),
                None => true,
            };
            let added_ok: bool = match &change.added {
                Some((t, _)) => index.fits(t),
                None => true,
            };
            if !removed_ok || !added_ok {
                proof {
                    assert(ps.contains(j as int));
                    let a = choose|a: int| 0 <= a < ps.len() && ps[a] == j;
                    assert(!change@.covered_by(c.indexes@[ps[a]].index));
                }
                return false;
            }
        }
        j += 1;
    }
    assert forall|a: int| 0 <= a < ps.len() implies change@.covered_by(
        c.indexes@[#[trigger] ps[a]].index,
    ) by {
        assert(c.indexes@[ps[a]].table_oid == oid);
    }
    true
}

/// The index at `j` follows a change, or refuses it.
fn follow_at(
    c: &Catalog,
    j: usize,
    bpm: &mut BufferPoolManager,
    change: &RowChange,
    Ghost(i): Ghost<int>,
) -> (res: Result<(), ExecutorError>)
    requires
        old(bpm).wf(),
        old(bpm).ready(),
        old(bpm).ids_fresh(),
        c.wf(old(bpm).pages()),
        j < c.indexes@.len(),
        is_table(c.tables@, c.indexes@[j as int].table_oid, i),
        change@.covered_by(c.indexes@[j as int].index),
        change@.added matches Some((d, rid)) ==> c.tables@[i].info.heap.has_slot(
            old(bpm).pages(),
            rid,
        ),
    ensures
        carried(old(bpm), final(bpm)),
        ({
            let (p0, p1) = (old(bpm).pages(), final(bpm).pages());
            let index = c.indexes@[j as int].index;
            let stayed = c.wf(p1) && c.other_tables_kept(p0, p1, -1) && forall|k: int|
                0 <= k < c.indexes@.len() && k != j ==> #[trigger] c.index_kept(p0, p1, k);
            match res {
                Ok(_) => stayed && change@.accepted_by(index, p0) && index_follows(
                    c,
                    j as int,
                    p0,
                    p1,
                    change@,
                ),
                Err(e) => {
                    &&& stayed
                    &&& change@.half_done(index, p0, p1)
                    &&& refused_with(index, p0, change@, ids_spent(final(bpm)), e.0@)
                },
            }
        }),
{
    let ghost p0 = bpm.pages();
    let ghost index = c.indexes@[j as int].index;
    assert(c.indexes@[j as int].index.wf(p0));
    let outcome = follow(&c.indexes[j].index, bpm, change);
    let ghost p1 = bpm.pages();
    proof {
        assert forall|k: int, key: Seq<u8>| #[trigger]
            is_table(c.tables@, c.indexes@[j as int].table_oid, k) && (
            #[trigger] c.indexes@[j as int].index.find(p1, key)) is Some implies
            c.tables@[k].info.heap.has_slot(p0, c.indexes@[j as int].index.find(p1, key)->0) by {
            assert(k == i);
            lemma_found_in_table(*c, p0, p1, i, j as int, change@, key, outcome is Ok);
        }
        lemma_index_changed(*c, p0, p1, j as int);
    }
    match outcome {
        Ok(_) => Ok(()),
        Err(e) => {
            assert(refuses(index, p0, change@, ids_spent(bpm), e));
            Err(index_failure(e))
        },
    }
}

/// What an index holds after a change stands for slots of the table.
proof fn lemma_found_in_table(
    c: Catalog,
    p0: Pages,
    p1: Pages,
    i: int,
    j: int,
    change: ChangeView,
    key: Seq<u8>,
    done: bool,
)
    requires
        c.wf(p0),
        0 <= j < c.indexes@.len(),
        is_table(c.tables@, c.indexes@[j].table_oid, i),
        change.added matches Some((d, rid)) ==> c.tables@[i].info.heap.has_slot(p0, rid),
        done ==> forall|k: Seq<u8>| #[trigger]
            c.indexes@[j].index.find(p1, k) == change.found(c.indexes@[j].index, p0, k),
        !done ==> change.half_done(c.indexes@[j].index, p0, p1),
        c.indexes@[j].index.find(p1, key) is Some,
    ensures
        c.tables@[i].info.heap.has_slot(p0, c.indexes@[j].index.find(p1, key)->0),
{
    let index = c.indexes@[j].index;
    let now = c.indexes@[j].index.find(p1, key);
    let before = c.indexes@[j].index.find(p0, key);
    if before is Some {
        assert(c.tables@[i].info.heap.has_slot(p0, before->0));
    }
    if done {
        assert(now == change.found(index, p0, key));
    } else {
        assert(now == before || now == change.found_without(index, p0, key));
    }
}

/// Lets all indexes on a table follow a change, oldest first, up to the first that refuses it.
#[verifier::rlimit(60)]
#[verifier::spinoff_prover]
pub(crate) fn upkeep(
    c: &Catalog,
    oid: u32,
    bpm: &mut BufferPoolManager,
    change: &RowChange,
    Ghost(i): Ghost<int>,
) -> (res: Result<(), ExecutorError>)
    requires
        old(bpm).wf(),
        old(bpm).ready(),
        old(bpm).ids_fresh(),
        c.wf(old(bpm).pages()),
        is_table(c.tables@, oid, i),
        all_cover(c, oid, change@),
        change@.added matches Some((d, rid)) ==> c.tables@[i].info.heap.has_slot(
            old(bpm).pages(),
            rid,
        ),
    ensures
        carried(old(bpm), final(bpm)),
        upkeep_done(
            c,
            oid,
            old(bpm).pages(),
            final(bpm).pages(),
            change@,
            ids_spent(final(bpm)),
            res,
        ),
{
    let ghost p0 = bpm.pages();
    let ghost ps = index_positions(c, oid);
    proof {
        crate::catalog::registry::lemma_positions(c.indexes@, oid, true, c.indexes@.len() as int);
    }
    let mut j: usize = 0;
    let ghost mut m: int = 0;
    while j < c.indexes.len()
        invariant
            j <= c.indexes@.len(),
            ps == index_positions(c, oid),
            0 <= m <= ps.len(),
            forall|a: int|
                0 <= a < ps.len() ==> 0 <= #[trigger] ps[a] < c.indexes@.len() && c.indexes@[
                    ps[a]].table_oid == oid,
            forall|a: int, b: int| 0 <= a < b < ps.len() ==> #[trigger] ps[a] < #[trigger] ps[b],
            forall|k: int|
                0 <= k < c.indexes@.len() && (#[trigger] c.indexes@[k]).table_oid == oid
                    ==> ps.contains(k),
            forall|a: int| 0 <= a < m ==> #[trigger] ps[a] < j,
            forall|a: int| m <= a < ps.len() ==> #[trigger] ps[a] >= j,
            p0 == old(bpm).pages(),
            carried(old(bpm), bpm),
            old(bpm).ready(),
            old(bpm).ids_fresh(),
            c.wf(bpm.pages()),
            is_table(c.tables@, oid, i),
            all_cover(c, oid, change@),
            change@.added matches Some((d, rid)) ==> c.tables@[i].info.heap.has_slot(p0, rid),
            c.other_tables_kept(p0, bpm.pages(), -1),
            elsewhere_kept(c, oid, p0, bpm.pages()),
            followed(c, oid, p0, bpm.pages(), change@, m, m),
            forall|a: int|
                0 <= a < m ==> change@.accepted_by(c.indexes@[#[trigger] ps[a]].index, p0),
        decreases c.indexes@.len() - j,
    {
        let ghost p1 = bpm.pages();
        if c.indexes[j].table_oid == oid {
            proof {
                assert(ps.contains(j as int));
                let a = choose|a: int| 0 <= a < ps.len() && ps[a] == j;
                assert(a == m) by {
                    if a > m {
                        assert(ps[m] < ps[a]);
                    }
                }
                assert(change@.covered_by(c.indexes@[ps[m]].index));
                assert(c.index_kept(p0, p1, ps[m]));
                assert(c.rows(p1, i) == c.rows(p0, i));
                lemma_same_index(c, j as int, p0, p1, change@);
            }
            let outcome = follow_at(c, j, bpm, change, Ghost(i));
            let ghost p2 = bpm.pages();
            proof {
                lemma_upkeep_step(c, oid, p0, p1, p2, change@, m, outcome is Ok);
            }
            match outcome {
                Ok(_) => {
                    proof {
                        m = m + 1;
                    }
                },
                Err(e) => {
                    proof {
                        lemma_half_done(c, j as int, p0, p1, p2, change@);
                        let spent = ids_spent(bpm);
                        lemma_same_refusal(c, j as int, p0, p1, change@, spent, e.0@);
                        assert(upkeep_stopped(c, oid, p0, p2, change@, spent, m, e.0@));
                    }
                    return Err(e);
                },
            }
        }
        j += 1;
    }
    Ok(())
}

/// An index that was not touched yet takes a change as it would have at the start.
pub proof fn lemma_same_index(c: &Catalog, j: int, p0: Pages, p1: Pages, change: ChangeView)
    requires
        0 <= j < c.indexes@.len(),
        c.index_kept(p0, p1, j),
    ensures
        ({
            let index = c.indexes@[j].index;
            &&& change.is_missing(index, p1) == change.is_missing(index, p0)
            &&& change.is_duplicate(index, p1) == change.is_duplicate(index, p0)
            &&& forall|k: Seq<u8>| #[trigger] change.found(index, p1, k) == change.found(index, p0, k)
            &&& forall|k: Seq<u8>| #[trigger]
                change.found_without(index, p1, k) == change.found_without(index, p0, k)
        }),
{
    let index = c.indexes@[j].index;
    assert forall|k: Seq<u8>| #[trigger] change.found_without(index, p1, k)
        == change.found_without(index, p0, k) by {
        assert(c.indexes@[j].index.find(p1, k) == c.indexes@[j].index.find(p0, k));
    }
    assert forall|k: Seq<u8>| #[trigger] change.found(index, p1, k) == change.found(
        index,
        p0,
        k,
    ) by {
        assert(change.found_without(index, p1, k) == change.found_without(index, p0, k));
    }
    if change.removed is Some {
        let k = index.key_of(change.removed->0);
        assert(c.indexes@[j].index.find(p1, k) == c.indexes@[j].index.find(p0, k));
    }
    if change.added is Some {
        let k = index.key_of((change.added->0).0);
        assert(change.found_without(index, p1, k) == change.found_without(index, p0, k));
    }
}

/// An index that was not touched yet refuses a change as it would have at the start.
pub proof fn lemma_same_refusal(
    c: &Catalog,
    j: int,
    p0: Pages,
    p1: Pages,
    change: ChangeView,
    spent: bool,
    e: Seq<char>,
)
    requires
        0 <= j < c.indexes@.len(),
        c.index_kept(p0, p1, j),
    ensures
        refused_with(c.indexes@[j].index, p1, change, spent, e) == refused_with(
            c.indexes@[j].index,
            p0,
            change,
            spent,
            e,
        ),
{
    lemma_same_index(c, j, p0, p1, change);
    let index = c.indexes@[j].index;
    assert forall|x: IndexError| refuses(index, p1, change, spent, x) == refuses(
        index,
        p0,
        change,
        spent,
        x,
    ) by {}
    if refused_with(index, p1, change, spent, e) {
        let x = choose|x: IndexError| #[trigger]
            refuses(index, p1, change, spent, x) && e == index_message(x);
        assert(refuses(index, p0, change, spent, x));
    }
    if refused_with(index, p0, change, spent, e) {
        let x = choose|x: IndexError| #[trigger]
            refuses(index, p0, change, spent, x) && e == index_message(x);
        assert(refuses(index, p1, change, spent, x));
    }
}

pub proof fn lemma_half_done(
    c: &Catalog,
    j: int,
    p0: Pages,
    p1: Pages,
    p2: Pages,
    change: ChangeView,
)
    requires
        0 <= j < c.indexes@.len(),
        c.index_kept(p0, p1, j),
        change.half_done(c.indexes@[j].index, p1, p2),
    ensures
        change.half_done(c.indexes@[j].index, p0, p2),
{
    let index = c.indexes@[j].index;
    lemma_same_index(c, j, p0, p1, change);
    if forall|k: Seq<u8>| #[trigger] index.find(p2, k) == index.find(p1, k) {
        assert forall|k: Seq<u8>| #[trigger] index.find(p2, k) == index.find(p0, k) by {
            assert(c.indexes@[j].index.find(p1, k) == c.indexes@[j].index.find(p0, k));
        }
    } else {
        assert forall|k: Seq<u8>| #[trigger] index.find(p2, k) == change.found_without(
            index,
            p0,
            k,
        ) by {
            assert(change.found_without(index, p1, k) == change.found_without(index, p0, k));
        }
    }
}

/// The next index on the table was touched, and no other.
proof fn lemma_upkeep_step(
    c: &Catalog,
    oid: u32,
    p0: Pages,
    p1: Pages,
    p2: Pages,
    change: ChangeView,
    m: int,
    done: bool,
)
    requires
        ({
            let ps = index_positions(c, oid);
            &&& 0 <= m < ps.len()
            &&& forall|a: int|
                0 <= a < ps.len() ==> 0 <= #[trigger] ps[a] < c.indexes@.len() && c.indexes@[
                    ps[a]].table_oid == oid
            &&& forall|a: int, b: int| 0 <= a < b < ps.len() ==> #[trigger] ps[a] < #[trigger] ps[b]
            &&& forall|k: int|
                0 <= k < c.indexes@.len() && k != ps[m] ==> #[trigger] c.index_kept(p1, p2, k)
            &&& done ==> index_follows(c, ps[m], p1, p2, change)
        }),
        c.other_tables_kept(p0, p1, -1),
        c.other_tables_kept(p1, p2, -1),
        elsewhere_kept(c, oid, p0, p1),
        followed(c, oid, p0, p1, change, m, m),
    ensures
        c.other_tables_kept(p0, p2, -1),
        elsewhere_kept(c, oid, p0, p2),
        followed(c, oid, p0, p2, change, m, m + 1),
        done ==> followed(c, oid, p0, p2, change, m + 1, m + 1),
{
    let ps = index_positions(c, oid);
    assert forall|k: int| 0 <= k < c.tables@.len() && k != -1 implies #[trigger] c.rows(p2, k)
        == c.rows(p0, k) by {
        assert(c.rows(p1, k) == c.rows(p0, k));
    }
    assert forall|j: int|
        0 <= j < c.indexes@.len() && (#[trigger] c.indexes@[j]).table_oid != oid implies c.index_kept(
        p0,
        p2,
        j,
    ) by {
        assert(c.index_kept(p0, p1, j));
        assert(c.index_kept(p1, p2, j));
        lemma_kept_twice(c, j, p0, p1, p2);
    }
    assert forall|a: int| m + 1 <= a < ps.len() implies #[trigger] c.index_kept(p0, p2, ps[a]) by {
        assert(ps[m] < ps[a]);
        assert(c.index_kept(p0, p1, ps[a]));
        assert(c.index_kept(p1, p2, ps[a]));
        lemma_kept_twice(c, ps[a], p0, p1, p2);
    }
    assert forall|a: int| 0 <= a < m implies #[trigger] index_follows(c, ps[a], p0, p2, change) by {
        assert(ps[a] < ps[m]);
        assert(index_follows(c, ps[a], p0, p1, change));
        assert(c.index_kept(p1, p2, ps[a]));
        assert forall|k: Seq<u8>| #[trigger] c.indexes@[ps[a]].index.find(p2, k) == change.found(
            c.indexes@[ps[a]].index,
            p0,
            k,
        ) by {
            assert(c.indexes@[ps[a]].index.find(p1, k) == change.found(
                c.indexes@[ps[a]].index,
                p0,
                k,
            ));
        }
    }
    if done {
        assert(c.index_kept(p0, p1, ps[m]));
        lemma_same_index(c, ps[m], p0, p1, change);
        assert(index_follows(c, ps[m], p0, p2, change)) by {
            assert forall|k: Seq<u8>| #[trigger] c.indexes@[ps[m]].index.find(p2, k)
                == change.found(c.indexes@[ps[m]].index, p0, k) by {
                assert(change.found(c.indexes@[ps[m]].index, p1, k) == change.found(
                    c.indexes@[ps[m]].index,
                    p0,
                    k,
                ));
            }
        }
    }
}

pub proof fn lemma_kept_twice(c: &Catalog, j: int, p0: Pages, p1: Pages, p2: Pages)
    requires
        c.index_kept(p0, p1, j),
        c.index_kept(p1, p2, j),
    ensures
        c.index_kept(p0, p2, j),
{
    assert forall|k: Seq<u8>| #[trigger] c.indexes@[j].index.find(p2, k)
        == c.indexes@[j].index.find(p0, k) by {
        assert(c.indexes@[j].index.find(p1, k) == c.indexes@[j].index.find(p0, k));
    }
}

} // verus!
