//! The steps of a plan that change tables.
use vstd::bytes::{spec_u32_to_le_bytes, u32_to_le_bytes};
use vstd::prelude::*;

use crate::buffer_pool::BufferPoolManager;
use crate::catalog::registry::is_table;
use crate::catalog::schema::{Schema, SchemaView};
use crate::catalog::value::{int_bits, int_to_bits, Value};
use crate::catalog::{Catalog, CatalogError};
use crate::index::tree_model::Pages;
use crate::processor::expression::{
    computes, eval, failure, results, ExecutorError, Expression, FloatOp,
};
use crate::processor::plan::{DeletePlanNode, InsertPlanNode, UpdatePlanNode};
use crate::processor::stream::{
    all_fields, catalog_failure, catalog_message, clone_tuple, encode, encoded, fails, gives_tuple,
    heap_failure, heap_message, read_fields, row_view, rows_only, RowStream, RowView, StreamView,
};
use crate::processor::upkeep::{
    all_cover, change_fits, elsewhere_kept, followed, ids_spent, index_follows, index_positions,
    lemma_half_done, lemma_heap_changed, lemma_kept_twice, lemma_same_index, lemma_same_refusal,
    refused_with, upkeep, upkeep_done, upkeep_stopped, ChangeView, RowChange,
};
use crate::table_heap::{
    insert_error, row_deleted, RecordId, Row, TableHeap, Tuple,
};

verus! {

/// The rows of table `i` are `rows`, those of all other tables what they were, and indexes on
/// other tables find what they found.
pub open spec fn table_is(
    c: &Catalog,
    oid: u32,
    i: int,
    p0: Pages,
    p1: Pages,
    rows: Seq<Row>,
) -> bool {
    &&& c.wf(p1)
    &&& c.rows(p1, i) == rows
    &&& c.other_tables_kept(p0, p1, i)
    &&& elsewhere_kept(c, oid, p0, p1)
}

/// The table has the rows `rows`, and all its indexes followed the change.
pub open spec fn change_made(
    c: &Catalog,
    oid: u32,
    i: int,
    p0: Pages,
    p1: Pages,
    rows: Seq<Row>,
    change: ChangeView,
) -> bool {
    let ps = index_positions(c, oid);
    &&& table_is(c, oid, i, p0, p1, rows)
    &&& forall|a: int|
        0 <= a < ps.len() ==> change.accepted_by(c.indexes@[#[trigger] ps[a]].index, p0)
    &&& followed(c, oid, p0, p1, change, ps.len() as int, ps.len() as int)
}

/// The table has the rows `rows`, but the index at place `m` among its own refused the change:
/// the ones before it followed, the ones behind it did not.
pub open spec fn change_stopped(
    c: &Catalog,
    oid: u32,
    i: int,
    p0: Pages,
    p1: Pages,
    rows: Seq<Row>,
    change: ChangeView,
    spent: bool,
    m: int,
    e: Seq<char>,
) -> bool {
    let ps = index_positions(c, oid);
    &&& 0 <= m < ps.len()
    &&& table_is(c, oid, i, p0, p1, rows)
    &&& followed(c, oid, p0, p1, change, m, m + 1)
    &&& change.half_done(c.indexes@[ps[m]].index, p0, p1)
    &&& refused_with(c.indexes@[ps[m]].index, p0, change, spent, e)
}

/// A change to the rows of a table failed in one of its indexes.
pub open spec fn index_refused(
    c: &Catalog,
    oid: u32,
    i: int,
    p0: Pages,
    p1: Pages,
    rows: Seq<Row>,
    change: ChangeView,
    spent: bool,
    e: Seq<char>,
) -> bool {
    exists|m: int| #[trigger] change_stopped(c, oid, i, p0, p1, rows, change, spent, m, e)
}

/// The table changed first, then its indexes.
proof fn lemma_table_then_indexes(
    c: &Catalog,
    oid: u32,
    i: int,
    p0: Pages,
    pm: Pages,
    p1: Pages,
    change: ChangeView,
    res: Result<(), ExecutorError>,
    spent: bool,
)
    requires
        is_table(c.tables@, oid, i),
        c.wf(pm),
        c.other_tables_kept(p0, pm, i),
        forall|j: int| 0 <= j < c.indexes@.len() ==> #[trigger] c.index_kept(p0, pm, j),
        upkeep_done(c, oid, pm, p1, change, spent, res),
    ensures
        match res {
            Ok(_) => change_made(c, oid, i, p0, p1, c.rows(pm, i), change),
            Err(e) => index_refused(c, oid, i, p0, p1, c.rows(pm, i), change, spent, e.0@),
        },
{
    let ps = index_positions(c, oid);
    crate::catalog::registry::lemma_positions(c.indexes@, oid, true, c.indexes@.len() as int);
    assert forall|a: int| 0 <= a < ps.len() implies 0 <= #[trigger] ps[a] < c.indexes@.len() by {}
    if res is Ok {
        lemma_rebased(c, oid, i, p0, pm, p1, change, ps.len() as int, ps.len() as int);
        assert forall|a: int| 0 <= a < ps.len() implies change.accepted_by(
            c.indexes@[#[trigger] ps[a]].index,
            p0,
        ) by {
            assert(c.index_kept(p0, pm, ps[a]));
            lemma_same_index(c, ps[a], p0, pm, change);
            assert(change.accepted_by(c.indexes@[ps[a]].index, pm));
        }
    } else {
        let e = res->Err_0.0@;
        let m = choose|m: int| #[trigger] upkeep_stopped(c, oid, pm, p1, change, spent, m, e);
        lemma_rebased(c, oid, i, p0, pm, p1, change, m, m + 1);
        assert(c.index_kept(p0, pm, ps[m]));
        lemma_same_refusal(c, ps[m], p0, pm, change, spent, e);
        lemma_half_done(c, ps[m], p0, pm, p1, change);
        assert(change_stopped(c, oid, i, p0, p1, c.rows(pm, i), change, spent, m, e));
    }
}

proof fn lemma_rebased(
    c: &Catalog,
    oid: u32,
    i: int,
    p0: Pages,
    pm: Pages,
    p1: Pages,
    change: ChangeView,
    m: int,
    rest: int,
)
    requires
        is_table(c.tables@, oid, i),
        c.other_tables_kept(p0, pm, i),
        forall|j: int| 0 <= j < c.indexes@.len() ==> #[trigger] c.index_kept(p0, pm, j),
        c.wf(p1),
        c.other_tables_kept(pm, p1, -1),
        elsewhere_kept(c, oid, pm, p1),
        followed(c, oid, pm, p1, change, m, rest),
        0 <= m <= index_positions(c, oid).len(),
        0 <= rest,
    ensures
        table_is(c, oid, i, p0, p1, c.rows(pm, i)),
        followed(c, oid, p0, p1, change, m, rest),
{
    let ps = index_positions(c, oid);
    crate::catalog::registry::lemma_positions(c.indexes@, oid, true, c.indexes@.len() as int);
    assert forall|k: int| 0 <= k < c.tables@.len() && k != i implies #[trigger] c.rows(p1, k)
        == c.rows(p0, k) by {
        assert(c.rows(pm, k) == c.rows(p0, k));
    }
    assert(c.rows(p1, i) == c.rows(pm, i));
    assert forall|j: int|
        0 <= j < c.indexes@.len() && (#[trigger] c.indexes@[j]).table_oid != oid implies c.index_kept(
        p0,
        p1,
        j,
    ) by {
        assert(c.index_kept(p0, pm, j));
        lemma_kept_twice(c, j, p0, pm, p1);
    }
    assert forall|a: int| 0 <= a < m implies #[trigger] index_follows(c, ps[a], p0, p1, change) by {
        assert(0 <= ps[a] < c.indexes@.len());
        assert(c.index_kept(p0, pm, ps[a]));
        lemma_same_index(c, ps[a], p0, pm, change);
        assert(index_follows(c, ps[a], pm, p1, change));
        assert forall|k: Seq<u8>| #[trigger] c.indexes@[ps[a]].index.find(p1, k) == change.found(
            c.indexes@[ps[a]].index,
            p0,
            k,
        ) by {
            assert(change.found(c.indexes@[ps[a]].index, pm, k) == change.found(
                c.indexes@[ps[a]].index,
                p0,
                k,
            ));
        }
    }
    assert forall|a: int| rest <= a < ps.len() implies #[trigger] c.index_kept(p0, p1, ps[a]) by {
        assert(0 <= ps[a] < c.indexes@.len());
        assert(c.index_kept(p0, pm, ps[a]));
        assert(c.index_kept(pm, p1, ps[a]));
        lemma_kept_twice(c, ps[a], p0, pm, p1);
    }
}

/// What the pool keeps through a change to a table.
pub open spec fn pool_kept(a: &BufferPoolManager, b: &BufferPoolManager) -> bool {
    &&& b.wf()
    &&& b.ready()
    &&& b.ids_fresh()
    &&& forall|q: usize| #[trigger] b.pins(q) == a.pins(q)
}

/// The change of a row that comes.
pub open spec fn arrival(data: Seq<u8>, rid: RecordId) -> ChangeView {
    ChangeView { removed: None, added: Some((data, rid)) }
}

/// How a row fails to be stored: an index does not cover it, the table has no room for it, or an
/// index refuses it once it is stored.
pub open spec fn arrival_refused(
    c: &Catalog,
    oid: u32,
    i: int,
    p0: Pages,
    p1: Pages,
    data: Seq<u8>,
    e: Seq<char>,
    spent: bool,
) -> bool {
    let heap = c.tables@[i].info.heap;
    let rows = c.rows(p0, i).push(Row { deleted: false, data });
    let change = arrival(data, heap.rid(c.rows(p0, i).len() as int));
    if !all_cover(c, oid, change) {
        p1 == p0 && e == catalog_message(CatalogError::TupleSchemaMismatch)
    } else if !heap.fits(p0, data.len() as int) {
        p1 == p0 && e == heap_message(insert_error(p0[heap.last_page_id], data.len() as int))
    } else {
        index_refused(c, oid, i, p0, p1, rows, change, spent, e)
    }
}

/// Stores a row and enters it into all indexes on the table.
pub(crate) fn insert_row(
    c: &Catalog,
    oid: u32,
    heap: &TableHeap,
    bpm: &mut BufferPoolManager,
    tuple: &Tuple,
    Ghost(i): Ghost<int>,
) -> (res: Result<RecordId, ExecutorError>)
    requires
        old(bpm).wf(),
        old(bpm).ready(),
        old(bpm).ids_fresh(),
        c.wf(old(bpm).pages()),
        is_table(c.tables@, oid, i),
        *heap == c.tables@[i].info.heap,
    ensures
        pool_kept(old(bpm), final(bpm)),
        ({
            let (p0, p1) = (old(bpm).pages(), final(bpm).pages());
            let n = c.rows(p0, i).len() as int;
            let rows = c.rows(p0, i).push(Row { deleted: false, data: tuple.data@ });
            let change = arrival(tuple.data@, heap.rid(n));
            match res {
                Ok(rid) => {
                    &&& rid == heap.rid(n)
                    &&& all_cover(c, oid, change)
                    &&& heap.fits(p0, tuple.data@.len() as int)
                    &&& change_made(c, oid, i, p0, p1, rows, change)
                },
                Err(e) => arrival_refused(c, oid, i, p0, p1, tuple.data@, e.0@, ids_spent(final(bpm))),
            }
        }),
{
    let ghost p0 = bpm.pages();
    let ghost n = c.rows(p0, i).len() as int;
    assert(c.tables@[i].info.heap.wf(p0));
    let probe = RowChange {
        removed: None,
        added: Some((clone_tuple(tuple), RecordId::reserved())),
    };
    let covered: bool = change_fits(c, oid, &probe);
    proof {
        lemma_cover_same(c, oid, probe@, arrival(tuple.data@, heap.rid(n)));
    }
    if !covered {
        return Err(catalog_failure(CatalogError::TupleSchemaMismatch));
    }
    let rid = match heap.insert(bpm, tuple) {
        Ok(rid) => rid,
        Err(e) => { return Err(heap_failure(e)); },
    };
    let ghost pm = bpm.pages();
    proof {
        lemma_heap_changed(*c, p0, pm, i);
    }
    let change = RowChange { removed: None, added: Some((clone_tuple(tuple), rid)) };
    assert(change@ == arrival(tuple.data@, rid));
    let outcome = upkeep(c, oid, bpm, &change, Ghost(i));
    proof {
        lemma_table_then_indexes(c, oid, i, p0, pm, bpm.pages(), change@, outcome, ids_spent(bpm));
    }
    match outcome {
        Ok(_) => Ok(rid),
        Err(e) => Err(e),
    }
}

/// Whether indexes cover a change depends on its rows alone.
proof fn lemma_cover_same(c: &Catalog, oid: u32, a: ChangeView, b: ChangeView)
    requires
        a.removed == b.removed,
        a.added is Some == b.added is Some,
        a.added matches Some(x) ==> b.added matches Some(y) && x.0 == y.0,
    ensures
        all_cover(c, oid, a) == all_cover(c, oid, b),
{
    let ps = index_positions(c, oid);
    if all_cover(c, oid, a) {
        assert forall|k: int| 0 <= k < ps.len() implies b.covered_by(
            c.indexes@[#[trigger] ps[k]].index,
        ) by {
            assert(a.covered_by(c.indexes@[ps[k]].index));
        }
    }
    if all_cover(c, oid, b) {
        assert forall|k: int| 0 <= k < ps.len() implies a.covered_by(
            c.indexes@[#[trigger] ps[k]].index,
        ) by {
            assert(b.covered_by(c.indexes@[ps[k]].index));
        }
    }
}

/// The change of a row that goes.
pub open spec fn departure(data: Seq<u8>) -> ChangeView {
    ChangeView { removed: Some(data), added: None }
}

/// Deletes a row and takes it out of all indexes on the table.
pub(crate) fn delete_row(
    c: &Catalog,
    oid: u32,
    heap: &TableHeap,
    bpm: &mut BufferPoolManager,
    tuple: &Tuple,
    rid: &RecordId,
    Ghost(i): Ghost<int>,
) -> (res: Result<(), ExecutorError>)
    requires
        old(bpm).wf(),
        old(bpm).ready(),
        old(bpm).ids_fresh(),
        c.wf(old(bpm).pages()),
        is_table(c.tables@, oid, i),
        *heap == c.tables@[i].info.heap,
    ensures
        pool_kept(old(bpm), final(bpm)),
        ({
            let (p0, p1) = (old(bpm).pages(), final(bpm).pages());
            let rows = row_deleted(c.rows(p0, i), rid.slot_id as int);
            let change = departure(tuple.data@);
            match res {
                Ok(_) => {
                    &&& all_cover(c, oid, change)
                    &&& heap.has_slot(p0, *rid)
                    &&& !c.rows(p0, i)[rid.slot_id as int].deleted
                    &&& change_made(c, oid, i, p0, p1, rows, change)
                },
                Err(e) => if !all_cover(c, oid, change) {
                    p1 == p0 && e.0@ == catalog_message(CatalogError::TupleSchemaMismatch)
                } else if !heap.has_slot(p0, *rid) {
                    p1 == p0 && e.0@ == "record not found"@
                } else if c.rows(p0, i)[rid.slot_id as int].deleted {
                    p1 == p0 && e.0@ == heap_message("record already deleted"@)
                } else {
                    index_refused(c, oid, i, p0, p1, rows, change, ids_spent(final(bpm)), e.0@)
                },
            }
        }),
{
    let ghost p0 = bpm.pages();
    assert(c.tables@[i].info.heap.wf(p0));
    let change = RowChange { removed: Some(clone_tuple(tuple)), added: None };
    assert(change@ == departure(tuple.data@));
    if !change_fits(c, oid, &change) {
        return Err(catalog_failure(CatalogError::TupleSchemaMismatch));
    }
    if !heap.has(bpm, rid) {
        return Err(failure("record not found"));
    }
    match heap.delete(bpm, rid) {
        Ok(_) => {},
        Err(e) => { return Err(heap_failure(e)); },
    }
    let ghost pm = bpm.pages();
    proof {
        assert(pm == p0.insert(heap.last_page_id, pm[heap.last_page_id]));
        lemma_heap_changed(*c, p0, pm, i);
    }
    let outcome = upkeep(c, oid, bpm, &change, Ghost(i));
    proof {
        lemma_table_then_indexes(c, oid, i, p0, pm, bpm.pages(), change@, outcome, ids_spent(bpm));
    }
    outcome
}

/// The change of a row that makes way for another one.
pub open spec fn exchange(old_data: Seq<u8>, data: Seq<u8>, rid: RecordId) -> ChangeView {
    ChangeView { removed: Some(old_data), added: Some((data, rid)) }
}

/// The old row was deleted and there was no room for the new one. No index has changed.
pub open spec fn row_lost(
    c: &Catalog,
    oid: u32,
    i: int,
    p0: Pages,
    p1: Pages,
    rows: Seq<Row>,
    data: Seq<u8>,
    e: Seq<char>,
) -> bool {
    &&& table_is(c, oid, i, p0, p1, rows)
    &&& forall|j: int| 0 <= j < c.indexes@.len() ==> #[trigger] c.index_kept(p0, p1, j)
    &&& e == heap_message(
        insert_error(p1[c.tables@[i].info.heap.last_page_id], data.len() as int),
    )
}

/// Replaces a row by another one, in the table and in all indexes on it. The new row gets a
/// place of its own.
pub(crate) fn update_row(
    c: &Catalog,
    oid: u32,
    heap: &TableHeap,
    bpm: &mut BufferPoolManager,
    tuple: &Tuple,
    rid: &RecordId,
    new: &Tuple,
    Ghost(i): Ghost<int>,
) -> (res: Result<RecordId, ExecutorError>)
    requires
        old(bpm).wf(),
        old(bpm).ready(),
        old(bpm).ids_fresh(),
        c.wf(old(bpm).pages()),
        is_table(c.tables@, oid, i),
        *heap == c.tables@[i].info.heap,
    ensures
        pool_kept(old(bpm), final(bpm)),
        ({
            let (p0, p1) = (old(bpm).pages(), final(bpm).pages());
            let n = c.rows(p0, i).len() as int;
            let deleted = row_deleted(c.rows(p0, i), rid.slot_id as int);
            let rows = deleted.push(Row { deleted: false, data: new.data@ });
            let change = exchange(tuple.data@, new.data@, heap.rid(n));
            match res {
                Ok(r) => {
                    &&& r == heap.rid(n)
                    &&& all_cover(c, oid, change)
                    &&& heap.has_slot(p0, *rid)
                    &&& !c.rows(p0, i)[rid.slot_id as int].deleted
                    &&& heap.fits(p0, new.data@.len() as int)
                    &&& change_made(c, oid, i, p0, p1, rows, change)
                },
                Err(e) => if !all_cover(c, oid, change) {
                    p1 == p0 && e.0@ == catalog_message(CatalogError::TupleSchemaMismatch)
                } else if !heap.has_slot(p0, *rid) {
                    p1 == p0 && e.0@ == "record not found"@
                } else if c.rows(p0, i)[rid.slot_id as int].deleted {
                    p1 == p0 && e.0@ == heap_message("record already deleted"@)
                } else if !heap.fits(p0, new.data@.len() as int) {
                    row_lost(c, oid, i, p0, p1, deleted, new.data@, e.0@)
                } else {
                    index_refused(c, oid, i, p0, p1, rows, change, ids_spent(final(bpm)), e.0@)
                },
            }
        }),
{
    let ghost p0 = bpm.pages();
    let ghost n = c.rows(p0, i).len() as int;
    assert(c.tables@[i].info.heap.wf(p0));
    let probe = RowChange {
        removed: Some(clone_tuple(tuple)),
        added: Some((clone_tuple(new), RecordId::reserved())),
    };
    let covered: bool = change_fits(c, oid, &probe);
    proof {
        lemma_cover_same(c, oid, probe@, exchange(tuple.data@, new.data@, heap.rid(n)));
    }
    if !covered {
        return Err(catalog_failure(CatalogError::TupleSchemaMismatch));
    }
    if !heap.has(bpm, rid) {
        return Err(failure("record not found"));
    }
    let outcome = heap.update(bpm, *rid, clone_tuple(new));
    let ghost pm = bpm.pages();
    proof {
        assert(pm == p0.insert(heap.last_page_id, pm[heap.last_page_id]));
        lemma_heap_changed(*c, p0, pm, i);
    }
    let new_rid = match outcome {
        Ok((r, _)) => r,
        Err(e) => {
            proof {
                assert forall|j: int|
                    0 <= j < c.indexes@.len() && (#[trigger] c.indexes@[j]).table_oid
                        != oid implies c.index_kept(p0, pm, j) by {}
            }
            return Err(heap_failure(e));
        },
    };
    let change = RowChange {
        removed: Some(clone_tuple(tuple)),
        added: Some((clone_tuple(new), new_rid)),
    };
    assert(change@ == exchange(tuple.data@, new.data@, new_rid));
    let followed_up = upkeep(c, oid, bpm, &change, Ghost(i));
    proof {
        lemma_table_then_indexes(c, oid, i, p0, pm, bpm.pages(), change@, followed_up, ids_spent(bpm));
    }
    match followed_up {
        Ok(_) => Ok(new_rid),
        Err(e) => Err(e),
    }
}

/// What an index holds for `k` once the first `n` rows were stored behind the `base` rows that
/// were there.
pub open spec fn found_after_rows(
    c: &Catalog,
    i: int,
    j: int,
    p0: Pages,
    rows: Seq<RowView>,
    n: int,
    k: Seq<u8>,
) -> Option<RecordId>
    decreases n,
{
    let index = c.indexes@[j].index;
    if n <= 0 {
        index.find(p0, k)
    } else {
        let before = found_after_rows(c, i, j, p0, rows, n - 1, k);
        let data = rows[n - 1].0;
        if index.null_key(data) {
            before
        } else {
            crate::index::tree_insert::with_key(
                before,
                index.key_of(data),
                Some(c.tables@[i].info.heap.rid(c.rows(p0, i).len() + n - 1)),
                k,
            )
        }
    }
}

/// The table as the first `n` rows make it.
pub open spec fn rows_with(c: &Catalog, i: int, p0: Pages, rows: Seq<RowView>, n: int) -> Seq<Row> {
    c.rows(p0, i) + Seq::new(n as nat, |x: int| Row { deleted: false, data: rows[x].0 })
}

/// When the rows before row `x` were stored, index `j` held no entry with the key of that row.
pub open spec fn key_fresh(
    c: &Catalog,
    i: int,
    j: int,
    p0: Pages,
    rows: Seq<RowView>,
    x: int,
) -> bool {
    let index = c.indexes@[j].index;
    !index.null_key(rows[x].0) ==> found_after_rows(
        c,
        i,
        j,
        p0,
        rows,
        x,
        index.key_of(rows[x].0),
    ) is None
}

/// The first `n` rows were stored and entered into all indexes on the table.
pub open spec fn rows_filed(
    c: &Catalog,
    oid: u32,
    i: int,
    p0: Pages,
    p1: Pages,
    rows: Seq<RowView>,
    n: int,
) -> bool {
    let ps = index_positions(c, oid);
    &&& table_is(c, oid, i, p0, p1, rows_with(c, i, p0, rows, n))
    &&& forall|a: int, k: Seq<u8>|
        0 <= a < ps.len() ==> (#[trigger] c.indexes@[ps[a]].index.find(p1, k))
            == found_after_rows(c, i, ps[a], p0, rows, n, k)
    &&& forall|a: int, x: int|
        0 <= a < ps.len() && 0 <= x < n ==> #[trigger] key_fresh(c, i, ps[a], p0, rows, x)
}

proof fn lemma_row_filed(
    c: &Catalog,
    oid: u32,
    i: int,
    p0: Pages,
    p1: Pages,
    p2: Pages,
    rows: Seq<RowView>,
    n: int,
)
    requires
        0 <= n < rows.len(),
        is_table(c.tables@, oid, i),
        rows_filed(c, oid, i, p0, p1, rows, n),
        ({
            let m = c.rows(p1, i).len() as int;
            change_made(
                c,
                oid,
                i,
                p1,
                p2,
                c.rows(p1, i).push(Row { deleted: false, data: rows[n].0 }),
                arrival(rows[n].0, c.tables@[i].info.heap.rid(m)),
            )
        }),
    ensures
        rows_filed(c, oid, i, p0, p2, rows, n + 1),
{
    let ps = index_positions(c, oid);
    let m = c.rows(p1, i).len() as int;
    let change = arrival(rows[n].0, c.tables@[i].info.heap.rid(m));
    assert(c.rows(p2, i) =~= rows_with(c, i, p0, rows, n + 1));
    assert forall|k: int| 0 <= k < c.tables@.len() && k != i implies #[trigger] c.rows(p2, k)
        == c.rows(p0, k) by {
        assert(c.rows(p1, k) == c.rows(p0, k));
    }
    assert forall|j: int|
        0 <= j < c.indexes@.len() && (#[trigger] c.indexes@[j]).table_oid != oid implies c.index_kept(
        p0,
        p2,
        j,
    ) by {
        assert(c.index_kept(p0, p1, j));
        assert(c.index_kept(p1, p2, j));
        lemma_kept_twice(c, j, p0, p1, p2);
    }
    assert forall|a: int, k: Seq<u8>| 0 <= a < ps.len() implies (#[trigger] c.indexes@[
        ps[a]].index.find(p2, k)) == found_after_rows(c, i, ps[a], p0, rows, n + 1, k) by {
        assert(index_follows(c, ps[a], p1, p2, change));
        assert(c.indexes@[ps[a]].index.find(p1, k) == found_after_rows(
            c,
            i,
            ps[a],
            p0,
            rows,
            n,
            k,
        ));
    }
    assert forall|a: int, x: int| 0 <= a < ps.len() && 0 <= x < n + 1 implies #[trigger] key_fresh(
        c,
        i,
        ps[a],
        p0,
        rows,
        x,
    ) by {
        if x == n {
            let index = c.indexes@[ps[a]].index;
            assert(change.accepted_by(c.indexes@[ps[a]].index, p1));
            let key = index.key_of(rows[n].0);
            assert(c.indexes@[ps[a]].index.find(p1, key) == found_after_rows(
                c,
                i,
                ps[a],
                p0,
                rows,
                n,
                key,
            ));
        } else {
            assert(key_fresh(c, i, ps[a], p0, rows, x));
        }
    }
}

/// The row that tells how many rows were inserted: the number in four bytes, little-endian.
pub open spec fn count_row(n: int) -> Seq<u8> {
    spec_u32_to_le_bytes(int_bits(n as i32))
}

/// Some row could not be stored; those before it were.
pub open spec fn filing_stopped(
    c: &Catalog,
    oid: u32,
    i: int,
    p0: Pages,
    p1: Pages,
    rows: Seq<RowView>,
    e: Seq<char>,
    spent: bool,
) -> bool {
    exists|m: int, pm: Pages|
        0 <= m < rows.len() && #[trigger] rows_filed(c, oid, i, p0, pm, rows, m)
            && arrival_refused(c, oid, i, pm, p1, rows[m].0, e, spent)
}

/// How inserting the rows of a stream comes out: one row that tells how many they were, or an
/// error.
pub open spec fn insert_outcome(
    c: &Catalog,
    oid: u32,
    p0: Pages,
    p1: Pages,
    child: StreamView,
    out: StreamView,
    spent: bool,
) -> bool {
    let i = c.table_pos(oid);
    let n = child.rows.len() as int;
    if !c.has_table(oid) {
        p1 == p0 && out == fails(catalog_message(CatalogError::TableDoesNotExist))
    } else {
        match out.error {
            None => {
                &&& child.error is None
                &&& n <= i32::MAX
                &&& rows_filed(c, oid, i, p0, p1, child.rows, n)
                &&& out.rows == seq![(count_row(n), RecordId::no_record())]
            },
            Some(e) => {
                &&& out.rows.len() == 0
                &&& {
                    ||| filing_stopped(c, oid, i, p0, p1, child.rows, e, spent)
                    ||| rows_filed(c, oid, i, p0, p1, child.rows, n) && child.error == Some(e)
                    ||| rows_filed(c, oid, i, p0, p1, child.rows, n) && n > i32::MAX && e
                        == "integer overflow"@
                }
            },
        }
    }
}

/// One row, or an error, as a stream.
pub open spec fn single(res: Result<Option<(Tuple, RecordId)>, ExecutorError>) -> StreamView {
    match res {
        Ok(Some(row)) => rows_only(seq![row_view(row)]),
        Ok(None) => rows_only(Seq::empty()),
        Err(e) => fails(e.0@),
    }
}

/// Inserts the rows of its child into a table.
pub struct InsertExecutor<'a> {
    pub plan: &'a InsertPlanNode,
    pub child: RowStream,
    pub opened: bool,
    pub done: bool,
}

impl<'a> InsertExecutor<'a> {
    pub fn new(plan: &'a InsertPlanNode, child: RowStream) -> (res: Self)
        ensures
            res.plan == plan,
            res.child == child,
            !res.opened,
            !res.done,
    {
        InsertExecutor { plan, child, opened: false, done: false }
    }

    pub fn open(&mut self, catalog: &Catalog) -> (res: Result<(), ExecutorError>)
        requires
            catalog.valid(),
        ensures
            final(self).plan == old(self).plan,
            final(self).child == old(self).child,
            final(self).done == old(self).done,
            match res {
                Ok(_) => catalog.has_table(old(self).plan.table_oid) && final(self).opened,
                Err(e) => {
                    &&& !catalog.has_table(old(self).plan.table_oid)
                    &&& e.0@ == catalog_message(CatalogError::TableDoesNotExist)
                },
            },
    {
        match catalog.get_table(self.plan.table_oid) {
            Ok(_) => {
                self.opened = true;
                Ok(())
            },
            Err(e) => Err(catalog_failure(e)),
        }
    }

    /// Inserts all rows of the child at the first call and gives one row that tells how many.
    pub fn next(&mut self, catalog: &Catalog, bpm: &mut BufferPoolManager) -> (res: Result<
        Option<(Tuple, RecordId)>,
        ExecutorError,
    >)
        requires
            old(bpm).wf(),
            old(bpm).ready(),
            old(bpm).ids_fresh(),
            catalog.wf(old(bpm).pages()),
        ensures
            pool_kept(old(bpm), final(bpm)),
            final(self).plan == old(self).plan,
            final(self).opened == old(self).opened,
            if old(self).done {
                &&& final(bpm).pages() == old(bpm).pages()
                &&& res matches Err(e) && e.0@ == "already executed"@
            } else if !old(self).opened {
                &&& final(bpm).pages() == old(bpm).pages()
                &&& res matches Err(e) && e.0@ == "InsertExecutor::next called before open"@
            } else {
                &&& final(self).done == (res is Ok)
                &&& insert_outcome(
                    catalog,
                    old(self).plan.table_oid,
                    old(bpm).pages(),
                    final(bpm).pages(),
                    old(self).child@,
                    single(res),
                    ids_spent(final(bpm)),
                )
            },
    {
        if self.done {
            return Err(failure("already executed"));
        }
        if !self.opened {
            return Err(failure("InsertExecutor::next called before open"));
        }
        let oid: u32 = self.plan.table_oid;
        let table = match catalog.get_table(oid) {
            Ok(t) => t,
            Err(e) => { return Err(catalog_failure(e)); },
        };
        let ghost i = catalog.table_pos(oid);
        let ghost p0 = bpm.pages();
        let ghost rows = self.child@.rows;
        let ghost end = self.child@.error;
        let mut count: usize = 0;
        proof {
            assert(is_table(catalog.tables@, oid, i));
            lemma_nothing_filed(catalog, oid, i, p0, rows);
            assert(rows =~= rows.subrange(0, rows.len() as int));
        }
        loop
            invariant_except_break
                count <= rows.len(),
                self.child@.rows == rows.subrange(count as int, rows.len() as int),
                self.child@.error == end,
                rows_filed(catalog, oid, i, p0, bpm.pages(), rows, count as int),
            invariant
                pool_kept(old(bpm), bpm),
                p0 == old(bpm).pages(),
                self.plan == old(self).plan,
                self.opened == old(self).opened,
                self.done == old(self).done,
                !old(self).done,
                old(self).opened,
                catalog.has_table(oid),
                oid == self.plan.table_oid,
                i == catalog.table_pos(oid),
                is_table(catalog.tables@, oid, i),
                *table == catalog.tables@[i].info,
                rows == old(self).child@.rows,
                end == old(self).child@.error,
            ensures
                count == rows.len(),
                end is None,
                rows_filed(catalog, oid, i, p0, bpm.pages(), rows, count as int),
            decreases rows.len() - count,
        {
            let row = match self.child.next() {
                Ok(Some(row)) => row,
                Ok(None) => {
                    break ;
                },
                Err(e) => { return Err(e); },
            };
            let ghost p1 = bpm.pages();
            assert(row_view(row) == rows[count as int]);
            match insert_row(catalog, oid, &table.heap, bpm, &row.0, Ghost(i)) {
                Ok(_) => {
                    proof {
                        lemma_row_filed(
                            catalog,
                            oid,
                            i,
                            p0,
                            p1,
                            bpm.pages(),
                            rows,
                            count as int,
                        );
                        assert(rows.subrange(count as int, rows.len() as int).drop_first()
                            =~= rows.subrange(count + 1, rows.len() as int));
                    }
                },
                Err(e) => {
                    assert(filing_stopped(catalog, oid, i, p0, bpm.pages(), rows, e.0@, ids_spent(bpm)));
                    return Err(e);
                },
            }
            count = count + 1;
        }
        if count > i32::MAX as usize {
            return Err(failure("integer overflow"));
        }
        self.done = true;
        let data = u32_to_le_bytes(int_to_bits(count as i32));
        Ok(Some((Tuple { data }, RecordId::reserved())))
    }

    pub fn schema(&self) -> (res: &Schema)
        ensures
            res == self.plan.schema,
    {
        &self.plan.schema
    }
}

proof fn lemma_nothing_filed(c: &Catalog, oid: u32, i: int, p0: Pages, rows: Seq<RowView>)
    requires
        c.wf(p0),
    ensures
        rows_filed(c, oid, i, p0, p0, rows, 0),
{
    assert(rows_with(c, i, p0, rows, 0) =~= c.rows(p0, i));
}

/// The values of a row after the first `n` assignments, each evaluated on the row as it was.
pub open spec fn assigned(
    fl: spec_fn(FloatOp, u32, u32) -> u32,
    targets: Seq<(u32, Expression)>,
    data: Seq<u8>,
    s: SchemaView,
    values: Seq<Option<Value>>,
    n: int,
) -> Result<Seq<Option<Value>>, Seq<char>>
    decreases n,
{
    if n <= 0 {
        Ok(values)
    } else {
        match assigned(fl, targets, data, s, values, n - 1) {
            Err(e) => Err(e),
            Ok(before) => match eval(fl, targets[n - 1].1, data, s) {
                Err(e) => Err(e),
                Ok(v) => if targets[n - 1].0 < before.len() {
                    Ok(before.update(targets[n - 1].0 as int, v))
                } else {
                    Err("column index out of range"@)
                },
            },
        }
    }
}

/// The tuple that takes the place of another one.
pub open spec fn updated(
    fl: spec_fn(FloatOp, u32, u32) -> u32,
    targets: Seq<(u32, Expression)>,
    data: Seq<u8>,
    s: SchemaView,
) -> Result<Seq<u8>, Seq<char>> {
    match all_fields(s, data) {
        Err(e) => Err(e),
        Ok(values) => match assigned(fl, targets, data, s, values, targets.len() as int) {
            Err(e) => Err(e),
            Ok(new) => encoded(s, new),
        },
    }
}

proof fn lemma_assigned_fails(
    fl: spec_fn(FloatOp, u32, u32) -> u32,
    targets: Seq<(u32, Expression)>,
    data: Seq<u8>,
    s: SchemaView,
    values: Seq<Option<Value>>,
    m: int,
    n: int,
)
    requires
        0 <= m <= n,
        assigned(fl, targets, data, s, values, m) is Err,
    ensures
        assigned(fl, targets, data, s, values, n) == assigned(fl, targets, data, s, values, m),
    decreases n,
{
    if m < n {
        lemma_assigned_fails(fl, targets, data, s, values, m, n - 1);
    }
}

/// Updates the rows of its child.
pub struct UpdateExecutor<'a> {
    pub plan: &'a UpdatePlanNode,
    pub child: RowStream,
    pub opened: bool,
}

/// The stream without its first row.
pub open spec fn rest(s: StreamView) -> StreamView {
    StreamView { rows: s.rows.drop_first(), error: s.error }
}

impl<'a> UpdateExecutor<'a> {
    pub fn new(plan: &'a UpdatePlanNode, child: RowStream) -> (res: Self)
        ensures
            res.plan == plan,
            res.child == child,
            !res.opened,
    {
        UpdateExecutor { plan, child, opened: false }
    }

    pub fn open(&mut self, catalog: &Catalog) -> (res: Result<(), ExecutorError>)
        requires
            catalog.valid(),
        ensures
            final(self).plan == old(self).plan,
            final(self).child == old(self).child,
            match res {
                Ok(_) => catalog.has_table(old(self).plan.table_oid) && final(self).opened,
                Err(e) => {
                    &&& !catalog.has_table(old(self).plan.table_oid)
                    &&& e.0@ == catalog_message(CatalogError::TableDoesNotExist)
                },
            },
    {
        match catalog.get_table(self.plan.table_oid) {
            Ok(_) => {
                self.opened = true;
                Ok(())
            },
            Err(e) => Err(catalog_failure(e)),
        }
    }

    /// The tuple that takes the place of `tuple`.
    fn rewrite<F: Fn(FloatOp, u32, u32) -> u32>(&self, tuple: &Tuple, fl: &F) -> (res: Result<
        Tuple,
        ExecutorError,
    >)
        requires
            computes(*fl),
            self.plan.schema@.wf(),
        ensures
            gives_tuple(
                res,
                updated(results(*fl), self.plan.target_exprs@, tuple.data@, self.plan.schema@),
            ),
    {
        let ghost (targets, s) = (self.plan.target_exprs@, self.plan.schema@);
        let mut new_values: Vec<Option<Value>> = Vec::new();
        match read_fields(&self.plan.schema, tuple, &mut new_values) {
            Ok(_) => {},
            Err(e) => { return Err(e); },
        }
        let ghost values = new_values@;
        assert(all_fields(s, tuple.data@)->Ok_0 =~= values);
        let mut n: usize = 0;
        while n < self.plan.target_exprs.len()
            invariant
                n <= self.plan.target_exprs@.len(),
                computes(*fl),
                targets == self.plan.target_exprs@,
                s == self.plan.schema@,
                all_fields(s, tuple.data@) == Ok::<Seq<Option<Value>>, Seq<char>>(values),
                assigned(results(*fl), targets, tuple.data@, s, values, n as int) == Ok::<
                    Seq<Option<Value>>,
                    Seq<char>,
                >(new_values@),
            decreases self.plan.target_exprs@.len() - n,
        {
            let idx: usize = self.plan.target_exprs[n].0 as usize;
            match self.plan.target_exprs[n].1.evaluate(tuple, &self.plan.schema, fl) {
                Ok(v) => {
                    if idx >= new_values.len() {
                        proof {
                            lemma_assigned_fails(
                                results(*fl),
                                targets,
                                tuple.data@,
                                s,
                                values,
                                n as int + 1,
                                targets.len() as int,
                            );
                        }
                        return Err(failure("column index out of range"));
                    }
                    new_values.set(idx, v);
                },
                Err(e) => {
                    proof {
                        lemma_assigned_fails(
                            results(*fl),
                            targets,
                            tuple.data@,
                            s,
                            values,
                            n as int + 1,
                            targets.len() as int,
                        );
                    }
                    return Err(e);
                },
            }
            n += 1;
        }
        encode(&self.plan.schema, &new_values)
    }

    /// Updates the next row of the child and gives it as it is now.
    pub fn next<F: Fn(FloatOp, u32, u32) -> u32>(
        &mut self,
        catalog: &Catalog,
        bpm: &mut BufferPoolManager,
        fl: &F,
    ) -> (res: Result<Option<(Tuple, RecordId)>, ExecutorError>)
        requires
            computes(*fl),
            old(bpm).wf(),
            old(bpm).ready(),
            old(bpm).ids_fresh(),
            catalog.wf(old(bpm).pages()),
            old(self).plan.schema@.wf(),
        ensures
            pool_kept(old(bpm), final(bpm)),
            final(self).plan == old(self).plan,
            final(self).opened == old(self).opened,
            ({
                let (p0, p1) = (old(bpm).pages(), final(bpm).pages());
                let oid = old(self).plan.table_oid;
                let child = old(self).child@;
                if !old(self).opened {
                    &&& p1 == p0
                    &&& res matches Err(e) && e.0@ == "UpdateExecutor::next called before open"@
                } else if !catalog.has_table(oid) {
                    &&& p1 == p0
                    &&& res matches Err(e) && e.0@ == catalog_message(
                        CatalogError::TableDoesNotExist,
                    )
                } else if child.rows.len() == 0 {
                    &&& p1 == p0
                    &&& match child.error {
                        Some(m) => res matches Err(e) && e.0@ == m,
                        None => res matches Ok(None),
                    }
                } else {
                    &&& final(self).child@ == rest(child)
                    &&& update_outcome(
                        catalog,
                        oid,
                        catalog.table_pos(oid),
                        p0,
                        p1,
                        child.rows[0],
                        updated(
                            results(*fl),
                            old(self).plan.target_exprs@,
                            child.rows[0].0,
                            old(self).plan.schema@,
                        ),
                        res,
                        ids_spent(final(bpm)),
                    )
                }
            }),
    {
        if !self.opened {
            return Err(failure("UpdateExecutor::next called before open"));
        }
        let oid: u32 = self.plan.table_oid;
        let table = match catalog.get_table(oid) {
            Ok(t) => t,
            Err(e) => { return Err(catalog_failure(e)); },
        };
        let ghost i = catalog.table_pos(oid);
        assert(is_table(catalog.tables@, oid, i));
        let (tuple, rid) = match self.child.next() {
            Ok(Some(row)) => row,
            Ok(None) => { return Ok(None); },
            Err(e) => { return Err(e); },
        };
        let new_tuple = match self.rewrite(&tuple, fl) {
            Ok(t) => t,
            Err(e) => { return Err(e); },
        };
        match update_row(
            catalog,
            oid,
            &table.heap,
            bpm,
            &tuple,
            &rid,
            &new_tuple,
            Ghost(i),
        ) {
            Ok(new_rid) => Ok(Some((new_tuple, new_rid))),
            Err(e) => Err(e),
        }
    }

    pub fn schema(&self) -> (res: &Schema)
        ensures
            res == self.plan.schema,
    {
        &self.plan.schema
    }
}

/// A row was replaced by `new` and is given as it is now.
pub open spec fn update_made(
    c: &Catalog,
    oid: u32,
    i: int,
    p0: Pages,
    p1: Pages,
    row: RowView,
    new: Result<Seq<u8>, Seq<char>>,
    given: RowView,
) -> bool {
    let heap = c.tables@[i].info.heap;
    let slot = row.1.slot_id as int;
    let place = heap.rid(c.rows(p0, i).len() as int);
    let rows = row_deleted(c.rows(p0, i), slot).push(Row { deleted: false, data: given.0 });
    &&& new == Ok::<Seq<u8>, Seq<char>>(given.0)
    &&& given.1 == place
    &&& heap.has_slot(p0, row.1) && !c.rows(p0, i)[slot].deleted
    &&& change_made(c, oid, i, p0, p1, rows, exchange(row.0, given.0, place))
}

/// A row was not replaced by `new`, and why.
pub open spec fn update_refused(
    c: &Catalog,
    oid: u32,
    i: int,
    p0: Pages,
    p1: Pages,
    row: RowView,
    new: Result<Seq<u8>, Seq<char>>,
    e: Seq<char>,
    spent: bool,
) -> bool {
    let heap = c.tables@[i].info.heap;
    let slot = row.1.slot_id as int;
    match new {
        Err(m) => p1 == p0 && e == m,
        Ok(data) => {
            let place = heap.rid(c.rows(p0, i).len() as int);
            let deleted = row_deleted(c.rows(p0, i), slot);
            let rows = deleted.push(Row { deleted: false, data });
            let change = exchange(row.0, data, place);
            if !all_cover(c, oid, change) {
                p1 == p0 && e == catalog_message(CatalogError::TupleSchemaMismatch)
            } else if !heap.has_slot(p0, row.1) {
                p1 == p0 && e == "record not found"@
            } else if c.rows(p0, i)[slot].deleted {
                p1 == p0 && e == heap_message("record already deleted"@)
            } else if !heap.fits(p0, data.len() as int) {
                row_lost(c, oid, i, p0, p1, deleted, data, e)
            } else {
                index_refused(c, oid, i, p0, p1, rows, change, spent, e)
            }
        },
    }
}

/// How a row comes out of an update to `new`.
pub open spec fn update_outcome(
    c: &Catalog,
    oid: u32,
    i: int,
    p0: Pages,
    p1: Pages,
    row: RowView,
    new: Result<Seq<u8>, Seq<char>>,
    res: Result<Option<(Tuple, RecordId)>, ExecutorError>,
    spent: bool,
) -> bool {
    match res {
        Ok(Some(given)) => update_made(c, oid, i, p0, p1, row, new, row_view(given)),
        Ok(None) => false,
        Err(e) => update_refused(c, oid, i, p0, p1, row, new, e.0@, spent),
    }
}

/// Deletes the rows of its child.
pub struct DeleteExecutor<'a> {
    pub plan: &'a DeletePlanNode,
    pub child: RowStream,
    pub opened: bool,
}

/// A row was deleted and is given as it was.
pub open spec fn delete_made(
    c: &Catalog,
    oid: u32,
    i: int,
    p0: Pages,
    p1: Pages,
    row: RowView,
    given: RowView,
) -> bool {
    let slot = row.1.slot_id as int;
    &&& given == row
    &&& c.tables@[i].info.heap.has_slot(p0, row.1) && !c.rows(p0, i)[slot].deleted
    &&& change_made(
        c,
        oid,
        i,
        p0,
        p1,
        row_deleted(c.rows(p0, i), slot),
        departure(row.0),
    )
}

/// A row was not deleted, and why.
pub open spec fn delete_refused(
    c: &Catalog,
    oid: u32,
    i: int,
    p0: Pages,
    p1: Pages,
    row: RowView,
    e: Seq<char>,
    spent: bool,
) -> bool {
    let slot = row.1.slot_id as int;
    let change = departure(row.0);
    if !all_cover(c, oid, change) {
        p1 == p0 && e == catalog_message(CatalogError::TupleSchemaMismatch)
    } else if !c.tables@[i].info.heap.has_slot(p0, row.1) {
        p1 == p0 && e == "record not found"@
    } else if c.rows(p0, i)[slot].deleted {
        p1 == p0 && e == heap_message("record already deleted"@)
    } else {
        index_refused(c, oid, i, p0, p1, row_deleted(c.rows(p0, i), slot), change, spent, e)
    }
}

/// How a row comes out of a deletion.
pub open spec fn delete_outcome(
    c: &Catalog,
    oid: u32,
    i: int,
    p0: Pages,
    p1: Pages,
    row: RowView,
    res: Result<Option<(Tuple, RecordId)>, ExecutorError>,
    spent: bool,
) -> bool {
    match res {
        Ok(Some(given)) => delete_made(c, oid, i, p0, p1, row, row_view(given)),
        Ok(None) => false,
        Err(e) => delete_refused(c, oid, i, p0, p1, row, e.0@, spent),
    }
}

impl<'a> DeleteExecutor<'a> {
    pub fn new(plan: &'a DeletePlanNode, child: RowStream) -> (res: Self)
        ensures
            res.plan == plan,
            res.child == child,
            !res.opened,
    {
        DeleteExecutor { plan, child, opened: false }
    }

    pub fn open(&mut self, catalog: &Catalog) -> (res: Result<(), ExecutorError>)
        requires
            catalog.valid(),
        ensures
            final(self).plan == old(self).plan,
            final(self).child == old(self).child,
            match res {
                Ok(_) => catalog.has_table(old(self).plan.table_oid) && final(self).opened,
                Err(e) => {
                    &&& !catalog.has_table(old(self).plan.table_oid)
                    &&& e.0@ == catalog_message(CatalogError::TableDoesNotExist)
                },
            },
    {
        match catalog.get_table(self.plan.table_oid) {
            Ok(_) => {
                self.opened = true;
                Ok(())
            },
            Err(e) => Err(catalog_failure(e)),
        }
    }

    /// Deletes the next row of the child and gives it as it was.
    pub fn next(&mut self, catalog: &Catalog, bpm: &mut BufferPoolManager) -> (res: Result<
        Option<(Tuple, RecordId)>,
        ExecutorError,
    >)
        requires
            old(bpm).wf(),
            old(bpm).ready(),
            old(bpm).ids_fresh(),
            catalog.wf(old(bpm).pages()),
        ensures
            pool_kept(old(bpm), final(bpm)),
            final(self).plan == old(self).plan,
            final(self).opened == old(self).opened,
            ({
                let (p0, p1) = (old(bpm).pages(), final(bpm).pages());
                let oid = old(self).plan.table_oid;
                let child = old(self).child@;
                if !old(self).opened {
                    &&& p1 == p0
                    &&& res matches Err(e) && e.0@ == "DeleteExecutor::next called before open"@
                } else if !catalog.has_table(oid) {
                    &&& p1 == p0
                    &&& res matches Err(e) && e.0@ == catalog_message(
                        CatalogError::TableDoesNotExist,
                    )
                } else if child.rows.len() == 0 {
                    &&& p1 == p0
                    &&& match child.error {
                        Some(m) => res matches Err(e) && e.0@ == m,
                        None => res matches Ok(None),
                    }
                } else {
                    &&& final(self).child@ == rest(child)
                    &&& delete_outcome(
                        catalog,
                        oid,
                        catalog.table_pos(oid),
                        p0,
                        p1,
                        child.rows[0],
                        res,
                        ids_spent(final(bpm)),
                    )
                }
            }),
    {
        if !self.opened {
            return Err(failure("DeleteExecutor::next called before open"));
        }
        let oid: u32 = self.plan.table_oid;
        let table = match catalog.get_table(oid) {
            Ok(t) => t,
            Err(e) => { return Err(catalog_failure(e)); },
        };
        let ghost i = catalog.table_pos(oid);
        assert(is_table(catalog.tables@, oid, i));
        let (tuple, rid) = match self.child.next() {
            Ok(Some(row)) => row,
            Ok(None) => { return Ok(None); },
            Err(e) => { return Err(e); },
        };
        match delete_row(catalog, oid, &table.heap, bpm, &tuple, &rid, Ghost(i)) {
            Ok(_) => Ok(Some((tuple, rid))),
            Err(e) => Err(e),
        }
    }

    pub fn schema(&self) -> (res: &Schema)
        ensures
            res == self.plan.schema,
    {
        &self.plan.schema
    }
}

/// The rows of a stream were updated one after the other, up to the first that was refused. The
/// pages went through the states of `trace`.
pub open spec fn updates_made(
    fl: spec_fn(FloatOp, u32, u32) -> u32,
    c: &Catalog,
    plan: UpdatePlanNode,
    trace: Seq<Pages>,
    p1: Pages,
    child: StreamView,
    out: StreamView,
    spent: bool,
) -> bool {
    let (oid, i) = (plan.table_oid, c.table_pos(plan.table_oid));
    let n = out.rows.len() as int;
    &&& trace.len() == n + 1
    &&& n <= child.rows.len()
    &&& forall|k: int|
        0 <= k < n ==> update_made(
            c,
            oid,
            i,
            trace[k],
            trace[k + 1],
            child.rows[k],
            updated(fl, plan.target_exprs@, child.rows[k].0, plan.schema@),
            #[trigger] out.rows[k],
        )
    &&& if n == child.rows.len() {
        p1 == trace[n] && out.error == child.error
    } else {
        out.error matches Some(e) && update_refused(
            c,
            oid,
            i,
            trace[n],
            p1,
            child.rows[n],
            updated(fl, plan.target_exprs@, child.rows[n].0, plan.schema@),
            e,
            spent,
        )
    }
}

/// The rows of a stream were deleted one after the other, up to the first that was refused. The
/// pages went through the states of `trace`.
pub open spec fn deletes_made(
    c: &Catalog,
    plan: DeletePlanNode,
    trace: Seq<Pages>,
    p1: Pages,
    child: StreamView,
    out: StreamView,
    spent: bool,
) -> bool {
    let (oid, i) = (plan.table_oid, c.table_pos(plan.table_oid));
    let n = out.rows.len() as int;
    &&& trace.len() == n + 1
    &&& n <= child.rows.len()
    &&& forall|k: int|
        0 <= k < n ==> delete_made(
            c,
            oid,
            i,
            trace[k],
            trace[k + 1],
            child.rows[k],
            #[trigger] out.rows[k],
        )
    &&& if n == child.rows.len() {
        p1 == trace[n] && out.error == child.error
    } else {
        out.error matches Some(e) && delete_refused(
            c,
            oid,
            i,
            trace[n],
            p1,
            child.rows[n],
            e,
            spent,
        )
    }
}

impl<'a> UpdateExecutor<'a> {
    /// Updates all rows of the child.
    pub fn drain<F: Fn(FloatOp, u32, u32) -> u32>(
        &mut self,
        catalog: &Catalog,
        bpm: &mut BufferPoolManager,
        fl: &F,
    ) -> (res: RowStream)
        requires
            computes(*fl),
            old(bpm).wf(),
            old(bpm).ready(),
            old(bpm).ids_fresh(),
            catalog.wf(old(bpm).pages()),
            old(self).plan.schema@.wf(),
            old(self).opened,
            catalog.has_table(old(self).plan.table_oid),
        ensures
            pool_kept(old(bpm), final(bpm)),
            catalog.wf(final(bpm).pages()),
            exists|trace: Seq<Pages>|
                trace.len() > 0 && trace[0] == old(bpm).pages() && #[trigger] updates_made(
                    results(*fl),
                    catalog,
                    *old(self).plan,
                    trace,
                    final(bpm).pages(),
                    old(self).child@,
                    res@,
                    ids_spent(final(bpm)),
                ),
    {
        let ghost p0 = bpm.pages();
        let ghost child = self.child@;
        let ghost plan = *self.plan;
        let mut out = RowStream::empty();
        let ghost mut trace: Seq<Pages> = seq![p0];
        let ghost mut n: int = 0;
        assert(child.rows.subrange(0, child.rows.len() as int) =~= child.rows);
        loop
            invariant
                computes(*fl),
                pool_kept(old(bpm), bpm),
                catalog.wf(bpm.pages()),
                *self.plan == plan,
                plan == *old(self).plan,
                plan.schema@.wf(),
                self.opened,
                catalog.has_table(plan.table_oid),
                child == old(self).child@,
                n == out@.rows.len(),
                n <= child.rows.len(),
                self.child@.rows == child.rows.subrange(n, child.rows.len() as int),
                self.child@.error == child.error,
                out@.error is None,
                trace.len() == n + 1,
                trace[0] == p0,
                p0 == old(bpm).pages(),
                bpm.pages() == trace[n],
                forall|k: int|
                    0 <= k < n ==> update_made(
                        catalog,
                        plan.table_oid,
                        catalog.table_pos(plan.table_oid),
                        trace[k],
                        trace[k + 1],
                        child.rows[k],
                        updated(
                            results(*fl),
                            plan.target_exprs@,
                            child.rows[k].0,
                            plan.schema@,
                        ),
                        #[trigger] out@.rows[k],
                    ),
            decreases child.rows.len() - n,
        {
            let ghost before = out@.rows;
            match self.next(catalog, bpm, fl) {
                Ok(Some(row)) => {
                    out.add(row.0, row.1);
                    proof {
                        let now = trace.push(bpm.pages());
                        assert forall|k: int| 0 <= k < n + 1 implies update_made(
                            catalog,
                            plan.table_oid,
                            catalog.table_pos(plan.table_oid),
                            now[k],
                            now[k + 1],
                            child.rows[k],
                            updated(
                                results(*fl),
                                plan.target_exprs@,
                                child.rows[k].0,
                                plan.schema@,
                            ),
                            #[trigger] out@.rows[k],
                        ) by {
                            if k < n {
                                assert(out@.rows[k] == before[k]);
                            }
                        }
                        assert(child.rows.subrange(n, child.rows.len() as int).drop_first()
                            =~= child.rows.subrange(n + 1, child.rows.len() as int));
                        trace = now;
                        n = n + 1;
                    }
                },
                Ok(None) => {
                    assert(updates_made(
                        results(*fl),
                        catalog,
                        plan,
                        trace,
                        bpm.pages(),
                        child,
                        out@,
                        ids_spent(bpm),
                    ));
                    return out;
                },
                Err(e) => {
                    out.error = Some(e);
                    assert(out@.rows =~= before);
                    assert(updates_made(
                        results(*fl),
                        catalog,
                        plan,
                        trace,
                        bpm.pages(),
                        child,
                        out@,
                        ids_spent(bpm),
                    ));
                    return out;
                },
            }
        }
    }
}

impl<'a> DeleteExecutor<'a> {
    /// Deletes all rows of the child.
    pub fn drain(&mut self, catalog: &Catalog, bpm: &mut BufferPoolManager) -> (res: RowStream)
        requires
            old(bpm).wf(),
            old(bpm).ready(),
            old(bpm).ids_fresh(),
            catalog.wf(old(bpm).pages()),
            old(self).opened,
            catalog.has_table(old(self).plan.table_oid),
        ensures
            pool_kept(old(bpm), final(bpm)),
            catalog.wf(final(bpm).pages()),
            exists|trace: Seq<Pages>|
                trace.len() > 0 && trace[0] == old(bpm).pages() && #[trigger] deletes_made(
                    catalog,
                    *old(self).plan,
                    trace,
                    final(bpm).pages(),
                    old(self).child@,
                    res@,
                    ids_spent(final(bpm)),
                ),
    {
        let ghost p0 = bpm.pages();
        let ghost child = self.child@;
        let ghost plan = *self.plan;
        let mut out = RowStream::empty();
        let ghost mut trace: Seq<Pages> = seq![p0];
        let ghost mut n: int = 0;
        assert(child.rows.subrange(0, child.rows.len() as int) =~= child.rows);
        loop
            invariant
                pool_kept(old(bpm), bpm),
                catalog.wf(bpm.pages()),
                *self.plan == plan,
                plan == *old(self).plan,
                self.opened,
                catalog.has_table(plan.table_oid),
                child == old(self).child@,
                n == out@.rows.len(),
                n <= child.rows.len(),
                self.child@.rows == child.rows.subrange(n, child.rows.len() as int),
                self.child@.error == child.error,
                out@.error is None,
                trace.len() == n + 1,
                trace[0] == p0,
                p0 == old(bpm).pages(),
                bpm.pages() == trace[n],
                forall|k: int|
                    0 <= k < n ==> delete_made(
                        catalog,
                        plan.table_oid,
                        catalog.table_pos(plan.table_oid),
                        trace[k],
                        trace[k + 1],
                        child.rows[k],
                        #[trigger] out@.rows[k],
                    ),
            decreases child.rows.len() - n,
        {
            let ghost before = out@.rows;
            match self.next(catalog, bpm) {
                Ok(Some(row)) => {
                    out.add(row.0, row.1);
                    proof {
                        let now = trace.push(bpm.pages());
                        assert forall|k: int| 0 <= k < n + 1 implies delete_made(
                            catalog,
                            plan.table_oid,
                            catalog.table_pos(plan.table_oid),
                            now[k],
                            now[k + 1],
                            child.rows[k],
                            #[trigger] out@.rows[k],
                        ) by {
                            if k < n {
                                assert(out@.rows[k] == before[k]);
                            }
                        }
                        assert(child.rows.subrange(n, child.rows.len() as int).drop_first()
                            =~= child.rows.subrange(n + 1, child.rows.len() as int));
                        trace = now;
                        n = n + 1;
                    }
                },
                Ok(None) => {
                    assert(deletes_made(catalog, plan, trace, bpm.pages(), child, out@, ids_spent(bpm)));
                    return out;
                },
                Err(e) => {
                    out.error = Some(e);
                    assert(out@.rows =~= before);
                    assert(deletes_made(catalog, plan, trace, bpm.pages(), child, out@, ids_spent(bpm)));
                    return out;
                },
            }
        }
    }
}

} // verus!
