//! Indexes mirror the rows of their tables.
use vstd::prelude::*;

use crate::catalog::index_schema::lemma_key_order;
use crate::catalog::key_encoding::{key_of_values, law_composite_key_order, same_types, values_eq};
use crate::catalog::laws::lemma_table_at;
use crate::catalog::registry::{index_created, is_index, is_table, lemma_positions};
use crate::catalog::schema::{law_tuple_roundtrip, lemma_row_field, null_at, SchemaView};
use crate::catalog::table_index::{columns_at, law_key_of_row, TableIndex, ValueBound};
use crate::catalog::value::{value_eq, Value};
use crate::catalog::{Catalog, CatalogError};
use crate::index::tree_insert::with_key;
use crate::index::tree_model::Pages;
use crate::planner::{is_point, probe_of};
use crate::processor::change_laws::lemma_live_contains;
use crate::processor::executor::{live_rows, table_stream};
use crate::processor::executor_factory::lemma_kept_parts;
use crate::processor::expression::{boolean, eval, Expression, FloatOp};
use crate::processor::hash_join::lemma_flat_rows;
use crate::processor::index_access::{
    fetch_part, index_range, is_index_stream, lemma_range_exists, lies_between, not_before,
    not_behind, rids_of, scan_refused,
};
use crate::processor::laws::holds_on;
use crate::processor::modify::{
    delete_made, deletes_made, departure, exchange, found_after_rows, insert_outcome, key_fresh,
    rows_with, update_made, updated, updates_made,
};
use crate::processor::plan::{DeletePlanNode, InsertPlanNode, UpdatePlanNode};
use crate::processor::spill::kept;
use crate::processor::statement::{delete_ran, insert_ran, update_ran};
use crate::processor::stream::{flat, rows_only, RowView, StreamView};
use crate::processor::upkeep::{index_follows, index_positions};
use crate::table_heap::{lemma_slots_fit, row_deleted, RecordId, Row, TableHeap};

verus! {

/// A row that is live and has no NULL among the indexed columns.
pub open spec fn is_indexed(index: TableIndex, rows: Seq<Row>, x: int) -> bool {
    0 <= x < rows.len() && !rows[x].deleted && !index.null_key(rows[x].data)
}

/// What an index holds are its keys of the live rows without NULLs in the indexed columns, each
/// with the place of its row.
pub open spec fn mirrors(
    index: TableIndex,
    heap: TableHeap,
    rows: Seq<Row>,
    find: spec_fn(Seq<u8>) -> Option<RecordId>,
) -> bool {
    &&& forall|k: Seq<u8>|
        ((#[trigger] find(k)) matches Some(rid) ==> {
            let x = rid.slot_id as int;
            &&& rid == heap.rid(x)
            &&& is_indexed(index, rows, x)
            &&& index.key_of(rows[x].data) == k
        })
    &&& forall|x: int|
        is_indexed(index, rows, x) ==> find(index.key_of((#[trigger] rows[x]).data)) == Some(
            heap.rid(x),
        )
}

proof fn lemma_mirror_remove(
    index: TableIndex,
    heap: TableHeap,
    rows: Seq<Row>,
    slot: int,
    f0: spec_fn(Seq<u8>) -> Option<RecordId>,
    f1: spec_fn(Seq<u8>) -> Option<RecordId>,
)
    requires
        mirrors(index, heap, rows, f0),
        0 <= slot < rows.len() <= u32::MAX,
        !rows[slot].deleted,
        forall|k: Seq<u8>| #[trigger]
            f1(k) == if index.null_key(rows[slot].data) {
                f0(k)
            } else {
                with_key(f0(k), index.key_of(rows[slot].data), None, k)
            },
    ensures
        mirrors(index, heap, row_deleted(rows, slot), f1),
{
    let after = row_deleted(rows, slot);
    let d = rows[slot].data;
    assert forall|k: Seq<u8>|
        ((#[trigger] f1(k)) matches Some(rid) ==> {
            let x = rid.slot_id as int;
            &&& rid == heap.rid(x)
            &&& is_indexed(index, after, x)
            &&& index.key_of(after[x].data) == k
        }) by {
        if f1(k) is Some {
            assert(f0(k) == f1(k));
            let x = f0(k)->0.slot_id as int;
            if x == slot {
                assert(is_indexed(index, rows, slot));
                assert(index.key_of(rows[slot].data) == k);
            }
        }
    }
    assert forall|x: int| is_indexed(index, after, x) implies f1(
        index.key_of((#[trigger] after[x]).data),
    ) == Some(heap.rid(x)) by {
        assert(after[x] == rows[x]);
        assert(is_indexed(index, rows, x));
        if !index.null_key(d) {
            assert(is_indexed(index, rows, slot));
            if index.key_of(rows[x].data) == index.key_of(d) {
                assert(f0(index.key_of(rows[x].data)) == Some(heap.rid(x)));
                assert(f0(index.key_of(rows[slot].data)) == Some(heap.rid(slot)));
            }
        }
    }
}

proof fn lemma_mirror_add(
    index: TableIndex,
    heap: TableHeap,
    rows: Seq<Row>,
    d: Seq<u8>,
    f0: spec_fn(Seq<u8>) -> Option<RecordId>,
    f1: spec_fn(Seq<u8>) -> Option<RecordId>,
)
    requires
        mirrors(index, heap, rows, f0),
        rows.len() < u32::MAX,
        !index.null_key(d) ==> f0(index.key_of(d)) is None,
        forall|k: Seq<u8>| #[trigger]
            f1(k) == if index.null_key(d) {
                f0(k)
            } else {
                with_key(f0(k), index.key_of(d), Some(heap.rid(rows.len() as int)), k)
            },
    ensures
        mirrors(index, heap, rows.push(Row { deleted: false, data: d }), f1),
{
    let n = rows.len() as int;
    let after = rows.push(Row { deleted: false, data: d });
    assert forall|k: Seq<u8>|
        ((#[trigger] f1(k)) matches Some(rid) ==> {
            let x = rid.slot_id as int;
            &&& rid == heap.rid(x)
            &&& is_indexed(index, after, x)
            &&& index.key_of(after[x].data) == k
        }) by {
        if f1(k) is Some {
            if f1(k) == f0(k) {
                let x = f0(k)->0.slot_id as int;
                assert(is_indexed(index, rows, x));
                assert(after[x] == rows[x]);
            } else {
                assert(after[n].data == d);
            }
        }
    }
    assert forall|x: int| is_indexed(index, after, x) implies f1(
        index.key_of((#[trigger] after[x]).data),
    ) == Some(heap.rid(x)) by {
        if x < n {
            assert(after[x] == rows[x]);
            assert(is_indexed(index, rows, x));
            assert(f0(index.key_of(rows[x].data)) == Some(heap.rid(x)));
        }
    }
}

/// What an index finds on some pages.
pub open spec fn finds(index: TableIndex, pages: Pages) -> spec_fn(Seq<u8>) -> Option<RecordId> {
    |k: Seq<u8>| index.find(pages, k)
}

/// Every index on the table mirrors its rows.
pub open spec fn indexes_mirror(c: &Catalog, oid: u32, pages: Pages) -> bool {
    forall|j: int|
        0 <= j < c.indexes@.len() && (#[trigger] c.indexes@[j]).table_oid == oid ==> mirrors(
            c.indexes@[j].index,
            c.table(oid).heap,
            c.rows(pages, c.table_pos(oid)),
            finds(c.indexes@[j].index, pages),
        )
}

/// An index on the table is at one of the positions of such indexes.
proof fn lemma_index_place(c: &Catalog, oid: u32, j: int) -> (a: int)
    requires
        0 <= j < c.indexes@.len(),
        c.indexes@[j].table_oid == oid,
    ensures
        0 <= a < index_positions(c, oid).len(),
        index_positions(c, oid)[a] == j,
{
    lemma_positions(c.indexes@, oid, true, c.indexes@.len() as int);
    let ps = index_positions(c, oid);
    assert(ps.contains(j));
    choose|a: int| 0 <= a < ps.len() && ps[a] == j
}

/// Pages that were kept leave the mirrors as they were.
proof fn lemma_mirrors_kept(c: &Catalog, oid: u32, p0: Pages, p1: Pages)
    requires
        c.wf(p0),
        c.has_table(oid),
        kept(p0, p1),
        indexes_mirror(c, oid, p0),
    ensures
        c.wf(p1),
        indexes_mirror(c, oid, p1),
        c.rows(p1, c.table_pos(oid)) == c.rows(p0, c.table_pos(oid)),
{
    lemma_kept_parts(c, p0, p1);
    let i = c.table_pos(oid);
    assert(is_table(c.tables@, oid, i));
    assert(c.rows(p1, i) == c.rows(p0, i));
    assert forall|j: int|
        0 <= j < c.indexes@.len() && (#[trigger] c.indexes@[j]).table_oid == oid implies mirrors(
        c.indexes@[j].index,
        c.table(oid).heap,
        c.rows(p1, i),
        finds(c.indexes@[j].index, p1),
    ) by {
        assert(c.index_kept(p0, p1, j));
        let (f0, f1) = (finds(c.indexes@[j].index, p0), finds(c.indexes@[j].index, p1));
        assert forall|k: Seq<u8>| #[trigger] f1(k) == f0(k) by {
            assert(c.indexes@[j].index.find(p1, k) == c.indexes@[j].index.find(p0, k));
        }
        assert(f1 =~= f0);
    }
}

/// An index after the first `n` rows of an INSERT.
proof fn lemma_mirror_rows(
    c: &Catalog,
    i: int,
    j: int,
    p0: Pages,
    rows: Seq<RowView>,
    n: int,
)
    requires
        0 <= n <= rows.len(),
        c.rows(p0, i).len() + n <= u32::MAX,
        mirrors(
            c.indexes@[j].index,
            c.tables@[i].info.heap,
            c.rows(p0, i),
            finds(c.indexes@[j].index, p0),
        ),
        forall|x: int| 0 <= x < n ==> #[trigger] key_fresh(c, i, j, p0, rows, x),
    ensures
        mirrors(
            c.indexes@[j].index,
            c.tables@[i].info.heap,
            rows_with(c, i, p0, rows, n),
            |k: Seq<u8>| found_after_rows(c, i, j, p0, rows, n, k),
        ),
    decreases n,
{
    let index = c.indexes@[j].index;
    let heap = c.tables@[i].info.heap;
    let f = |k: Seq<u8>| found_after_rows(c, i, j, p0, rows, n, k);
    if n > 0 {
        lemma_mirror_rows(c, i, j, p0, rows, n - 1);
        let g = |k: Seq<u8>| found_after_rows(c, i, j, p0, rows, n - 1, k);
        let before = rows_with(c, i, p0, rows, n - 1);
        assert(key_fresh(c, i, j, p0, rows, n - 1));
        lemma_mirror_add(index, heap, before, rows[n - 1].0, g, f);
        assert(before.push(Row { deleted: false, data: rows[n - 1].0 }) =~= rows_with(
            c,
            i,
            p0,
            rows,
            n,
        ));
    } else {
        assert(rows_with(c, i, p0, rows, 0) =~= c.rows(p0, i));
        assert(f =~= finds(index, p0));
    }
}

/// An INSERT that does not fail leaves indexes that mirrored the rows of the table as mirrors of
/// its rows.
pub proof fn law_insert_keeps_mirrors(
    fl: spec_fn(FloatOp, u32, u32) -> u32,
    c: &Catalog,
    p0: Pages,
    p1: Pages,
    p: InsertPlanNode,
    s: StreamView,
    spent: bool,
)
    requires
        c.wf(p0),
        insert_ran(fl, c, p0, p1, p, s, spent),
        s.error is None,
        indexes_mirror(c, p.table_oid, p0),
    ensures
        indexes_mirror(c, p.table_oid, p1),
{
    let oid = p.table_oid;
    let i = c.table_pos(oid);
    let (t, pm) = choose|t: StreamView, pm: Pages|
        p.child.answers(fl, c, p0, t) && kept(p0, pm) && #[trigger] insert_outcome(
            c,
            oid,
            pm,
            p1,
            t,
            s,
            spent,
        );
    assert(is_table(c.tables@, oid, i));
    lemma_mirrors_kept(c, oid, p0, pm);
    let n = t.rows.len() as int;
    assert(c.rows(p1, i) == rows_with(c, i, pm, t.rows, n));
    assert(c.tables@[i].info.heap.wf(p1));
    lemma_slots_fit(p1[c.tables@[i].info.heap.last_page_id]);
    let ps = index_positions(c, oid);
    assert forall|j: int|
        0 <= j < c.indexes@.len() && (#[trigger] c.indexes@[j]).table_oid == oid implies mirrors(
        c.indexes@[j].index,
        c.table(oid).heap,
        c.rows(p1, i),
        finds(c.indexes@[j].index, p1),
    ) by {
        let a = lemma_index_place(c, oid, j);
        assert forall|x: int| 0 <= x < n implies #[trigger] key_fresh(
            c,
            i,
            j,
            pm,
            t.rows,
            x,
        ) by {
            assert(key_fresh(c, i, ps[a], pm, t.rows, x));
        }
        lemma_mirror_rows(c, i, j, pm, t.rows, n);
        let f = |k: Seq<u8>| found_after_rows(c, i, j, pm, t.rows, n, k);
        assert forall|k: Seq<u8>| #[trigger] f(k) == finds(c.indexes@[j].index, p1)(k) by {
            assert(c.indexes@[ps[a]].index.find(p1, k) == found_after_rows(
                c,
                i,
                ps[a],
                pm,
                t.rows,
                n,
                k,
            ));
        }
        assert(f =~= finds(c.indexes@[j].index, p1));
    }
}

/// The rows are rows of the table, each with its place.
pub open spec fn rows_stored(c: &Catalog, oid: u32, pages: Pages, rows: Seq<RowView>) -> bool {
    let i = c.table_pos(oid);
    forall|k: int|
        0 <= k < rows.len() ==> {
            &&& (#[trigger] rows[k]).1.slot_id < c.rows(pages, i).len()
            &&& c.rows(pages, i)[rows[k].1.slot_id as int].data == rows[k].0
        }
}

/// One row less in the table and its indexes.
proof fn lemma_mirror_departure(c: &Catalog, oid: u32, q0: Pages, q1: Pages, row: RowView)
    requires
        c.has_table(oid),
        delete_made(c, oid, c.table_pos(oid), q0, q1, row, row),
        indexes_mirror(c, oid, q0),
        c.wf(q0),
        c.rows(q0, c.table_pos(oid))[row.1.slot_id as int].data == row.0,
    ensures
        indexes_mirror(c, oid, q1),
        c.wf(q1),
{
    let i = c.table_pos(oid);
    assert(is_table(c.tables@, oid, i));
    let rows = c.rows(q0, i);
    let slot = row.1.slot_id as int;
    assert(c.tables@[i].info.heap.wf(q0));
    lemma_slots_fit(q0[c.tables@[i].info.heap.last_page_id]);
    let ps = index_positions(c, oid);
    let change = departure(row.0);
    assert forall|j: int|
        0 <= j < c.indexes@.len() && (#[trigger] c.indexes@[j]).table_oid == oid implies mirrors(
        c.indexes@[j].index,
        c.table(oid).heap,
        c.rows(q1, i),
        finds(c.indexes@[j].index, q1),
    ) by {
        let a = lemma_index_place(c, oid, j);
        let index = c.indexes@[j].index;
        assert(index_follows(c, ps[a], q0, q1, change));
        let (f0, f1) = (finds(index, q0), finds(index, q1));
        assert forall|k: Seq<u8>| #[trigger] f1(k) == if index.null_key(rows[slot].data) {
            f0(k)
        } else {
            with_key(f0(k), index.key_of(rows[slot].data), None, k)
        } by {
            assert(c.indexes@[ps[a]].index.find(q1, k) == change.found(
                c.indexes@[ps[a]].index,
                q0,
                k,
            ));
        }
        lemma_mirror_remove(index, c.table(oid).heap, rows, slot, f0, f1);
    }
}

proof fn lemma_deleted_mirrors(
    c: &Catalog,
    p: DeletePlanNode,
    trace: Seq<Pages>,
    p1: Pages,
    t: StreamView,
    s: StreamView,
    n: int,
    spent: bool,
)
    requires
        c.has_table(p.table_oid),
        deletes_made(c, p, trace, p1, t, s, spent),
        0 <= n <= s.rows.len(),
        c.wf(trace[0]),
        indexes_mirror(c, p.table_oid, trace[0]),
        rows_stored(c, p.table_oid, trace[0], t.rows),
    ensures
        c.wf(trace[n]),
        indexes_mirror(c, p.table_oid, trace[n]),
        rows_stored(c, p.table_oid, trace[n], t.rows),
    decreases n,
{
    if n > 0 {
        lemma_deleted_mirrors(c, p, trace, p1, t, s, n - 1, spent);
        let i = c.table_pos(p.table_oid);
        assert(delete_made(
            c,
            p.table_oid,
            i,
            trace[n - 1],
            trace[n - 1 + 1],
            t.rows[n - 1],
            s.rows[n - 1],
        ));
        lemma_mirror_departure(c, p.table_oid, trace[n - 1], trace[n], t.rows[n - 1]);
        assert forall|k: int| 0 <= k < t.rows.len() implies ({
            &&& (#[trigger] t.rows[k]).1.slot_id < c.rows(trace[n], i).len()
            &&& c.rows(trace[n], i)[t.rows[k].1.slot_id as int].data == t.rows[k].0
        }) by {
            assert(c.rows(trace[n - 1], i)[t.rows[k].1.slot_id as int].data == t.rows[k].0);
        }
    }
}

/// A DELETE that does not fail, of rows of the table, leaves indexes that mirrored the rows of
/// the table as mirrors of its rows.
pub proof fn law_delete_keeps_mirrors(
    fl: spec_fn(FloatOp, u32, u32) -> u32,
    c: &Catalog,
    p0: Pages,
    p1: Pages,
    p: DeletePlanNode,
    s: StreamView,
    spent: bool,
)
    requires
        c.wf(p0),
        delete_ran(fl, c, p0, p1, p, s, spent),
        s.error is None,
        rows_stored(c, p.table_oid, p0, s.rows),
        indexes_mirror(c, p.table_oid, p0),
    ensures
        indexes_mirror(c, p.table_oid, p1),
{
    let oid = p.table_oid;
    let i = c.table_pos(oid);
    let (t, trace) = choose|t: StreamView, trace: Seq<Pages>|
        p.child.answers(fl, c, p0, t) && trace.len() > 0 && kept(p0, trace[0])
            && #[trigger] deletes_made(c, p, trace, p1, t, s, spent);
    lemma_mirrors_kept(c, oid, p0, trace[0]);
    let n = s.rows.len() as int;
    assert forall|k: int| 0 <= k < n implies (#[trigger] s.rows[k]) == t.rows[k] by {
        assert(delete_made(c, oid, i, trace[k], trace[k + 1], t.rows[k], s.rows[k]));
    }
    assert(s.rows =~= t.rows);
    lemma_deleted_mirrors(c, p, trace, p1, t, s, n, spent);
}

/// One row replaced in the table and its indexes.
proof fn lemma_mirror_exchange(
    c: &Catalog,
    oid: u32,
    q0: Pages,
    q1: Pages,
    row: RowView,
    new: Result<Seq<u8>, Seq<char>>,
    given: RowView,
)
    requires
        c.has_table(oid),
        update_made(c, oid, c.table_pos(oid), q0, q1, row, new, given),
        indexes_mirror(c, oid, q0),
        c.wf(q0),
        c.rows(q0, c.table_pos(oid))[row.1.slot_id as int].data == row.0,
    ensures
        indexes_mirror(c, oid, q1),
        c.wf(q1),
{
    let i = c.table_pos(oid);
    assert(is_table(c.tables@, oid, i));
    let heap = c.table(oid).heap;
    let rows = c.rows(q0, i);
    let slot = row.1.slot_id as int;
    assert(c.tables@[i].info.heap.wf(q0));
    lemma_slots_fit(q0[c.tables@[i].info.heap.last_page_id]);
    let ps = index_positions(c, oid);
    let place = heap.rid(rows.len() as int);
    let change = exchange(row.0, given.0, place);
    assert forall|j: int|
        0 <= j < c.indexes@.len() && (#[trigger] c.indexes@[j]).table_oid == oid implies mirrors(
        c.indexes@[j].index,
        c.table(oid).heap,
        c.rows(q1, i),
        finds(c.indexes@[j].index, q1),
    ) by {
        let a = lemma_index_place(c, oid, j);
        let index = c.indexes@[j].index;
        assert(index_follows(c, ps[a], q0, q1, change));
        assert(change.accepted_by(c.indexes@[ps[a]].index, q0));
        let (f0, f1) = (finds(index, q0), finds(index, q1));
        let mid = |k: Seq<u8>| change.found_without(index, q0, k);
        assert forall|k: Seq<u8>| #[trigger] mid(k) == if index.null_key(rows[slot].data) {
            f0(k)
        } else {
            with_key(f0(k), index.key_of(rows[slot].data), None, k)
        } by {}
        lemma_mirror_remove(index, heap, rows, slot, f0, mid);
        assert forall|k: Seq<u8>| #[trigger] f1(k) == if index.null_key(given.0) {
            mid(k)
        } else {
            with_key(mid(k), index.key_of(given.0), Some(heap.rid(rows.len() as int)), k)
        } by {
            assert(c.indexes@[ps[a]].index.find(q1, k) == change.found(
                c.indexes@[ps[a]].index,
                q0,
                k,
            ));
        }
        assert(!index.null_key(given.0) ==> mid(index.key_of(given.0)) is None);
        lemma_mirror_add(index, heap, row_deleted(rows, slot), given.0, mid, f1);
    }
}

proof fn lemma_updated_mirrors(
    fl: spec_fn(FloatOp, u32, u32) -> u32,
    c: &Catalog,
    p: UpdatePlanNode,
    trace: Seq<Pages>,
    p1: Pages,
    t: StreamView,
    s: StreamView,
    n: int,
    spent: bool,
)
    requires
        c.has_table(p.table_oid),
        updates_made(fl, c, p, trace, p1, t, s, spent),
        0 <= n <= s.rows.len(),
        c.wf(trace[0]),
        indexes_mirror(c, p.table_oid, trace[0]),
        rows_stored(c, p.table_oid, trace[0], t.rows),
    ensures
        c.wf(trace[n]),
        indexes_mirror(c, p.table_oid, trace[n]),
        rows_stored(c, p.table_oid, trace[n], t.rows),
    decreases n,
{
    if n > 0 {
        lemma_updated_mirrors(fl, c, p, trace, p1, t, s, n - 1, spent);
        let i = c.table_pos(p.table_oid);
        let new = updated(fl, p.target_exprs@, t.rows[n - 1].0, p.schema@);
        assert(update_made(
            c,
            p.table_oid,
            i,
            trace[n - 1],
            trace[n - 1 + 1],
            t.rows[n - 1],
            new,
            s.rows[n - 1],
        ));
        lemma_mirror_exchange(
            c,
            p.table_oid,
            trace[n - 1],
            trace[n],
            t.rows[n - 1],
            new,
            s.rows[n - 1],
        );
        assert forall|k: int| 0 <= k < t.rows.len() implies ({
            &&& (#[trigger] t.rows[k]).1.slot_id < c.rows(trace[n], i).len()
            &&& c.rows(trace[n], i)[t.rows[k].1.slot_id as int].data == t.rows[k].0
        }) by {
            assert(c.rows(trace[n - 1], i)[t.rows[k].1.slot_id as int].data == t.rows[k].0);
        }
    }
}

/// An UPDATE that does not fail, of rows of the table, leaves indexes that mirrored the rows of
/// the table as mirrors of its rows.
pub proof fn law_update_keeps_mirrors(
    fl: spec_fn(FloatOp, u32, u32) -> u32,
    c: &Catalog,
    p0: Pages,
    p1: Pages,
    p: UpdatePlanNode,
    s: StreamView,
    spent: bool,
)
    requires
        c.wf(p0),
        update_ran(fl, c, p0, p1, p, s, spent),
        s.error is None,
        forall|t: StreamView| #[trigger]
            p.child.answers(fl, c, p0, t) ==> rows_stored(c, p.table_oid, p0, t.rows),
        indexes_mirror(c, p.table_oid, p0),
    ensures
        indexes_mirror(c, p.table_oid, p1),
{
    let oid = p.table_oid;
    let (t, trace) = choose|t: StreamView, trace: Seq<Pages>|
        p.child.answers(fl, c, p0, t) && trace.len() > 0 && kept(p0, trace[0])
            && #[trigger] updates_made(fl, c, p, trace, p1, t, s, spent);
    lemma_mirrors_kept(c, oid, p0, trace[0]);
    lemma_updated_mirrors(fl, c, p, trace, p1, t, s, s.rows.len() as int, spent);
}

/// A new index on a table without live rows mirrors its rows, as the older ones did.
pub proof fn law_new_index_mirrors(
    a: &Catalog,
    b: &Catalog,
    p0: Pages,
    p1: Pages,
    oid: u32,
    name: Seq<char>,
    cols: Seq<Seq<char>>,
)
    requires
        a.wf(p0),
        b.valid(),
        index_created(a, b, p0, p1, oid, name, cols),
        indexes_mirror(a, oid, p0),
        forall|x: int|
            0 <= x < a.rows(p0, a.table_pos(oid)).len() ==> (#[trigger] a.rows(
                p0,
                a.table_pos(oid),
            )[x]).deleted,
    ensures
        indexes_mirror(b, oid, p1),
{
    let i = a.table_pos(oid);
    assert(is_table(a.tables@, oid, i));
    lemma_table_at(b, oid, i);
    let n = a.indexes@.len() as int;
    assert(a.rows(p1, i) == a.rows(p0, i));
    assert forall|j: int|
        0 <= j < b.indexes@.len() && (#[trigger] b.indexes@[j]).table_oid == oid implies mirrors(
        b.indexes@[j].index,
        b.table(oid).heap,
        b.rows(p1, i),
        finds(b.indexes@[j].index, p1),
    ) by {
        if j < n {
            assert(b.indexes@[j] == a.indexes@[j]);
            assert(a.index_kept(p0, p1, j));
            let (f0, f1) = (finds(a.indexes@[j].index, p0), finds(a.indexes@[j].index, p1));
            assert forall|k: Seq<u8>| #[trigger] f1(k) == f0(k) by {
                assert(a.indexes@[j].index.find(p1, k) == a.indexes@[j].index.find(p0, k));
            }
            assert(f1 =~= f0);
        } else {
            assert(b.indexes@[n].index.idx.is_empty(p1));
        }
    }
}

proof fn lemma_flat_whole(f: spec_fn(int) -> StreamView, n: int)
    requires
        forall|i: int| 0 <= i < n ==> (#[trigger] f(i)).error is None,
    ensures
        flat(f, n).error is None,
    decreases n,
{
    if n > 0 {
        lemma_flat_whole(f, n - 1);
    }
}

/// A row that a scan of an index between two bounds is to give.
pub open spec fn in_range(index: TableIndex, start: ValueBound, end: ValueBound, d: Seq<u8>) -> bool {
    !index.null_key(d) && not_before(start, index.key_of(d)) && not_behind(end, index.key_of(d))
}

/// A scan of an index that mirrors its table gives the rows of the table whose keys lie between
/// the bounds, and no others.
pub proof fn law_mirrored_scan(
    c: &Catalog,
    pages: Pages,
    index_oid: u32,
    start: ValueBound,
    end: ValueBound,
    s: StreamView,
    row: RowView,
)
    requires
        c.wf(pages),
        c.has_index(index_oid),
        indexes_mirror(c, c.index(index_oid).table_oid, pages),
        !scan_refused(c.index(index_oid).index, pages, start, end),
        is_index_stream(c, pages, index_oid, start, end, s),
    ensures
        s.error is None,
        s.rows.contains(row) <==> table_stream(
            c,
            pages,
            c.index(index_oid).table_oid,
        ).rows.contains(row) && in_range(c.index(index_oid).index, start, end, row.0),
{
    let j = c.index_pos(index_oid);
    assert(is_index(c.indexes@, index_oid, j));
    let info = c.indexes@[j];
    let index = info.index;
    let oid = info.table_oid;
    assert(c.index_fits(c.indexes@[j]));
    let i = c.table_pos(oid);
    assert(is_table(c.tables@, oid, i));
    let heap = c.tables@[i].info.heap;
    let rows = heap.rows(pages);
    assert(heap.wf(pages));
    lemma_slots_fit(pages[heap.last_page_id]);
    assert(c.indexes@[j].index.wf(pages));
    lemma_range_exists(index, pages, start, end);
    let es = index_range(index, pages, start, end);
    let rids = rids_of(es);
    let f = fetch_part(heap, pages, rids);
    let find = finds(index, pages);
    assert(mirrors(c.indexes@[j].index, c.table(oid).heap, c.rows(pages, i), find));
    assert forall|k: int| 0 <= k < rids.len() implies (#[trigger] f(k)) == rows_only(
        seq![(rows[rids[k].slot_id as int].data, rids[k])],
    ) && es.contains(es[k]) by {
        assert(es.contains(es[k]));
        assert(lies_between(index, pages, start, end, es[k]));
        assert(find(es[k].0) == Some(es[k].1));
    }
    assert forall|k: int| 0 <= k < rids.len() implies (#[trigger] f(k)).error is None by {}
    lemma_flat_whole(f, rids.len() as int);
    lemma_flat_rows(f, rids.len() as int);
    lemma_live_contains(heap, pages, row);
    if s.rows.contains(row) {
        let k = choose|k: int| 0 <= k < rids.len() && (#[trigger] f(k)).rows.contains(row);
        let x = rids[k].slot_id as int;
        assert(f(k).rows == seq![(rows[x].data, rids[k])]);
        assert(row == (rows[x].data, rids[k]));
        assert(lies_between(index, pages, start, end, es[k]));
        assert(find(es[k].0) == Some(es[k].1));
        assert(is_indexed(index, rows, x));
        assert(row == (rows[x].data, heap.rid(x)));
    }
    if live_rows(heap, pages).contains(row) && in_range(index, start, end, row.0) {
        let x = choose|x: int|
            0 <= x < rows.len() && !(#[trigger] rows[x]).deleted && row == (
                rows[x].data,
                heap.rid(x),
            );
        assert(is_indexed(index, rows, x));
        let key = index.key_of(rows[x].data);
        assert(find(key) == Some(heap.rid(x)));
        let e = (key, heap.rid(x));
        assert(lies_between(index, pages, start, end, e));
        assert(es.contains(e));
        let k = choose|k: int| 0 <= k < es.len() && es[k] == e;
        assert(f(k).rows == seq![(rows[x].data, heap.rid(x))]);
        assert(f(k).rows[0] == row);
        assert(f(k).rows.contains(row));
    }
}

/// Every live row of the table holds values of the types of its columns.
pub open spec fn rows_encoded(c: &Catalog, oid: u32, pages: Pages) -> bool {
    let rows = c.rows(pages, c.table_pos(oid));
    forall|x: int|
        0 <= x < rows.len() && !(#[trigger] rows[x]).deleted ==> is_encoded(
            c.table(oid).schema@,
            rows[x].data,
        )
}

pub open spec fn is_encoded(s: SchemaView, d: Seq<u8>) -> bool {
    exists|values: Seq<Option<Value>>| s.accepts(values) && d == #[trigger] s.row(values)
}

/// On an encoded row, the key is that of a value exactly where the column holds that value.
proof fn lemma_point_key(
    fl: spec_fn(FloatOp, u32, u32) -> u32,
    index: TableIndex,
    s: SchemaView,
    e: Expression,
    col: u32,
    v: Value,
    d: Seq<u8>,
)
    requires
        s.wf(),
        is_encoded(s, d),
        index.valid(),
        index.table_bitmap_len == s.bitmap_len,
        columns_at(s, index.indexed_cols@, index.indexed_col_idxs@),
        index.indexed_col_idxs@ == seq![col as usize],
        probe_of(Some(e)) == Some((col, v)),
        v.dtype() == s.cols[col as int].dtype,
    ensures
        (eval(fl, e, d, s) == Ok::<Option<Value>, Seq<char>>(boolean(true))) == (!index.null_key(d)
            && index.key_of(d) == key_of_values(seq![v])),
{
    let values = choose|values: Seq<Option<Value>>|
        s.accepts(values) && d == #[trigger] s.row(values);
    let i = col as int;
    assert(index.indexed_col_idxs@[0] == col as usize);
    law_tuple_roundtrip(s, values);
    lemma_row_field(s, values, i);
    assert(s.field(d, i) == Ok::<Option<Value>, CatalogError>(values[i]));
    match values[i] {
        None => {
            assert(null_at(d, index.indexed_col_idxs@[0] as int));
            assert(index.null_key(d));
        },
        Some(x) => {
            assert(x.dtype() == s.cols[i].dtype);
            law_key_of_row(index, s, values, seq![x]);
            assert(same_types(seq![x], seq![v]));
            law_composite_key_order(seq![x], seq![v]);
            assert(values_eq(seq![x], seq![v]) == value_eq(x, v)) by {
                assert(seq![x][0] == x && seq![v][0] == v);
            }
            assert(value_eq(x, v) == value_eq(v, x));
        },
    }
    match e {
        Expression::Binary { left, right, op } => {
            assert(eval(fl, *left, d, s) is Ok && eval(fl, *right, d, s) is Ok);
        },
        _ => {},
    }
}

/// Looking up a value through an index that mirrors its table gives the rows that a filter for
/// that value over all rows of the table gives.
pub proof fn law_lookup_is_filter(
    fl: spec_fn(FloatOp, u32, u32) -> u32,
    c: &Catalog,
    pages: Pages,
    index_oid: u32,
    start: ValueBound,
    end: ValueBound,
    e: Expression,
    col: u32,
    v: Value,
    s: StreamView,
    row: RowView,
)
    requires
        c.wf(pages),
        c.has_index(index_oid),
        c.index(index_oid).index.indexed_col_idxs@ == seq![col as usize],
        !c.index(index_oid).index.idx.is_empty(pages),
        indexes_mirror(c, c.index(index_oid).table_oid, pages),
        rows_encoded(c, c.index(index_oid).table_oid, pages),
        probe_of(Some(e)) == Some((col, v)),
        v.dtype() == c.table(c.index(index_oid).table_oid).schema@.cols[col as int].dtype,
        is_point(start, v),
        is_point(end, v),
        is_index_stream(c, pages, index_oid, start, end, s),
    ensures
        s.error is None,
        s.rows.contains(row) <==> table_stream(
            c,
            pages,
            c.index(index_oid).table_oid,
        ).rows.contains(row) && holds_on(fl, e, c.table(c.index(index_oid).table_oid).schema@)(row),
{
    let j = c.index_pos(index_oid);
    assert(is_index(c.indexes@, index_oid, j));
    let index = c.indexes@[j].index;
    let oid = c.indexes@[j].table_oid;
    assert(c.index_fits(c.indexes@[j]));
    let i = c.table_pos(oid);
    assert(is_table(c.tables@, oid, i));
    let k = choose|k: int| #[trigger]
        is_table(c.tables@, oid, k) && c.tables@[k].indexed && {
            let s = c.tables@[k].info.schema@;
            &&& index.valid()
            &&& index.table_bitmap_len == s.bitmap_len
            &&& columns_at(s, index.indexed_cols@, index.indexed_col_idxs@)
        };
    lemma_table_at(c, oid, k);
    let schema = c.table(oid).schema@;
    law_mirrored_scan(c, pages, index_oid, start, end, s, row);
    let heap = c.tables@[i].info.heap;
    lemma_live_contains(heap, pages, row);
    if live_rows(heap, pages).contains(row) {
        let rows = heap.rows(pages);
        let x = choose|x: int|
            0 <= x < rows.len() && !(#[trigger] rows[x]).deleted && row == (
                rows[x].data,
                heap.rid(x),
            );
        assert(is_encoded(schema, c.rows(pages, i)[x].data));
        lemma_point_key(fl, index, schema, e, col, v, row.0);
        lemma_key_order();
    }
}

} // verus!
