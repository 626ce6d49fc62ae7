//! What a scan of a table gives after its rows were changed.
use vstd::prelude::*;

use crate::catalog::Catalog;
use crate::catalog::registry::is_table;
use crate::index::tree_model::Pages;
use crate::processor::executor::{live_rows, table_stream};
use crate::processor::executor_factory::lemma_kept_parts;
use crate::processor::expression::FloatOp;
use crate::processor::modify::{
    delete_made, deletes_made, insert_outcome, rows_with, update_made, updated, updates_made,
};
use crate::processor::plan::{DeletePlanNode, InsertPlanNode, UpdatePlanNode};
use crate::processor::spill::kept;
use crate::processor::statement::{delete_ran, insert_ran, update_ran};
use crate::processor::stream::{RowView, StreamView};
use crate::table_heap::{lemma_slots_fit, row_deleted, Row, TableHeap};

verus! {

/// The rows among the first `n` slots that were not deleted, each with its place.
spec fn live_of(heap: TableHeap, rows: Seq<Row>, n: int) -> Seq<RowView>
    decreases n,
{
    if n <= 0 {
        Seq::empty()
    } else {
        let rest = live_of(heap, rows, n - 1);
        if rows[n - 1].deleted {
            rest
        } else {
            rest.push((rows[n - 1].data, heap.rid(n - 1)))
        }
    }
}

proof fn lemma_live_of(heap: TableHeap, pages: Pages)
    ensures
        live_rows(heap, pages) == live_of(heap, heap.rows(pages), heap.rows(pages).len() as int),
{
    lemma_live_prefix(heap, pages, heap.rows(pages).len() as int);
}

proof fn lemma_live_prefix(heap: TableHeap, pages: Pages, n: int)
    requires
        0 <= n <= heap.rows(pages).len(),
    ensures
        ({
            let rows = heap.live_rows(pages, n);
            Seq::new(rows.len(), |i: int| (rows[i].1, rows[i].0)) == live_of(
                heap,
                heap.rows(pages),
                n,
            )
        }),
    decreases n,
{
    if n > 0 {
        lemma_live_prefix(heap, pages, n - 1);
    }
    let rows = heap.live_rows(pages, n);
    assert(Seq::new(rows.len(), |i: int| (rows[i].1, rows[i].0)) =~= live_of(
        heap,
        heap.rows(pages),
        n,
    ));
}

proof fn lemma_live_of_contains(heap: TableHeap, rows: Seq<Row>, n: int, row: RowView)
    requires
        0 <= n <= rows.len(),
    ensures
        live_of(heap, rows, n).contains(row) <==> exists|x: int|
            0 <= x < n && !(#[trigger] rows[x]).deleted && row == (rows[x].data, heap.rid(x)),
    decreases n,
{
    if n > 0 {
        lemma_live_of_contains(heap, rows, n - 1, row);
        let rest = live_of(heap, rows, n - 1);
        let all = live_of(heap, rows, n);
        if all.contains(row) {
            let k = choose|k: int| 0 <= k < all.len() && all[k] == row;
            if k < rest.len() {
                assert(rest[k] == row);
                assert(rest.contains(row));
            } else {
                assert(!rows[n - 1].deleted);
            }
        }
        if exists|x: int|
            0 <= x < n && !(#[trigger] rows[x]).deleted && row == (rows[x].data, heap.rid(x)) {
            let x = choose|x: int|
                0 <= x < n && !(#[trigger] rows[x]).deleted && row == (
                    rows[x].data,
                    heap.rid(x),
                );
            if x < n - 1 {
                assert(rest.contains(row));
                let k = choose|k: int| 0 <= k < rest.len() && rest[k] == row;
                assert(all[k] == row);
            } else {
                assert(all[all.len() - 1] == row);
            }
        }
    }
}

/// The rows of a scan are those that were not deleted.
pub(crate) proof fn lemma_live_contains(heap: TableHeap, pages: Pages, row: RowView)
    ensures
        live_rows(heap, pages).contains(row) <==> exists|x: int|
            0 <= x < heap.rows(pages).len() && !(#[trigger] heap.rows(pages)[x]).deleted && row
                == (heap.rows(pages)[x].data, heap.rid(x)),
{
    lemma_live_of(heap, pages);
    lemma_live_of_contains(heap, heap.rows(pages), heap.rows(pages).len() as int, row);
}

proof fn lemma_live_of_places(heap: TableHeap, rows: Seq<Row>, n: int)
    requires
        0 <= n <= rows.len() <= u32::MAX,
    ensures
        forall|a: int|
            0 <= a < live_of(heap, rows, n).len() ==> (#[trigger] live_of(heap, rows, n)[a]).1.slot_id
                < n,
        forall|a: int, b: int|
            0 <= a < b < live_of(heap, rows, n).len() ==> (#[trigger] live_of(
                heap,
                rows,
                n,
            )[a]).1.slot_id < (#[trigger] live_of(heap, rows, n)[b]).1.slot_id,
    decreases n,
{
    if n > 0 {
        lemma_live_of_places(heap, rows, n - 1);
        let rest = live_of(heap, rows, n - 1);
        let all = live_of(heap, rows, n);
        assert forall|a: int| 0 <= a < all.len() implies (#[trigger] all[a]).1.slot_id < n && (a
            < rest.len() ==> all[a] == rest[a]) && (a == rest.len() ==> all[a].1.slot_id == n
            - 1) by {
            assert(heap.rid(n - 1).slot_id == n - 1);
            if a < rest.len() {
                assert(rest[a].1.slot_id < n - 1);
            }
        }
        assert forall|a: int, b: int| 0 <= a < b < all.len() implies (#[trigger] all[a]).1.slot_id
            < (#[trigger] all[b]).1.slot_id by {
            assert(all[a] == rest[a]);
            assert(rest[a].1.slot_id < n - 1);
            if b < rest.len() {
                assert(rest[a].1.slot_id < rest[b].1.slot_id);
            }
        }
    }
}

/// The rows of a scan come in the order of their places.
pub(crate) proof fn lemma_live_places(heap: TableHeap, pages: Pages)
    requires
        heap.wf(pages),
    ensures
        forall|a: int, b: int|
            0 <= a < b < live_rows(heap, pages).len() ==> (#[trigger] live_rows(
                heap,
                pages,
            )[a]).1.slot_id < (#[trigger] live_rows(heap, pages)[b]).1.slot_id,
{
    lemma_slots_fit(pages[heap.last_page_id]);
    lemma_live_of(heap, pages);
    lemma_live_of_places(heap, heap.rows(pages), heap.rows(pages).len() as int);
}

/// The row was not at one of the slots that were given up.
pub open spec fn stays(gone: spec_fn(int) -> bool) -> spec_fn(RowView) -> bool {
    |row: RowView| !gone(row.1.slot_id as int)
}

proof fn lemma_filter_push(s: Seq<RowView>, x: RowView, p: spec_fn(RowView) -> bool)
    ensures
        s.push(x).filter(p) == if p(x) {
            s.filter(p).push(x)
        } else {
            s.filter(p)
        },
{
    reveal(Seq::filter);
    assert(s.push(x).drop_last() =~= s);
}

/// Rows were added and the slots of some rows given up.
spec fn table_changed(
    heap: TableHeap,
    before: Seq<Row>,
    after: Seq<Row>,
    added: Seq<RowView>,
    gone: spec_fn(int) -> bool,
) -> bool {
    &&& after.len() == before.len() + added.len()
    &&& forall|x: int|
        0 <= x < before.len() ==> (#[trigger] after[x]).data == before[x].data && after[x].deleted
            == (before[x].deleted || gone(x))
    &&& forall|k: int|
        0 <= k < added.len() ==> (#[trigger] added[k]) == (
            after[before.len() + k].data,
            heap.rid(before.len() + k),
        ) && after[before.len() + k].deleted == gone(before.len() + k)
}

proof fn lemma_live_changed(
    heap: TableHeap,
    before: Seq<Row>,
    after: Seq<Row>,
    added: Seq<RowView>,
    gone: spec_fn(int) -> bool,
    n: int,
)
    requires
        table_changed(heap, before, after, added, gone),
        after.len() <= u32::MAX,
        0 <= n <= after.len(),
    ensures
        live_of(heap, after, n) == if n <= before.len() {
            live_of(heap, before, n).filter(stays(gone))
        } else {
            (live_of(heap, before, before.len() as int) + added.subrange(
                0,
                n - before.len(),
            )).filter(stays(gone))
        },
    decreases n,
{
    let p = stays(gone);
    let m = before.len() as int;
    if n <= 0 {
        reveal(Seq::filter);
    } else {
        lemma_live_changed(heap, before, after, added, gone, n - 1);
        let row = (after[n - 1].data, heap.rid(n - 1));
        assert(p(row) == !gone(n - 1));
        if n <= m {
            lemma_filter_push(live_of(heap, before, n - 1), row, p);
        } else {
            let k = n - 1 - m;
            let had = live_of(heap, before, m) + added.subrange(0, k);
            assert(added[k] == row);
            assert(live_of(heap, before, m) + added.subrange(0, k + 1) =~= had.push(row));
            if k == 0 {
                assert(had =~= live_of(heap, before, m));
            }
            lemma_filter_push(had, row, p);
        }
    }
}

/// A scan after a change of a table.
proof fn lemma_scan_changed(
    c: &Catalog,
    oid: u32,
    p0: Pages,
    p1: Pages,
    added: Seq<RowView>,
    gone: spec_fn(int) -> bool,
)
    requires
        c.has_table(oid),
        c.wf(p1),
        ({
            let i = c.table_pos(oid);
            table_changed(c.tables@[i].info.heap, c.rows(p0, i), c.rows(p1, i), added, gone)
        }),
    ensures
        table_stream(c, p1, oid).rows == (table_stream(c, p0, oid).rows + added).filter(
            stays(gone),
        ),
{
    let i = c.table_pos(oid);
    assert(is_table(c.tables@, oid, i));
    let heap = c.tables@[i].info.heap;
    assert(heap.wf(p1));
    lemma_slots_fit(p1[heap.last_page_id]);
    lemma_live_of(heap, p0);
    lemma_live_of(heap, p1);
    let n = c.rows(p1, i).len() as int;
    lemma_live_changed(heap, c.rows(p0, i), c.rows(p1, i), added, gone, n);
    assert(added.subrange(0, added.len() as int) =~= added);
    if added.len() == 0 {
        assert(live_rows(heap, p0) + added =~= live_rows(heap, p0));
    }
}

proof fn lemma_all_stay(s: Seq<RowView>, p: spec_fn(RowView) -> bool)
    requires
        forall|x: RowView| #[trigger] p(x),
    ensures
        s.filter(p) == s,
    decreases s.len(),
{
    reveal(Seq::filter);
    if s.len() > 0 {
        lemma_all_stay(s.drop_last(), p);
        assert(s.drop_last().push(s.last()) =~= s);
    }
}

/// The rows as they are stored behind the rows of a table.
pub open spec fn stored_behind(
    c: &Catalog,
    oid: u32,
    pages: Pages,
    rows: Seq<RowView>,
) -> Seq<RowView> {
    let i = c.table_pos(oid);
    let base = c.rows(pages, i).len();
    Seq::new(rows.len(), |k: int| (rows[k].0, c.tables@[i].info.heap.rid(base + k)))
}

/// After an INSERT a scan of the table gives the rows that were there and then the inserted
/// ones, in their order.
pub proof fn law_insert_then_scan(
    fl: spec_fn(FloatOp, u32, u32) -> u32,
    c: &Catalog,
    p0: Pages,
    p1: Pages,
    p: InsertPlanNode,
    s: StreamView,
    spent: bool,
)
    requires
        c.wf(p0),
        insert_ran(fl, c, p0, p1, p, s, spent),
        s.error is None,
    ensures
        exists|t: StreamView| #[trigger]
            p.child.answers(fl, c, p0, t) && table_stream(c, p1, p.table_oid).rows == table_stream(
                c,
                p0,
                p.table_oid,
            ).rows + stored_behind(c, p.table_oid, p0, t.rows),
{
    let oid = p.table_oid;
    let (t, pm) = choose|t: StreamView, pm: Pages|
        p.child.answers(fl, c, p0, t) && kept(p0, pm) && #[trigger] insert_outcome(
            c,
            oid,
            pm,
            p1,
            t,
            s,
            spent,
        );
    lemma_kept_parts(c, p0, pm);
    let i = c.table_pos(oid);
    assert(is_table(c.tables@, oid, i));
    assert(c.rows(pm, i) == c.rows(p0, i));
    let added = stored_behind(c, oid, p0, t.rows);
    let gone = |x: int| false;
    assert(c.rows(p1, i) == rows_with(c, i, pm, t.rows, t.rows.len() as int));
    lemma_scan_changed(c, oid, p0, p1, added, gone);
    lemma_all_stay(table_stream(c, p0, oid).rows + added, stays(gone));
}

/// One of the first `n` rows stood at that slot.
pub open spec fn slot_among(rows: Seq<RowView>, n: int, x: int) -> bool {
    exists|j: int| 0 <= j < n && (#[trigger] rows[j]).1.slot_id == x
}

/// The slots of the rows.
pub open spec fn slots_of(rows: Seq<RowView>) -> spec_fn(int) -> bool {
    |x: int| slot_among(rows, rows.len() as int, x)
}

proof fn lemma_slot_among(rows: Seq<RowView>, n: int, x: int)
    requires
        0 <= n < rows.len(),
    ensures
        slot_among(rows, n + 1, x) == (slot_among(rows, n, x) || rows[n].1.slot_id == x),
{
    if slot_among(rows, n + 1, x) {
        let j = choose|j: int| 0 <= j < n + 1 && (#[trigger] rows[j]).1.slot_id == x;
        assert(j == n || slot_among(rows, n, x));
    }
    if slot_among(rows, n, x) {
        let j = choose|j: int| 0 <= j < n && (#[trigger] rows[j]).1.slot_id == x;
        assert(0 <= j < n + 1);
    }
}

/// The table after the first `n` rows were deleted.
proof fn lemma_deleted(
    c: &Catalog,
    p: DeletePlanNode,
    trace: Seq<Pages>,
    p1: Pages,
    t: StreamView,
    s: StreamView,
    n: int,
    spent: bool,
)
    requires
        deletes_made(c, p, trace, p1, t, s, spent),
        0 <= n <= s.rows.len(),
    ensures
        ({
            let i = c.table_pos(p.table_oid);
            let before = c.rows(trace[0], i);
            let after = c.rows(trace[n], i);
            &&& after.len() == before.len()
            &&& forall|x: int|
                0 <= x < before.len() ==> (#[trigger] after[x]).data == before[x].data
                    && after[x].deleted == (before[x].deleted || slot_among(t.rows, n, x))
        }),
    decreases n,
{
    if n > 0 {
        lemma_deleted(c, p, trace, p1, t, s, n - 1, spent);
        let i = c.table_pos(p.table_oid);
        let before = c.rows(trace[0], i);
        let mid = c.rows(trace[n - 1], i);
        let after = c.rows(trace[n], i);
        assert(delete_made(
            c,
            p.table_oid,
            i,
            trace[n - 1],
            trace[n - 1 + 1],
            t.rows[n - 1],
            s.rows[n - 1],
        ));
        assert(after == row_deleted(mid, t.rows[n - 1].1.slot_id as int));
        assert forall|x: int| 0 <= x < before.len() implies (#[trigger] after[x]).data
            == before[x].data && after[x].deleted == (before[x].deleted || slot_among(
            t.rows,
            n,
            x,
        )) by {
            lemma_slot_among(t.rows, n - 1, x);
            assert(mid[x].data == before[x].data);
        }
    }
}

/// After a DELETE a scan of the table gives the rows that were there, in their order, but for
/// the deleted ones.
pub proof fn law_delete_then_scan(
    fl: spec_fn(FloatOp, u32, u32) -> u32,
    c: &Catalog,
    p0: Pages,
    p1: Pages,
    p: DeletePlanNode,
    s: StreamView,
    spent: bool,
)
    requires
        c.wf(p0),
        delete_ran(fl, c, p0, p1, p, s, spent),
        s.error is None,
    ensures
        p.child.answers(fl, c, p0, s),
        table_stream(c, p1, p.table_oid).rows == table_stream(c, p0, p.table_oid).rows.filter(
            stays(slots_of(s.rows)),
        ),
{
    let oid = p.table_oid;
    let (t, trace) = choose|t: StreamView, trace: Seq<Pages>|
        p.child.answers(fl, c, p0, t) && trace.len() > 0 && kept(p0, trace[0])
            && #[trigger] deletes_made(c, p, trace, p1, t, s, spent);
    lemma_kept_parts(c, p0, trace[0]);
    let i = c.table_pos(oid);
    assert(is_table(c.tables@, oid, i));
    assert(c.rows(trace[0], i) == c.rows(p0, i));
    let n = s.rows.len() as int;
    lemma_deleted(c, p, trace, p1, t, s, n, spent);
    assert forall|k: int| 0 <= k < n implies (#[trigger] s.rows[k]) == t.rows[k] by {
        assert(delete_made(c, oid, i, trace[k], trace[k + 1], t.rows[k], s.rows[k]));
    }
    assert(s.rows =~= t.rows);
    assert(s == t);
    let gone = slots_of(s.rows);
    let none = Seq::<RowView>::empty();
    if n > 0 {
        assert(delete_made(c, oid, i, trace[n - 1], trace[n - 1 + 1], t.rows[n - 1], s.rows[n - 1]));
    }
    assert(c.wf(p1));
    lemma_scan_changed(c, oid, p0, p1, none, gone);
    assert(table_stream(c, p0, oid).rows + none =~= table_stream(c, p0, oid).rows);
}

/// The table after the first `n` rows were replaced.
pub(crate) proof fn lemma_updated(
    fl: spec_fn(FloatOp, u32, u32) -> u32,
    c: &Catalog,
    p: UpdatePlanNode,
    trace: Seq<Pages>,
    p1: Pages,
    t: StreamView,
    s: StreamView,
    n: int,
    spent: bool,
)
    requires
        updates_made(fl, c, p, trace, p1, t, s, spent),
        0 <= n <= s.rows.len(),
    ensures
        ({
            let i = c.table_pos(p.table_oid);
            let before = c.rows(trace[0], i);
            let after = c.rows(trace[n], i);
            &&& after.len() == before.len() + n
            &&& forall|x: int|
                0 <= x < before.len() ==> (#[trigger] after[x]).data == before[x].data
                    && after[x].deleted == (before[x].deleted || slot_among(t.rows, n, x))
            &&& forall|x: int|
                before.len() <= x < after.len() ==> (#[trigger] after[x]).data == s.rows[x
                    - before.len()].0 && after[x].deleted == slot_among(t.rows, n, x)
            &&& forall|k: int|
                0 <= k < n ==> (#[trigger] s.rows[k]).1 == c.tables@[i].info.heap.rid(
                    before.len() + k,
                )
            &&& forall|j: int|
                0 <= j < n ==> (#[trigger] t.rows[j]).1.slot_id < before.len() + j
        }),
    decreases n,
{
    let i = c.table_pos(p.table_oid);
    let before = c.rows(trace[0], i);
    let after = c.rows(trace[n], i);
    if n > 0 {
        lemma_updated(fl, c, p, trace, p1, t, s, n - 1, spent);
        let mid = c.rows(trace[n - 1], i);
        assert(update_made(
            c,
            p.table_oid,
            i,
            trace[n - 1],
            trace[n - 1 + 1],
            t.rows[n - 1],
            updated(fl, p.target_exprs@, t.rows[n - 1].0, p.schema@),
            s.rows[n - 1],
        ));
        let slot = t.rows[n - 1].1.slot_id as int;
        let new = Row { deleted: false, data: s.rows[n - 1].0 };
        assert(after == row_deleted(mid, slot).push(new));
        assert(0 <= slot < mid.len());
        assert forall|x: int| 0 <= x < before.len() implies (#[trigger] after[x]).data
            == before[x].data && after[x].deleted == (before[x].deleted || slot_among(
            t.rows,
            n,
            x,
        )) by {
            lemma_slot_among(t.rows, n - 1, x);
            assert(mid[x].data == before[x].data);
        }
        assert forall|x: int| before.len() <= x < after.len() implies (
        #[trigger] after[x]).data == s.rows[x - before.len()].0 && after[x].deleted
            == slot_among(t.rows, n, x) by {
            lemma_slot_among(t.rows, n - 1, x);
            if x < mid.len() {
                assert(mid[x].data == s.rows[x - before.len()].0);
            } else if slot_among(t.rows, n, x) {
                let j = choose|j: int| 0 <= j < n && (#[trigger] t.rows[j]).1.slot_id == x;
                assert(t.rows[j].1.slot_id < before.len() + j || j == n - 1);
            }
        }
    }
}

/// What a scan gives once the rows `t` were replaced.
pub(crate) proof fn lemma_replaced(
    fl: spec_fn(FloatOp, u32, u32) -> u32,
    c: &Catalog,
    p0: Pages,
    p1: Pages,
    p: UpdatePlanNode,
    trace: Seq<Pages>,
    t: StreamView,
    s: StreamView,
    spent: bool,
)
    requires
        c.wf(p0),
        c.has_table(p.table_oid),
        trace.len() > 0,
        kept(p0, trace[0]),
        updates_made(fl, c, p, trace, p1, t, s, spent),
        s.error is None,
    ensures
        replaced(fl, c, p0, p1, p, t, s),
        forall|k: int|
            0 <= k < s.rows.len() ==> (#[trigger] s.rows[k]).1.slot_id == c.rows(
                p0,
                c.table_pos(p.table_oid),
            ).len() + k,
{
    let oid = p.table_oid;
    lemma_kept_parts(c, p0, trace[0]);
    let i = c.table_pos(oid);
    assert(is_table(c.tables@, oid, i));
    let heap = c.tables@[i].info.heap;
    assert(c.rows(trace[0], i) == c.rows(p0, i));
    let n = s.rows.len() as int;
    lemma_updated(fl, c, p, trace, p1, t, s, n, spent);
    assert forall|k: int| 0 <= k < n implies updated(
        fl,
        p.target_exprs@,
        t.rows[k].0,
        p.schema@,
    ) == Ok::<Seq<u8>, Seq<char>>((#[trigger] s.rows[k]).0) by {
        assert(update_made(
            c,
            oid,
            i,
            trace[k],
            trace[k + 1],
            t.rows[k],
            updated(fl, p.target_exprs@, t.rows[k].0, p.schema@),
            s.rows[k],
        ));
    }
    if n > 0 {
        assert(update_made(
            c,
            oid,
            i,
            trace[n - 1],
            trace[n - 1 + 1],
            t.rows[n - 1],
            updated(fl, p.target_exprs@, t.rows[n - 1].0, p.schema@),
            s.rows[n - 1],
        ));
    }
    assert(c.wf(p1));
    let gone = slots_of(t.rows);
    let before = c.rows(p0, i);
    let after = c.rows(p1, i);
    assert forall|k: int| 0 <= k < s.rows.len() implies (#[trigger] s.rows[k]) == (
        after[before.len() + k].data,
        heap.rid(before.len() + k),
    ) && after[before.len() + k].deleted == gone(before.len() + k) by {
        assert(after[before.len() + k].data == s.rows[before.len() + k - before.len()].0);
    }
    assert(heap.wf(p1));
    lemma_slots_fit(p1[heap.last_page_id]);
    lemma_scan_changed(c, oid, p0, p1, s.rows, gone);
}

/// After an UPDATE a scan of the table gives the rows that were there but for the replaced ones,
/// and then the new ones, in their order.
pub proof fn law_update_then_scan(
    fl: spec_fn(FloatOp, u32, u32) -> u32,
    c: &Catalog,
    p0: Pages,
    p1: Pages,
    p: UpdatePlanNode,
    s: StreamView,
    spent: bool,
)
    requires
        c.wf(p0),
        update_ran(fl, c, p0, p1, p, s, spent),
        s.error is None,
    ensures
        exists|t: StreamView| #[trigger]
            p.child.answers(fl, c, p0, t) && replaced(fl, c, p0, p1, p, t, s),
{
    let (t, trace) = choose|t: StreamView, trace: Seq<Pages>|
        p.child.answers(fl, c, p0, t) && trace.len() > 0 && kept(p0, trace[0])
            && #[trigger] updates_made(fl, c, p, trace, p1, t, s, spent);
    lemma_replaced(fl, c, p0, p1, p, trace, t, s, spent);
}

/// The rows `t` of a table were replaced by the rows `s`, each by the one that its assignments
/// make of it.
pub open spec fn replaced(
    fl: spec_fn(FloatOp, u32, u32) -> u32,
    c: &Catalog,
    p0: Pages,
    p1: Pages,
    p: UpdatePlanNode,
    t: StreamView,
    s: StreamView,
) -> bool {
    &&& s.rows.len() == t.rows.len()
    &&& forall|k: int|
        0 <= k < t.rows.len() ==> updated(fl, p.target_exprs@, t.rows[k].0, p.schema@) == Ok::<
            Seq<u8>,
            Seq<char>,
        >((#[trigger] s.rows[k]).0)
    &&& table_stream(c, p1, p.table_oid).rows == (table_stream(c, p0, p.table_oid).rows
        + s.rows).filter(stays(slots_of(t.rows)))
}

} // verus!
