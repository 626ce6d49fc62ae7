//! Which rows DELETE and UPDATE change, told by their WHERE expressions.
use vstd::prelude::*;

use crate::catalog::Catalog;
use crate::catalog::registry::is_table;
use crate::index::tree_model::Pages;
use crate::parser::scope::ScopeView;
use crate::planner::scans;
use crate::processor::change_laws::{
    law_delete_then_scan, lemma_live_contains, lemma_replaced, slot_among, slots_of, stays,
};
use crate::processor::executor::{live_rows, table_stream};
use crate::processor::expression::{Expression, FloatOp};
use crate::processor::index_laws::{indexes_mirror, rows_encoded};
use crate::processor::modify::{updated, updates_made};
use crate::processor::plan::{DeletePlanNode, UpdatePlanNode};
use crate::processor::read_laws::is_kept;
use crate::processor::scan_laws::{comparable, is_current, law_scan_is_filter};
use crate::processor::spill::kept;
use crate::processor::statement::{delete_ran, update_ran};
use crate::processor::stream::{RowView, StreamView};
use crate::processor::value_laws::{is_reassigned, law_updated_tuple};
use crate::table_heap::lemma_slots_fit;

verus! {

/// The WHERE expression is true on the row, or there is none.
pub open spec fn is_hit(
    fl: spec_fn(FloatOp, u32, u32) -> u32,
    filter: Option<Expression>,
    t: ScopeView,
    row: RowView,
) -> bool {
    filter matches Some(f) ==> is_kept(fl, f, t.schema, row)
}

/// The rows that the WHERE expression leaves alone, in order.
pub open spec fn spared(
    fl: spec_fn(FloatOp, u32, u32) -> u32,
    filter: Option<Expression>,
    t: ScopeView,
    rows: Seq<RowView>,
) -> Seq<RowView> {
    rows.filter(|row: RowView| !is_hit(fl, filter, t, row))
}

proof fn lemma_same_filter(
    rows: Seq<RowView>,
    p: spec_fn(RowView) -> bool,
    q: spec_fn(RowView) -> bool,
)
    requires
        forall|i: int| 0 <= i < rows.len() ==> p(#[trigger] rows[i]) == q(rows[i]),
    ensures
        rows.filter(p) == rows.filter(q),
    decreases rows.len(),
{
    reveal(Seq::filter);
    if rows.len() > 0 {
        let rest = rows.drop_last();
        assert forall|i: int| 0 <= i < rest.len() implies p(#[trigger] rest[i]) == q(rest[i]) by {
            assert(rest[i] == rows[i]);
        }
        lemma_same_filter(rest, p, q);
        assert(p(rows[rows.len() - 1]) == q(rows[rows.len() - 1]));
    }
}

proof fn lemma_all_pass(rows: Seq<RowView>, p: spec_fn(RowView) -> bool)
    requires
        forall|i: int| 0 <= i < rows.len() ==> p(#[trigger] rows[i]),
    ensures
        rows.filter(p) == rows,
    decreases rows.len(),
{
    reveal(Seq::filter);
    if rows.len() > 0 {
        let rest = rows.drop_last();
        assert forall|i: int| 0 <= i < rest.len() implies p(#[trigger] rest[i]) by {
            assert(rest[i] == rows[i]);
        }
        lemma_all_pass(rest, p);
        assert(p(rows[rows.len() - 1]));
        assert(rest.push(rows.last()) =~= rows);
    }
}

/// The slots of the rows that a scan with a filter found are those of the rows that it hits.
proof fn lemma_hit_slots(
    fl: spec_fn(FloatOp, u32, u32) -> u32,
    c: &Catalog,
    pages: Pages,
    t: ScopeView,
    filter: Option<Expression>,
    found: Seq<RowView>,
)
    requires
        c.wf(pages),
        is_current(c, t),
        forall|row: RowView| #[trigger]
            found.contains(row) <==> table_stream(c, pages, t.oid).rows.contains(row) && is_hit(
                fl,
                filter,
                t,
                row,
            ),
    ensures
        table_stream(c, pages, t.oid).rows.filter(stays(slots_of(found))) == spared(
            fl,
            filter,
            t,
            table_stream(c, pages, t.oid).rows,
        ),
        forall|k: int|
            0 <= k < found.len() ==> (#[trigger] found[k]).1.slot_id < c.table(t.oid).heap.rows(
                pages,
            ).len(),
{
    let heap = c.table(t.oid).heap;
    assert(is_table(c.tables@, t.oid, c.table_pos(t.oid)));
    assert(heap.wf(pages));
    lemma_slots_fit(pages[heap.last_page_id]);
    let rows = table_stream(c, pages, t.oid).rows;
    assert(rows == live_rows(heap, pages));
    let p = stays(slots_of(found));
    let q = |row: RowView| !is_hit(fl, filter, t, row);
    assert forall|i: int| 0 <= i < rows.len() implies p(#[trigger] rows[i]) == q(rows[i]) by {
        let row = rows[i];
        assert(rows.contains(row));
        lemma_live_contains(heap, pages, row);
        if is_hit(fl, filter, t, row) {
            assert(found.contains(row));
            let k = choose|k: int| 0 <= k < found.len() && found[k] == row;
            assert(found[k].1.slot_id == row.1.slot_id);
            assert(slot_among(found, found.len() as int, row.1.slot_id as int));
        } else if slot_among(found, found.len() as int, row.1.slot_id as int) {
            let k = choose|k: int|
                0 <= k < found.len() && (#[trigger] found[k]).1.slot_id == row.1.slot_id;
            assert(found.contains(found[k]));
            lemma_live_contains(heap, pages, found[k]);
            assert(found[k] == row);
        }
    }
    lemma_same_filter(rows, p, q);
    assert forall|k: int| 0 <= k < found.len() implies (#[trigger] found[k]).1.slot_id < heap.rows(
        pages,
    ).len() by {
        assert(found.contains(found[k]));
        lemma_live_contains(heap, pages, found[k]);
    }
}

/// After a DELETE that does not fail the table holds the rows on which the WHERE expression was not
/// true, in their order, and no others. Without a WHERE expression none is left.
pub proof fn law_delete_where(
    fl: spec_fn(FloatOp, u32, u32) -> u32,
    c: &Catalog,
    p0: Pages,
    p1: Pages,
    t: ScopeView,
    filter: Option<Expression>,
    p: DeletePlanNode,
    s: StreamView,
    spent: bool,
)
    requires
        c.wf(p0),
        is_current(c, t),
        p.table_oid == t.oid,
        scans(c, t, filter, *p.child),
        comparable(filter, t.schema),
        indexes_mirror(c, t.oid, p0),
        rows_encoded(c, t.oid, p0),
        delete_ran(fl, c, p0, p1, p, s, spent),
        s.error is None,
    ensures
        table_stream(c, p1, t.oid).rows == spared(fl, filter, t, table_stream(c, p0, t.oid).rows),
        forall|row: RowView| #[trigger]
            s.rows.contains(row) <==> table_stream(c, p0, t.oid).rows.contains(row) && is_hit(
                fl,
                filter,
                t,
                row,
            ),
{
    law_delete_then_scan(fl, c, p0, p1, p, s, spent);
    assert forall|row: RowView| #[trigger] s.rows.contains(row) <==> table_stream(
        c,
        p0,
        t.oid,
    ).rows.contains(row) && is_hit(fl, filter, t, row) by {
        law_scan_is_filter(fl, c, p0, t, filter, *p.child, s, row);
    }
    lemma_hit_slots(fl, c, p0, t, filter, s.rows);
}

/// The rows `found` were replaced by the rows `new`, each by one with the assigned values.
pub open spec fn are_reassigned(
    fl: spec_fn(FloatOp, u32, u32) -> u32,
    p: UpdatePlanNode,
    found: Seq<RowView>,
    new: Seq<RowView>,
) -> bool {
    &&& new.len() == found.len()
    &&& forall|k: int|
        0 <= k < new.len() ==> is_reassigned(
            fl,
            p.target_exprs@,
            p.schema@,
            found[k].0,
            (#[trigger] new[k]).0,
        )
}

/// After an UPDATE that does not fail the table holds the rows on which the WHERE expression was
/// not true, in their order, and behind them for each row on which it was one with the assigned values.
pub proof fn law_update_where(
    fl: spec_fn(FloatOp, u32, u32) -> u32,
    c: &Catalog,
    p0: Pages,
    p1: Pages,
    t: ScopeView,
    filter: Option<Expression>,
    p: UpdatePlanNode,
    s: StreamView,
    spent: bool,
)
    requires
        c.wf(p0),
        p.schema@.wf(),
        is_current(c, t),
        p.table_oid == t.oid,
        scans(c, t, filter, *p.child),
        comparable(filter, t.schema),
        indexes_mirror(c, t.oid, p0),
        rows_encoded(c, t.oid, p0),
        update_ran(fl, c, p0, p1, p, s, spent),
        s.error is None,
    ensures
        table_stream(c, p1, t.oid).rows == spared(fl, filter, t, table_stream(c, p0, t.oid).rows)
            + s.rows,
        exists|found: Seq<RowView>| #[trigger]
            are_reassigned(fl, p, found, s.rows) && forall|row: RowView| #[trigger]
                found.contains(row) <==> table_stream(c, p0, t.oid).rows.contains(row) && is_hit(
                    fl,
                    filter,
                    t,
                    row,
                ),
{
    let (found, trace) = choose|found: StreamView, trace: Seq<Pages>|
        p.child.answers(fl, c, p0, found) && trace.len() > 0 && kept(p0, trace[0])
            && #[trigger] updates_made(fl, c, p, trace, p1, found, s, spent);
    lemma_replaced(fl, c, p0, p1, p, trace, found, s, spent);
    assert(found.error is None);
    assert forall|row: RowView| #[trigger] found.rows.contains(row) <==> table_stream(
        c,
        p0,
        t.oid,
    ).rows.contains(row) && is_hit(fl, filter, t, row) by {
        law_scan_is_filter(fl, c, p0, t, filter, *p.child, found, row);
    }
    lemma_hit_slots(fl, c, p0, t, filter, found.rows);
    let gone = stays(slots_of(found.rows));
    let old_rows = table_stream(c, p0, t.oid).rows;
    let heap = c.table(t.oid).heap;
    let n = heap.rows(p0).len() as int;
    assert(is_table(c.tables@, t.oid, c.table_pos(t.oid)));
    assert(heap.wf(p0));
    lemma_slots_fit(p0[heap.last_page_id]);
    assert forall|k: int| 0 <= k < s.rows.len() implies gone(#[trigger] s.rows[k]) by {
        let x = s.rows[k].1.slot_id as int;
        assert(x == n + k);
        if slot_among(found.rows, found.rows.len() as int, x) {
            let j = choose|j: int|
                0 <= j < found.rows.len() && (#[trigger] found.rows[j]).1.slot_id == x;
            assert(found.rows[j].1.slot_id < n);
        }
    }
    lemma_all_pass(s.rows, gone);
    Seq::filter_distributes_over_add(old_rows, s.rows, gone);
    assert forall|k: int| 0 <= k < s.rows.len() implies is_reassigned(
        fl,
        p.target_exprs@,
        p.schema@,
        found.rows[k].0,
        (#[trigger] s.rows[k]).0,
    ) by {
        assert(updated(fl, p.target_exprs@, found.rows[k].0, p.schema@) == Ok::<
            Seq<u8>,
            Seq<char>,
        >(s.rows[k].0));
        law_updated_tuple(fl, p.target_exprs@, found.rows[k].0, p.schema@);
    }
    assert(are_reassigned(fl, p, found.rows, s.rows));
}

} // verus!
