//! Whichever way a table is read, the same rows come out.
use vstd::prelude::*;

use crate::catalog::Catalog;
use crate::catalog::registry::{is_index, is_table, lemma_positions, positions};
use crate::catalog::schema::SchemaView;
use crate::index::tree_model::Pages;
use crate::parser::scope::ScopeView;
use crate::planner::{all_rows, index_for, index_on_column, probe_of, scan_index_of, scans};
use crate::processor::change_laws::{lemma_live_contains, lemma_updated};
use crate::processor::executor::{filter_stream, table_stream, values_part};
use crate::processor::executor_factory::lemma_kept_parts;
use crate::processor::expression::{Expression, FloatOp};
use crate::processor::index_access::scan_refused;
use crate::processor::index_laws::{
    indexes_mirror, is_encoded, law_lookup_is_filter, law_mirrored_scan, rows_encoded, rows_stored,
};
use crate::processor::laws::{holds_on, law_filter_rows};
use crate::processor::modify::{insert_outcome, update_made, updated, updates_made};
use crate::processor::plan::{InsertPlanNode, Plan, UpdatePlanNode};
use crate::processor::spill::kept;
use crate::processor::statement::{insert_ran, update_ran};
use crate::processor::stream::{flat, RowView, StreamView};
use crate::table_heap::lemma_slots_fit;

verus! {

/// The table in scope is the one of the catalog.
pub open spec fn is_current(c: &Catalog, t: ScopeView) -> bool {
    c.has_table(t.oid) && t.schema == c.table(t.oid).schema@
}

/// A row satisfies a filter, if there is one.
pub open spec fn passes(
    fl: spec_fn(FloatOp, u32, u32) -> u32,
    filter: Option<Expression>,
    s: SchemaView,
    row: RowView,
) -> bool {
    match filter {
        Some(f) => holds_on(fl, f, s)(row),
        None => true,
    }
}

/// A filter that compares a column with a value of its own type, or does something else.
pub open spec fn comparable(filter: Option<Expression>, s: SchemaView) -> bool {
    probe_of(filter) matches Some((col, v)) ==> v.dtype() == s.cols[col as int].dtype
}

/// The index that a filter goes through is one on that column of the table.
pub(crate) proof fn lemma_index_for(c: &Catalog, oid: u32, col: usize) -> (j: int)
    requires
        c.valid(),
        index_for(c, oid, col) is Some,
    ensures
        is_index(c.indexes@, index_for(c, oid, col)->0, j),
        c.indexes@[j].table_oid == oid,
        c.indexes@[j].index.indexed_col_idxs@ == seq![col],
        c.has_index(index_for(c, oid, col)->0),
        c.index(index_for(c, oid, col)->0) == c.indexes@[j],
{
    let infos = c.table_indexes(oid);
    let found = index_for(c, oid, col)->0;
    let a = lemma_index_on_column(infos, col, 0);
    lemma_positions(c.indexes@, oid, true, c.indexes@.len() as int);
    let ps = positions(c.indexes@, oid, true, c.indexes@.len() as int);
    let j = ps[a];
    assert(infos[a] == c.indexes@[j]);
    assert(is_index(c.indexes@, found, j));
    let k = c.index_pos(found);
    assert(is_index(c.indexes@, found, k));
    if k < j {
        assert(c.indexes@[k].oid != c.indexes@[j].oid);
    } else if j < k {
        assert(c.indexes@[j].oid != c.indexes@[k].oid);
    }
    j
}

proof fn lemma_index_on_column(
    infos: Seq<crate::catalog::IndexInfo>,
    col: usize,
    i: int,
) -> (a: int)
    requires
        0 <= i,
        index_on_column(infos, col, i) is Some,
    ensures
        0 <= a < infos.len(),
        infos[a].oid == index_on_column(infos, col, i)->0,
        infos[a].index.indexed_col_idxs@ == seq![col],
    decreases infos.len() - i,
{
    if infos[i].index.indexed_col_idxs@ == seq![col] {
        i
    } else {
        lemma_index_on_column(infos, col, i + 1)
    }
}

/// What a scan without an index gives.
proof fn lemma_full_scan(
    fl: spec_fn(FloatOp, u32, u32) -> u32,
    c: &Catalog,
    pages: Pages,
    t: ScopeView,
    filter: Option<Expression>,
    plan: Plan,
    s: StreamView,
    row: RowView,
)
    requires
        scans(c, t, filter, plan),
        scan_index_of(c, t.oid, filter) is None,
        plan.answers(fl, c, pages, s),
        s.error is None,
    ensures
        s.rows.contains(row) <==> table_stream(c, pages, t.oid).rows.contains(row) && passes(
            fl,
            filter,
            t.schema,
            row,
        ),
{
    reveal(Plan::given_none);
    reveal(Plan::given_child);
    match filter {
        Some(f) => {
            let child = plan.first_child();
            assert(all_rows(t, child));
            let all = choose|all: StreamView|
                child.answers(fl, c, pages, all) && #[trigger] plan.given_child(
                    fl,
                    all,
                    s,
                    child.out_schema(),
                    c,
                    pages,
                );
            assert(all == table_stream(c, pages, t.oid));
            assert(s == filter_stream(fl, f, all, t.schema));
            law_filter_rows(fl, f, all, t.schema);
            let p = holds_on(fl, f, t.schema);
            if s.rows.contains(row) {
                all.rows.lemma_filter_contains_rev(p, row);
                let k = choose|k: int| 0 <= k < s.rows.len() && s.rows[k] == row;
                all.rows.lemma_filter_pred(p, k);
            }
            if all.rows.contains(row) && p(row) {
                let k = choose|k: int| 0 <= k < all.rows.len() && all.rows[k] == row;
                all.rows.lemma_filter_contains(p, k);
            }
        },
        None => {
            assert(s == table_stream(c, pages, t.oid));
        },
    }
}

/// A scan of a table with a filter, planned through an index or not, gives the rows of the table
/// that satisfy the filter, and no others.
pub proof fn law_scan_is_filter(
    fl: spec_fn(FloatOp, u32, u32) -> u32,
    c: &Catalog,
    pages: Pages,
    t: ScopeView,
    filter: Option<Expression>,
    plan: Plan,
    s: StreamView,
    row: RowView,
)
    requires
        c.wf(pages),
        is_current(c, t),
        scans(c, t, filter, plan),
        comparable(filter, t.schema),
        indexes_mirror(c, t.oid, pages),
        rows_encoded(c, t.oid, pages),
        plan.answers(fl, c, pages, s),
        s.error is None,
    ensures
        s.rows.contains(row) <==> table_stream(c, pages, t.oid).rows.contains(row) && passes(
            fl,
            filter,
            t.schema,
            row,
        ),
{
    match scan_index_of(c, t.oid, filter) {
        None => lemma_full_scan(fl, c, pages, t, filter, plan, s, row),
        Some((index, v)) => {
            reveal(Plan::given_none);
            let (col, _) = probe_of(filter)->0;
            let j = lemma_index_for(c, t.oid, col as usize);
            assert(c.index_fits(c.indexes@[j]));
            let p = plan->IndexScan_0;
            law_lookup_is_filter(
                fl,
                c,
                pages,
                index,
                p.start,
                p.end,
                filter->0,
                col,
                v,
                s,
                row,
            );
        },
    }
}

/// The rows of a scan of a table are rows of that table.
pub proof fn law_scan_rows_stored(
    fl: spec_fn(FloatOp, u32, u32) -> u32,
    c: &Catalog,
    pages: Pages,
    t: ScopeView,
    filter: Option<Expression>,
    plan: Plan,
    s: StreamView,
)
    requires
        c.wf(pages),
        is_current(c, t),
        scans(c, t, filter, plan),
        indexes_mirror(c, t.oid, pages),
        plan.answers(fl, c, pages, s),
        s.error is None,
    ensures
        rows_stored(c, t.oid, pages, s.rows),
{
    let i = c.table_pos(t.oid);
    assert(is_table(c.tables@, t.oid, i));
    let heap = c.tables@[i].info.heap;
    assert(heap.wf(pages));
    lemma_slots_fit(pages[heap.last_page_id]);
    assert forall|k: int| 0 <= k < s.rows.len() implies ({
        &&& (#[trigger] s.rows[k]).1.slot_id < c.rows(pages, i).len()
        &&& c.rows(pages, i)[s.rows[k].1.slot_id as int].data == s.rows[k].0
    }) by {
        let row = s.rows[k];
        assert(s.rows.contains(row));
        match scan_index_of(c, t.oid, filter) {
            None => lemma_full_scan(fl, c, pages, t, filter, plan, s, row),
            Some((index, v)) => {
                reveal(Plan::given_none);
                let (col, _) = probe_of(filter)->0;
                let j = lemma_index_for(c, t.oid, col as usize);
                assert(c.index_fits(c.indexes@[j]));
                let p = plan->IndexScan_0;
                if !scan_refused(c.indexes@[j].index, pages, p.start, p.end) {
                    law_mirrored_scan(c, pages, index, p.start, p.end, s, row);
                }
            },
        }
        lemma_live_contains(heap, pages, row);
    }
}

proof fn lemma_values_encoded(
    fl: spec_fn(FloatOp, u32, u32) -> u32,
    rows: Seq<Vec<Expression>>,
    schema: SchemaView,
    n: int,
)
    ensures
        forall|k: int|
            0 <= k < flat(values_part(fl, rows, schema), n).rows.len() ==> is_encoded(
                schema,
                (#[trigger] flat(values_part(fl, rows, schema), n).rows[k]).0,
            ),
    decreases n,
{
    if n > 0 {
        lemma_values_encoded(fl, rows, schema, n - 1);
    }
}

/// An INSERT of values under the schema of the table leaves rows that hold values of the types
/// of its columns.
pub proof fn law_insert_keeps_encoded(
    fl: spec_fn(FloatOp, u32, u32) -> u32,
    c: &Catalog,
    p0: Pages,
    p1: Pages,
    p: InsertPlanNode,
    s: StreamView,
    spent: bool,
)
    requires
        c.wf(p0),
        insert_ran(fl, c, p0, p1, p, s, spent),
        s.error is None,
        *p.child matches Plan::Values(q) && q.schema@ == c.table(p.table_oid).schema@,
        rows_encoded(c, p.table_oid, p0),
    ensures
        rows_encoded(c, p.table_oid, p1),
{
    reveal(Plan::given_none);
    let oid = p.table_oid;
    let i = c.table_pos(oid);
    let (t, pm) = choose|t: StreamView, pm: Pages|
        p.child.answers(fl, c, p0, t) && kept(p0, pm) && #[trigger] insert_outcome(
            c,
            oid,
            pm,
            p1,
            t,
            s,
            spent,
        );
    assert(is_table(c.tables@, oid, i));
    lemma_kept_parts(c, p0, pm);
    assert(c.rows(pm, i) == c.rows(p0, i));
    let q = (*p.child)->Values_0;
    lemma_values_encoded(fl, q.rows@, q.schema@, q.rows@.len() as int);
    let (before, after) = (c.rows(p0, i), c.rows(p1, i));
    assert forall|x: int| 0 <= x < after.len() && !(#[trigger] after[x]).deleted implies is_encoded(
        c.table(oid).schema@,
        after[x].data,
    ) by {
        if x < before.len() {
            assert(after[x] == before[x]);
        } else {
            assert(after[x].data == t.rows[x - before.len()].0);
        }
    }
}

/// An UPDATE under the schema of the table leaves rows that hold values of the types of its
/// columns.
pub proof fn law_update_keeps_encoded(
    fl: spec_fn(FloatOp, u32, u32) -> u32,
    c: &Catalog,
    p0: Pages,
    p1: Pages,
    p: UpdatePlanNode,
    s: StreamView,
    spent: bool,
)
    requires
        c.wf(p0),
        update_ran(fl, c, p0, p1, p, s, spent),
        s.error is None,
        p.schema@ == c.table(p.table_oid).schema@,
        rows_encoded(c, p.table_oid, p0),
    ensures
        rows_encoded(c, p.table_oid, p1),
{
    let oid = p.table_oid;
    let i = c.table_pos(oid);
    let (t, trace) = choose|t: StreamView, trace: Seq<Pages>|
        p.child.answers(fl, c, p0, t) && trace.len() > 0 && kept(p0, trace[0])
            && #[trigger] updates_made(fl, c, p, trace, p1, t, s, spent);
    assert(is_table(c.tables@, oid, i));
    lemma_kept_parts(c, p0, trace[0]);
    assert(c.rows(trace[0], i) == c.rows(p0, i));
    let n = s.rows.len() as int;
    lemma_updated(fl, c, p, trace, p1, t, s, n, spent);
    let (before, after) = (c.rows(p0, i), c.rows(p1, i));
    assert forall|x: int| 0 <= x < after.len() && !(#[trigger] after[x]).deleted implies is_encoded(
        c.table(oid).schema@,
        after[x].data,
    ) by {
        if x < before.len() {
            assert(after[x].data == before[x].data);
        } else {
            let k = x - before.len();
            assert(after[x].data == s.rows[k].0);
            let new = updated(fl, p.target_exprs@, t.rows[k].0, p.schema@);
            assert(update_made(
                c,
                oid,
                i,
                trace[k],
                trace[k + 1],
                t.rows[k],
                new,
                s.rows[k],
            ));
            assert(new == Ok::<Seq<u8>, Seq<char>>(after[x].data));
        }
    }
}

} // verus!
