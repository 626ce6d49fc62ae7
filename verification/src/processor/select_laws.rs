//! `SELECT *` gives back what `INSERT` wrote.
use vstd::prelude::*;

use crate::ast::{Expr, GroupBy, SetExpr, Statement};
use crate::catalog::laws::lemma_table_at;
use crate::catalog::registry::{is_table, is_table_named};
use crate::catalog::schema::{law_tuple_roundtrip, payload, SchemaView};
use crate::catalog::value::Value;
use crate::catalog::{Catalog, CatalogError};
use crate::index::tree_model::Pages;
use crate::parser::binder::{
    describes, query_bound, select_bound, statement_bound, BoundStatement,
};
use crate::parser::scope::{
    all_columns, column_ref, ident_of, projected, resolved_all, scope_view, table_columns, AggView,
    BinderError, ScopeView,
};
use crate::planner::{all_rows, groups, planned, reads, result_columns, selects, sorts_by};
use crate::processor::change_laws::{law_insert_then_scan, lemma_live_contains, stored_behind};
use crate::processor::executor::{
    live_rows, projection_part, projection_stream, shaped, table_stream,
};
use crate::processor::expression::{eval, Expression, FloatOp};
use crate::processor::index_laws::{is_encoded, rows_encoded};
use crate::processor::plan::{InsertPlanNode, Plan};
use crate::processor::scan_laws::law_insert_keeps_encoded;
use crate::processor::statement::insert_ran;
use crate::processor::stream::{eval_all, flat, one_row, unstored, RowView, StreamView};

verus! {

/// The expressions are the columns of a schema, in order.
pub open spec fn are_columns(exprs: Seq<Expression>, s: SchemaView) -> bool {
    &&& exprs.len() == s.cols.len() <= u32::MAX
    &&& forall|i: int|
        0 <= i < exprs.len() ==> ((#[trigger] exprs[i]) matches Expression::Column {
            tuple_idx,
            col_idx,
            dtype,
        } && tuple_idx == 0 && col_idx == i)
}

/// The schemas have columns of the same types.
pub open spec fn same_columns(a: SchemaView, b: SchemaView) -> bool {
    &&& a.cols.len() == b.cols.len()
    &&& forall|i: int| 0 <= i < a.cols.len() ==> (#[trigger] a.cols[i]).dtype == b.cols[i].dtype
}

proof fn lemma_same_payload(
    a: SchemaView,
    b: SchemaView,
    values: Seq<Option<Value>>,
    n: int,
)
    requires
        same_columns(a, b),
        n <= a.cols.len(),
    ensures
        payload(a.cols, values, n) == payload(b.cols, values, n),
    decreases n,
{
    if n > 0 {
        lemma_same_payload(a, b, values, n - 1);
        assert(a.cols[n - 1].dtype == b.cols[n - 1].dtype);
    }
}

proof fn lemma_column_values(
    fl: spec_fn(FloatOp, u32, u32) -> u32,
    exprs: Seq<Expression>,
    s: SchemaView,
    values: Seq<Option<Value>>,
    n: int,
)
    requires
        s.wf(),
        s.accepts(values),
        are_columns(exprs, s),
        0 <= n <= exprs.len(),
    ensures
        eval_all(fl, exprs.subrange(0, n), s.row(values), s) == Ok::<
            Seq<Option<Value>>,
            Seq<char>,
        >(values.subrange(0, n)),
    decreases n,
{
    if n > 0 {
        lemma_column_values(fl, exprs, s, values, n - 1);
        law_tuple_roundtrip(s, values);
        let part = exprs.subrange(0, n);
        assert(part.drop_last() =~= exprs.subrange(0, n - 1));
        assert(part.last() == exprs[n - 1]);
        assert(s.field(s.row(values), n - 1) == Ok::<Option<Value>, CatalogError>(values[n - 1]));
        assert(eval(fl, exprs[n - 1], s.row(values), s) == Ok::<Option<Value>, Seq<char>>(
            values[n - 1],
        ));
        assert(values.subrange(0, n) =~= values.subrange(0, n - 1).push(values[n - 1]));
    } else {
        assert(values.subrange(0, 0) =~= Seq::empty());
        assert(exprs.subrange(0, 0).len() == 0);
    }
}

/// All columns of an encoded row make up that row again.
proof fn lemma_row_again(
    fl: spec_fn(FloatOp, u32, u32) -> u32,
    exprs: Seq<Expression>,
    s: SchemaView,
    out: SchemaView,
    d: Seq<u8>,
)
    requires
        s.wf(),
        out.wf(),
        same_columns(s, out),
        are_columns(exprs, s),
        is_encoded(s, d),
    ensures
        shaped(fl, exprs, d, s, out) == Ok::<Seq<u8>, Seq<char>>(d),
{
    let values = choose|values: Seq<Option<Value>>|
        s.accepts(values) && d == #[trigger] s.row(values);
    lemma_column_values(fl, exprs, s, values, exprs.len() as int);
    assert(exprs.subrange(0, exprs.len() as int) =~= exprs);
    assert(values.subrange(0, values.len() as int) =~= values);
    lemma_same_payload(s, out, values, values.len() as int);
    assert forall|i: int| 0 <= i < values.len() implies ((#[trigger] values[i]) matches Some(v)
        ==> v.dtype() == out.cols[i].dtype) by {
        assert(s.cols[i].dtype == out.cols[i].dtype);
    }
    assert(out.accepts(values));
    assert(out.row(values) == s.row(values));
}

/// The rows without their places.
pub open spec fn without_places(rows: Seq<RowView>) -> Seq<RowView> {
    Seq::new(rows.len(), |k: int| unstored(rows[k].0))
}

proof fn lemma_project_all(
    fl: spec_fn(FloatOp, u32, u32) -> u32,
    exprs: Seq<Expression>,
    rows: Seq<RowView>,
    s: SchemaView,
    out: SchemaView,
    n: int,
)
    requires
        forall|k: int|
            0 <= k < rows.len() ==> shaped(fl, exprs, (#[trigger] rows[k]).0, s, out) == Ok::<
                Seq<u8>,
                Seq<char>,
            >(rows[k].0),
        0 <= n <= rows.len(),
    ensures
        flat(projection_part(fl, exprs, rows, s, out), n).error is None,
        flat(projection_part(fl, exprs, rows, s, out), n).rows == without_places(
            rows.subrange(0, n),
        ),
    decreases n,
{
    let f = projection_part(fl, exprs, rows, s, out);
    if n > 0 {
        lemma_project_all(fl, exprs, rows, s, out, n - 1);
        let row = rows[n - 1];
        assert(f(n - 1) == one_row(shaped(fl, exprs, row.0, s, out)));
        assert(f(n - 1).rows == seq![unstored(row.0)]);
        assert(without_places(rows.subrange(0, n)) =~= without_places(
            rows.subrange(0, n - 1),
        ).push(unstored(row.0)));
        assert(flat(f, n).rows =~= without_places(rows.subrange(0, n)));
    } else {
        assert(flat(f, n).rows =~= without_places(rows.subrange(0, n)));
    }
}

/// The projection of encoded rows to all their columns gives the rows themselves.
pub proof fn law_project_all(
    fl: spec_fn(FloatOp, u32, u32) -> u32,
    exprs: Seq<Expression>,
    child: StreamView,
    s: SchemaView,
    out: SchemaView,
)
    requires
        s.wf(),
        out.wf(),
        same_columns(s, out),
        are_columns(exprs, s),
        forall|k: int| 0 <= k < child.rows.len() ==> is_encoded(s, (#[trigger] child.rows[k]).0),
    ensures
        projection_stream(fl, exprs, child, s, out) == (StreamView {
            rows: without_places(child.rows),
            error: child.error,
        }),
{
    assert forall|k: int| 0 <= k < child.rows.len() implies shaped(
        fl,
        exprs,
        (#[trigger] child.rows[k]).0,
        s,
        out,
    ) == Ok::<Seq<u8>, Seq<char>>(child.rows[k].0) by {
        assert(is_encoded(s, child.rows[k].0));
        lemma_row_again(fl, exprs, s, out, child.rows[k].0);
    }
    lemma_project_all(fl, exprs, child.rows, s, out, child.rows.len() as int);
    assert(child.rows.subrange(0, child.rows.len() as int) =~= child.rows);
}

/// The statement is `SELECT *` from one table, without any further clause.
pub open spec fn is_select_all(stmt: Statement) -> bool {
    stmt matches Statement::Query(q) && q.order_by is None && q.limit_clause is None && (
    q.body matches SetExpr::Select(s) && {
        &&& s.projection@.len() == 1
        &&& s.projection@[0] is Wildcard
        &&& s.from@.len() == 1
        &&& s.from@[0].joins@.len() == 0
        &&& s.selection is None
        &&& s.group_by matches GroupBy::Expressions { exprs, modifiers } && exprs@.len() == 0
            && !modifiers
    })
}

/// What `SELECT *` is bound to: the table and all its columns.
proof fn lemma_select_all_bound(c: &Catalog, stmt: Statement, b: BoundStatement) -> (t: ScopeView)
    requires
        c.valid(),
        is_select_all(stmt),
        statement_bound(c, stmt, Ok::<BoundStatement, BinderError>(b)),
    ensures
        b is Select,
        ({
            let v = b->Select_0@;
            &&& v.scope == seq![t]
            &&& v.join is None
            &&& v.projections == table_columns(t)
            &&& v.filters is None
            &&& v.group_bys.len() == 0
            &&& v.aggregates.len() == 0
            &&& v.sort is None
            &&& v.limit is None
        }),
        t.idx == 0,
        c.has_table(t.oid),
        t.schema == c.table(t.oid).schema@,
{
    let q = stmt->Query_0;
    let s = q.body->Select_0;
    assert(query_bound(c, q) is Ok);
    let bound = select_bound(c, s, q);
    assert(bound is Ok);
    let v = bound->Ok_0;
    let t = v.scope[0];
    let none = Seq::<Expr>::empty();
    assert((s.group_by->exprs)@ =~= none);
    assert(resolved_all(seq![t], none) == Ok::<Seq<Expression>, Seq<char>>(Seq::empty()));
    assert(s.projection@[0] is Wildcard);
    assert(projected(seq![t], None, s.projection@, 0) == Ok::<
        (Seq<Expression>, Option<AggView>),
        Seq<char>,
    >((Seq::empty(), None)));
    assert(all_columns(seq![t], 0) =~= Seq::empty());
    assert(all_columns(seq![t], 1) =~= table_columns(t));
    assert(v.projections =~= table_columns(t));
    let i = choose|i: int|
        is_table_named(
            c.tables@,
            ident_of(s.from@[0].relation->name)->Ok_0,
            i,
        );
    assert(is_table(c.tables@, t.oid, i));
    lemma_table_at(c, t.oid, i);
    t
}

/// `SELECT *` gives all rows of the table, in order.
pub proof fn law_select_all(
    fl: spec_fn(FloatOp, u32, u32) -> u32,
    c: &Catalog,
    pages: Pages,
    stmt: Statement,
    b: BoundStatement,
    plan: Plan,
    oid: u32,
    s: StreamView,
)
    requires
        c.wf(pages),
        is_select_all(stmt),
        statement_bound(c, stmt, Ok::<BoundStatement, BinderError>(b)),
        planned(c, b, plan),
        b matches BoundStatement::Select(sel) && scope_view(sel.scope@)[0].oid == oid,
        c.table(oid).schema@.cols.len() <= u32::MAX,
        rows_encoded(c, oid, pages),
        plan.answers(fl, c, pages, s),
    ensures
        s.error is None,
        s.rows == without_places(table_stream(c, pages, oid).rows),
{
    let t = lemma_select_all_bound(c, stmt, b);
    let v = b->Select_0@;
    assert(t == scope_view(b->Select_0.scope@)[0]);
    assert(selects(c, v, plan));
    let source = plan.first_child();
    let (s0, s1) = choose|s0: SchemaView, s1: SchemaView| #[trigger]
        reads(c, v, s0, source) && #[trigger] groups(v, s0, s1, source)
            && sorts_by(v.sort, s1, source) && (plan matches Plan::Projection(p)
            && p.expressions@ == v.projections && describes(
            p.schema@,
            result_columns(v.projections, s1, "col"@),
        ));
    assert(s0 == t.schema && s1 == t.schema);
    assert(all_rows(t, source));
    let p = plan->Projection_0;
    reveal(Plan::given_none);
    reveal(Plan::given_child);
    let all = choose|all: StreamView|
        source.answers(fl, c, pages, all) && #[trigger] plan.given_child(
            fl,
            all,
            s,
            source.out_schema(),
            c,
            pages,
        );
    assert(all == table_stream(c, pages, oid));
    let i = c.table_pos(oid);
    assert(is_table(c.tables@, oid, i));
    assert(c.tables@[i].info.schema@.wf());
    assert forall|k: int| 0 <= k < v.projections.len() implies ((
    #[trigger] v.projections[k]) matches Expression::Column { tuple_idx, col_idx, dtype }
        && tuple_idx == 0 && col_idx == k) by {
        assert(v.projections[k] == column_ref(t, k));
    }
    assert forall|k: int| 0 <= k < t.schema.cols.len() implies (
    #[trigger] t.schema.cols[k]).dtype == p.schema@.cols[k].dtype by {
        assert(v.projections[k] == column_ref(t, k));
        assert(result_columns(v.projections, s1, "col"@)[k].0 == t.schema.cols[k].dtype);
    }
    assert forall|k: int| 0 <= k < all.rows.len() implies is_encoded(
        t.schema,
        (#[trigger] all.rows[k]).0,
    ) by {
        lemma_rows_encoded(c, oid, pages, k);
    }
    law_project_all(fl, v.projections, all, t.schema, p.schema@);
}

proof fn lemma_rows_encoded(c: &Catalog, oid: u32, pages: Pages, k: int)
    requires
        c.has_table(oid),
        rows_encoded(c, oid, pages),
        0 <= k < table_stream(c, pages, oid).rows.len(),
    ensures
        is_encoded(c.table(oid).schema@, table_stream(c, pages, oid).rows[k].0),
{
    let i = c.table_pos(oid);
    let heap = c.tables@[i].info.heap;
    let row = live_rows(heap, pages)[k];
    assert(live_rows(heap, pages).contains(row));
    lemma_live_contains(heap, pages, row);
    let rows = heap.rows(pages);
    let x = choose|x: int|
        0 <= x < rows.len() && !(#[trigger] rows[x]).deleted && row == (rows[x].data, heap.rid(x));
    assert(is_encoded(c.table(oid).schema@, c.rows(pages, i)[x].data));
}

/// After an INSERT of values, `SELECT *` gives the rows that the table had and then the inserted
/// ones.
pub proof fn law_insert_then_select(
    fl: spec_fn(FloatOp, u32, u32) -> u32,
    c: &Catalog,
    p0: Pages,
    p1: Pages,
    p: InsertPlanNode,
    done: StreamView,
    stmt: Statement,
    b: BoundStatement,
    plan: Plan,
    s: StreamView,
    spent: bool,
)
    requires
        c.wf(p0),
        c.wf(p1),
        insert_ran(fl, c, p0, p1, p, done, spent),
        done.error is None,
        *p.child matches Plan::Values(q) && q.schema@ == c.table(p.table_oid).schema@,
        rows_encoded(c, p.table_oid, p0),
        c.table(p.table_oid).schema@.cols.len() <= u32::MAX,
        is_select_all(stmt),
        statement_bound(c, stmt, Ok::<BoundStatement, BinderError>(b)),
        planned(c, b, plan),
        b matches BoundStatement::Select(sel) && scope_view(sel.scope@)[0].oid == p.table_oid,
        plan.answers(fl, c, p1, s),
    ensures
        s.error is None,
        exists|t: StreamView| #[trigger]
            p.child.answers(fl, c, p0, t) && s.rows == without_places(
                table_stream(c, p0, p.table_oid).rows,
            ) + without_places(t.rows),
{
    let oid = p.table_oid;
    law_insert_then_scan(fl, c, p0, p1, p, done, spent);
    law_insert_keeps_encoded(fl, c, p0, p1, p, done, spent);
    law_select_all(fl, c, p1, stmt, b, plan, oid, s);
    let t = choose|t: StreamView| #[trigger]
        p.child.answers(fl, c, p0, t) && table_stream(c, p1, oid).rows == table_stream(
            c,
            p0,
            oid,
        ).rows + stored_behind(c, oid, p0, t.rows);
    assert(s.rows =~= without_places(table_stream(c, p0, oid).rows) + without_places(t.rows));
}

} // verus!
