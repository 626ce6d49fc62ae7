//! What holds of every statement that was bound.
use vstd::prelude::*;

use crate::ast::{CreateIndex, Expr, Query, SetExpr, Statement, Update};
use crate::catalog::Catalog;
use crate::catalog::schema::column_at;
use crate::catalog::value::DataType;
use crate::parser::binder::{
    assignments_bound, create_index_bound, key_bound, query_bound, statement_bound, BoundStatement,
    QueryView,
};
use crate::parser::scope::{
    aggregate_argument, aggregate_named, alias_at, column_ref, counted, found_name, group_match,
    has_name, name_pos, resolved, scope_view, table_of, AggView, BinderError, ScopeEntry, ScopeView,
};
use crate::planner::{scope_ok, unplannable};
use crate::processor::expression::Expression;

verus! {

/// Column `col_idx` of the table at `i` in the scope.
pub open spec fn is_column_of(
    scope: Seq<ScopeView>,
    i: int,
    tuple_idx: u8,
    col_idx: u32,
    dtype: DataType,
) -> bool {
    &&& 0 <= i < scope.len()
    &&& scope[i].idx == tuple_idx
    &&& col_idx < scope[i].schema.cols.len()
    &&& scope[i].schema.cols[col_idx as int].dtype == dtype
}

/// All columns of the expression are columns of tables in scope, with their types.
pub open spec fn in_scope(scope: Seq<ScopeView>, e: Expression) -> bool
    decreases e,
{
    match e {
        Expression::Constant(_) => true,
        Expression::Column { tuple_idx, col_idx, dtype } => exists|i: int| #[trigger]
            is_column_of(scope, i, tuple_idx, col_idx, dtype),
        Expression::Binary { left, right, op } => in_scope(scope, *left) && in_scope(
            scope,
            *right,
        ),
    }
}

/// No table in scope has more columns than can be referred to.
pub open spec fn columns_countable(scope: Seq<ScopeView>) -> bool {
    forall|i: int| 0 <= i < scope.len() ==> (#[trigger] scope[i]).schema.cols.len() <= u32::MAX
}

proof fn lemma_column_in_scope(scope: Seq<ScopeView>, i: int, name: Seq<char>)
    requires
        columns_countable(scope),
        0 <= i < scope.len(),
        has_name(scope[i], name),
    ensures
        in_scope(scope, column_ref(scope[i], name_pos(scope[i], name))),
{
    let c = name_pos(scope[i], name);
    assert(column_at(scope[i].schema.cols, name, c));
    match column_ref(scope[i], c) {
        Expression::Column { tuple_idx, col_idx, dtype } => {
            assert(is_column_of(scope, i, tuple_idx, col_idx, dtype));
        },
        _ => {},
    }
}

proof fn lemma_found_in_scope(scope: Seq<ScopeView>, name: Seq<char>, n: int)
    requires
        columns_countable(scope),
        n <= scope.len(),
        found_name(scope, name, n) matches Ok(Some(_)),
    ensures
        in_scope(scope, found_name(scope, name, n)->Ok_0->0),
    decreases n,
{
    if has_name(scope[n - 1], name) {
        lemma_column_in_scope(scope, n - 1, name);
    } else {
        lemma_found_in_scope(scope, name, n - 1);
    }
}

pub(crate) proof fn lemma_resolved_column(scope: Seq<ScopeView>, name: Seq<char>, n: int)
    ensures
        found_name(scope, name, n) matches Ok(Some(x)) ==> x is Column,
    decreases n,
{
    if n > 0 {
        lemma_resolved_column(scope, name, n - 1);
    }
}

/// An expression that was resolved refers to columns of the tables in scope alone, each with its
/// own type.
pub proof fn law_resolved_in_scope(scope: Seq<ScopeView>, e: Expr, inside: bool)
    requires
        columns_countable(scope),
        resolved(scope, e, inside) is Ok,
    ensures
        in_scope(scope, resolved(scope, e, inside)->Ok_0),
    decreases e,
{
    match e {
        Expr::Nested(inner) => law_resolved_in_scope(scope, *inner, inside),
        Expr::Identifier(id) => lemma_found_in_scope(scope, id.value@, scope.len() as int),
        Expr::CompoundIdentifier(parts) => {
            let alias = parts@[0].value@;
            let i = choose|i: int| alias_at(scope, alias, i);
            lemma_column_in_scope(scope, i, parts@[1].value@);
        },
        Expr::BinaryOp { left, op, right } => {
            law_resolved_in_scope(scope, *left, inside);
            law_resolved_in_scope(scope, *right, inside);
        },
        _ => {},
    }
}

/// All columns of the expression are among the first `n`.
pub open spec fn columns_below(e: Expression, n: nat) -> bool
    decreases e,
{
    match e {
        Expression::Constant(_) => true,
        Expression::Column { tuple_idx, col_idx, dtype } => tuple_idx == 0 && col_idx < n,
        Expression::Binary { left, right, op } => columns_below(*left, n) && columns_below(
            *right,
            n,
        ),
    }
}

proof fn lemma_columns_below(e: Expression, m: nat, n: nat)
    requires
        columns_below(e, m),
        m <= n,
    ensures
        columns_below(e, n),
    decreases e,
{
    match e {
        Expression::Binary { left, right, op } => {
            lemma_columns_below(*left, m, n);
            lemma_columns_below(*right, m, n);
        },
        _ => {},
    }
}

/// The columns that an aggregation gives.
pub open spec fn aggregated_width(ctx: AggView) -> nat {
    ctx.group_bys.len() + ctx.aggregates.len()
}

/// The arguments of all aggregates are over the tables in scope.
pub open spec fn arguments_in_scope(scope: Seq<ScopeView>, ctx: AggView) -> bool {
    forall|i: int|
        0 <= i < ctx.aggregates.len() ==> in_scope(scope, (#[trigger] ctx.aggregates[i]).0)
}

/// The bookkeeping grew: what it held is still there, in place.
pub open spec fn grew(a: AggView, b: AggView) -> bool {
    &&& b.group_by_exprs == a.group_by_exprs
    &&& b.group_bys == a.group_bys
    &&& a.aggregates.len() <= b.aggregates.len()
    &&& b.aggregates.subrange(0, a.aggregates.len() as int) == a.aggregates
}

proof fn lemma_group_match(exprs: Seq<Expr>, e: Expr, i: int)
    requires
        0 <= i,
    ensures
        group_match(exprs, e, i) matches Some(k) ==> 0 <= k < exprs.len(),
    decreases exprs.len() - i,
{
    if i < exprs.len() {
        lemma_group_match(exprs, e, i + 1);
    }
}

/// What stands in the projection or the ORDER BY of an aggregating SELECT refers to the columns
/// of the aggregation alone. Aggregates that were there before keep their columns, and the
/// arguments of all of them are over the tables in scope.
pub proof fn law_counted_in_output(scope: Seq<ScopeView>, ctx: AggView, e: Expr)
    requires
        columns_countable(scope),
        ctx.group_bys.len() == ctx.group_by_exprs.len(),
        arguments_in_scope(scope, ctx),
        counted(scope, ctx, e) is Ok,
        aggregated_width((counted(scope, ctx, e)->Ok_0).1) <= u32::MAX,
    ensures
        ({
            let (x, after) = counted(scope, ctx, e)->Ok_0;
            &&& columns_below(x, aggregated_width(after))
            &&& grew(ctx, after)
            &&& arguments_in_scope(scope, after)
        }),
    decreases e,
{
    let (x, after) = counted(scope, ctx, e)->Ok_0;
    lemma_group_match(ctx.group_by_exprs, e, 0);
    assert(ctx.aggregates.subrange(0, ctx.aggregates.len() as int) =~= ctx.aggregates);
    if group_match(ctx.group_by_exprs, e, 0) is None {
        match e {
            Expr::Nested(inner) => law_counted_in_output(scope, ctx, *inner),
            Expr::BinaryOp { left, op, right } => {
                let (l, mid) = counted(scope, ctx, *left)->Ok_0;
                let r = counted(scope, mid, *right)->Ok_0;
                lemma_counted_grows(scope, mid, *right);
                law_counted_in_output(scope, ctx, *left);
                law_counted_in_output(scope, mid, *right);
                lemma_columns_below(l, aggregated_width(mid), aggregated_width(after));
                assert(after.aggregates.subrange(0, ctx.aggregates.len() as int)
                    =~= mid.aggregates.subrange(0, ctx.aggregates.len() as int)) by {
                    assert(after.aggregates.subrange(0, mid.aggregates.len() as int)
                        == mid.aggregates);
                    assert forall|k: int| 0 <= k < ctx.aggregates.len() implies (
                    #[trigger] after.aggregates[k]) == mid.aggregates[k] by {
                        assert(after.aggregates.subrange(0, mid.aggregates.len() as int)[k]
                            == after.aggregates[k]);
                    }
                }
            },
            Expr::Function(f) => {
                let agg = aggregate_named(f.name)->0;
                lemma_argument_in_scope(scope, *f, agg);
                assert(after.aggregates.subrange(0, ctx.aggregates.len() as int)
                    =~= ctx.aggregates);
            },
            _ => {},
        }
    }
}

proof fn lemma_argument_in_scope(
    scope: Seq<ScopeView>,
    f: crate::ast::Function,
    agg: crate::processor::plan::AggType,
)
    requires
        columns_countable(scope),
        aggregate_argument(scope, f, agg) is Ok,
    ensures
        in_scope(scope, aggregate_argument(scope, f, agg)->Ok_0),
{
    match f.args {
        crate::ast::FunctionArguments::List(list) => match list.args@[0] {
            crate::ast::FunctionArg::Expr(e) => law_resolved_in_scope(scope, e, true),
            _ => {},
        },
        _ => {},
    }
}

proof fn lemma_counted_grows(scope: Seq<ScopeView>, ctx: AggView, e: Expr)
    requires
        counted(scope, ctx, e) is Ok,
    ensures
        ({
            let after = (counted(scope, ctx, e)->Ok_0).1;
            after.group_bys == ctx.group_bys && ctx.aggregates.len() <= after.aggregates.len()
        }),
    decreases e,
{
    if group_match(ctx.group_by_exprs, e, 0) is None {
        match e {
            Expr::Nested(inner) => lemma_counted_grows(scope, ctx, *inner),
            Expr::BinaryOp { left, op, right } => {
                let (l, mid) = counted(scope, ctx, *left)->Ok_0;
                lemma_counted_grows(scope, ctx, *left);
                lemma_counted_grows(scope, mid, *right);
            },
            _ => {},
        }
    }
}

proof fn lemma_scope_ok(scope: Seq<ScopeEntry>)
    requires
        forall|i: int| 0 <= i < scope.len() ==> (#[trigger] scope_view(scope)[i]).schema.wf(),
    ensures
        scope_ok(scope),
{
    assert forall|i: int| 0 <= i < scope.len() implies (
    #[trigger] scope[i]).table.schema@.wf() by {
        assert(scope_view(scope)[i].schema == scope[i].table.schema@);
    }
}

proof fn lemma_query_laid_out(c: &Catalog, q: Query)
    requires
        c.valid(),
    ensures
        query_bound(c, q) matches Ok(QueryView::Select(v)) ==> {
            &&& forall|i: int| 0 <= i < v.scope.len() ==> (#[trigger] v.scope[i]).schema.wf()
            &&& v.join is Some ==> v.scope.len() == 1 || v.scope.len() == 2
        },
    decreases q,
{
    match q.body {
        SetExpr::Query(inner) => lemma_query_laid_out(c, *inner),
        SetExpr::Select(s) => {
            if s.from@.len() == 1 {
                lemma_factor_laid_out(c, s.from@[0].relation, 0);
                if s.from@[0].joins@.len() == 1 {
                    lemma_factor_laid_out(c, s.from@[0].joins@[0].relation, 1);
                }
            }
        },
        _ => {},
    }
}

proof fn lemma_factor_laid_out(c: &Catalog, tf: crate::ast::TableFactor, idx: u8)
    requires
        c.valid(),
    ensures
        table_of(c, tf, idx) matches Ok(t) ==> t.schema.wf(),
{
}

proof fn lemma_assigned_columns(t: ScopeView, u: Update, n: int)
    requires
        assignments_bound(t, u, n) is Ok,
    ensures
        forall|i: int|
            0 <= i < (assignments_bound(t, u, n)->Ok_0).0.len() ==> (
            #[trigger] (assignments_bound(t, u, n)->Ok_0).0[i]) is Column,
    decreases n,
{
    if n > 0 {
        lemma_assigned_columns(t, u, n - 1);
    }
}

proof fn lemma_key_names(t: ScopeView, stmt: CreateIndex, n: int)
    requires
        key_bound(t, stmt, n) is Ok,
    ensures
        forall|i: int|
            0 <= i < key_bound(t, stmt, n)->Ok_0.len() ==> has_name(
                t,
                (#[trigger] key_bound(t, stmt, n)->Ok_0[i]).1,
            ),
    decreases n,
{
    if n > 0 {
        lemma_key_names(t, stmt, n - 1);
    }
}

/// The two tables of a join go by one name.
pub open spec fn joins_one_name(b: BoundStatement) -> bool {
    b matches BoundStatement::Select(s) && s.join is Some && s.scope@.len() == 1
}

/// Every statement that was bound can be planned, but for a join of two tables that go by one
/// name and for schemas with too many columns.
pub proof fn law_bound_is_plannable(c: &Catalog, stmt: Statement, b: BoundStatement, e: Seq<char>)
    requires
        c.valid(),
        statement_bound(c, stmt, Ok::<BoundStatement, BinderError>(b)),
    ensures
        b.wf(),
        unplannable(b, e) ==> e == "too many columns"@ || joins_one_name(b),
{
    match b {
        BoundStatement::Select(s) => {
            lemma_query_laid_out(c, stmt->Query_0);
            lemma_scope_ok(s.scope@);
            assert(s@.scope.len() == s.scope@.len());
        },
        BoundStatement::Values(_) => {},
        BoundStatement::Insert(s) => {
            lemma_scope_ok(s.scope@);
            assert(scope_view(s.scope@).len() == 1);
        },
        BoundStatement::Delete(s) => {
            lemma_scope_ok(s.scope@);
            assert(scope_view(s.scope@).len() == 1);
        },
        BoundStatement::Update(s) => {
            lemma_scope_ok(s.scope@);
            assert(scope_view(s.scope@).len() == 1);
            let u = stmt->Update_0;
            lemma_assigned_columns(scope_view(s.scope@)[0], u, u.assignments@.len() as int);
        },
        BoundStatement::CreateTable(_) => {},
        BoundStatement::CreateIndex(s) => {
            let i = stmt->CreateIndex_0;
            assert(scope_view(s.scope@) == (create_index_bound(c, i)->Ok_0).0);
            lemma_scope_ok(s.scope@);
            let t = scope_view(s.scope@)[0];
            assert(scope_view(s.scope@).len() == 1);
            lemma_key_names(t, i, i.columns@.len() as int);
            assert forall|k: int| 0 <= k < s.index_schema@.cols.len() implies has_name(
                t,
                (#[trigger] s.index_schema@.cols[k]).name@,
            ) by {
                assert(key_bound(t, i, i.columns@.len() as int)->Ok_0[k].1
                    == s.index_schema@.cols[k].name@);
            }
        },
    }
}

} // verus!
