//! What statements are planned as, told by the names and the expressions that are written in them.
use vstd::bytes::{lemma_auto_spec_u32_to_from_le_bytes, spec_u32_from_le_bytes};
use vstd::prelude::*;

use crate::ast::{
    CreateIndex, CreateTable, Delete, Expr, Insert, Query, Statement, TableFactor, Update,
};
use crate::catalog::Catalog;
use crate::catalog::value::DataType;
use crate::index::tree_model::Pages;
use crate::parser::binder::{
    create_index_bound, create_table_bound, delete_bound, describes, insert_bound, query_bound,
    statement_bound, update_bound, BoundStatement,
};
use crate::parser::clause_laws::{
    bound_in_order, is_assignment, is_filter, is_key_column, is_plain_name, is_table_under,
    law_create_index_bound, law_create_table_bound, law_delete_bound, law_insert_bound,
    law_update_bound, law_values_bound,
};
use crate::parser::laws::columns_countable;
use crate::parser::meaning_laws::{lemma_named, names_column};
use crate::parser::scope::{
    name_pos, resolved, row_views, scope_view, type_of, BinderError, ScopeView,
};
use crate::planner::{key_at, planned, scans, target_is};
use crate::processor::expression::{result_type, Expression, FloatOp};
use crate::processor::modify::insert_outcome;
use crate::processor::plan::{InsertPlanNode, Plan};
use crate::processor::spill::kept;
use crate::processor::statement::insert_ran;
use crate::processor::stream::StreamView;
use crate::text::digits;

verus! {

/// An INSERT that does not fail gives one row of four bytes, the lowest first: how many rows were
/// inserted.
pub proof fn law_insert_count(
    fl: spec_fn(FloatOp, u32, u32) -> u32,
    c: &Catalog,
    p0: Pages,
    p1: Pages,
    p: InsertPlanNode,
    s: StreamView,
    spent: bool,
)
    requires
        insert_ran(fl, c, p0, p1, p, s, spent),
        s.error is None,
    ensures
        exists|t: StreamView| #[trigger]
            p.child.answers(fl, c, p0, t) && t.error is None && s.rows.len() == 1
                && s.rows[0].0.len() == 4 && spec_u32_from_le_bytes(s.rows[0].0) == t.rows.len(),
{
    let (t, pm) = choose|t: StreamView, pm: Pages|
        p.child.answers(fl, c, p0, t) && kept(p0, pm) && #[trigger] insert_outcome(
            c,
            p.table_oid,
            pm,
            p1,
            t,
            s,
            spent,
        );
    lemma_auto_spec_u32_to_from_le_bytes();
}

/// An UPDATE is planned over the table that it names. Each assignment has a target: the position
/// of the column that it names, and the expression that is written behind it.
pub proof fn law_update_plan(c: &Catalog, u: Update, b: BoundStatement, plan: Plan)
    requires
        statement_bound(c, Statement::Update(u), Ok::<BoundStatement, BinderError>(b)),
        columns_countable(scope_view(b->Update_0.scope@)),
        planned(c, b, plan),
    ensures
        plan matches Plan::Update(p) && exists|t: ScopeView, n: Seq<char>| #[trigger]
            is_table_under(c, n, n, 0, t) && {
                &&& u.table.relation matches TableFactor::Table { name, alias } && is_plain_name(
                    name,
                    n,
                )
                &&& p.table_oid == t.oid
                &&& p.schema@ == t.schema
                &&& p.target_exprs@.len() == u.assignments@.len()
                &&& forall|i: int|
                    0 <= i < u.assignments@.len() ==> is_target(
                        t,
                        u,
                        i,
                        #[trigger] p.target_exprs@[i],
                    )
                &&& match u.selection {
                    Some(e) => resolved(seq![t], e, false) matches Ok(f) && scans(
                        c,
                        t,
                        Some(f),
                        *p.child,
                    ),
                    None => scans(c, t, None, *p.child),
                }
            },
{
    let v = update_bound(c, u)->Ok_0;
    law_update_bound(c, u);
    let t = v.scope[0];
    let name = u.table.relation->Table_name;
    let n = name.parts@[0]->Identifier_0.value@;
    assert(is_table_under(c, n, n, 0, t));
    assert(v.scope =~= seq![t]);
    assert(is_filter(seq![t], u.selection, v.filters));
    let p = plan->Update_0;
    assert forall|i: int| 0 <= i < u.assignments@.len() implies is_target(
        t,
        u,
        i,
        #[trigger] p.target_exprs@[i],
    ) by {
        assert(target_is(v.cols[i], v.new_cols[i], p.target_exprs@[i]));
        assert(is_assignment(t, u, i, v.cols[i], v.new_cols[i]));
    }
}

/// The target of assignment `i`.
pub open spec fn is_target(t: ScopeView, u: Update, i: int, target: (u32, Expression)) -> bool {
    &&& u.assignments@[i].target matches Some(name) && exists|n: Seq<char>| #[trigger]
        is_plain_name(name, n) && names_column(t, n, target.0 as int)
    &&& resolved(seq![t], u.assignments@[i].value, false) == Ok::<Expression, Seq<char>>(target.1)
}

/// An INSERT is planned over the table that it names, with its rows as they are written.
pub proof fn law_insert_plan(c: &Catalog, i: Insert, b: BoundStatement, plan: Plan)
    requires
        statement_bound(c, Statement::Insert(i), Ok::<BoundStatement, BinderError>(b)),
        planned(c, b, plan),
    ensures
        plan matches Plan::Insert(p) && (*p.child matches Plan::Values(q) && exists|
            t: ScopeView,
            n: Seq<char>,
        | #[trigger]
            is_table_under(c, n, n, 0, t) && {
                let rows = i.source->0.body->Values_0@;
                &&& is_plain_name(i.table->0, n)
                &&& p.table_oid == t.oid
                &&& p.schema@ == t.schema
                &&& q.schema@ == t.schema
                &&& q.rows@.len() == rows.len()
                &&& forall|k: int|
                    0 <= k < rows.len() ==> bound_in_order(
                        seq![t],
                        rows[k]@,
                        (#[trigger] q.rows@[k])@,
                    )
            }),
{
    let (scope, v) = insert_bound(c, i)->Ok_0;
    law_insert_bound(c, i);
    let t = scope[0];
    let n = i.table->0.parts@[0]->Identifier_0.value@;
    assert(is_table_under(c, n, n, 0, t));
    assert(scope =~= seq![t]);
    let q = plan->Insert_0.child->Values_0;
    let rows = i.source->0.body->Values_0@;
    assert(row_views(q.rows@) == v);
    assert forall|k: int| 0 <= k < rows.len() implies bound_in_order(
        seq![t],
        rows[k]@,
        (#[trigger] q.rows@[k])@,
    ) by {
        assert(v[k] == q.rows@[k]@);
        assert(bound_in_order(scope, rows[k]@, v[k]));
    }
}

/// A DELETE is planned over the rows of the table that it names on which its WHERE expression is
/// true.
pub proof fn law_delete_plan(c: &Catalog, d: Delete, b: BoundStatement, plan: Plan)
    requires
        statement_bound(c, Statement::Delete(d), Ok::<BoundStatement, BinderError>(b)),
        planned(c, b, plan),
    ensures
        plan matches Plan::Delete(p) && exists|t: ScopeView, n: Seq<char>| #[trigger]
            is_table_under(c, n, n, 0, t) && {
                &&& d.from@[0].relation matches TableFactor::Table { name, alias } && is_plain_name(
                    name,
                    n,
                )
                &&& p.table_oid == t.oid
                &&& match d.selection {
                    Some(e) => resolved(seq![t], e, false) matches Ok(f) && scans(
                        c,
                        t,
                        Some(f),
                        *p.child,
                    ),
                    None => scans(c, t, None, *p.child),
                }
            },
{
    let (scope, filters) = delete_bound(c, d)->Ok_0;
    law_delete_bound(c, d);
    let t = scope[0];
    let name = d.from@[0].relation->Table_name;
    let n = name.parts@[0]->Identifier_0.value@;
    assert(is_table_under(c, n, n, 0, t));
    assert(scope =~= seq![t]);
    assert(is_filter(seq![t], d.selection, filters));
}

/// A CREATE TABLE is planned with the name that is written and with its columns, in order, each
/// with its name and its type.
pub proof fn law_create_table_plan(c: &Catalog, stmt: CreateTable, b: BoundStatement, plan: Plan)
    requires
        statement_bound(c, Statement::CreateTable(stmt), Ok::<BoundStatement, BinderError>(b)),
        planned(c, b, plan),
    ensures
        plan matches Plan::CreateTable(p) && {
            &&& is_plain_name(stmt.name, p.table_name@)
            &&& !p.if_not_exists
            &&& p.schema@.wf()
            &&& p.schema@.cols.len() == stmt.columns@.len()
            &&& forall|i: int|
                0 <= i < stmt.columns@.len() ==> (#[trigger] p.schema@.cols[i]).name@
                    == stmt.columns@[i].name@ && type_of(stmt.columns@[i].data_type) == Ok::<
                    DataType,
                    Seq<char>,
                >(p.schema@.cols[i].dtype)
        },
{
    law_create_table_bound(stmt);
    let cols = (create_table_bound(stmt)->Ok_0).1;
    let p = plan->CreateTable_0;
    assert(describes(p.schema@, cols));
}

/// A CREATE INDEX is planned over the table that it names, with the positions of the columns that
/// it names, in order.
pub proof fn law_create_index_plan(c: &Catalog, stmt: CreateIndex, b: BoundStatement, plan: Plan)
    requires
        statement_bound(c, Statement::CreateIndex(stmt), Ok::<BoundStatement, BinderError>(b)),
        columns_countable(scope_view(b->CreateIndex_0.scope@)),
        planned(c, b, plan),
    ensures
        plan matches Plan::CreateIndex(p) && exists|t: ScopeView, n: Seq<char>| #[trigger]
            is_table_under(c, n, n, 0, t) && {
                &&& is_plain_name(stmt.table_name, n)
                &&& stmt.name matches Some(name) && is_plain_name(name, p.index_name@)
                &&& p.table_oid == t.oid
                &&& p.key_columns@.len() == stmt.columns@.len()
                &&& forall|i: int|
                    0 <= i < stmt.columns@.len() ==> (stmt.columns@[i] matches
                        Expr::Identifier(id) && names_column(
                        t,
                        id.value@,
                        #[trigger] p.key_columns@[i] as int,
                    ))
            },
{
    law_create_index_bound(c, stmt);
    let (scope, name, cols) = create_index_bound(c, stmt)->Ok_0;
    let t = scope[0];
    let n = stmt.table_name.parts@[0]->Identifier_0.value@;
    assert(is_table_under(c, n, n, 0, t));
    let p = plan->CreateIndex_0;
    let key = b->CreateIndex_0.index_schema@;
    assert(describes(key, cols));
    assert forall|i: int| 0 <= i < stmt.columns@.len() implies (stmt.columns@[i] matches
        Expr::Identifier(id) && names_column(
        t,
        id.value@,
        #[trigger] p.key_columns@[i] as int,
    )) by {
        assert(is_key_column(t, stmt.columns@[i], cols[i]));
        assert(key.cols[i].name@ == cols[i].1);
        assert(key_at(t, key.cols[i].name@, p.key_columns@[i]));
        lemma_named(t, cols[i].1);
        assert(name_pos(t, cols[i].1) < t.schema.cols.len() <= u32::MAX);
    }
}

/// A VALUES query is planned with its rows as they are written. Its columns are those of the first
/// row, named `col` and their number.
pub proof fn law_values_plan(c: &Catalog, q: Query, b: BoundStatement, plan: Plan)
    requires
        q.body is Values,
        statement_bound(c, Statement::Query(q), Ok::<BoundStatement, BinderError>(b)),
        planned(c, b, plan),
    ensures
        plan matches Plan::Values(p) && {
            let rows = q.body->Values_0@;
            &&& p.rows@.len() == rows.len()
            &&& forall|k: int|
                0 <= k < rows.len() ==> bound_in_order(
                    Seq::empty(),
                    rows[k]@,
                    (#[trigger] p.rows@[k])@,
                )
            &&& p.schema@.wf()
            &&& p.schema@.cols.len() == if rows.len() > 0 {
                rows[0]@.len()
            } else {
                0
            }
            &&& forall|i: int|
                0 <= i < p.schema@.cols.len() ==> (#[trigger] p.schema@.cols[i]).name@ == "col"@
                    + digits(i as nat) && match result_type(p.rows@[0]@[i]) {
                    Some(t) => p.schema@.cols[i].dtype == t,
                    None => p.schema@.cols[i].dtype == DataType::INT,
                }
        },
{
    law_values_bound(c, q);
    let v = query_bound(c, q)->Ok_0->Values_0;
    let p = plan->Values_0;
    let rows = q.body->Values_0@;
    assert(row_views(p.rows@) == v);
    assert forall|k: int| 0 <= k < rows.len() implies bound_in_order(
        Seq::empty(),
        rows[k]@,
        (#[trigger] p.rows@[k])@,
    ) by {
        assert(v[k] == p.rows@[k]@);
        assert(bound_in_order(Seq::empty(), rows[k]@, v[k]));
    }
    if rows.len() > 0 {
        assert(v[0] == p.rows@[0]@);
        assert(bound_in_order(Seq::empty(), rows[0]@, v[0]));
    }
}

} // verus!
