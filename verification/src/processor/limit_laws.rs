//! What LIMIT leaves of the rows of a query.
use vstd::prelude::*;

use crate::ast::{Expr, LimitClause, Literal, Query};
use crate::catalog::Catalog;
use crate::catalog::schema::SchemaView;
use crate::index::tree_model::Pages;
use crate::parser::binder::{describes, query_bound, QueryView, SelectView};
use crate::planner::{aggregates, below, groups, reads, result_columns, selects, sorts_by};
use crate::processor::expression::FloatOp;
use crate::processor::plan::Plan;
use crate::processor::stream::StreamView;
use crate::text::{digits, law_digits_are_read_back};

verus! {

/// The clause is `LIMIT` and a number as it is written in decimal digits.
pub open spec fn is_limit_clause(clause: Option<LimitClause>, n: nat) -> bool {
    clause matches Some(LimitClause::LimitOffset { limit, offset, limit_by }) && !offset
        && !limit_by && (limit matches Some(Expr::Value(Literal::Number { text, long, float }))
        && text@ == digits(n))
}

/// The query is a SELECT.
pub open spec fn is_select(q: Query) -> bool {
    q.body is Select
}

/// `whole` is the query without its LIMIT clause.
pub open spec fn is_without_limit(q: Query, whole: Query) -> bool {
    whole.body == q.body && whole.order_by == q.order_by && whole.limit_clause is None
}

/// The query is bound to a SELECT, the plan is a plan of it, and the rows are what the plan gives.
pub open spec fn query_gives(
    fl: spec_fn(FloatOp, u32, u32) -> u32,
    c: &Catalog,
    pages: Pages,
    q: Query,
    plan: Plan,
    s: StreamView,
) -> bool {
    &&& query_bound(c, q) matches Ok(QueryView::Select(v)) && selects(c, v, plan)
    &&& plan.answers(fl, c, pages, s)
}

/// The rows that `LIMIT n` leaves of `whole`: the first `n`, or all where there are no more.
pub open spec fn is_first(n: nat, whole: StreamView, s: StreamView) -> bool {
    let kept = if n < whole.rows.len() {
        n
    } else {
        whole.rows.len()
    };
    &&& s.rows.len() == kept
    &&& forall|i: int| 0 <= i < kept ==> #[trigger] s.rows[i] == whole.rows[i]
    &&& n >= whole.rows.len() ==> s.error == whole.error
    &&& n < whole.rows.len() ==> s.error is None
}

proof fn lemma_bound_without_limit(c: &Catalog, q: Query, whole: Query, n: u32)
    requires
        is_select(q),
        is_limit_clause(q.limit_clause, n as nat),
        is_without_limit(q, whole),
        query_bound(c, q) matches Ok(QueryView::Select(_)),
    ensures
        (query_bound(c, q)->Ok_0->Select_0).limit == Some(n),
        query_bound(c, whole) == Ok::<QueryView, Seq<char>>(
            QueryView::Select(
                SelectView { limit: None, ..query_bound(c, q)->Ok_0->Select_0 },
            ),
        ),
{
    law_digits_are_read_back(n as nat);
}

proof fn lemma_child_selects(c: &Catalog, v: SelectView, plan: Plan)
    requires
        selects(c, v, plan),
        v.limit is Some,
    ensures
        selects(c, SelectView { limit: None, ..v }, plan.first_child()),
        plan matches Plan::Limit(p) && Some(p.limit) == v.limit,
{
    let v0 = SelectView { limit: None, ..v };
    let projection = plan.first_child();
    let order = projection.first_child();
    let aggregation = below(v.sort is Some, order);
    let source = below(aggregates(v), aggregation);
    let (s0, s1) = choose|s0: SchemaView, s1: SchemaView| #[trigger]
        reads(c, v, s0, source) && #[trigger] groups(v, s0, s1, aggregation) && sorts_by(
            v.sort,
            s1,
            order,
        ) && (projection matches Plan::Projection(p) && p.expressions@ == v.projections
            && describes(p.schema@, result_columns(v.projections, s1, "col"@)));
    assert(reads(c, v0, s0, source));
    assert(groups(v0, s0, s1, aggregation));
}

proof fn lemma_limit_rows(
    fl: spec_fn(FloatOp, u32, u32) -> u32,
    c: &Catalog,
    pages: Pages,
    plan: Plan,
    s: StreamView,
) -> (t: StreamView)
    requires
        plan is Limit,
        plan.answers(fl, c, pages, s),
    ensures
        plan.first_child().answers(fl, c, pages, t),
        is_first(plan->Limit_0.limit as nat, t, s),
{
    reveal(Plan::given_child);
    let t = choose|t: StreamView|
        plan.first_child().answers(fl, c, pages, t) && #[trigger] plan.given_child(
            fl,
            t,
            s,
            plan.first_child().out_schema(),
            c,
            pages,
        );
    t
}

/// A SELECT with `LIMIT n` gives the first `n` rows that the SELECT without the clause gives, or
/// all of them where there are no more.
pub proof fn law_limit(
    fl: spec_fn(FloatOp, u32, u32) -> u32,
    c: &Catalog,
    pages: Pages,
    q: Query,
    whole: Query,
    n: u32,
    plan: Plan,
    s: StreamView,
)
    requires
        is_select(q),
        is_limit_clause(q.limit_clause, n as nat),
        is_without_limit(q, whole),
        query_gives(fl, c, pages, q, plan, s),
    ensures
        exists|plan0: Plan, t: StreamView| #[trigger]
            query_gives(fl, c, pages, whole, plan0, t) && is_first(n as nat, t, s),
{
    lemma_bound_without_limit(c, q, whole, n);
    let v = query_bound(c, q)->Ok_0->Select_0;
    lemma_child_selects(c, v, plan);
    let t = lemma_limit_rows(fl, c, pages, plan, s);
    assert(query_gives(fl, c, pages, whole, plan.first_child(), t));
}

/// LIMIT does not decide whether a SELECT can be bound, unless its number is too large.
pub proof fn law_limit_is_bound(c: &Catalog, q: Query, whole: Query, n: nat)
    requires
        is_select(q),
        is_limit_clause(q.limit_clause, n),
        is_without_limit(q, whole),
    ensures
        query_bound(c, q) is Ok <==> n <= u32::MAX && query_bound(c, whole) is Ok,
{
    law_digits_are_read_back(n);
}

} // verus!
