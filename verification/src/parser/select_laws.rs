//! What the clauses of a SELECT are bound to, item by item.
use vstd::prelude::*;

use crate::ast::{
    expr_eq, Expr, Function, FunctionArg, FunctionArguments, GroupBy, OrderBy, Query, Select,
    SelectItem,
};
use crate::catalog::Catalog;
use crate::parser::binder::{
    aggregating, order_clause, query_bound, start_ctx, QueryView, SelectView,
};
use crate::parser::clause_laws::{bound_in_order, is_filter, lemma_all};
use crate::parser::laws::columns_countable;
use crate::parser::meaning_laws::{refers_to, stands_for};
use crate::parser::scope::{
    aggregate_named, all_columns, constant_of, counted, from_clause, group_match, in_select,
    ordered, projected, projected_item, resolved, resolved_all, table_columns, AggView, ScopeView,
};
use crate::processor::expression::Expression;
use crate::processor::plan::AggType;

verus! {

/// The number of columns of the first `n` tables.
pub open spec fn columns_before(scope: Seq<ScopeView>, n: int) -> nat
    decreases n,
{
    if n <= 0 {
        0
    } else {
        columns_before(scope, n - 1) + scope[n - 1].schema.cols.len()
    }
}

/// The number of columns that an item of a projection stands for.
pub open spec fn item_width(scope: Seq<ScopeView>, item: SelectItem) -> nat {
    if item is Wildcard {
        columns_before(scope, scope.len() as int)
    } else {
        1
    }
}

/// The place of the first column of item `n`.
pub open spec fn item_place(scope: Seq<ScopeView>, items: Seq<SelectItem>, n: int) -> nat
    decreases n,
{
    if n <= 0 {
        0
    } else {
        item_place(scope, items, n - 1) + item_width(scope, items[n - 1])
    }
}

/// From `place` on the expressions are the columns of all tables in scope, in order.
pub open spec fn is_wildcard_at(
    scope: Seq<ScopeView>,
    place: int,
    xs: Seq<Expression>,
) -> bool {
    forall|k: int, col: int|
        0 <= k < scope.len() && 0 <= col < (#[trigger] scope[k]).schema.cols.len() ==> {
            let x = #[trigger] xs[place + columns_before(scope, k) + col];
            refers_to(x, scope[k], col)
        }
}

/// `arg` is the argument of an aggregate call: the one expression in the brackets, or for
/// `COUNT(*)` a constant.
pub open spec fn is_argument(
    scope: Seq<ScopeView>,
    f: Function,
    agg: AggType,
    arg: Expression,
) -> bool {
    f.args matches FunctionArguments::List(list) && list.args@.len() == 1
        && !list.duplicate_treatment && !list.clauses && match list.args@[0] {
        FunctionArg::Expr(e) => resolved(scope, e, true) == Ok::<Expression, Seq<char>>(arg),
        FunctionArg::Wildcard => agg == AggType::COUNT && (arg matches Expression::Constant(
            Some(_),
        )),
        _ => false,
    }
}

/// `x` computes the expression on the rows of an aggregation that gives first the groups, then the
/// aggregates: what is written like a group is its column, an aggregate call is the column of that
/// aggregate of its argument, and an operation is the operation on what its operands are.
pub open spec fn computes_grouped(
    scope: Seq<ScopeView>,
    groups: Seq<Expr>,
    aggs: Seq<(Expression, AggType)>,
    e: Expr,
    x: Expression,
) -> bool
    decreases e,
{
    (x matches Expression::Column { tuple_idx, col_idx, dtype } && tuple_idx == 0 && col_idx
        < groups.len() && expr_eq(groups[col_idx as int], e)) || match e {
        Expr::Nested(inner) => computes_grouped(scope, groups, aggs, *inner, x),
        Expr::BinaryOp { left, op, right } => x matches Expression::Binary {
            left: l,
            right: r,
            op: o,
        } && stands_for(op, o) && computes_grouped(scope, groups, aggs, *left, *l)
            && computes_grouped(scope, groups, aggs, *right, *r),
        Expr::Value(v) => constant_of(v) == Ok::<Expression, Seq<char>>(x),
        Expr::Function(f) => x matches Expression::Column { tuple_idx, col_idx, dtype } && tuple_idx
            == 0 && groups.len() <= col_idx < groups.len() + aggs.len() && {
            let (arg, agg) = aggs[col_idx - groups.len()];
            aggregate_named(f.name) == Some(agg) && is_argument(scope, *f, agg, arg)
        },
        _ => false,
    }
}

/// The first list begins with the second.
pub open spec fn begins_with<A>(a: Seq<A>, b: Seq<A>) -> bool {
    &&& b.len() <= a.len()
    &&& forall|i: int| 0 <= i < b.len() ==> #[trigger] a[i] == b[i]
}

proof fn lemma_more_aggregates(
    scope: Seq<ScopeView>,
    groups: Seq<Expr>,
    aggs: Seq<(Expression, AggType)>,
    more: Seq<(Expression, AggType)>,
    e: Expr,
    x: Expression,
)
    requires
        begins_with(more, aggs),
        computes_grouped(scope, groups, aggs, e, x),
    ensures
        computes_grouped(scope, groups, more, e, x),
    decreases e,
{
    match e {
        Expr::Nested(inner) => {
            if computes_grouped(scope, groups, aggs, *inner, x) {
                lemma_more_aggregates(scope, groups, aggs, more, *inner, x);
            }
        },
        Expr::BinaryOp { left, op, right } => {
            match x {
                Expression::Binary { left: l, right: r, op: o } => {
                    lemma_more_aggregates(scope, groups, aggs, more, *left, *l);
                    lemma_more_aggregates(scope, groups, aggs, more, *right, *r);
                },
                _ => {},
            }
        },
        Expr::Function(f) => {
            match x {
                Expression::Column { tuple_idx, col_idx, dtype } => {
                    if groups.len() <= col_idx < groups.len() + aggs.len() {
                        assert(more[col_idx - groups.len()] == aggs[col_idx - groups.len()]);
                    }
                },
                _ => {},
            }
        },
        _ => {},
    }
}

proof fn lemma_match(exprs: Seq<Expr>, e: Expr, i: int)
    requires
        0 <= i,
    ensures
        group_match(exprs, e, i) matches Some(k) ==> i <= k < exprs.len() && expr_eq(exprs[k], e),
    decreases exprs.len() - i,
{
    if i < exprs.len() {
        lemma_match(exprs, e, i + 1);
    }
}

/// In an aggregating SELECT every expression is bound to one that computes it on the rows of the
/// aggregation. The aggregates that it needs are added behind those that were there.
pub proof fn law_grouped_expression(scope: Seq<ScopeView>, ctx: AggView, e: Expr)
    requires
        counted(scope, ctx, e) is Ok,
        ctx.group_bys.len() == ctx.group_by_exprs.len(),
        ctx.group_bys.len() + (counted(scope, ctx, e)->Ok_0).1.aggregates.len() <= u32::MAX,
    ensures
        ({
            let (x, after) = counted(scope, ctx, e)->Ok_0;
            &&& computes_grouped(scope, ctx.group_by_exprs, after.aggregates, e, x)
            &&& after.group_by_exprs == ctx.group_by_exprs
            &&& after.group_bys == ctx.group_bys
            &&& begins_with(after.aggregates, ctx.aggregates)
        }),
    decreases e,
{
    lemma_match(ctx.group_by_exprs, e, 0);
    if group_match(ctx.group_by_exprs, e, 0) is None {
        match e {
            Expr::Nested(inner) => law_grouped_expression(scope, ctx, *inner),
            Expr::BinaryOp { left, op, right } => {
                let (l, mid) = counted(scope, ctx, *left)->Ok_0;
                let (r, after) = counted(scope, mid, *right)->Ok_0;
                lemma_aggregates_grow(scope, ctx, *left);
                lemma_aggregates_grow(scope, mid, *right);
                law_grouped_expression(scope, ctx, *left);
                law_grouped_expression(scope, mid, *right);
                lemma_more_aggregates(
                    scope,
                    ctx.group_by_exprs,
                    mid.aggregates,
                    after.aggregates,
                    *left,
                    l,
                );
            },
            _ => {},
        }
    }
}

proof fn lemma_aggregates_grow(scope: Seq<ScopeView>, ctx: AggView, e: Expr)
    requires
        counted(scope, ctx, e) is Ok,
    ensures
        ({
            let after = (counted(scope, ctx, e)->Ok_0).1;
            &&& after.group_by_exprs == ctx.group_by_exprs
            &&& after.group_bys == ctx.group_bys
            &&& begins_with(after.aggregates, ctx.aggregates)
        }),
    decreases e,
{
    if group_match(ctx.group_by_exprs, e, 0) is None {
        match e {
            Expr::Nested(inner) => lemma_aggregates_grow(scope, ctx, *inner),
            Expr::BinaryOp { left, op, right } => {
                lemma_aggregates_grow(scope, ctx, *left);
                lemma_aggregates_grow(scope, (counted(scope, ctx, *left)->Ok_0).1, *right);
            },
            _ => {},
        }
    }
}

/// What an expression of a SELECT is bound to: itself, over the tables, or what computes it on
/// the rows of the aggregation.
pub open spec fn is_bound_to(
    scope: Seq<ScopeView>,
    groups: Option<Seq<Expr>>,
    aggs: Seq<(Expression, AggType)>,
    e: Expr,
    x: Expression,
) -> bool {
    match groups {
        Some(g) => computes_grouped(scope, g, aggs, e, x),
        None => resolved(scope, e, false) == Ok::<Expression, Seq<char>>(x),
    }
}

/// The GROUP BY expressions of the bookkeeping.
spec fn groups_of(ctx: Option<AggView>) -> Option<Seq<Expr>> {
    match ctx {
        Some(v) => Some(v.group_by_exprs),
        None => None,
    }
}

spec fn aggregates_of(ctx: Option<AggView>) -> Seq<(Expression, AggType)> {
    match ctx {
        Some(v) => v.aggregates,
        None => Seq::empty(),
    }
}

/// The bookkeeping has an expression for each group, and the columns can be counted.
spec fn countable(ctx: Option<AggView>) -> bool {
    ctx matches Some(v) ==> v.group_bys.len() == v.group_by_exprs.len() && v.group_bys.len()
        + v.aggregates.len() <= u32::MAX
}

/// The bookkeeping is of the same groups, and only aggregates were added.
spec fn ctx_grew(a: Option<AggView>, b: Option<AggView>) -> bool {
    match (a, b) {
        (Some(x), Some(y)) => y.group_by_exprs == x.group_by_exprs && y.group_bys == x.group_bys
            && begins_with(y.aggregates, x.aggregates),
        (None, None) => true,
        _ => false,
    }
}

proof fn lemma_in_select(scope: Seq<ScopeView>, ctx: Option<AggView>, e: Expr)
    requires
        in_select(scope, ctx, e) is Ok,
        countable((in_select(scope, ctx, e)->Ok_0).1),
    ensures
        ({
            let (x, after) = in_select(scope, ctx, e)->Ok_0;
            &&& ctx_grew(ctx, after)
            &&& is_bound_to(scope, groups_of(ctx), aggregates_of(after), e, x)
        }),
{
    match ctx {
        Some(v) => {
            lemma_aggregates_grow(scope, v, e);
            law_grouped_expression(scope, v, e);
        },
        None => {},
    }
}

proof fn lemma_more(
    scope: Seq<ScopeView>,
    a: Option<AggView>,
    b: Option<AggView>,
    e: Expr,
    x: Expression,
)
    requires
        ctx_grew(a, b),
        is_bound_to(scope, groups_of(a), aggregates_of(a), e, x),
    ensures
        is_bound_to(scope, groups_of(b), aggregates_of(b), e, x),
{
    match (a, b) {
        (Some(v), Some(w)) => lemma_more_aggregates(
            scope,
            v.group_by_exprs,
            v.aggregates,
            w.aggregates,
            e,
            x,
        ),
        _ => {},
    }
}

proof fn lemma_wildcard(scope: Seq<ScopeView>, n: int)
    requires
        0 <= n <= scope.len(),
        columns_countable(scope),
    ensures
        all_columns(scope, n).len() == columns_before(scope, n),
        forall|k: int, col: int|
            0 <= k < n && 0 <= col < (#[trigger] scope[k]).schema.cols.len() ==> {
                let x = #[trigger] all_columns(scope, n)[columns_before(scope, k) + col];
                &&& columns_before(scope, k) + col < columns_before(scope, n)
                &&& refers_to(x, scope[k], col)
            },
    decreases n,
{
    if n > 0 {
        lemma_wildcard(scope, n - 1);
        assert(scope[n - 1].schema.cols.len() <= u32::MAX);
        let (now, before) = (all_columns(scope, n), all_columns(scope, n - 1));
        assert forall|k: int, col: int|
            0 <= k < n && 0 <= col < (#[trigger] scope[k]).schema.cols.len() implies {
            let x = #[trigger] now[columns_before(scope, k) + col];
            &&& columns_before(scope, k) + col < columns_before(scope, n)
            &&& refers_to(x, scope[k], col)
        } by {
            if k < n - 1 {
                assert(before[columns_before(scope, k) + col] == now[columns_before(scope, k)
                    + col]);
            } else {
                assert(now[columns_before(scope, k) + col] == table_columns(scope[n - 1])[col]);
            }
        }
    }
}

/// Item `i` of a projection, among its expressions.
#[verifier::opaque]
pub open spec fn is_item(
    scope: Seq<ScopeView>,
    groups: Option<Seq<Expr>>,
    aggs: Seq<(Expression, AggType)>,
    item: SelectItem,
    place: int,
    xs: Seq<Expression>,
) -> bool {
    match item {
        SelectItem::UnnamedExpr(e) => is_bound_to(scope, groups, aggs, e, xs[place]),
        SelectItem::Wildcard => is_wildcard_at(scope, place, xs),
        _ => false,
    }
}

proof fn lemma_place_grows(scope: Seq<ScopeView>, items: Seq<SelectItem>, i: int, n: int)
    requires
        0 <= i < n,
    ensures
        item_place(scope, items, i) + item_width(scope, items[i]) <= item_place(scope, items, n),
    decreases n,
{
    if i < n - 1 {
        lemma_place_grows(scope, items, i, n - 1);
    }
}

/// What an item stands for is not touched by what is added behind it.
proof fn lemma_item_kept(
    scope: Seq<ScopeView>,
    a: Option<AggView>,
    b: Option<AggView>,
    item: SelectItem,
    place: int,
    before: Seq<Expression>,
    xs: Seq<Expression>,
)
    requires
        columns_countable(scope),
        ctx_grew(a, b),
        0 <= place,
        place + item_width(scope, item) <= before.len(),
        begins_with(xs, before),
        is_item(scope, groups_of(a), aggregates_of(a), item, place, before),
    ensures
        is_item(scope, groups_of(b), aggregates_of(b), item, place, xs),
{
    reveal(is_item);
    match item {
        SelectItem::UnnamedExpr(e) => {
            assert(xs[place] == before[place]);
            lemma_more(scope, a, b, e, before[place]);
        },
        SelectItem::Wildcard => {
            lemma_wildcard(scope, scope.len() as int);
            let all = all_columns(scope, scope.len() as int);
            assert forall|k: int, col: int|
                0 <= k < scope.len() && 0 <= col < (#[trigger] scope[k]).schema.cols.len() implies {
                let x = #[trigger] xs[place + columns_before(scope, k) + col];
                refers_to(x, scope[k], col)
            } by {
                let y = all[columns_before(scope, k) + col];
                let at = place + columns_before(scope, k) + col;
                assert(refers_to(before[at], scope[k], col));
                assert(xs[at] == before[at]);
            }
        },
        _ => {},
    }
}

proof fn lemma_item_new(
    scope: Seq<ScopeView>,
    ctx: Option<AggView>,
    item: SelectItem,
    before: Seq<Expression>,
)
    requires
        columns_countable(scope),
        projected_item(scope, ctx, item) is Ok,
        countable((projected_item(scope, ctx, item)->Ok_0).1),
    ensures
        ({
            let (xs, after) = projected_item(scope, ctx, item)->Ok_0;
            &&& ctx_grew(ctx, after)
            &&& xs.len() == item_width(scope, item)
            &&& is_item(
                scope,
                groups_of(ctx),
                aggregates_of(after),
                item,
                before.len() as int,
                before + xs,
            )
        }),
{
    reveal(is_item);
    let (xs, after) = projected_item(scope, ctx, item)->Ok_0;
    match item {
        SelectItem::UnnamedExpr(e) => {
            lemma_in_select(scope, ctx, e);
        },
        SelectItem::Wildcard => {
            lemma_wildcard(scope, scope.len() as int);
            assert forall|k: int, col: int|
                0 <= k < scope.len() && 0 <= col < (#[trigger] scope[k]).schema.cols.len() implies {
                let x = #[trigger] (before + xs)[before.len() as int + columns_before(scope, k)
                    + col];
                refers_to(x, scope[k], col)
            } by {
                let y = xs[columns_before(scope, k) + col];
                assert((before + xs)[before.len() as int + columns_before(scope, k) + col] == y);
            }
        },
        _ => {},
    }
}

#[verifier::spinoff_prover]
#[verifier::rlimit(60)]
proof fn lemma_projected(
    scope: Seq<ScopeView>,
    ctx: Option<AggView>,
    items: Seq<SelectItem>,
    n: int,
)
    requires
        0 <= n <= items.len(),
        columns_countable(scope),
        projected(scope, ctx, items, n) is Ok,
        countable((projected(scope, ctx, items, n)->Ok_0).1),
    ensures
        ({
            let (xs, after) = projected(scope, ctx, items, n)->Ok_0;
            &&& ctx_grew(ctx, after)
            &&& xs.len() == item_place(scope, items, n)
            &&& forall|i: int|
                0 <= i < n ==> is_item(
                    scope,
                    groups_of(ctx),
                    aggregates_of(after),
                    #[trigger] items[i],
                    item_place(scope, items, i) as int,
                    xs,
                )
        }),
    decreases n,
{
    if n > 0 {
        let (before, mid) = projected(scope, ctx, items, n - 1)->Ok_0;
        let (xs, after) = projected(scope, ctx, items, n)->Ok_0;
        let own = (projected_item(scope, mid, items[n - 1])->Ok_0).0;
        assert(xs == before + own);
        lemma_item_new(scope, mid, items[n - 1], before);
        lemma_projected(scope, ctx, items, n - 1);
        assert forall|i: int| 0 <= i < n implies is_item(
            scope,
            groups_of(ctx),
            aggregates_of(after),
            #[trigger] items[i],
            item_place(scope, items, i) as int,
            xs,
        ) by {
            if i < n - 1 {
                lemma_place_grows(scope, items, i, n - 1);
                lemma_item_kept(
                    scope,
                    mid,
                    after,
                    items[i],
                    item_place(scope, items, i) as int,
                    before,
                    xs,
                );
            }
        }
    }
}

proof fn lemma_ordered(scope: Seq<ScopeView>, ctx: Option<AggView>, exprs: Seq<Expr>, n: int)
    requires
        0 <= n <= exprs.len(),
        ordered(scope, ctx, exprs, n) is Ok,
        countable((ordered(scope, ctx, exprs, n)->Ok_0).1),
    ensures
        ({
            let (xs, after) = ordered(scope, ctx, exprs, n)->Ok_0;
            &&& ctx_grew(ctx, after)
            &&& xs.len() == n
            &&& forall|i: int|
                0 <= i < n ==> is_bound_to(
                    scope,
                    groups_of(ctx),
                    aggregates_of(after),
                    exprs[i],
                    #[trigger] xs[i],
                )
        }),
    decreases n,
{
    if n > 0 {
        let (before, mid) = ordered(scope, ctx, exprs, n - 1)->Ok_0;
        let (xs, after) = ordered(scope, ctx, exprs, n)->Ok_0;
        lemma_in_select(scope, mid, exprs[n - 1]);
        lemma_ordered(scope, ctx, exprs, n - 1);
        assert forall|i: int| 0 <= i < n implies is_bound_to(
            scope,
            groups_of(ctx),
            aggregates_of(after),
            exprs[i],
            #[trigger] xs[i],
        ) by {
            if i < n - 1 {
                assert(xs[i] == before[i]);
                lemma_more(scope, mid, after, exprs[i], before[i]);
            }
        }
    }
}

/// The GROUP BY expressions as they are written.
pub open spec fn written_groups(s: Select) -> Seq<Expr> {
    match s.group_by {
        GroupBy::Expressions { exprs, modifiers } => exprs@,
        GroupBy::All => Seq::empty(),
    }
}

/// The groups over which the expressions of a SELECT are computed, where it aggregates.
pub open spec fn output_groups(s: Select) -> Option<Seq<Expr>> {
    if aggregating(s, written_groups(s)) {
        Some(written_groups(s))
    } else {
        None
    }
}

/// A SELECT is bound clause by clause: the tables of FROM, the WHERE expression, the GROUP BY
/// expressions, the items of the projection, each in its place, and the ORDER BY expressions. It
/// has no aggregates and no groups where it does not aggregate.
pub proof fn law_select_bound(c: &Catalog, q: Query, v: SelectView)
    requires
        q.body is Select,
        query_bound(c, q) == Ok::<QueryView, Seq<char>>(QueryView::Select(v)),
        columns_countable(v.scope),
        v.group_bys.len() + v.aggregates.len() <= u32::MAX,
    ensures
        ({
            let s = q.body->Select_0;
            let groups = output_groups(s);
            &&& from_clause(c, s.from@) matches Ok((scope, join)) && scope == v.scope && join
                == v.join
            &&& is_filter(v.scope, s.selection, v.filters)
            &&& groups is Some ==> bound_in_order(v.scope, written_groups(s), v.group_bys)
            &&& groups is None ==> v.group_bys.len() == 0 && v.aggregates.len() == 0
            &&& v.projections.len() == item_place(
                v.scope,
                s.projection@,
                s.projection@.len() as int,
            )
            &&& forall|i: int|
                0 <= i < s.projection@.len() ==> is_item(
                    v.scope,
                    groups,
                    v.aggregates,
                    #[trigger] s.projection@[i],
                    item_place(v.scope, s.projection@, i) as int,
                    v.projections,
                )
            &&& match q.order_by {
                Some(OrderBy::Expressions(exprs)) => v.sort matches Some(xs) && xs.len()
                    == exprs@.len() && forall|i: int|
                    0 <= i < xs.len() ==> is_bound_to(
                        v.scope,
                        groups,
                        v.aggregates,
                        exprs@[i],
                        #[trigger] xs[i],
                    ),
                Some(OrderBy::All) => false,
                None => v.sort is None,
            }
            &&& q.limit_clause is None ==> v.limit is None
        }),
{
    let s = q.body->Select_0;
    let from = from_clause(c, s.from@)->Ok_0;
    let written = written_groups(s);
    lemma_all(from.0, written);
    let group_bys = resolved_all(from.0, written)->Ok_0;
    let ctx = start_ctx(s, written, group_bys);
    let items = s.projection@;
    let n = items.len() as int;
    let (xs, mid) = projected(from.0, ctx, items, n)->Ok_0;
    let after = (order_clause(from.0, mid, q.order_by)->Ok_0).1;
    lemma_projected_same(from.0, ctx, items, n);
    match q.order_by {
        Some(OrderBy::Expressions(exprs)) => {
            lemma_ordered_same(from.0, mid, exprs@, exprs@.len() as int);
            assert(countable(after));
            lemma_ordered(from.0, mid, exprs@, exprs@.len() as int);
        },
        _ => {},
    }
    assert(ctx_grew(mid, after));
    assert(countable(mid));
    lemma_projected(from.0, ctx, items, n);
    assert forall|i: int| 0 <= i < n implies is_item(
        v.scope,
        output_groups(s),
        v.aggregates,
        #[trigger] items[i],
        item_place(v.scope, items, i) as int,
        v.projections,
    ) by {
        reveal(is_item);
        match items[i] {
            SelectItem::UnnamedExpr(e) => {
                lemma_more(from.0, mid, after, e, xs[item_place(from.0, items, i) as int]);
            },
            _ => {},
        }
    }
}

proof fn lemma_projected_same(
    scope: Seq<ScopeView>,
    ctx: Option<AggView>,
    items: Seq<SelectItem>,
    n: int,
)
    requires
        projected(scope, ctx, items, n) is Ok,
    ensures
        ctx_grew(ctx, (projected(scope, ctx, items, n)->Ok_0).1),
    decreases n,
{
    if n > 0 {
        lemma_projected_same(scope, ctx, items, n - 1);
        let mid = (projected(scope, ctx, items, n - 1)->Ok_0).1;
        match (items[n - 1], mid) {
            (SelectItem::UnnamedExpr(e), Some(v)) => lemma_aggregates_grow(scope, v, e),
            _ => {},
        }
    }
}

proof fn lemma_ordered_same(scope: Seq<ScopeView>, ctx: Option<AggView>, exprs: Seq<Expr>, n: int)
    requires
        ordered(scope, ctx, exprs, n) is Ok,
    ensures
        ctx_grew(ctx, (ordered(scope, ctx, exprs, n)->Ok_0).1),
    decreases n,
{
    if n > 0 {
        lemma_ordered_same(scope, ctx, exprs, n - 1);
        let mid = (ordered(scope, ctx, exprs, n - 1)->Ok_0).1;
        match mid {
            Some(v) => lemma_aggregates_grow(scope, v, exprs[n - 1]),
            _ => {},
        }
    }
}

} // verus!
