//! Which statements can be bound.
use vstd::prelude::*;

use crate::ast::{
    expr_eq, CreateIndex, CreateTable, Delete, Expr, Function, FunctionArg, FunctionArguments,
    GroupBy, Insert, JoinConstraint, JoinOperator, ObjectName, OrderBy, Query, Select, SelectItem,
    SetExpr, TableFactor, TableWithJoins, Update,
};
use crate::catalog::Catalog;
use crate::catalog::registry::is_table_named;
use crate::parser::binder::{
    aggregating, assignments_bound, columns_bound, create_index_bound, create_table_bound,
    delete_bound, insert_bound, key_bound, query_bound, update_bound,
};
use crate::parser::clause_laws::is_plain_name;
use crate::parser::laws::lemma_resolved_column;
use crate::parser::meaning_laws::{lacks_column, lemma_named};
use crate::parser::scope::{
    aggregate_named, both_tables, constant_of, counted, from_clause, group_match, holds_aggregate,
    item_aggregates, limit_of, ordered, projected, resolved, resolved_all, resolved_list,
    resolved_rows, table_of, AggView, ScopeView,
};
use crate::parser::select_laws::written_groups;
use crate::processor::expression::{result_type, Expression};
use crate::processor::plan::AggType;

verus! {

/// There is a table of that name, and the name has one part.
pub open spec fn names_table(c: &Catalog, name: ObjectName) -> bool {
    exists|n: Seq<char>, i: int| #[trigger]
        is_plain_name(name, n) && #[trigger] is_table_named(c.tables@, n, i)
}

pub open spec fn factor_ok(c: &Catalog, f: TableFactor) -> bool {
    f matches TableFactor::Table { name, alias } && names_table(c, name)
}

proof fn lemma_factor_ok(c: &Catalog, f: TableFactor, idx: u8)
    ensures
        table_of(c, f, idx) is Ok <==> factor_ok(c, f),
{
    match f {
        TableFactor::Table { name, alias } => {
            if table_of(c, f, idx) is Ok {
                let n = name.parts@[0]->Identifier_0.value@;
                assert(is_plain_name(name, n));
                let i = choose|i: int| is_table_named(c.tables@, n, i);
                assert(is_table_named(c.tables@, n, i));
            }
        },
        _ => {},
    }
}

/// A join that is supported: inner or left, with an ON expression.
pub open spec fn on_expression(op: JoinOperator) -> Option<Expr> {
    match op {
        JoinOperator::Join(JoinConstraint::On(e)) => Some(e),
        JoinOperator::Inner(JoinConstraint::On(e)) => Some(e),
        JoinOperator::Left(JoinConstraint::On(e)) => Some(e),
        JoinOperator::LeftOuter(JoinConstraint::On(e)) => Some(e),
        _ => None,
    }
}

/// A FROM clause can be bound where it names nothing, one table, or two that are joined by an
/// expression over both.
pub proof fn law_from_succeeds(c: &Catalog, from: Seq<TableWithJoins>)
    ensures
        from.len() == 0 ==> (from_clause(c, from) matches Ok((scope, join)) && scope.len() == 0
            && join is None),
        from.len() > 1 ==> from_clause(c, from) is Err,
        from.len() == 1 && from[0].joins@.len() == 0 ==> (from_clause(c, from) is Ok <==> factor_ok(
            c,
            from[0].relation,
        )),
        from.len() == 1 && from[0].joins@.len() == 1 ==> (from_clause(c, from) is Ok <==> {
            let written = from[0].joins@[0];
            &&& factor_ok(c, from[0].relation)
            &&& factor_ok(c, written.relation)
            &&& on_expression(written.join_operator) matches Some(e) && resolved(
                both_tables(
                    table_of(c, from[0].relation, 0)->Ok_0,
                    table_of(c, written.relation, 1)->Ok_0,
                ),
                e,
                false,
            ) is Ok
        }),
        from.len() == 1 && from[0].joins@.len() > 1 ==> from_clause(c, from) is Err,
{
    if from.len() == 1 {
        lemma_factor_ok(c, from[0].relation, 0);
        if from[0].joins@.len() == 1 {
            lemma_factor_ok(c, from[0].joins@[0].relation, 1);
        }
    }
}

/// All expressions can be resolved.
pub open spec fn all_resolve(scope: Seq<ScopeView>, exprs: Seq<Expr>) -> bool {
    forall|i: int| 0 <= i < exprs.len() ==> resolved(scope, #[trigger] exprs[i], false) is Ok
}

proof fn lemma_list_ok(scope: Seq<ScopeView>, exprs: Seq<Expr>, n: int)
    requires
        0 <= n <= exprs.len(),
    ensures
        resolved_list(scope, exprs, n) is Ok <==> forall|i: int|
            0 <= i < n ==> resolved(scope, #[trigger] exprs[i], false) is Ok,
    decreases n,
{
    if n > 0 {
        lemma_list_ok(scope, exprs, n - 1);
    }
}

proof fn lemma_rows_ok(scope: Seq<ScopeView>, rows: Seq<Vec<Expr>>, n: int)
    requires
        0 <= n <= rows.len(),
    ensures
        resolved_rows(scope, rows, n) is Ok <==> forall|i: int|
            0 <= i < n ==> all_resolve(scope, (#[trigger] rows[i])@),
    decreases n,
{
    if n > 0 {
        lemma_rows_ok(scope, rows, n - 1);
        lemma_list_ok(scope, rows[n - 1]@, rows[n - 1]@.len() as int);
    }
}

/// The table that a statement changes, under its own name.
pub open spec fn changed(c: &Catalog, name: ObjectName) -> ScopeView {
    table_of(c, TableFactor::Table { name, alias: None }, 0)->Ok_0
}

pub open spec fn where_ok(t: ScopeView, selection: Option<Expr>) -> bool {
    selection matches Some(e) ==> resolved(seq![t], e, false) is Ok
}

/// An INSERT can be bound where its table exists and all expressions of its VALUES clause can be
/// resolved.
pub proof fn law_insert_succeeds(c: &Catalog, i: Insert)
    ensures
        insert_bound(c, i) is Ok <==> {
            &&& i.table matches Some(name) && names_table(c, name)
            &&& i.source matches Some(q) && (q.body matches SetExpr::Values(rows) && forall|k: int|
                0 <= k < rows@.len() ==> all_resolve(
                    seq![changed(c, i.table->0)],
                    (#[trigger] rows@[k])@,
                ))
        },
{
    if i.table is Some {
        let name = i.table->0;
        lemma_factor_ok(c, TableFactor::Table { name, alias: None }, 0);
        match i.source {
            Some(q) => match q.body {
                SetExpr::Values(rows) => {
                    lemma_rows_ok(seq![changed(c, name)], rows@, rows@.len() as int);
                },
                _ => {},
            },
            None => {},
        }
    }
}

/// A DELETE can be bound where it names one table that exists and its WHERE expression can be
/// resolved.
pub proof fn law_delete_succeeds(c: &Catalog, d: Delete)
    ensures
        delete_bound(c, d) is Ok <==> d.from@.len() == 1 && (
        d.from@[0].relation matches TableFactor::Table { name, alias } && names_table(c, name)
            && where_ok(changed(c, name), d.selection)),
{
    if d.from@.len() == 1 {
        match d.from@[0].relation {
            TableFactor::Table { name, alias } => {
                lemma_factor_ok(c, TableFactor::Table { name, alias: None }, 0);
            },
            _ => {},
        }
    }
}

/// An assignment to a column that the table has, of an expression that can be resolved.
pub open spec fn assignment_ok(t: ScopeView, u: Update, i: int) -> bool {
    &&& u.assignments@[i].target matches Some(name) && exists|n: Seq<char>| #[trigger]
        is_plain_name(name, n) && !lacks_column(t, n)
    &&& resolved(seq![t], u.assignments@[i].value, false) is Ok
}

proof fn lemma_assignments_ok(t: ScopeView, u: Update, n: int)
    requires
        0 <= n <= u.assignments@.len(),
    ensures
        assignments_bound(t, u, n) is Ok <==> forall|i: int|
            0 <= i < n ==> #[trigger] assignment_ok(t, u, i),
    decreases n,
{
    if n > 0 {
        lemma_assignments_ok(t, u, n - 1);
        match u.assignments@[n - 1].target {
            Some(name) => {
                if name.parts@.len() == 1 && name.parts@[0] is Identifier {
                    let s = name.parts@[0]->Identifier_0.value@;
                    assert(is_plain_name(name, s));
                    lemma_named(t, s);
                }
            },
            None => {},
        }
        if assignments_bound(t, u, n) is Ok {
            assert(assignment_ok(t, u, n - 1));
        } else if forall|i: int| 0 <= i < n ==> #[trigger] assignment_ok(t, u, i) {
            assert(assignment_ok(t, u, n - 1));
        }
    }
}

/// An UPDATE can be bound where its table exists, each assignment is to a column of it, and all
/// expressions can be resolved.
pub proof fn law_update_binds(c: &Catalog, u: Update)
    ensures
        update_bound(c, u) is Ok <==> (u.table.relation matches TableFactor::Table { name, alias }
            && names_table(c, name) && where_ok(changed(c, name), u.selection) && forall|i: int|
            0 <= i < u.assignments@.len() ==> #[trigger] assignment_ok(changed(c, name), u, i)),
{
    match u.table.relation {
        TableFactor::Table { name, alias } => {
            lemma_factor_ok(c, TableFactor::Table { name, alias: None }, 0);
            lemma_assignments_ok(changed(c, name), u, u.assignments@.len() as int);
        },
        _ => {},
    }
}

proof fn lemma_columns_ok(stmt: CreateTable, n: int)
    requires
        0 <= n <= stmt.columns@.len(),
    ensures
        columns_bound(stmt, n) is Ok <==> forall|i: int|
            0 <= i < n ==> !((#[trigger] stmt.columns@[i]).data_type is Other),
        columns_bound(stmt, n) matches Ok(cols) ==> cols.len() == n,
    decreases n,
{
    if n > 0 {
        lemma_columns_ok(stmt, n - 1);
    }
}

/// A CREATE TABLE can be bound where its name has one part and the types of all columns are
/// supported, as far as columns can be counted.
pub proof fn law_create_table_succeeds(stmt: CreateTable)
    requires
        stmt.columns@.len() <= usize::MAX / 16,
    ensures
        create_table_bound(stmt) is Ok <==> (exists|n: Seq<char>| is_plain_name(stmt.name, n))
            && forall|i: int|
            0 <= i < stmt.columns@.len() ==> !((#[trigger] stmt.columns@[i]).data_type is Other),
{
    lemma_columns_ok(stmt, stmt.columns@.len() as int);
    if stmt.name.parts@.len() == 1 && stmt.name.parts@[0] is Identifier {
        assert(is_plain_name(stmt.name, stmt.name.parts@[0]->Identifier_0.value@));
    }
}

pub open spec fn key_column_ok(t: ScopeView, e: Expr) -> bool {
    e matches Expr::Identifier(id) && !lacks_column(t, id.value@)
}

proof fn lemma_key_ok(t: ScopeView, stmt: CreateIndex, n: int)
    requires
        0 <= n <= stmt.columns@.len(),
    ensures
        key_bound(t, stmt, n) is Ok <==> forall|i: int|
            0 <= i < n ==> key_column_ok(t, #[trigger] stmt.columns@[i]),
        key_bound(t, stmt, n) matches Ok(cols) ==> cols.len() == n,
    decreases n,
{
    if n > 0 {
        lemma_key_ok(t, stmt, n - 1);
        match stmt.columns@[n - 1] {
            Expr::Identifier(id) => lemma_named(t, id.value@),
            _ => {},
        }
    }
}

/// A CREATE INDEX can be bound where it has a name, its table exists, and each column of the key
/// is the bare name of a column of it.
pub proof fn law_create_index_succeeds(c: &Catalog, stmt: CreateIndex)
    requires
        stmt.columns@.len() <= usize::MAX / 16,
    ensures
        create_index_bound(c, stmt) is Ok <==> {
            &&& stmt.name matches Some(name) && exists|n: Seq<char>| is_plain_name(name, n)
            &&& names_table(c, stmt.table_name)
            &&& forall|i: int|
                0 <= i < stmt.columns@.len() ==> key_column_ok(
                    changed(c, stmt.table_name),
                    #[trigger] stmt.columns@[i],
                )
        },
{
    lemma_factor_ok(c, TableFactor::Table { name: stmt.table_name, alias: None }, 0);
    lemma_key_ok(changed(c, stmt.table_name), stmt, stmt.columns@.len() as int);
    match stmt.name {
        Some(name) => {
            if name.parts@.len() == 1 && name.parts@[0] is Identifier {
                assert(is_plain_name(name, name.parts@[0]->Identifier_0.value@));
            }
        },
        None => {},
    }
}

/// The argument of an aggregate call can be resolved and has a type, or needs none.
pub open spec fn call_ok(scope: Seq<ScopeView>, f: Function) -> bool {
    aggregate_named(f.name) matches Some(agg) && (f.args matches FunctionArguments::List(list)
        && !list.duplicate_treatment && !list.clauses && list.args@.len() == 1
        && match list.args@[0] {
        FunctionArg::Expr(e) => resolved(scope, e, true) matches Ok(x) && (agg == AggType::COUNT
            || result_type(x) is Some),
        FunctionArg::Wildcard => agg == AggType::COUNT,
        _ => false,
    })
}

/// The expression is written like a GROUP BY expression, or is made of such, of aggregate calls
/// and of literals.
pub open spec fn groupable(
    scope: Seq<ScopeView>,
    groups: Seq<Expr>,
    bound: Seq<Expression>,
    e: Expr,
) -> bool
    decreases e,
{
    if exists|i: int| 0 <= i < groups.len() && expr_eq(#[trigger] groups[i], e) {
        forall|i: int|
            0 <= i < groups.len() && expr_eq(#[trigger] groups[i], e) && (forall|k: int|
                0 <= k < i ==> !expr_eq(#[trigger] groups[k], e)) ==> result_type(bound[i]) is Some
    } else {
        match e {
            Expr::Nested(inner) => groupable(scope, groups, bound, *inner),
            Expr::BinaryOp { left, op, right } => !(op is Other) && groupable(
                scope,
                groups,
                bound,
                *left,
            ) && groupable(scope, groups, bound, *right),
            Expr::Value(v) => constant_of(v) is Ok,
            Expr::Function(f) => call_ok(scope, *f),
            _ => false,
        }
    }
}

proof fn lemma_first_match(exprs: Seq<Expr>, e: Expr, i: int)
    requires
        0 <= i,
    ensures
        match group_match(exprs, e, i) {
            Some(p) => i <= p < exprs.len() && expr_eq(exprs[p], e) && forall|k: int|
                i <= k < p ==> !expr_eq(#[trigger] exprs[k], e),
            None => forall|k: int| i <= k < exprs.len() ==> !expr_eq(#[trigger] exprs[k], e),
        },
    decreases exprs.len() - i,
{
    if i < exprs.len() {
        lemma_first_match(exprs, e, i + 1);
    }
}

/// In an aggregating SELECT an expression can be bound where it is written like a GROUP BY
/// expression, or is made of such, of aggregate calls and of literals.
pub proof fn law_groupable(scope: Seq<ScopeView>, ctx: AggView, e: Expr)
    ensures
        counted(scope, ctx, e) is Ok <==> groupable(scope, ctx.group_by_exprs, ctx.group_bys, e),
        counted(scope, ctx, e) matches Ok((x, after)) ==> after.group_by_exprs == ctx.group_by_exprs
            && after.group_bys == ctx.group_bys,
    decreases e,
{
    lemma_first_match(ctx.group_by_exprs, e, 0);
    if group_match(ctx.group_by_exprs, e, 0) is None {
        match e {
            Expr::Nested(inner) => law_groupable(scope, ctx, *inner),
            Expr::BinaryOp { left, op, right } => {
                law_groupable(scope, ctx, *left);
                match counted(scope, ctx, *left) {
                    Ok((l, mid)) => law_groupable(scope, mid, *right),
                    Err(_) => {},
                }
            },
            _ => {},
        }
    } else {
        let p = group_match(ctx.group_by_exprs, e, 0)->0;
        let groups = ctx.group_by_exprs;
        assert(expr_eq(groups[p], e));
        assert forall|i: int|
            0 <= i < groups.len() && expr_eq(#[trigger] groups[i], e) && (forall|k: int|
                0 <= k < i ==> !expr_eq(#[trigger] groups[k], e)) implies i == p by {
            if p < i {
                assert(!expr_eq(groups[p], e));
            }
        }
    }
}

/// The type of an expression can be told: it is not NULL, nor arithmetic on nothing but NULLs.
pub open spec fn has_type(e: Expr) -> bool
    decreases e,
{
    match e {
        Expr::Nested(inner) => has_type(*inner),
        Expr::BinaryOp { left, op, right } => if op is Plus || op is Minus || op is Multiply
            || op is Divide {
            has_type(*left) || has_type(*right)
        } else {
            true
        },
        Expr::Value(v) => !(v is Null),
        _ => true,
    }
}

/// The type of an expression that was resolved can be told where that of the expression as it is
/// written can.
pub proof fn law_has_type(scope: Seq<ScopeView>, e: Expr, inside: bool)
    requires
        resolved(scope, e, inside) is Ok,
    ensures
        result_type(resolved(scope, e, inside)->Ok_0) is Some <==> has_type(e),
    decreases e,
{
    match e {
        Expr::Nested(inner) => law_has_type(scope, *inner, inside),
        Expr::BinaryOp { left, op, right } => {
            law_has_type(scope, *left, inside);
            law_has_type(scope, *right, inside);
        },
        Expr::Identifier(id) => {
            lemma_resolved_column(scope, id.value@, scope.len() as int);
        },
        _ => {},
    }
}

/// An item of a projection that does not aggregate.
pub open spec fn item_ok(scope: Seq<ScopeView>, item: SelectItem) -> bool {
    match item {
        SelectItem::UnnamedExpr(e) => resolved(scope, e, false) is Ok && has_type(e),
        SelectItem::Wildcard => true,
        _ => false,
    }
}

proof fn lemma_items_ok(scope: Seq<ScopeView>, items: Seq<SelectItem>, n: int)
    requires
        0 <= n <= items.len(),
    ensures
        projected(scope, None, items, n) is Ok <==> forall|i: int|
            0 <= i < n ==> item_ok(scope, #[trigger] items[i]),
        projected(scope, None, items, n) matches Ok((xs, after)) ==> after is None,
    decreases n,
{
    if n > 0 {
        lemma_items_ok(scope, items, n - 1);
        match items[n - 1] {
            SelectItem::UnnamedExpr(e) => {
                if resolved(scope, e, false) is Ok {
                    law_has_type(scope, e, false);
                }
            },
            _ => {},
        }
    }
}

proof fn lemma_order_ok(scope: Seq<ScopeView>, exprs: Seq<Expr>, n: int)
    requires
        0 <= n <= exprs.len(),
    ensures
        ordered(scope, None, exprs, n) is Ok <==> forall|i: int|
            0 <= i < n ==> resolved(scope, #[trigger] exprs[i], false) is Ok,
        ordered(scope, None, exprs, n) matches Ok((xs, after)) ==> after is None,
    decreases n,
{
    if n > 0 {
        lemma_order_ok(scope, exprs, n - 1);
    }
}

/// A SELECT that does not aggregate can be bound where its FROM clause can, the WHERE and ORDER BY
/// expressions can be resolved, each item of its projection is an expression with a type or a
/// wildcard, and its LIMIT clause is a number.
pub proof fn law_select_succeeds(c: &Catalog, q: Query)
    requires
        q.body is Select,
        !aggregating(q.body->Select_0, written_groups(q.body->Select_0)),
    ensures
        query_bound(c, q) is Ok <==> {
            let s = q.body->Select_0;
            let scope = (from_clause(c, s.from@)->Ok_0).0;
            &&& from_clause(c, s.from@) is Ok
            &&& s.selection matches Some(e) ==> resolved(scope, e, false) is Ok
            &&& s.group_by matches GroupBy::Expressions { exprs, modifiers } && !modifiers
            &&& forall|i: int|
                0 <= i < s.projection@.len() ==> item_ok(scope, #[trigger] s.projection@[i])
            &&& match q.order_by {
                Some(OrderBy::Expressions(exprs)) => all_resolve(scope, exprs@),
                Some(OrderBy::All) => false,
                None => true,
            }
            &&& limit_of(q.limit_clause) is Ok
        },
{
    let s = q.body->Select_0;
    if from_clause(c, s.from@) is Ok {
        let scope = (from_clause(c, s.from@)->Ok_0).0;
        lemma_items_ok(scope, s.projection@, s.projection@.len() as int);
        match q.order_by {
            Some(OrderBy::Expressions(exprs)) => {
                lemma_order_ok(scope, exprs@, exprs@.len() as int);
            },
            _ => {},
        }
        assert(written_groups(s).len() == 0);
        assert(resolved_all(scope, written_groups(s)) is Ok);
    }
}

/// The expression holds no call of a function.
pub open spec fn calls_nothing(e: Expr) -> bool
    decreases e,
{
    match e {
        Expr::Nested(inner) => calls_nothing(*inner),
        Expr::BinaryOp { left, op, right } => calls_nothing(*left) && calls_nothing(*right),
        Expr::Function(f) => false,
        _ => true,
    }
}

/// The expression is an aggregate call, stands in brackets round one, or is an operation on one.
pub open spec fn has_call(e: Expr, f: Function) -> bool
    decreases e,
{
    match e {
        Expr::Nested(inner) => has_call(*inner, f),
        Expr::BinaryOp { left, op, right } => has_call(*left, f) || has_call(*right, f),
        Expr::Function(g) => *g == f,
        _ => false,
    }
}

proof fn lemma_no_call(e: Expr)
    requires
        calls_nothing(e),
    ensures
        !holds_aggregate(e),
    decreases e,
{
    match e {
        Expr::Nested(inner) => lemma_no_call(*inner),
        Expr::BinaryOp { left, op, right } => {
            lemma_no_call(*left);
            lemma_no_call(*right);
        },
        _ => {},
    }
}

proof fn lemma_call(e: Expr, f: Function)
    requires
        has_call(e, f),
        aggregate_named(f.name) is Some,
    ensures
        holds_aggregate(e),
    decreases e,
{
    match e {
        Expr::Nested(inner) => lemma_call(*inner, f),
        Expr::BinaryOp { left, op, right } => {
            if has_call(*left, f) {
                lemma_call(*left, f);
            } else {
                lemma_call(*right, f);
            }
        },
        _ => {},
    }
}

/// A SELECT aggregates where it has GROUP BY expressions or an aggregate call in its projection,
/// and does not where it has neither the one nor any call.
pub proof fn law_aggregating(s: Select, i: int, f: Function)
    ensures
        written_groups(s).len() > 0 ==> aggregating(s, written_groups(s)),
        (0 <= i < s.projection@.len() && aggregate_named(f.name) is Some && (
        s.projection@[i] matches SelectItem::UnnamedExpr(e) && has_call(e, f))) ==> aggregating(
            s,
            written_groups(s),
        ),
        (written_groups(s).len() == 0 && forall|k: int|
            0 <= k < s.projection@.len() ==> (match (#[trigger] s.projection@[k]) {
                SelectItem::UnnamedExpr(e) => calls_nothing(e),
                SelectItem::ExprWithAlias(e) => calls_nothing(e),
                _ => true,
            })) ==> !aggregating(s, written_groups(s)),
{
    if 0 <= i < s.projection@.len() {
        match s.projection@[i] {
            SelectItem::UnnamedExpr(e) => {
                if has_call(e, f) && aggregate_named(f.name) is Some {
                    lemma_call(e, f);
                    assert(item_aggregates(s.projection@[i]));
                }
            },
            _ => {},
        }
    }
    if written_groups(s).len() == 0 && (forall|k: int|
        0 <= k < s.projection@.len() ==> (match (#[trigger] s.projection@[k]) {
            SelectItem::UnnamedExpr(e) => calls_nothing(e),
            SelectItem::ExprWithAlias(e) => calls_nothing(e),
            _ => true,
        })) {
        assert forall|k: int| 0 <= k < s.projection@.len() implies !item_aggregates(
            #[trigger] s.projection@[k],
        ) by {
            match s.projection@[k] {
                SelectItem::UnnamedExpr(e) => lemma_no_call(e),
                SelectItem::ExprWithAlias(e) => lemma_no_call(e),
                _ => {},
            }
        }
    }
}

} // verus!
