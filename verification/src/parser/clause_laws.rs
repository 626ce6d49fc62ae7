//! What the clauses of a statement are bound to, item by item.
use vstd::prelude::*;

use crate::ast::{
    CreateIndex, CreateTable, Delete, Expr, Insert, JoinConstraint, JoinOperator, NamePart,
    ObjectName, Query, SetExpr, TableFactor, TableWithJoins, Update,
};
use crate::catalog::Catalog;
use crate::catalog::registry::is_table_named;
use crate::catalog::value::DataType;
use crate::parser::binder::{
    assignments_bound, columns_bound, create_index_bound, create_table_bound, delete_bound,
    insert_bound, key_bound, query_bound, update_bound, QueryView,
};
use crate::parser::laws::columns_countable;
use crate::parser::meaning_laws::{lemma_named, names_column, refers_to};
use crate::parser::scope::{
    from_clause, name_pos, resolved, resolved_all, resolved_list, resolved_rows, table_of, type_of,
    ScopeView,
};
use crate::processor::expression::Expression;
use crate::processor::plan::JoinType;

verus! {

/// The name has one part, and it is this.
pub open spec fn is_plain_name(name: ObjectName, s: Seq<char>) -> bool {
    name.parts@.len() == 1 && (name.parts@[0] matches NamePart::Identifier(id) && id.value@ == s)
}

/// The table of that name in the catalog, under an alias and a number.
pub open spec fn is_table_under(
    c: &Catalog,
    name: Seq<char>,
    alias: Seq<char>,
    idx: u8,
    t: ScopeView,
) -> bool {
    &&& t.alias == alias
    &&& t.idx == idx
    &&& exists|i: int| #[trigger]
        is_table_named(c.tables@, name, i) && c.tables@[i].oid == t.oid
            && c.tables@[i].info.schema@ == t.schema
}

/// A table of a FROM clause goes by its alias, else by its own name.
pub open spec fn is_factor(c: &Catalog, f: TableFactor, idx: u8, t: ScopeView) -> bool {
    f matches TableFactor::Table { name, alias } && exists|n: Seq<char>| #[trigger]
        is_plain_name(name, n) && is_table_under(
            c,
            n,
            match alias {
                Some(a) => a@,
                None => n,
            },
            idx,
            t,
        )
}

proof fn lemma_factor(c: &Catalog, f: TableFactor, idx: u8)
    ensures
        table_of(c, f, idx) matches Ok(t) ==> is_factor(c, f, idx, t),
{
    match f {
        TableFactor::Table { name, alias } => {
            match table_of(c, f, idx) {
                Ok(t) => {
                    let n = name.parts@[0]->Identifier_0.value@;
                    assert(is_plain_name(name, n));
                    let i = choose|i: int| is_table_named(c.tables@, n, i);
                    assert(is_table_named(c.tables@, n, i));
                },
                Err(_) => {},
            }
        },
        _ => {},
    }
}

/// A FROM clause of one table brings that table into scope, as the first.
pub proof fn law_from_table(c: &Catalog, from: Seq<TableWithJoins>)
    requires
        from.len() == 1,
        from[0].joins@.len() == 0,
        from_clause(c, from) is Ok,
    ensures
        ({
            let (scope, join) = from_clause(c, from)->Ok_0;
            &&& scope.len() == 1
            &&& is_factor(c, from[0].relation, 0, scope[0])
            &&& join is None
        }),
{
    lemma_factor(c, from[0].relation, 0);
}

/// A FROM clause that joins two tables under two names brings both into scope, the left one first.
/// `JOIN` and `INNER JOIN` are inner joins, `LEFT JOIN` and `LEFT OUTER JOIN` are left joins, and
/// the predicate is the ON expression over both tables.
pub proof fn law_from_join(c: &Catalog, from: Seq<TableWithJoins>)
    requires
        from.len() == 1,
        from[0].joins@.len() == 1,
        from_clause(c, from) is Ok,
    ensures
        ({
            let (scope, join) = from_clause(c, from)->Ok_0;
            let written = from[0].joins@[0];
            &&& scope.len() == 2 ==> is_factor(c, from[0].relation, 0, scope[0]) && is_factor(
                c,
                written.relation,
                1,
                scope[1],
            ) && scope[0].alias != scope[1].alias
            &&& scope.len() == 1 || scope.len() == 2
            &&& scope.len() == 1 ==> is_factor(c, written.relation, 1, scope[0])
            &&& join matches Some((kind, p)) && match written.join_operator {
                JoinOperator::Join(JoinConstraint::On(e)) => kind == JoinType::Inner
                    && resolved(scope, e, false) == Ok::<Expression, Seq<char>>(p),
                JoinOperator::Inner(JoinConstraint::On(e)) => kind == JoinType::Inner
                    && resolved(scope, e, false) == Ok::<Expression, Seq<char>>(p),
                JoinOperator::Left(JoinConstraint::On(e)) => kind == JoinType::Left
                    && resolved(scope, e, false) == Ok::<Expression, Seq<char>>(p),
                JoinOperator::LeftOuter(JoinConstraint::On(e)) => kind == JoinType::Left
                    && resolved(scope, e, false) == Ok::<Expression, Seq<char>>(p),
                _ => false,
            }
        }),
{
    lemma_factor(c, from[0].relation, 0);
    lemma_factor(c, from[0].joins@[0].relation, 1);
}

/// Each expression of a list is bound on its own and keeps its place.
pub open spec fn bound_in_order(
    scope: Seq<ScopeView>,
    exprs: Seq<Expr>,
    xs: Seq<Expression>,
) -> bool {
    &&& xs.len() == exprs.len()
    &&& forall|i: int|
        0 <= i < xs.len() ==> resolved(scope, exprs[i], false) == Ok::<Expression, Seq<char>>(
            #[trigger] xs[i],
        )
}

proof fn lemma_list(scope: Seq<ScopeView>, exprs: Seq<Expr>, n: int)
    requires
        0 <= n <= exprs.len(),
        resolved_list(scope, exprs, n) is Ok,
    ensures
        bound_in_order(scope, exprs.subrange(0, n), resolved_list(scope, exprs, n)->Ok_0),
    decreases n,
{
    if n > 0 {
        lemma_list(scope, exprs, n - 1);
        let xs = resolved_list(scope, exprs, n)->Ok_0;
        let before = resolved_list(scope, exprs, n - 1)->Ok_0;
        assert forall|i: int| 0 <= i < xs.len() implies resolved(
            scope,
            exprs.subrange(0, n)[i],
            false,
        ) == Ok::<Expression, Seq<char>>(#[trigger] xs[i]) by {
            if i < n - 1 {
                assert(xs[i] == before[i]);
                assert(exprs.subrange(0, n - 1)[i] == exprs.subrange(0, n)[i]);
            }
        }
    }
}

pub(crate) proof fn lemma_all(scope: Seq<ScopeView>, exprs: Seq<Expr>)
    requires
        resolved_all(scope, exprs) is Ok,
    ensures
        bound_in_order(scope, exprs, resolved_all(scope, exprs)->Ok_0),
{
    lemma_list(scope, exprs, exprs.len() as int);
    assert(exprs.subrange(0, exprs.len() as int) =~= exprs);
}

proof fn lemma_rows(scope: Seq<ScopeView>, rows: Seq<Vec<Expr>>, n: int)
    requires
        0 <= n <= rows.len(),
        resolved_rows(scope, rows, n) is Ok,
    ensures
        resolved_rows(scope, rows, n)->Ok_0.len() == n,
        forall|i: int|
            0 <= i < n ==> bound_in_order(
                scope,
                rows[i]@,
                #[trigger] resolved_rows(scope, rows, n)->Ok_0[i],
            ),
    decreases n,
{
    if n > 0 {
        lemma_rows(scope, rows, n - 1);
        lemma_all(scope, rows[n - 1]@);
        let (now, before) = (
            resolved_rows(scope, rows, n)->Ok_0,
            resolved_rows(scope, rows, n - 1)->Ok_0,
        );
        assert forall|i: int| 0 <= i < n implies bound_in_order(
            scope,
            rows[i]@,
            #[trigger] now[i],
        ) by {
            if i < n - 1 {
                assert(now[i] == before[i]);
            }
        }
    }
}

/// A VALUES query is bound row for row and expression for expression, with no table in scope.
pub proof fn law_values_bound(c: &Catalog, q: Query)
    requires
        q.body is Values,
        query_bound(c, q) is Ok,
    ensures
        query_bound(c, q) matches Ok(QueryView::Values(v)) && v.len() == q.body->Values_0@.len()
            && forall|i: int|
            0 <= i < v.len() ==> bound_in_order(
                Seq::empty(),
                q.body->Values_0@[i]@,
                #[trigger] v[i],
            ),
{
    lemma_rows(Seq::empty(), q.body->Values_0@, q.body->Values_0@.len() as int);
}

/// An INSERT is bound to the table that it names and to its rows, one for one.
pub proof fn law_insert_bound(c: &Catalog, i: Insert)
    requires
        insert_bound(c, i) is Ok,
    ensures
        ({
            let (scope, v) = insert_bound(c, i)->Ok_0;
            &&& scope.len() == 1
            &&& i.table matches Some(name) && exists|n: Seq<char>| #[trigger]
                is_plain_name(name, n) && is_table_under(c, n, n, 0, scope[0])
            &&& i.source matches Some(q) && (q.body matches SetExpr::Values(rows) && v.len()
                == rows@.len() && forall|k: int|
                0 <= k < v.len() ==> bound_in_order(scope, rows@[k]@, #[trigger] v[k]))
        }),
{
    let name = i.table->0;
    let n = name.parts@[0]->Identifier_0.value@;
    assert(is_plain_name(name, n));
    let at = choose|at: int| is_table_named(c.tables@, n, at);
    assert(is_table_named(c.tables@, n, at));
    let (scope, v) = insert_bound(c, i)->Ok_0;
    let rows = i.source->0.body->Values_0@;
    lemma_rows(scope, rows, rows.len() as int);
}

proof fn lemma_assignments(t: ScopeView, u: Update, n: int)
    requires
        0 <= n <= u.assignments@.len(),
        t.schema.cols.len() <= u32::MAX,
        assignments_bound(t, u, n) is Ok,
    ensures
        ({
            let (cols, news) = assignments_bound(t, u, n)->Ok_0;
            &&& cols.len() == n
            &&& news.len() == n
            &&& forall|i: int|
                0 <= i < n ==> is_assignment(t, u, i, #[trigger] cols[i], news[i])
        }),
    decreases n,
{
    if n > 0 {
        lemma_assignments(t, u, n - 1);
        let (cols, news) = assignments_bound(t, u, n)->Ok_0;
        let (cols0, news0) = assignments_bound(t, u, n - 1)->Ok_0;
        let name = u.assignments@[n - 1].target->0;
        let col = name.parts@[0]->Identifier_0.value@;
        lemma_named(t, col);
        assert(is_plain_name(name, col) && names_column(t, col, name_pos(t, col)));
        assert forall|i: int| 0 <= i < n implies is_assignment(
            t,
            u,
            i,
            #[trigger] cols[i],
            news[i],
        ) by {
            if i < n - 1 {
                assert(cols[i] == cols0[i] && news[i] == news0[i]);
            }
        }
    }
}

/// Assignment `i` is to the column that it names, of what is written behind it.
pub open spec fn is_assignment(
    t: ScopeView,
    u: Update,
    i: int,
    col: Expression,
    new: Expression,
) -> bool {
    &&& u.assignments@[i].target matches Some(name) && exists|n: Seq<char>, p: int| #[trigger]
        is_plain_name(name, n) && #[trigger] names_column(t, n, p) && refers_to(col, t, p)
    &&& resolved(seq![t], u.assignments@[i].value, false) == Ok::<Expression, Seq<char>>(new)
}

/// The filter is the WHERE expression, where there is one.
pub open spec fn is_filter(
    scope: Seq<ScopeView>,
    selection: Option<Expr>,
    filters: Option<Seq<Expression>>,
) -> bool {
    match selection {
        Some(e) => filters matches Some(fs) && fs.len() == 1 && resolved(scope, e, false) == Ok::<
            Expression,
            Seq<char>,
        >(fs[0]),
        None => filters is None,
    }
}

/// An UPDATE is bound to the table that it names, to its assignments, one for one, and to its
/// WHERE expression.
pub proof fn law_update_bound(c: &Catalog, u: Update)
    requires
        update_bound(c, u) matches Ok(v) ==> columns_countable(v.scope),
        update_bound(c, u) is Ok,
    ensures
        ({
            let v = update_bound(c, u)->Ok_0;
            let n = u.assignments@.len();
            &&& v.scope.len() == 1
            &&& u.table.relation matches TableFactor::Table { name, alias } && exists|n: Seq<char>|
                #[trigger]
                is_plain_name(name, n) && is_table_under(c, n, n, 0, v.scope[0])
            &&& v.cols.len() == n
            &&& v.new_cols.len() == n
            &&& forall|i: int|
                0 <= i < n ==> is_assignment(v.scope[0], u, i, #[trigger] v.cols[i], v.new_cols[i])
            &&& is_filter(v.scope, u.selection, v.filters)
        }),
{
    let v = update_bound(c, u)->Ok_0;
    let name = u.table.relation->Table_name;
    let n = name.parts@[0]->Identifier_0.value@;
    assert(is_plain_name(name, n));
    let at = choose|at: int| is_table_named(c.tables@, n, at);
    assert(is_table_named(c.tables@, n, at));
    assert(v.scope[0].schema.cols.len() <= u32::MAX);
    lemma_assignments(v.scope[0], u, u.assignments@.len() as int);
}

/// A DELETE is bound to the table that it names and to its WHERE expression.
pub proof fn law_delete_bound(c: &Catalog, d: Delete)
    requires
        delete_bound(c, d) is Ok,
    ensures
        ({
            let (scope, filters) = delete_bound(c, d)->Ok_0;
            &&& scope.len() == 1
            &&& d.from@.len() == 1
            &&& d.from@[0].relation matches TableFactor::Table { name, alias } && exists|
                n: Seq<char>,
            | #[trigger]
                is_plain_name(name, n) && is_table_under(c, n, n, 0, scope[0])
            &&& is_filter(scope, d.selection, filters)
        }),
{
    let name = d.from@[0].relation->Table_name;
    let n = name.parts@[0]->Identifier_0.value@;
    assert(is_plain_name(name, n));
    let at = choose|at: int| is_table_named(c.tables@, n, at);
    assert(is_table_named(c.tables@, n, at));
}

proof fn lemma_columns(stmt: CreateTable, n: int)
    requires
        0 <= n <= stmt.columns@.len(),
        columns_bound(stmt, n) is Ok,
    ensures
        columns_bound(stmt, n)->Ok_0.len() == n,
        forall|i: int|
            0 <= i < n ==> {
                let col = #[trigger] columns_bound(stmt, n)->Ok_0[i];
                type_of(stmt.columns@[i].data_type) == Ok::<DataType, Seq<char>>(col.0) && col.1
                    == stmt.columns@[i].name@
            },
    decreases n,
{
    if n > 0 {
        lemma_columns(stmt, n - 1);
        let (now, before) = (columns_bound(stmt, n)->Ok_0, columns_bound(stmt, n - 1)->Ok_0);
        assert forall|i: int| 0 <= i < n - 1 implies #[trigger] now[i] == before[i] by {}
    }
}

/// A CREATE TABLE is bound to its name and to its columns, each with its name and its type, in
/// order.
pub proof fn law_create_table_bound(stmt: CreateTable)
    requires
        create_table_bound(stmt) is Ok,
    ensures
        ({
            let (name, cols) = create_table_bound(stmt)->Ok_0;
            &&& is_plain_name(stmt.name, name)
            &&& cols.len() == stmt.columns@.len()
            &&& forall|i: int|
                0 <= i < cols.len() ==> (#[trigger] cols[i]).1 == stmt.columns@[i].name@ && type_of(
                    stmt.columns@[i].data_type,
                ) == Ok::<DataType, Seq<char>>(cols[i].0)
        }),
{
    lemma_columns(stmt, stmt.columns@.len() as int);
}

proof fn lemma_key(t: ScopeView, stmt: CreateIndex, n: int)
    requires
        0 <= n <= stmt.columns@.len(),
        key_bound(t, stmt, n) is Ok,
    ensures
        key_bound(t, stmt, n)->Ok_0.len() == n,
        forall|i: int|
            0 <= i < n ==> is_key_column(t, stmt.columns@[i], #[trigger] key_bound(
                t,
                stmt,
                n,
            )->Ok_0[i]),
    decreases n,
{
    if n > 0 {
        lemma_key(t, stmt, n - 1);
        let (now, before) = (key_bound(t, stmt, n)->Ok_0, key_bound(t, stmt, n - 1)->Ok_0);
        let name = stmt.columns@[n - 1]->Identifier_0.value@;
        lemma_named(t, name);
        assert(names_column(t, name, name_pos(t, name)));
        assert forall|i: int| 0 <= i < n implies is_key_column(
            t,
            stmt.columns@[i],
            #[trigger] now[i],
        ) by {
            if i < n - 1 {
                assert(now[i] == before[i]);
            }
        }
    }
}

/// A column of a key: the column of the table that is named, with its type.
pub open spec fn is_key_column(t: ScopeView, e: Expr, col: (DataType, Seq<char>)) -> bool {
    e matches Expr::Identifier(id) && id.value@ == col.1 && exists|p: int| #[trigger]
        names_column(t, col.1, p) && t.schema.cols[p].dtype == col.0
}

/// A CREATE INDEX is bound to its name, to the table and to the columns that it names, in order.
pub proof fn law_create_index_bound(c: &Catalog, stmt: CreateIndex)
    requires
        create_index_bound(c, stmt) is Ok,
    ensures
        ({
            let (scope, name, cols) = create_index_bound(c, stmt)->Ok_0;
            &&& scope.len() == 1
            &&& stmt.name matches Some(n) && is_plain_name(n, name)
            &&& exists|n: Seq<char>| #[trigger]
                is_plain_name(stmt.table_name, n) && is_table_under(c, n, n, 0, scope[0])
            &&& cols.len() == stmt.columns@.len()
            &&& forall|i: int|
                0 <= i < cols.len() ==> is_key_column(
                    scope[0],
                    stmt.columns@[i],
                    #[trigger] cols[i],
                )
        }),
{
    let (scope, name, cols) = create_index_bound(c, stmt)->Ok_0;
    let n = stmt.table_name.parts@[0]->Identifier_0.value@;
    assert(is_plain_name(stmt.table_name, n));
    let at = choose|at: int| is_table_named(c.tables@, n, at);
    assert(is_table_named(c.tables@, n, at));
    lemma_key(scope[0], stmt, stmt.columns@.len() as int);
}

} // verus!
