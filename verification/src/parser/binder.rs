//! The binder: turns parsed statements into statements over tables and columns of the catalog.
use vstd::prelude::*;

use crate::ast::{
    CreateIndex, CreateTable, Delete, Expr, GroupBy, Insert, JoinConstraint, JoinOperator, OrderBy,
    Query, Select, SetExpr, Statement, TableFactor, TableWithJoins, Update,
};
use crate::catalog::registry::{is_table, is_table_named};
use crate::catalog::schema::{column_at, same_text, Column, Schema, SchemaView};
use crate::catalog::value::DataType;
use crate::catalog::Catalog;
use crate::parser::scope::{
    both_tables, column_ref, ctx_view, from_clause, has_name, ident_name, ident_of, is_bound,
    item_aggregates, lemma_first_column, limit_of, name_pos, ordered, projected,
    projection_has_aggregate, refuse, refuse_with, resolve_expr, resolve_limit, resolve_list,
    resolve_order, resolve_projections, resolve_rows, resolved, resolved_all, resolved_rows,
    row_views, scope_view, sql_to_dtype, table_of, table_under, type_of, AggCtx, AggView,
    BinderError, FromView, Scope, ScopeEntry, ScopeView, TableScope,
};
use crate::processor::expression::Expression;
use crate::processor::plan::{AggType, JoinType};

verus! {

pub enum BoundStatement {
    Select(BoundSelect),
    Values(BoundValues),
    Insert(BoundInsert),
    Delete(BoundDelete),
    Update(BoundUpdate),
    CreateTable(BoundCreateTable),
    CreateIndex(BoundCreateIndex),
}

/// A SELECT: the tables in scope, an optional join (at most one, of two tables), what is
/// retrieved, a filter, what is sorted by, and a limit.
pub struct BoundSelect {
    pub scope: Scope,
    pub join: Option<BoundJoin>,
    pub projections: Vec<Expression>,
    pub filters: Option<Vec<Expression>>,
    /// GROUP BY expressions, resolved against the child's scope. Empty when the query has no
    /// GROUP BY clause.
    pub group_bys: Vec<Expression>,
    /// Aggregate function calls discovered while resolving the projection and ORDER BY, each
    /// with its argument, which is evaluated against the child's schema.
    pub aggregates: Vec<(Expression, AggType)>,
    pub sort: Option<Vec<Expression>>,
    pub limit: Option<u32>,
}

pub struct BoundJoin {
    pub join_type: JoinType,
    pub predicate: Expression,
}

pub struct BoundValues {
    pub rows: Vec<Vec<Expression>>,
}

pub struct BoundInsert {
    pub scope: Scope,
    pub rows: Vec<Vec<Expression>>,
}

pub struct BoundUpdate {
    pub scope: Scope,
    pub cols: Vec<Expression>,
    pub new_cols: Vec<Expression>,
    pub filters: Option<Vec<Expression>>,
}

pub struct BoundDelete {
    pub scope: Scope,
    pub filters: Option<Vec<Expression>>,
}

pub struct BoundCreateTable {
    pub table_name: String,
    pub schema: Schema,
}

pub struct BoundCreateIndex {
    pub scope: Scope,
    pub name: String,
    pub index_schema: Schema,
}

pub struct Binder<'a> {
    pub catalog: &'a Catalog,
}

/// The one filter that a WHERE clause makes.
pub open spec fn filter_view(f: Option<Vec<Expression>>) -> Option<Seq<Expression>> {
    match f {
        Some(v) => Some(v@),
        None => None,
    }
}

/// What a WHERE clause makes.
pub open spec fn where_clause(scope: Seq<ScopeView>, e: Option<Expr>) -> Result<
    Option<Seq<Expression>>,
    Seq<char>,
> {
    match e {
        None => Ok(None),
        Some(x) => match resolved(scope, x, false) {
            Ok(r) => Ok(Some(seq![r])),
            Err(m) => Err(m),
        },
    }
}

fn resolve_where(selection: &Option<Expr>, scope: &Scope) -> (res: Result<
    Option<Vec<Expression>>,
    BinderError,
>)
    ensures
        ({
            let r = where_clause(scope_view(scope@), *selection);
            match res {
                Ok(f) => r == Ok::<Option<Seq<Expression>>, Seq<char>>(filter_view(f)),
                Err(e) => r == Err::<Option<Seq<Expression>>, Seq<char>>(e.0@),
            }
        }),
{
    match selection {
        None => Ok(None),
        Some(e) => match resolve_expr(e, scope, false) {
            Ok(x) => {
                let ghost given = x;
                let mut v: Vec<Expression> = Vec::new();
                v.push(x);
                assert(v@ =~= seq![given]);
                Ok(Some(v))
            },
            Err(e) => Err(e),
        },
    }
}

/// The GROUP BY expressions as they are written.
pub open spec fn group_clause(g: GroupBy) -> Result<Seq<Expr>, Seq<char>> {
    match g {
        GroupBy::Expressions { exprs, modifiers } => if modifiers {
            Err("GROUP BY modifiers (ROLLUP/CUBE/...) are not supported"@)
        } else {
            Ok(exprs@)
        },
        GroupBy::All => Err("GROUP BY ALL is not supported"@),
    }
}

pub open spec fn order_clause(
    scope: Seq<ScopeView>,
    ctx: Option<AggView>,
    o: Option<OrderBy>,
) -> Result<(Option<Seq<Expression>>, Option<AggView>), Seq<char>> {
    match o {
        None => Ok((None, ctx)),
        Some(OrderBy::All) => Err("ORDER BY ALL not supported"@),
        Some(OrderBy::Expressions(exprs)) => match ordered(
            scope,
            ctx,
            exprs@,
            exprs@.len() as int,
        ) {
            Err(m) => Err(m),
            Ok((xs, after)) => Ok((Some(xs), after)),
        },
    }
}

/// What a SELECT is bound to.
#[verifier::ext_equal]
pub struct SelectView {
    pub scope: Seq<ScopeView>,
    pub join: Option<(JoinType, Expression)>,
    pub projections: Seq<Expression>,
    pub filters: Option<Seq<Expression>>,
    pub group_bys: Seq<Expression>,
    pub aggregates: Seq<(Expression, AggType)>,
    pub sort: Option<Seq<Expression>>,
    pub limit: Option<u32>,
}

pub open spec fn join_view(j: Option<BoundJoin>) -> Option<(JoinType, Expression)> {
    match j {
        Some(b) => Some((b.join_type, b.predicate)),
        None => None,
    }
}

impl View for BoundSelect {
    type V = SelectView;

    open spec fn view(&self) -> SelectView {
        SelectView {
            scope: scope_view(self.scope@),
            join: join_view(self.join),
            projections: self.projections@,
            filters: filter_view(self.filters),
            group_bys: self.group_bys@,
            aggregates: self.aggregates@,
            sort: filter_view(self.sort),
            limit: self.limit,
        }
    }
}

/// The SELECT aggregates: it has a GROUP BY clause, or an aggregate call in its projection.
pub open spec fn aggregating(s: Select, groups: Seq<Expr>) -> bool {
    groups.len() > 0 || exists|i: int|
        0 <= i < s.projection@.len() && item_aggregates(#[trigger] s.projection@[i])
}

/// The bookkeeping with which the projection of a SELECT begins.
pub open spec fn start_ctx(s: Select, groups: Seq<Expr>, group_bys: Seq<Expression>) -> Option<
    AggView,
> {
    if aggregating(s, groups) {
        Some(AggView { group_by_exprs: groups, group_bys, aggregates: Seq::empty() })
    } else {
        None
    }
}

/// The projection, the order and the limit of a SELECT whose tables, filter and groups are
/// known.
pub open spec fn select_tail(
    s: Select,
    q: Query,
    from: FromView,
    filters: Option<Seq<Expression>>,
    groups: Seq<Expr>,
    group_bys: Seq<Expression>,
) -> Result<SelectView, Seq<char>> {
    let ctx = start_ctx(s, groups, group_bys);
    match projected(from.0, ctx, s.projection@, s.projection@.len() as int) {
        Err(m) => Err(m),
        Ok((projections, mid)) => match order_clause(from.0, mid, q.order_by) {
            Err(m) => Err(m),
            Ok((sort, after)) => match limit_of(q.limit_clause) {
                Err(m) => Err(m),
                Ok(limit) => Ok(
                    SelectView {
                        scope: from.0,
                        join: from.1,
                        projections,
                        filters,
                        group_bys: if after is Some {
                            group_bys
                        } else {
                            Seq::empty()
                        },
                        aggregates: match after {
                            Some(v) => v.aggregates,
                            None => Seq::empty(),
                        },
                        sort,
                        limit,
                    },
                ),
            },
        },
    }
}

/// What a SELECT is bound to: first its tables, then the filter, the groups, the projection,
/// the order and the limit.
pub open spec fn select_bound(c: &Catalog, s: Select, q: Query) -> Result<SelectView, Seq<char>> {
    match from_clause(c, s.from@) {
        Err(m) => Err(m),
        Ok(from) => match where_clause(from.0, s.selection) {
            Err(m) => Err(m),
            Ok(filters) => match group_clause(s.group_by) {
                Err(m) => Err(m),
                Ok(groups) => match resolved_all(from.0, groups) {
                    Err(m) => Err(m),
                    Ok(group_bys) => select_tail(s, q, from, filters, groups, group_bys),
                },
            },
        },
    }
}

/// What a query is bound to.
pub enum QueryView {
    Select(SelectView),
    Values(Seq<Seq<Expression>>),
}

pub open spec fn query_bound(c: &Catalog, q: Query) -> Result<QueryView, Seq<char>>
    decreases q,
{
    match q.body {
        SetExpr::Query(inner) => query_bound(c, *inner),
        SetExpr::Values(rows) => match resolved_rows(
            Seq::empty(),
            rows@,
            rows@.len() as int,
        ) {
            Ok(v) => Ok(QueryView::Values(v)),
            Err(m) => Err(m),
        },
        SetExpr::Select(s) => match select_bound(c, s, q) {
            Ok(v) => Ok(QueryView::Select(v)),
            Err(m) => Err(m),
        },
        SetExpr::Other => Err("unsupported query body"@),
    }
}

/// A statement stands for what a query is bound to.
pub open spec fn is_query_bound(
    res: Result<BoundStatement, BinderError>,
    r: Result<QueryView, Seq<char>>,
) -> bool {
    match res {
        Ok(BoundStatement::Select(b)) => r == Ok::<QueryView, Seq<char>>(QueryView::Select(b@)),
        Ok(BoundStatement::Values(v)) => r == Ok::<QueryView, Seq<char>>(
            QueryView::Values(row_views(v.rows@)),
        ),
        Ok(_) => false,
        Err(e) => r == Err::<QueryView, Seq<char>>(e.0@),
    }
}

/// The one table that a statement changes.
pub open spec fn target(c: &Catalog, name: Seq<char>) -> Result<ScopeView, Seq<char>> {
    table_under(c, name, name, 0)
}

/// What an INSERT is bound to: its table and its rows.
pub open spec fn insert_bound(c: &Catalog, i: Insert) -> Result<
    (Seq<ScopeView>, Seq<Seq<Expression>>),
    Seq<char>,
> {
    match i.table {
        None => Err("unsupported INSERT target"@),
        Some(name) => match ident_of(name) {
            Err(m) => Err(m),
            Ok(n) => match target(c, n) {
                Err(m) => Err(m),
                Ok(t) => match i.source {
                    None => Err("INSERT without source"@),
                    Some(q) => match q.body {
                        SetExpr::Values(rows) => match resolved_rows(
                            seq![t],
                            rows@,
                            rows@.len() as int,
                        ) {
                            Err(m) => Err(m),
                            Ok(v) => Ok((seq![t], v)),
                        },
                        _ => Err("INSERT requires VALUES"@),
                    },
                },
            },
        },
    }
}

/// What a DELETE is bound to: its table and its filter.
pub open spec fn delete_bound(c: &Catalog, d: Delete) -> Result<
    (Seq<ScopeView>, Option<Seq<Expression>>),
    Seq<char>,
> {
    if d.from@.len() != 1 {
        Err("DELETE expects one table"@)
    } else {
        match d.from@[0].relation {
            TableFactor::Other => Err("DELETE target must be a table"@),
            TableFactor::Table { name, alias } => match ident_of(name) {
                Err(m) => Err(m),
                Ok(n) => match target(c, n) {
                    Err(m) => Err(m),
                    Ok(t) => match where_clause(seq![t], d.selection) {
                        Err(m) => Err(m),
                        Ok(f) => Ok((seq![t], f)),
                    },
                },
            },
        }
    }
}

/// The first `n` assignments of an UPDATE: the columns and their new values.
pub open spec fn assignments_bound(t: ScopeView, u: Update, n: int) -> Result<
    (Seq<Expression>, Seq<Expression>),
    Seq<char>,
>
    decreases n,
{
    if n <= 0 {
        Ok((Seq::empty(), Seq::empty()))
    } else {
        match assignments_bound(t, u, n - 1) {
            Err(m) => Err(m),
            Ok((cols, values)) => match u.assignments@[n - 1].target {
                None => Err("tuple UPDATE assignment not supported"@),
                Some(name) => match ident_of(name) {
                    Err(m) => Err(m),
                    Ok(col) => if !has_name(t, col) {
                        Err("column not found: "@ + col)
                    } else {
                        match resolved(seq![t], u.assignments@[n - 1].value, false) {
                            Err(m) => Err(m),
                            Ok(v) => Ok(
                                (
                                    cols.push(column_ref(t, name_pos(t, col))),
                                    values.push(v),
                                ),
                            ),
                        }
                    },
                },
            },
        }
    }
}

/// What an UPDATE is bound to.
#[verifier::ext_equal]
pub struct UpdateView {
    pub scope: Seq<ScopeView>,
    pub cols: Seq<Expression>,
    pub new_cols: Seq<Expression>,
    pub filters: Option<Seq<Expression>>,
}

pub open spec fn update_bound(c: &Catalog, u: Update) -> Result<UpdateView, Seq<char>> {
    match u.table.relation {
        TableFactor::Other => Err("UPDATE target must be a table"@),
        TableFactor::Table { name, alias } => match ident_of(name) {
            Err(m) => Err(m),
            Ok(n) => match target(c, n) {
                Err(m) => Err(m),
                Ok(t) => match assignments_bound(t, u, u.assignments@.len() as int) {
                    Err(m) => Err(m),
                    Ok((cols, new_cols)) => match where_clause(seq![t], u.selection) {
                        Err(m) => Err(m),
                        Ok(filters) => Ok(
                            UpdateView { scope: seq![t], cols, new_cols, filters },
                        ),
                    },
                },
            },
        },
    }
}

/// A schema with columns of these types and names.
pub open spec fn describes(s: SchemaView, cols: Seq<(DataType, Seq<char>)>) -> bool {
    &&& s.wf()
    &&& s.join_offset is None
    &&& s.cols.len() == cols.len()
    &&& forall|i: int|
        0 <= i < cols.len() ==> (#[trigger] s.cols[i]).dtype == cols[i].0 && s.cols[i].name@
            == cols[i].1
}

/// More columns than a schema can have.
pub open spec fn too_many(n: nat) -> bool {
    n > usize::MAX / 16
}

/// The first `n` columns of a CREATE TABLE.
pub open spec fn columns_bound(stmt: CreateTable, n: int) -> Result<
    Seq<(DataType, Seq<char>)>,
    Seq<char>,
>
    decreases n,
{
    if n <= 0 {
        Ok(Seq::empty())
    } else {
        match columns_bound(stmt, n - 1) {
            Err(m) => Err(m),
            Ok(before) => match type_of(stmt.columns@[n - 1].data_type) {
                Err(m) => Err(m),
                Ok(t) => Ok(before.push((t, stmt.columns@[n - 1].name@))),
            },
        }
    }
}

/// What a CREATE TABLE is bound to: the name and the columns.
pub open spec fn create_table_bound(stmt: CreateTable) -> Result<
    (Seq<char>, Seq<(DataType, Seq<char>)>),
    Seq<char>,
> {
    match ident_of(stmt.name) {
        Err(m) => Err(m),
        Ok(n) => match columns_bound(stmt, stmt.columns@.len() as int) {
            Err(m) => Err(m),
            Ok(cols) => if too_many(cols.len()) {
                Err("too many columns"@)
            } else {
                Ok((n, cols))
            },
        },
    }
}

/// The first `n` columns of a CREATE INDEX.
pub open spec fn key_bound(t: ScopeView, stmt: CreateIndex, n: int) -> Result<
    Seq<(DataType, Seq<char>)>,
    Seq<char>,
>
    decreases n,
{
    if n <= 0 {
        Ok(Seq::empty())
    } else {
        match key_bound(t, stmt, n - 1) {
            Err(m) => Err(m),
            Ok(before) => match stmt.columns@[n - 1] {
                Expr::Identifier(id) => if has_name(t, id.value@) {
                    Ok(
                        before.push(
                            (t.schema.cols[name_pos(t, id.value@)].dtype, id.value@),
                        ),
                    )
                } else {
                    Err("column not found: "@ + id.value@)
                },
                _ => Err("index columns must be plain identifiers"@),
            },
        }
    }
}

/// What a CREATE INDEX is bound to: the table, the name and the columns of the key.
pub open spec fn create_index_bound(c: &Catalog, stmt: CreateIndex) -> Result<
    (Seq<ScopeView>, Seq<char>, Seq<(DataType, Seq<char>)>),
    Seq<char>,
> {
    match stmt.name {
        None => Err("CREATE INDEX without a name"@),
        Some(name) => match ident_of(name) {
            Err(m) => Err(m),
            Ok(n) => match ident_of(stmt.table_name) {
                Err(m) => Err(m),
                Ok(table) => match target(c, table) {
                    Err(m) => Err(m),
                    Ok(t) => match key_bound(t, stmt, stmt.columns@.len() as int) {
                        Err(m) => Err(m),
                        Ok(cols) => if too_many(cols.len()) {
                            Err("too many columns"@)
                        } else {
                            Ok((seq![t], n, cols))
                        },
                    },
                },
            },
        },
    }
}

/// A bound statement is what a statement is bound to, or the error says why there is none.
pub open spec fn statement_bound(
    c: &Catalog,
    stmt: Statement,
    res: Result<BoundStatement, BinderError>,
) -> bool {
    match stmt {
        Statement::Query(q) => is_query_bound(res, query_bound(c, q)),
        Statement::Insert(i) => match res {
            Ok(BoundStatement::Insert(b)) => insert_bound(c, i) == Ok::<
                (Seq<ScopeView>, Seq<Seq<Expression>>),
                Seq<char>,
            >((scope_view(b.scope@), row_views(b.rows@))),
            Ok(_) => false,
            Err(e) => insert_bound(c, i) == Err::<
                (Seq<ScopeView>, Seq<Seq<Expression>>),
                Seq<char>,
            >(e.0@),
        },
        Statement::Delete(d) => match res {
            Ok(BoundStatement::Delete(b)) => delete_bound(c, d) == Ok::<
                (Seq<ScopeView>, Option<Seq<Expression>>),
                Seq<char>,
            >((scope_view(b.scope@), filter_view(b.filters))),
            Ok(_) => false,
            Err(e) => delete_bound(c, d) == Err::<
                (Seq<ScopeView>, Option<Seq<Expression>>),
                Seq<char>,
            >(e.0@),
        },
        Statement::Update(u) => match res {
            Ok(BoundStatement::Update(b)) => update_bound(c, u) == Ok::<UpdateView, Seq<char>>(
                UpdateView {
                    scope: scope_view(b.scope@),
                    cols: b.cols@,
                    new_cols: b.new_cols@,
                    filters: filter_view(b.filters),
                },
            ),
            Ok(_) => false,
            Err(e) => update_bound(c, u) == Err::<UpdateView, Seq<char>>(e.0@),
        },
        Statement::CreateTable(t) => match res {
            Ok(BoundStatement::CreateTable(b)) => create_table_bound(t) matches Ok((n, cols)) && n
                == b.table_name@ && describes(b.schema@, cols),
            Ok(_) => false,
            Err(e) => create_table_bound(t) == Err::<
                (Seq<char>, Seq<(DataType, Seq<char>)>),
                Seq<char>,
            >(e.0@),
        },
        Statement::CreateIndex(i) => match res {
            Ok(BoundStatement::CreateIndex(b)) => create_index_bound(c, i) matches Ok(
                (scope, n, cols),
            ) && scope == scope_view(b.scope@) && n == b.name@ && describes(
                b.index_schema@,
                cols,
            ),
            Ok(_) => false,
            Err(e) => create_index_bound(c, i) == Err::<
                (Seq<ScopeView>, Seq<char>, Seq<(DataType, Seq<char>)>),
                Seq<char>,
            >(e.0@),
        },
        Statement::Other => res matches Err(e) && e.0@ == "unsupported statement"@,
    }
}

impl<'a> Binder<'a> {
    pub fn new(catalog: &'a Catalog) -> (res: Self)
        ensures
            res.catalog == catalog,
    {
        Binder { catalog }
    }

    /// The table of a name, under an alias.
    fn bind_table(&self, name: String, alias: String, idx: u8) -> (res: Result<
        ScopeEntry,
        BinderError,
    >)
        requires
            self.catalog.valid(),
        ensures
            is_bound(res, table_under(self.catalog, name@, alias@, idx)),
    {
        let oid: u32 = match self.catalog.table_oid(name.as_str()) {
            Ok(oid) => oid,
            Err(_) => { return Err(refuse_with("table not found: ", name.as_str())); },
        };
        match self.catalog.get_table(oid) {
            Ok(info) => {
                proof {
                    let tables = self.catalog.tables@;
                    let i = choose|i: int| #[trigger]
                        is_table_named(tables, name@, i) && tables[i].oid == oid;
                    let k = choose|k: int| is_table_named(tables, name@, k);
                    assert(i == k) by {
                        if i < k {
                            assert(tables[i].info.name@ != tables[k].info.name@);
                        } else if k < i {
                            assert(tables[k].info.name@ != tables[i].info.name@);
                        }
                    }
                    let p = self.catalog.table_pos(oid);
                    assert(is_table(tables, oid, p));
                    assert(p == i) by {
                        if p < i {
                            assert(tables[p].oid != tables[i].oid);
                        } else if i < p {
                            assert(tables[i].oid != tables[p].oid);
                        }
                    }
                }
                Ok(ScopeEntry { alias, table: TableScope { oid, idx, schema: info.schema.clone() } })
            },
            Err(_) => {
                proof {
                    let tables = self.catalog.tables@;
                    let i = choose|i: int| #[trigger]
                        is_table_named(tables, name@, i) && tables[i].oid == oid;
                    assert(is_table(tables, oid, i));
                }
                Err(refuse_with("table not found: ", name.as_str()))
            },
        }
    }

    /// A table of the FROM clause.
    fn bind_table_factor(&self, tf: &TableFactor, idx: u8) -> (res: Result<
        ScopeEntry,
        BinderError,
    >)
        requires
            self.catalog.valid(),
        ensures
            is_bound(res, table_of(self.catalog, *tf, idx)),
    {
        match tf {
            TableFactor::Other => Err(refuse("FROM target must be a plain table")),
            TableFactor::Table { name, alias } => {
                let n = match ident_name(name) {
                    Ok(n) => n,
                    Err(e) => { return Err(e); },
                };
                let a = match alias {
                    Some(a) => a.clone(),
                    None => n.clone(),
                };
                self.bind_table(n, a, idx)
            },
        }
    }

    /// Builds a scope from the FROM clause. At most two tables are allowed, joined by a single
    /// INNER or LEFT JOIN ... ON. The left table gets tuple index 0, the right one 1.
    fn build_select_scope(&self, from: &Vec<TableWithJoins>) -> (res: Result<
        (Scope, Option<BoundJoin>),
        BinderError,
    >)
        requires
            self.catalog.valid(),
        ensures
            match res {
                Ok((scope, join)) => from_clause(self.catalog, from@) == Ok::<FromView, Seq<char>>(
                    (scope_view(scope@), join_view(join)),
                ),
                Err(e) => from_clause(self.catalog, from@) == Err::<FromView, Seq<char>>(e.0@),
            },
    {
        let mut scope: Vec<ScopeEntry> = Vec::new();
        if from.len() == 0 {
            assert(scope_view(scope@) =~= Seq::empty());
            return Ok((scope, None));
        }
        if from.len() != 1 {
            return Err(refuse("comma-separated FROM tables not supported"));
        }
        let left = match self.bind_table_factor(&from[0].relation, 0) {
            Ok(t) => t,
            Err(e) => { return Err(e); },
        };
        let ghost lv = left@;
        if from[0].joins.len() == 0 {
            scope.push(left);
            assert(scope_view(scope@) =~= seq![lv]);
            return Ok((scope, None));
        }
        if from[0].joins.len() != 1 {
            return Err(refuse("only 2-way joins supported"));
        }
        let j = &from[0].joins[0];
        let right = match self.bind_table_factor(&j.relation, 1) {
            Ok(t) => t,
            Err(e) => { return Err(e); },
        };
        let ghost rv = right@;
        if !same_text(left.alias.as_str(), right.alias.as_str()) {
            scope.push(left);
        }
        scope.push(right);
        assert(scope_view(scope@) =~= both_tables(lv, rv));
        let (join_type, constraint) = match &j.join_operator {
            JoinOperator::Inner(c) => (JoinType::Inner, c),
            JoinOperator::Join(c) => (JoinType::Inner, c),
            JoinOperator::Left(c) => (JoinType::Left, c),
            JoinOperator::LeftOuter(c) => (JoinType::Left, c),
            JoinOperator::Other => { return Err(refuse("unsupported join type")); },
        };
        match constraint {
            JoinConstraint::Other => Err(refuse("only ON <expr> join constraints supported")),
            JoinConstraint::On(e) => match resolve_expr(e, &scope, false) {
                Ok(predicate) => Ok((scope, Some(BoundJoin { join_type, predicate }))),
                Err(e) => Err(e),
            },
        }
    }

    /// Binds the projection, the order and the limit of a SELECT.
    fn resolve_tail(
        &self,
        s: &Select,
        q: &Query,
        scope: Scope,
        join: Option<BoundJoin>,
        filters: Option<Vec<Expression>>,
        group_exprs: &Vec<Expr>,
        group_bys: Vec<Expression>,
    ) -> (res: Result<BoundSelect, BinderError>)
        requires
            group_exprs@.len() == group_bys@.len(),
        ensures
            ({
                let r = select_tail(
                    *s,
                    *q,
                    (scope_view(scope@), join_view(join)),
                    filter_view(filters),
                    group_exprs@,
                    group_bys@,
                );
                match res {
                    Ok(b) => r == Ok::<SelectView, Seq<char>>(b@),
                    Err(e) => r == Err::<SelectView, Seq<char>>(e.0@),
                }
            }),
    {
        let ghost given = group_bys@;
        let aggregates: bool = group_exprs.len() > 0 || projection_has_aggregate(&s.projection);
        let mut ctx: Option<AggCtx> = if aggregates {
            Some(AggCtx { group_by_exprs: group_exprs, group_bys, aggregates: Vec::new() })
        } else {
            None
        };
        proof {
            if aggregates {
                assert(ctx->0.aggregates@ =~= Seq::empty());
            }
            assert(ctx_view(ctx) == start_ctx(*s, group_exprs@, given));
        }
        let projections = match resolve_projections(&s.projection, &scope, &mut ctx) {
            Ok(v) => v,
            Err(e) => { return Err(e); },
        };
        let sort = match &q.order_by {
            None => None,
            Some(OrderBy::All) => { return Err(refuse("ORDER BY ALL not supported")); },
            Some(OrderBy::Expressions(exprs)) => match resolve_order(exprs, &scope, &mut ctx) {
                Ok(v) => Some(v),
                Err(e) => { return Err(e); },
            },
        };
        let limit = match resolve_limit(&q.limit_clause) {
            Ok(n) => n,
            Err(e) => { return Err(e); },
        };
        let (group_bys, aggregates) = match ctx {
            Some(c) => (c.group_bys, c.aggregates),
            None => (Vec::new(), Vec::new()),
        };
        let b = BoundSelect {
            scope,
            join,
            projections,
            filters,
            group_bys,
            aggregates,
            sort,
            limit,
        };
        proof {
            if ctx is None {
                assert(b.group_bys@ =~= Seq::empty());
                assert(b.aggregates@ =~= Seq::empty());
            }
        }
        Ok(b)
    }

    /// Binds a query.
    fn resolve_select(&self, q: &Query) -> (res: Result<BoundStatement, BinderError>)
        requires
            self.catalog.valid(),
        ensures
            is_query_bound(res, query_bound(self.catalog, *q)),
        decreases q,
    {
        match &q.body {
            SetExpr::Query(inner) => self.resolve_select(inner),
            SetExpr::Values(rows) => {
                let empty: Vec<ScopeEntry> = Vec::new();
                assert(scope_view(empty@) =~= Seq::empty());
                match resolve_rows(rows, &empty) {
                    Ok(rows) => Ok(BoundStatement::Values(BoundValues { rows })),
                    Err(e) => Err(e),
                }
            },
            SetExpr::Select(s) => {
                let (scope, join) = match self.build_select_scope(&s.from) {
                    Ok(found) => found,
                    Err(e) => { return Err(e); },
                };
                let filters = match resolve_where(&s.selection, &scope) {
                    Ok(f) => f,
                    Err(e) => { return Err(e); },
                };
                let group_exprs = match &s.group_by {
                    GroupBy::Expressions { exprs, modifiers } => {
                        if *modifiers {
                            return Err(
                                refuse("GROUP BY modifiers (ROLLUP/CUBE/...) are not supported"),
                            );
                        }
                        exprs
                    },
                    GroupBy::All => { return Err(refuse("GROUP BY ALL is not supported")); },
                };
                let group_bys = match resolve_list(group_exprs, &scope) {
                    Ok(v) => v,
                    Err(e) => { return Err(e); },
                };
                proof {
                    lemma_list_len(
                        scope_view(scope@),
                        group_exprs@,
                        group_exprs@.len() as int,
                    );
                }
                match self.resolve_tail(s, q, scope, join, filters, group_exprs, group_bys) {
                    Ok(b) => Ok(BoundStatement::Select(b)),
                    Err(e) => Err(e),
                }
            },
            SetExpr::Other => Err(refuse("unsupported query body")),
        }
    }

    /// The scope of a statement on one table.
    fn build_scope(&self, table_name: &String) -> (res: Result<Scope, BinderError>)
        requires
            self.catalog.valid(),
        ensures
            match res {
                Ok(scope) => target(self.catalog, table_name@) matches Ok(t) && scope_view(scope@)
                    == seq![t] && scope@.len() == 1,
                Err(e) => target(self.catalog, table_name@) == Err::<ScopeView, Seq<char>>(e.0@),
            },
    {
        match self.bind_table(table_name.clone(), table_name.clone(), 0) {
            Ok(t) => {
                let ghost v = t@;
                let mut scope: Vec<ScopeEntry> = Vec::new();
                scope.push(t);
                assert(scope_view(scope@) =~= seq![v]);
                Ok(scope)
            },
            Err(e) => Err(e),
        }
    }

    fn resolve_insert(&self, stmt: &Insert) -> (res: Result<BoundStatement, BinderError>)
        requires
            self.catalog.valid(),
        ensures
            statement_bound(self.catalog, Statement::Insert(*stmt), res),
    {
        let name = match &stmt.table {
            Some(name) => name,
            None => { return Err(refuse("unsupported INSERT target")); },
        };
        let n = match ident_name(name) {
            Ok(n) => n,
            Err(e) => { return Err(e); },
        };
        let scope = match self.build_scope(&n) {
            Ok(scope) => scope,
            Err(e) => { return Err(e); },
        };
        let source = match &stmt.source {
            Some(q) => q,
            None => { return Err(refuse("INSERT without source")); },
        };
        match &source.body {
            SetExpr::Values(rows) => match resolve_rows(rows, &scope) {
                Ok(rows) => Ok(BoundStatement::Insert(BoundInsert { scope, rows })),
                Err(e) => Err(e),
            },
            _ => Err(refuse("INSERT requires VALUES")),
        }
    }

    fn resolve_delete(&self, stmt: &Delete) -> (res: Result<BoundStatement, BinderError>)
        requires
            self.catalog.valid(),
        ensures
            statement_bound(self.catalog, Statement::Delete(*stmt), res),
    {
        if stmt.from.len() != 1 {
            return Err(refuse("DELETE expects one table"));
        }
        let name = match &stmt.from[0].relation {
            TableFactor::Table { name, alias: _ } => name,
            TableFactor::Other => { return Err(refuse("DELETE target must be a table")); },
        };
        let n = match ident_name(name) {
            Ok(n) => n,
            Err(e) => { return Err(e); },
        };
        let scope = match self.build_scope(&n) {
            Ok(scope) => scope,
            Err(e) => { return Err(e); },
        };
        match resolve_where(&stmt.selection, &scope) {
            Ok(filters) => Ok(BoundStatement::Delete(BoundDelete { scope, filters })),
            Err(e) => Err(e),
        }
    }

    fn resolve_update(&self, stmt: &Update) -> (res: Result<BoundStatement, BinderError>)
        requires
            self.catalog.valid(),
        ensures
            statement_bound(self.catalog, Statement::Update(*stmt), res),
    {
        let name = match &stmt.table.relation {
            TableFactor::Table { name, alias: _ } => name,
            TableFactor::Other => { return Err(refuse("UPDATE target must be a table")); },
        };
        let n = match ident_name(name) {
            Ok(n) => n,
            Err(e) => { return Err(e); },
        };
        let scope = match self.build_scope(&n) {
            Ok(scope) => scope,
            Err(e) => { return Err(e); },
        };
        let ghost t = scope_view(scope@)[0];
        assert(t == scope@[0]@);
        assert(scope_view(scope@) =~= seq![t]);
        let mut cols: Vec<Expression> = Vec::new();
        let mut new_cols: Vec<Expression> = Vec::new();
        let mut i: usize = 0;
        let ghost total = stmt.assignments@.len() as int;
        while i < stmt.assignments.len()
            invariant
                i <= stmt.assignments@.len(),
                total == stmt.assignments@.len(),
                scope@.len() == 1,
                t == scope@[0]@,
                scope_view(scope@) == seq![t],
                stmt.table.relation matches TableFactor::Table { name: nm, alias: al } && ident_of(
                    nm,
                ) matches Ok(text) && target(self.catalog, text) == Ok::<ScopeView, Seq<char>>(
                    t,
                ),
                assignments_bound(t, *stmt, i as int) == Ok::<
                    (Seq<Expression>, Seq<Expression>),
                    Seq<char>,
                >((cols@, new_cols@)),
            decreases stmt.assignments@.len() - i,
        {
            let a = &stmt.assignments[i];
            let target_name = match &a.target {
                Some(name) => name,
                None => {
                    proof {
                        lemma_assignments_fail(t, *stmt, i as int + 1, total);
                    }
                    return Err(refuse("tuple UPDATE assignment not supported"));
                },
            };
            let col = match ident_name(target_name) {
                Ok(n) => n,
                Err(e) => {
                    proof {
                        lemma_assignments_fail(t, *stmt, i as int + 1, total);
                    }
                    return Err(e);
                },
            };
            let idx: usize = match scope[0].table.schema.col_idx(col.as_str()) {
                Some(c) => c,
                None => {
                    proof {
                        assert(!has_name(t, col@));
                        lemma_assignments_fail(t, *stmt, i as int + 1, total);
                    }
                    return Err(refuse_with("column not found: ", col.as_str()));
                },
            };
            proof {
                assert(column_at(t.schema.cols, col@, idx as int));
                assert(has_name(t, col@));
                lemma_first_column(t.schema.cols, col@, idx as int, name_pos(t, col@));
            }
            match resolve_expr(&a.value, &scope, false) {
                Ok(v) => {
                    cols.push(
                        Expression::Column {
                            tuple_idx: scope[0].table.idx,
                            col_idx: idx as u32,
                            dtype: scope[0].table.schema.cols[idx].dtype,
                        },
                    );
                    new_cols.push(v);
                },
                Err(e) => {
                    proof {
                        lemma_assignments_fail(t, *stmt, i as int + 1, total);
                    }
                    return Err(e);
                },
            }
            i += 1;
        }
        match resolve_where(&stmt.selection, &scope) {
            Ok(filters) => Ok(
                BoundStatement::Update(BoundUpdate { scope, cols, new_cols, filters }),
            ),
            Err(e) => Err(e),
        }
    }

    fn resolve_create_table(&self, stmt: &CreateTable) -> (res: Result<
        BoundStatement,
        BinderError,
    >)
        ensures
            statement_bound(self.catalog, Statement::CreateTable(*stmt), res),
    {
        let table_name = match ident_name(&stmt.name) {
            Ok(n) => n,
            Err(e) => { return Err(e); },
        };
        let mut cols: Vec<(DataType, String)> = Vec::new();
        let mut i: usize = 0;
        let ghost total = stmt.columns@.len() as int;
        assert(named(cols@) =~= Seq::empty());
        while i < stmt.columns.len()
            invariant
                i <= stmt.columns@.len(),
                total == stmt.columns@.len(),
                ident_of(stmt.name) == Ok::<Seq<char>, Seq<char>>(table_name@),
                columns_bound(*stmt, i as int) == Ok::<Seq<(DataType, Seq<char>)>, Seq<char>>(
                    named(cols@),
                ),
            decreases stmt.columns@.len() - i,
        {
            match sql_to_dtype(&stmt.columns[i].data_type) {
                Ok(t) => {
                    let ghost before = named(cols@);
                    cols.push((t, stmt.columns[i].name.clone()));
                    assert(named(cols@) =~= before.push((t, stmt.columns@[i as int].name@)));
                },
                Err(e) => {
                    proof {
                        lemma_columns_fail(*stmt, i as int + 1, total);
                    }
                    return Err(e);
                },
            }
            i += 1;
        }
        if cols.len() > usize::MAX / 16 {
            return Err(refuse("too many columns"));
        }
        let ghost wanted = named(cols@);
        let schema = Schema::new(cols);
        proof {
            assert forall|k: int| 0 <= k < wanted.len() implies (
            #[trigger] schema@.cols[k]).dtype == wanted[k].0 && schema@.cols[k].name@
                == wanted[k].1 by {}
        }
        Ok(BoundStatement::CreateTable(BoundCreateTable { table_name, schema }))
    }

    fn resolve_create_index(&self, stmt: &CreateIndex) -> (res: Result<
        BoundStatement,
        BinderError,
    >)
        requires
            self.catalog.valid(),
        ensures
            statement_bound(self.catalog, Statement::CreateIndex(*stmt), res),
    {
        let name = match &stmt.name {
            Some(n) => match ident_name(n) {
                Ok(s) => s,
                Err(e) => { return Err(e); },
            },
            None => { return Err(refuse("CREATE INDEX without a name")); },
        };
        let table_name = match ident_name(&stmt.table_name) {
            Ok(n) => n,
            Err(e) => { return Err(e); },
        };
        let scope = match self.build_scope(&table_name) {
            Ok(scope) => scope,
            Err(e) => { return Err(e); },
        };
        let ghost t = scope_view(scope@)[0];
        assert(t == scope@[0]@);
        assert(scope_view(scope@) =~= seq![t]);
        let mut cols: Vec<(DataType, String)> = Vec::new();
        let mut i: usize = 0;
        let ghost total = stmt.columns@.len() as int;
        assert(named(cols@) =~= Seq::empty());
        while i < stmt.columns.len()
            invariant
                i <= stmt.columns@.len(),
                total == stmt.columns@.len(),
                scope@.len() == 1,
                t == scope@[0]@,
                scope_view(scope@) == seq![t],
                stmt.name matches Some(nm) && ident_of(nm) == Ok::<Seq<char>, Seq<char>>(name@),
                ident_of(stmt.table_name) == Ok::<Seq<char>, Seq<char>>(table_name@),
                target(self.catalog, table_name@) == Ok::<ScopeView, Seq<char>>(t),
                key_bound(t, *stmt, i as int) == Ok::<Seq<(DataType, Seq<char>)>, Seq<char>>(
                    named(cols@),
                ),
            decreases stmt.columns@.len() - i,
        {
            match &stmt.columns[i] {
                Expr::Identifier(id) => {
                    let col = id.value.as_str();
                    match scope[0].table.schema.col_idx(col) {
                        Some(c) => {
                            proof {
                                assert(column_at(t.schema.cols, col@, c as int));
                                assert(has_name(t, col@));
                                lemma_first_column(
                                    t.schema.cols,
                                    col@,
                                    c as int,
                                    name_pos(t, col@),
                                );
                            }
                            let ghost before = named(cols@);
                            let dtype = scope[0].table.schema.cols[c].dtype;
                            cols.push((dtype, id.value.clone()));
                            assert(named(cols@) =~= before.push((dtype, id.value@)));
                        },
                        None => {
                            proof {
                                assert(!has_name(t, col@));
                                lemma_key_fails(t, *stmt, i as int + 1, total);
                            }
                            return Err(refuse_with("column not found: ", col));
                        },
                    }
                },
                _ => {
                    proof {
                        lemma_key_fails(t, *stmt, i as int + 1, total);
                    }
                    return Err(refuse("index columns must be plain identifiers"));
                },
            }
            i += 1;
        }
        if cols.len() > usize::MAX / 16 {
            return Err(refuse("too many columns"));
        }
        let ghost wanted = named(cols@);
        let index_schema = Schema::new(cols);
        proof {
            assert forall|k: int| 0 <= k < wanted.len() implies (
            #[trigger] index_schema@.cols[k]).dtype == wanted[k].0 && index_schema@.cols[k].name@
                == wanted[k].1 by {}
        }
        Ok(BoundStatement::CreateIndex(BoundCreateIndex { scope, name, index_schema }))
    }

    /// Binds one statement.
    pub fn resolve(&self, stmt: &Statement) -> (res: Result<BoundStatement, BinderError>)
        requires
            self.catalog.valid(),
        ensures
            statement_bound(self.catalog, *stmt, res),
    {
        match stmt {
            Statement::Query(q) => self.resolve_select(q),
            Statement::Insert(i) => self.resolve_insert(i),
            Statement::Delete(d) => self.resolve_delete(d),
            Statement::Update(u) => self.resolve_update(u),
            Statement::CreateTable(c) => self.resolve_create_table(c),
            Statement::CreateIndex(c) => self.resolve_create_index(c),
            Statement::Other => Err(refuse("unsupported statement")),
        }
    }

    /// Binds statements one after the other, up to the first that cannot be bound.
    pub fn bind(&self, stmts: Vec<Statement>) -> (res: Result<Vec<BoundStatement>, BinderError>)
        requires
            self.catalog.valid(),
        ensures
            match res {
                Ok(bound) => {
                    &&& bound@.len() == stmts@.len()
                    &&& forall|i: int|
                        0 <= i < stmts@.len() ==> statement_bound(
                            self.catalog,
                            #[trigger] stmts@[i],
                            Ok(bound@[i]),
                        )
                },
                Err(e) => exists|i: int|
                    0 <= i < stmts@.len() && statement_bound(
                        self.catalog,
                        #[trigger] stmts@[i],
                        Err(e),
                    ) && all_bound(self.catalog, stmts@, i),
            },
    {
        let mut out: Vec<BoundStatement> = Vec::new();
        let mut i: usize = 0;
        while i < stmts.len()
            invariant
                i <= stmts@.len(),
                self.catalog.valid(),
                out@.len() == i,
                forall|k: int|
                    0 <= k < i ==> statement_bound(
                        self.catalog,
                        #[trigger] stmts@[k],
                        Ok(out@[k]),
                    ),
            decreases stmts@.len() - i,
        {
            match self.resolve(&stmts[i]) {
                Ok(b) => {
                    let ghost before = out@;
                    out.push(b);
                    assert forall|k: int| 0 <= k < i + 1 implies statement_bound(
                        self.catalog,
                        #[trigger] stmts@[k],
                        Ok(out@[k]),
                    ) by {
                        if k < i {
                            assert(out@[k] == before[k]);
                        }
                    }
                },
                Err(e) => {
                    proof {
                        assert forall|k: int| 0 <= k < i implies can_be_bound(
                            self.catalog,
                            #[trigger] stmts@[k],
                        ) by {
                            assert(statement_bound(self.catalog, stmts@[k], Ok(out@[k])));
                        }
                        assert(stmts@[i as int] == stmts@[i as int]);
                    }
                    return Err(e);
                },
            }
            i += 1;
        }
        Ok(out)
    }
}

pub open spec fn can_be_bound(c: &Catalog, stmt: Statement) -> bool {
    exists|b: BoundStatement| statement_bound(c, stmt, Ok(b))
}

/// The first `n` statements can be bound.
pub open spec fn all_bound(c: &Catalog, stmts: Seq<Statement>, n: int) -> bool {
    forall|k: int| 0 <= k < n ==> can_be_bound(c, #[trigger] stmts[k])
}

/// The types and the names of columns.
pub open spec fn named(cols: Seq<(DataType, String)>) -> Seq<(DataType, Seq<char>)> {
    Seq::new(cols.len(), |i: int| (cols[i].0, cols[i].1@))
}

proof fn lemma_list_len(scope: Seq<ScopeView>, exprs: Seq<Expr>, n: int)
    requires
        0 <= n,
        crate::parser::scope::resolved_list(scope, exprs, n) is Ok,
    ensures
        crate::parser::scope::resolved_list(scope, exprs, n)->Ok_0.len() == n,
    decreases n,
{
    if n > 0 {
        lemma_list_len(scope, exprs, n - 1);
    }
}

proof fn lemma_assignments_fail(t: ScopeView, u: Update, m: int, n: int)
    requires
        0 <= m <= n,
        assignments_bound(t, u, m) is Err,
    ensures
        assignments_bound(t, u, n) == assignments_bound(t, u, m),
    decreases n,
{
    if m < n {
        lemma_assignments_fail(t, u, m, n - 1);
    }
}

proof fn lemma_columns_fail(stmt: CreateTable, m: int, n: int)
    requires
        0 <= m <= n,
        columns_bound(stmt, m) is Err,
    ensures
        columns_bound(stmt, n) == columns_bound(stmt, m),
    decreases n,
{
    if m < n {
        lemma_columns_fail(stmt, m, n - 1);
    }
}

proof fn lemma_key_fails(t: ScopeView, stmt: CreateIndex, m: int, n: int)
    requires
        0 <= m <= n,
        key_bound(t, stmt, m) is Err,
    ensures
        key_bound(t, stmt, n) == key_bound(t, stmt, m),
    decreases n,
{
    if m < n {
        lemma_key_fails(t, stmt, m, n - 1);
    }
}

} // verus!
