//! The planner: turns bound statements into plans.
use vstd::prelude::*;

use crate::catalog::registry::IndexInfo;
use crate::catalog::schema::{column_at, Schema, SchemaView};
use crate::catalog::table_index::ValueBound;
use crate::catalog::value::{DataType, Value};
use crate::catalog::Catalog;
use crate::parser::binder::{
    describes, filter_view, join_view, named, too_many, BoundCreateIndex, BoundCreateTable,
    BoundDelete, BoundInsert, BoundJoin, BoundSelect, BoundStatement, BoundUpdate, BoundValues,
    SelectView,
};
use crate::parser::scope::{row_views, scope_view, ScopeEntry, ScopeView, TableScope};
use crate::processor::expression::{result_type, Expression, Op};
use crate::processor::plan::{
    AggType, AggregationPlanNode, CreateIndexPlanNode, CreateTablePlanNode, DeletePlanNode,
    FilterPlanNode, IndexScanPlanNode, InsertPlanNode, JoinType, LimitPlanNode,
    NestedIndexJoinPlanNode, NestedLoopJoinPlanNode, Plan, ProjectionPlanNode, SeqScanPlanNode,
    SortPlanNode, UpdatePlanNode, ValuesPlanNode,
};
use crate::text::{decimal, digits, joined};

verus! {

#[derive(Debug)]
pub struct PlannerError(pub String);

/// A deliberately minimal planner. No statistics, no cost model.
/// The only real decisions:
///   1) for a single-table scan with a `col = const` filter, use an index scan when there's a
///      single-column index on `col`.
///   2) for an INNER join with a `left.col = right.col` predicate, use an index join when the
///      inner side has a single-column index on its join column; otherwise a nested loop join.
pub struct Planner<'a> {
    pub catalog: &'a Catalog,
}

fn refuse(message: &str) -> (res: PlannerError)
    ensures
        res.0@ == message@,
{
    PlannerError(message.to_owned())
}

/// The oldest index, from place `i` on, whose key is that one column.
pub open spec fn index_on_column(infos: Seq<IndexInfo>, col: usize, i: int) -> Option<u32>
    decreases infos.len() - i,
{
    if i < 0 || i >= infos.len() {
        None
    } else if infos[i].index.indexed_col_idxs@ == seq![col] {
        Some(infos[i].oid)
    } else {
        index_on_column(infos, col, i + 1)
    }
}

/// The index of a table whose key is that one column.
pub open spec fn index_for(c: &Catalog, table_oid: u32, col: usize) -> Option<u32> {
    if c.has_table(table_oid) {
        index_on_column(c.table_indexes(table_oid), col, 0)
    } else {
        None
    }
}

/// The column and the value of a filter that compares a column of the first table with a
/// constant.
pub open spec fn probe_of(filter: Option<Expression>) -> Option<(u32, Value)> {
    match filter {
        Some(Expression::Binary { left, right, op }) => if op == Op::Eq {
            match (*left, *right) {
                (
                    Expression::Column { tuple_idx, col_idx, dtype },
                    Expression::Constant(Some(v)),
                ) => if tuple_idx == 0 {
                    Some((col_idx, v))
                } else {
                    None
                },
                (
                    Expression::Constant(Some(v)),
                    Expression::Column { tuple_idx, col_idx, dtype },
                ) => if tuple_idx == 0 {
                    Some((col_idx, v))
                } else {
                    None
                },
                _ => None,
            }
        } else {
            None
        },
        _ => None,
    }
}

/// The index that a filter can go through.
pub open spec fn scan_index_of(c: &Catalog, oid: u32, filter: Option<Expression>) -> Option<
    (u32, Value),
> {
    match probe_of(filter) {
        Some((col, v)) => match index_for(c, oid, col as usize) {
            Some(index) => Some((index, v)),
            None => None,
        },
        None => None,
    }
}

pub open spec fn is_point(b: ValueBound, v: Value) -> bool {
    b matches ValueBound::Included(x) && x@ == seq![v]
}

/// A scan of a table with a filter: through an index where one fits the filter, else over all
/// rows with the filter above.
pub open spec fn scans(c: &Catalog, t: ScopeView, filter: Option<Expression>, plan: Plan) -> bool {
    match scan_index_of(c, t.oid, filter) {
        Some((index, v)) => plan matches Plan::IndexScan(p) && p.index_oid == index && p.schema@
            == t.schema && is_point(p.start, v) && is_point(p.end, v),
        None => match filter {
            Some(f) => plan matches Plan::Filter(p) && p.predicate == f && p.schema@ == t.schema
                && all_rows(t, *p.child),
            None => all_rows(t, plan),
        },
    }
}

/// All rows of a table.
pub open spec fn all_rows(t: ScopeView, plan: Plan) -> bool {
    plan matches Plan::SeqScan(p) && p.table_oid == t.oid && p.schema@ == t.schema
}

/// The columns of an equality between a column of the left and one of the right table.
pub open spec fn join_columns(predicate: Expression) -> Option<(u32, u32)> {
    match predicate {
        Expression::Binary { left, right, op } => if op == Op::Eq {
            match (*left, *right) {
                (
                    Expression::Column { tuple_idx: a, col_idx: x, dtype: dx },
                    Expression::Column { tuple_idx: b, col_idx: y, dtype: dy },
                ) => if a == 0 && b == 1 {
                    Some((x, y))
                } else if a == 1 && b == 0 {
                    Some((y, x))
                } else {
                    None
                },
                _ => None,
            }
        } else {
            None
        },
        _ => None,
    }
}

/// The columns and the index through which a join can go.
pub open spec fn join_index_of(
    c: &Catalog,
    l: ScopeView,
    r: ScopeView,
    join: (JoinType, Expression),
) -> Option<(u32, u32)> {
    if join.0 == JoinType::Inner {
        match join_columns(join.1) {
            Some((outer, inner)) => if outer < l.schema.cols.len() {
                match index_for(c, r.oid, inner as usize) {
                    Some(index) => Some((outer, index)),
                    None => None,
                }
            } else {
                None
            },
            None => None,
        }
    } else {
        None
    }
}

/// A join of two tables: through an index of the right one where its key is the column that the
/// left one is joined with, else a nested loop.
pub open spec fn joins(
    c: &Catalog,
    l: ScopeView,
    r: ScopeView,
    join: (JoinType, Expression),
    out: SchemaView,
    plan: Plan,
) -> bool {
    match join_index_of(c, l, r, join) {
        Some((outer, index)) => plan matches Plan::NestedIndexJoin(p) && {
            &&& p.schema@ == out
            &&& all_rows(l, *p.child)
            &&& p.key_predicate == (Expression::Column {
                tuple_idx: 0,
                col_idx: outer,
                dtype: l.schema.cols[outer as int].dtype,
            })
            &&& p.table_oid == r.oid
            &&& p.table_schema@ == r.schema
            &&& p.index_oid == index
            &&& p.join_type == JoinType::Inner
        },
        None => plan matches Plan::NestedLoopJoin(p) && {
            &&& p.schema@ == out
            &&& all_rows(l, *p.left)
            &&& all_rows(r, *p.right)
            &&& p.predicate == join.1
            &&& p.join_type == join.0
        },
    }
}

/// The types and names of the columns of a schema.
pub open spec fn columns_of(s: SchemaView) -> Seq<(DataType, Seq<char>)> {
    Seq::new(s.cols.len(), |i: int| (s.cols[i].dtype, s.cols[i].name@))
}

/// The schema of a join: the columns of the left table, then those of the right one.
pub open spec fn joined_schema(l: SchemaView, r: SchemaView, out: SchemaView) -> bool {
    &&& out.wf()
    &&& columns_of(out) == columns_of(l) + columns_of(r)
    &&& out.join_offset == Some(l.cols.len() as usize)
}

/// The type of a column of the result.
pub open spec fn type_or_int(e: Expression) -> DataType {
    match result_type(e) {
        Some(t) => t,
        None => DataType::INT,
    }
}

/// The name of a column of the result: that of the column it refers to, else a made-up one.
pub open spec fn result_name(
    e: Expression,
    source: SchemaView,
    prefix: Seq<char>,
    i: int,
) -> Seq<char> {
    match e {
        Expression::Column { tuple_idx, col_idx, dtype } => {
            let at = crate::processor::expression::column_position(source, tuple_idx, col_idx);
            if at < source.cols.len() {
                source.cols[at].name@
            } else {
                prefix + digits(i as nat)
            }
        },
        _ => prefix + digits(i as nat),
    }
}

pub open spec fn result_columns(
    exprs: Seq<Expression>,
    source: SchemaView,
    prefix: Seq<char>,
) -> Seq<(DataType, Seq<char>)> {
    Seq::new(
        exprs.len(),
        |i: int| (type_or_int(exprs[i]), result_name(exprs[i], source, prefix, i)),
    )
}

pub open spec fn aggregate_name(t: AggType) -> Seq<char> {
    match t {
        AggType::COUNT => "count"@,
        AggType::SUM => "sum"@,
        AggType::AVG => "avg"@,
        AggType::MIN => "min"@,
        AggType::MAX => "max"@,
        AggType::RANK => "rank"@,
    }
}

pub open spec fn aggregate_column(a: (Expression, AggType), i: int) -> (DataType, Seq<char>) {
    (
        if a.1 == AggType::COUNT {
            DataType::INT
        } else {
            type_or_int(a.0)
        },
        aggregate_name(a.1) + "_"@ + digits(i as nat),
    )
}

/// The columns of an aggregation: the groups, then the aggregates.
pub open spec fn aggregation_columns(
    group_bys: Seq<Expression>,
    aggs: Seq<(Expression, AggType)>,
    source: SchemaView,
) -> Seq<(DataType, Seq<char>)> {
    result_columns(group_bys, source, "g"@) + Seq::new(
        aggs.len(),
        |i: int| aggregate_column(aggs[i], i),
    )
}

/// The filter of a WHERE clause.
pub open spec fn last_filter(filters: Option<Seq<Expression>>) -> Option<Expression> {
    match filters {
        Some(v) => if v.len() > 0 {
            Some(v.last())
        } else {
            None
        },
        None => None,
    }
}

/// The plan under a filter, where there is one.
pub open spec fn filtered(filter: Option<Expression>, source: SchemaView, plan: Plan) -> bool {
    match filter {
        Some(f) => plan matches Plan::Filter(p) && p.predicate == f && p.schema@ == source,
        None => true,
    }
}

pub open spec fn below(present: bool, plan: Plan) -> Plan {
    if present {
        plan.first_child()
    } else {
        plan
    }
}

/// The two tables of a join, the one with the smaller tuple index first.
pub open spec fn sides(scope: Seq<ScopeView>) -> (ScopeView, ScopeView) {
    if scope[1].idx < scope[0].idx {
        (scope[1], scope[0])
    } else {
        (scope[0], scope[1])
    }
}

/// The plan reads the tables of a SELECT and filters their rows; `source` is the schema of the
/// rows it gives.
pub open spec fn reads(c: &Catalog, v: SelectView, source: SchemaView, plan: Plan) -> bool {
    let filter = last_filter(v.filters);
    match v.join {
        Some(join) => {
            let (l, r) = sides(v.scope);
            &&& v.scope.len() == 2
            &&& joined_schema(l.schema, r.schema, source)
            &&& filtered(filter, source, plan)
            &&& joins(c, l, r, join, source, below(filter is Some, plan))
        },
        None => if v.scope.len() == 0 {
            &&& describes(source, Seq::empty())
            &&& filtered(filter, source, plan)
            &&& below(filter is Some, plan) matches Plan::Values(p) && p.schema@ == source
                && row_views(p.rows@) == seq![Seq::<Expression>::empty()]
        } else {
            source == v.scope[0].schema && scans(c, v.scope[0], filter, plan)
        },
    }
}

pub open spec fn aggregates(v: SelectView) -> bool {
    v.group_bys.len() > 0 || v.aggregates.len() > 0
}

/// The aggregation of a SELECT, where it has one; `out` is the schema of the rows behind it.
pub open spec fn groups(v: SelectView, source: SchemaView, out: SchemaView, plan: Plan) -> bool {
    if aggregates(v) {
        &&& describes(out, aggregation_columns(v.group_bys, v.aggregates, source))
        &&& plan matches Plan::Aggregation(p) && p.schema@ == out && p.group_bys@ == v.group_bys
            && p.aggregates@ == v.aggregates
    } else {
        out == source
    }
}

pub open spec fn sorts_by(sort: Option<Seq<Expression>>, s: SchemaView, plan: Plan) -> bool {
    match sort {
        Some(exprs) => plan matches Plan::Sort(p) && p.schema@ == s && p.order_by_exprs@ == exprs,
        None => true,
    }
}

/// The plan of a SELECT: its tables, the filter, the aggregation, the order, the projection and
/// the limit, each above the one before.
pub open spec fn selects(c: &Catalog, v: SelectView, plan: Plan) -> bool {
    let projection = below(v.limit is Some, plan);
    let order = projection.first_child();
    let aggregation = below(v.sort is Some, order);
    let source = below(aggregates(v), aggregation);
    &&& v.limit matches Some(n) ==> (plan matches Plan::Limit(p) && p.limit == n && p.schema@
        == projection.out_schema())
    &&& exists|s0: SchemaView, s1: SchemaView| #[trigger]
        reads(c, v, s0, source) && #[trigger] groups(v, s0, s1, aggregation) && sorts_by(
            v.sort,
            s1,
            order,
        ) && (projection matches Plan::Projection(p) && p.expressions@ == v.projections
            && describes(p.schema@, result_columns(v.projections, s1, "col"@)))
}

/// The plan of a VALUES clause: its schema is taken from the first row.
pub open spec fn gives_values(rows: Seq<Seq<Expression>>, plan: Plan) -> bool {
    plan matches Plan::Values(p) && row_views(p.rows@) == rows && describes(
        p.schema@,
        if rows.len() > 0 {
            Seq::new(
                rows[0].len(),
                |i: int| (type_or_int(rows[0][i]), "col"@ + digits(i as nat)),
            )
        } else {
            Seq::empty()
        },
    )
}

/// All schemas of the tables in scope are laid out.
pub open spec fn scope_ok(scope: Seq<ScopeEntry>) -> bool {
    forall|i: int| 0 <= i < scope.len() ==> (#[trigger] scope[i]).table.schema@.wf()
}

impl BoundStatement {
    /// The schemas that the statement carries are laid out.
    pub open spec fn wf(&self) -> bool {
        match *self {
            BoundStatement::Select(b) => scope_ok(b.scope@),
            BoundStatement::Values(_) => true,
            BoundStatement::Insert(b) => scope_ok(b.scope@),
            BoundStatement::Delete(b) => scope_ok(b.scope@),
            BoundStatement::Update(b) => scope_ok(b.scope@),
            BoundStatement::CreateTable(b) => b.schema@.wf(),
            BoundStatement::CreateIndex(b) => scope_ok(b.scope@) && b.index_schema@.wf(),
        }
    }
}

/// The new value of an assignment goes to the column that it names.
pub open spec fn target_is(col: Expression, new: Expression, t: (u32, Expression)) -> bool {
    col matches Expression::Column { tuple_idx, col_idx, dtype } && t == (col_idx, new)
}

/// The targets of an UPDATE are the columns of its assignments.
pub open spec fn targets_are(cols: Seq<Expression>, news: Seq<Expression>, t: Seq<(u32, Expression)>) -> bool {
    let n = if cols.len() < news.len() {
        cols.len()
    } else {
        news.len()
    };
    &&& t.len() == n
    &&& forall|i: int|
        0 <= i < n ==> target_is(cols[i], news[i], #[trigger] t[i])
}

/// `pos` is the position of the column of that name.
pub open spec fn key_at(t: ScopeView, name: Seq<char>, pos: u32) -> bool {
    crate::parser::scope::has_name(t, name) && pos == #[verifier::truncate] (
    crate::parser::scope::name_pos(t, name) as u32)
}

/// The position of each column of an index key in its table.
pub open spec fn key_positions(t: ScopeView, key: SchemaView, cols: Seq<u32>) -> bool {
    &&& cols.len() == key.cols.len()
    &&& forall|i: int|
        0 <= i < cols.len() ==> key_at(t, key.cols[i].name@, #[trigger] cols[i])
}

/// A plan is what a bound statement is planned as.
pub open spec fn planned(c: &Catalog, stmt: BoundStatement, plan: Plan) -> bool {
    match stmt {
        BoundStatement::Select(b) => selects(c, b@, plan),
        BoundStatement::Values(v) => gives_values(row_views(v.rows@), plan),
        BoundStatement::Insert(b) => {
            let t = scope_view(b.scope@)[0];
            &&& b.scope@.len() > 0
            &&& plan matches Plan::Insert(p) && p.schema@ == t.schema && p.table_oid == t.oid && (
            *p.child matches Plan::Values(q) && q.schema@ == t.schema && row_views(q.rows@)
                == row_views(b.rows@))
        },
        BoundStatement::Delete(b) => {
            let t = scope_view(b.scope@)[0];
            &&& b.scope@.len() > 0
            &&& plan matches Plan::Delete(p) && p.schema@ == t.schema && p.table_oid == t.oid
                && scans(c, t, last_filter(filter_view(b.filters)), *p.child)
        },
        BoundStatement::Update(b) => {
            let t = scope_view(b.scope@)[0];
            &&& b.scope@.len() > 0
            &&& plan matches Plan::Update(p) && p.schema@ == t.schema && p.table_oid == t.oid
                && targets_are(b.cols@, b.new_cols@, p.target_exprs@) && scans(
                c,
                t,
                last_filter(filter_view(b.filters)),
                *p.child,
            )
        },
        BoundStatement::CreateTable(b) => plan matches Plan::CreateTable(p) && p.table_name@
            == b.table_name@ && p.schema@ == b.schema@ && !p.if_not_exists,
        BoundStatement::CreateIndex(b) => {
            let t = scope_view(b.scope@)[0];
            &&& b.scope@.len() > 0
            &&& plan matches Plan::CreateIndex(p) && p.index_name@ == b.name@ && p.table_oid
                == t.oid && key_positions(t, b.index_schema@, p.key_columns@)
        },
    }
}

/// The schema of these columns.
fn new_schema(cols: Vec<(DataType, String)>) -> (res: Result<Schema, PlannerError>)
    ensures
        match res {
            Ok(s) => describes(s@, named(cols@)),
            Err(e) => too_many(cols@.len()) && e.0@ == "too many columns"@,
        },
        too_many(cols@.len()) ==> res is Err,
{
    if cols.len() > usize::MAX / 16 {
        return Err(refuse("too many columns"));
    }
    let ghost wanted = named(cols@);
    let schema = Schema::new(cols);
    proof {
        assert forall|k: int| 0 <= k < wanted.len() implies (#[trigger] schema@.cols[k]).dtype
            == wanted[k].0 && schema@.cols[k].name@ == wanted[k].1 by {}
    }
    Ok(schema)
}

/// A made-up column name.
fn numbered(prefix: &str, i: usize) -> (res: String)
    ensures
        res@ == prefix@ + digits(i as nat),
{
    joined(prefix, decimal(i as u64).as_str())
}

fn name_of(e: &Expression, source: &Schema, prefix: &str, i: usize) -> (res: String)
    ensures
        res@ == result_name(*e, source@, prefix@, i as int),
{
    match e {
        Expression::Column { tuple_idx, col_idx, dtype: _ } => {
            let base: usize = match source.join_offset {
                Some(n) => if *tuple_idx == 1 {
                    n
                } else {
                    0
                },
                None => 0,
            };
            let count: usize = source.cols.len();
            match base.checked_add(*col_idx as usize) {
                Some(at) => if at < count {
                    source.cols[at].name.clone()
                } else {
                    numbered(prefix, i)
                },
                None => numbered(prefix, i),
            }
        },
        _ => numbered(prefix, i),
    }
}

fn dtype_or_int(e: &Expression) -> (res: DataType)
    ensures
        res == type_or_int(*e),
{
    match e.dtype() {
        Some(t) => t,
        None => DataType::INT,
    }
}

/// The types and names of the columns that some expressions make.
fn result_cols(exprs: &Vec<Expression>, source: &Schema, prefix: &str) -> (res: Vec<
    (DataType, String),
>)
    ensures
        named(res@) == result_columns(exprs@, source@, prefix@),
{
    let ghost all = result_columns(exprs@, source@, prefix@);
    let mut out: Vec<(DataType, String)> = Vec::new();
    let mut i: usize = 0;
    assert(named(out@) =~= all.subrange(0, 0));
    while i < exprs.len()
        invariant
            i <= exprs@.len(),
            all == result_columns(exprs@, source@, prefix@),
            named(out@) == all.subrange(0, i as int),
        decreases exprs@.len() - i,
    {
        let ghost before = named(out@);
        out.push((dtype_or_int(&exprs[i]), name_of(&exprs[i], source, prefix, i)));
        proof {
            assert(named(out@) =~= before.push(all[i as int]));
            assert(all.subrange(0, i + 1) =~= all.subrange(0, i as int).push(all[i as int]));
        }
        i += 1;
    }
    assert(all.subrange(0, i as int) =~= all);
    out
}

fn agg_type_name(t: &AggType) -> (res: &'static str)
    ensures
        res@ == aggregate_name(*t),
{
    match t {
        AggType::COUNT => "count",
        AggType::SUM => "sum",
        AggType::AVG => "avg",
        AggType::MIN => "min",
        AggType::MAX => "max",
        AggType::RANK => "rank",
    }
}

/// The types and names of the columns of an aggregation.
fn aggregation_cols(
    group_bys: &Vec<Expression>,
    aggs: &Vec<(Expression, AggType)>,
    source: &Schema,
) -> (res: Vec<(DataType, String)>)
    ensures
        named(res@) == aggregation_columns(group_bys@, aggs@, source@),
{
    let mut out = result_cols(group_bys, source, "g");
    let ghost first = named(out@);
    let ghost rest = Seq::new(aggs@.len(), |i: int| aggregate_column(aggs@[i], i));
    let mut i: usize = 0;
    assert(named(out@) =~= first + rest.subrange(0, 0));
    while i < aggs.len()
        invariant
            i <= aggs@.len(),
            rest == Seq::new(aggs@.len(), |i: int| aggregate_column(aggs@[i], i)),
            named(out@) == first + rest.subrange(0, i as int),
        decreases aggs@.len() - i,
    {
        let dtype = if aggs[i].1 == AggType::COUNT {
            DataType::INT
        } else {
            dtype_or_int(&aggs[i].0)
        };
        let mut name = joined(agg_type_name(&aggs[i].1), "_");
        name.append(decimal(i as u64).as_str());
        let ghost before = named(out@);
        let ghost text = name@;
        out.push((dtype, name));
        proof {
            assert(text == rest[i as int].1);
            assert(named(out@) =~= before.push(rest[i as int]));
            assert(rest.subrange(0, i + 1) =~= rest.subrange(0, i as int).push(rest[i as int]));
            assert(named(out@) =~= first + rest.subrange(0, i + 1));
        }
        i += 1;
    }
    assert(rest.subrange(0, i as int) =~= rest);
    out
}

/// The last of some filters.
fn pop_filter(filters: Option<Vec<Expression>>) -> (res: Option<Expression>)
    ensures
        res == last_filter(filter_view(filters)),
{
    match filters {
        Some(mut v) => v.pop(),
        None => None,
    }
}

/// The column and the value of a filter that an index may serve.
fn find_probe(filter: &Option<Expression>) -> (res: Option<(u32, Value)>)
    ensures
        res == probe_of(*filter),
{
    if let Some(Expression::Binary { left, right, op }) = filter {
        if *op == Op::Eq {
            return match (&**left, &**right) {
                (
                    Expression::Column { tuple_idx, col_idx, dtype: _ },
                    Expression::Constant(Some(v)),
                ) => if *tuple_idx == 0 {
                    Some((*col_idx, *v))
                } else {
                    None
                },
                (
                    Expression::Constant(Some(v)),
                    Expression::Column { tuple_idx, col_idx, dtype: _ },
                ) => if *tuple_idx == 0 {
                    Some((*col_idx, *v))
                } else {
                    None
                },
                _ => None,
            };
        }
    }
    None
}

/// The columns of an equality that joins two tables.
fn find_join_columns(predicate: &Expression) -> (res: Option<(u32, u32)>)
    ensures
        res == join_columns(*predicate),
{
    if let Expression::Binary { left, right, op } = predicate {
        if *op == Op::Eq {
            return match (&**left, &**right) {
                (
                    Expression::Column { tuple_idx: a, col_idx: x, dtype: _ },
                    Expression::Column { tuple_idx: b, col_idx: y, dtype: _ },
                ) => if *a == 0 && *b == 1 {
                    Some((*x, *y))
                } else if *a == 1 && *b == 0 {
                    Some((*y, *x))
                } else {
                    None
                },
                _ => None,
            };
        }
    }
    None
}

fn point(v: Value) -> (res: ValueBound)
    ensures
        is_point(res, v),
{
    let mut vals: Vec<Value> = Vec::new();
    vals.push(v);
    assert(vals@ =~= seq![v]);
    ValueBound::Included(vals)
}

/// A statement that cannot be planned, and why.
pub open spec fn unplannable(stmt: BoundStatement, e: Seq<char>) -> bool {
    match stmt {
        BoundStatement::Select(b) => {
            ||| b.join is Some && b.scope@.len() != 2 && e == "only 2-way joins supported"@
            ||| select_too_wide(b@) && e == "too many columns"@
        },
        BoundStatement::Values(v) => v.rows@.len() > 0 && too_many(v.rows@[0]@.len()) && e
            == "too many columns"@,
        BoundStatement::Insert(b) => b.scope@.len() == 0 && e == "INSERT scope"@,
        BoundStatement::Delete(b) => b.scope@.len() == 0 && e == "DELETE scope"@,
        BoundStatement::Update(b) => {
            ||| b.scope@.len() == 0 && e == "UPDATE scope"@
            ||| e == "UPDATE target must be a column reference"@ && exists|i: int|
                0 <= i < b.cols@.len() && i < b.new_cols@.len() && !(
                #[trigger] b.cols@[i] is Column)
        },
        BoundStatement::CreateTable(b) => false,
        BoundStatement::CreateIndex(b) => {
            ||| b.scope@.len() == 0 && e == "CREATE INDEX scope"@
            ||| b.scope@.len() > 0 && exists|i: int|
                0 <= i < b.index_schema@.cols.len() && !crate::parser::scope::has_name(
                    scope_view(b.scope@)[0],
                    (#[trigger] b.index_schema@.cols[i]).name@,
                ) && e == "CREATE INDEX references unknown column: "@
                    + b.index_schema@.cols[i].name@
        },
    }
}

/// Some schema of the plan of a SELECT would have too many columns.
pub open spec fn select_too_wide(v: SelectView) -> bool {
    ||| v.join is Some && v.scope.len() == 2 && too_many(
        v.scope[0].schema.cols.len() + v.scope[1].schema.cols.len(),
    )
    ||| too_many(v.group_bys.len() + v.aggregates.len())
    ||| too_many(v.projections.len())
}

impl<'a> Planner<'a> {
    pub fn new(catalog: &'a Catalog) -> (res: Self)
        ensures
            res.catalog == catalog,
    {
        Planner { catalog }
    }

    /// The oldest index on a table whose key is that one column.
    fn index_for_col(&self, table_oid: u32, col: usize) -> (res: Option<u32>)
        ensures
            res == index_for(self.catalog, table_oid, col),
    {
        let infos = match self.catalog.get_table_indexes(table_oid) {
            Ok(infos) => infos,
            Err(_) => { return None; },
        };
        let ghost all = self.catalog.table_indexes(table_oid);
        assert(all.len() == infos@.len());
        let mut i: usize = 0;
        while i < infos.len()
            invariant
                i <= infos@.len(),
                all == self.catalog.table_indexes(table_oid),
                self.catalog.has_table(table_oid),
                all == Seq::new(infos@.len(), |i: int| *infos@[i]),
                index_on_column(all, col, 0) == index_on_column(all, col, i as int),
            decreases infos@.len() - i,
        {
            let info = infos[i];
            assert(all[i as int] == *info);
            let idxs = &info.index.indexed_col_idxs;
            if idxs.len() == 1 && idxs[0] == col {
                assert(idxs@ =~= seq![col]);
                return Some(info.oid);
            }
            proof {
                if idxs@ == seq![col] {
                    assert(idxs@[0] == col);
                }
            }
            i += 1;
        }
        None
    }

    /// Plans the scan of a table with a filter.
    fn build_scan(&self, ts: &TableScope, filter: Option<Expression>, Ghost(t): Ghost<ScopeView>) -> (res:
        Plan)
        requires
            t.oid == ts.oid,
            t.schema == ts.schema@,
            ts.schema@.wf(),
        ensures
            scans(self.catalog, t, filter, res),
            res.wf(),
            res.out_schema() == t.schema,
    {
        if let Some((col, value)) = find_probe(&filter) {
            if let Some(index_oid) = self.index_for_col(ts.oid, col as usize) {
                return Plan::IndexScan(
                    IndexScanPlanNode {
                        schema: ts.schema.clone(),
                        start: point(value),
                        end: point(value),
                        index_oid,
                    },
                );
            }
        }
        let plan = Plan::SeqScan(
            SeqScanPlanNode { table_oid: ts.oid, schema: ts.schema.clone() },
        );
        assert(plan.wf());
        match filter {
            Some(predicate) => Plan::Filter(
                FilterPlanNode { schema: ts.schema.clone(), predicate, child: Box::new(plan) },
            ),
            None => plan,
        }
    }

    /// Plans the join of two tables.
    fn build_join(
        &self,
        left_ts: &TableScope,
        right_ts: &TableScope,
        join: BoundJoin,
        out_schema: Schema,
        Ghost(l): Ghost<ScopeView>,
        Ghost(r): Ghost<ScopeView>,
    ) -> (res: Plan)
        requires
            l.oid == left_ts.oid,
            l.schema == left_ts.schema@,
            r.oid == right_ts.oid,
            r.schema == right_ts.schema@,
            left_ts.schema@.wf(),
            right_ts.schema@.wf(),
            out_schema@.wf(),
        ensures
            joins(
                self.catalog,
                l,
                r,
                (join.join_type, join.predicate),
                out_schema@,
                res,
            ),
            res.wf(),
            res.out_schema() == out_schema@,
    {
        let left = Plan::SeqScan(
            SeqScanPlanNode { table_oid: left_ts.oid, schema: left_ts.schema.clone() },
        );
        assert(left.wf());
        if join.join_type == JoinType::Inner {
            if let Some((outer_col, inner_col)) = find_join_columns(&join.predicate) {
                if (outer_col as usize) < left_ts.schema.cols.len() {
                    if let Some(index_oid) = self.index_for_col(
                        right_ts.oid,
                        inner_col as usize,
                    ) {
                        let key_predicate = Expression::Column {
                            tuple_idx: 0,
                            col_idx: outer_col,
                            dtype: left_ts.schema.cols[outer_col as usize].dtype,
                        };
                        return Plan::NestedIndexJoin(
                            NestedIndexJoinPlanNode {
                                schema: out_schema,
                                child: Box::new(left),
                                key_predicate,
                                table_oid: right_ts.oid,
                                table_schema: right_ts.schema.clone(),
                                index_oid,
                                join_type: JoinType::Inner,
                            },
                        );
                    }
                }
            }
        }
        let right = Plan::SeqScan(
            SeqScanPlanNode { table_oid: right_ts.oid, schema: right_ts.schema.clone() },
        );
        assert(right.wf());
        Plan::NestedLoopJoin(
            NestedLoopJoinPlanNode {
                schema: out_schema,
                left: Box::new(left),
                right: Box::new(right),
                predicate: join.predicate,
                join_type: join.join_type,
            },
        )
    }

    /// The schema of a join of two tables.
    fn join_schema(&self, left: &Schema, right: &Schema) -> (res: Result<Schema, PlannerError>)
        ensures
            match res {
                Ok(s) => joined_schema(left@, right@, s@),
                Err(e) => too_many(left@.cols.len() + right@.cols.len()) && e.0@
                    == "too many columns"@,
            },
    {
        let ghost wanted = columns_of(left@) + columns_of(right@);
        let mut cols: Vec<(DataType, String)> = Vec::new();
        let mut i: usize = 0;
        assert(named(cols@) =~= columns_of(left@).subrange(0, 0));
        while i < left.cols.len()
            invariant
                i <= left.cols@.len(),
                named(cols@) == columns_of(left@).subrange(0, i as int),
            decreases left.cols@.len() - i,
        {
            let ghost before = named(cols@);
            cols.push((left.cols[i].dtype, left.cols[i].name.clone()));
            proof {
                let all = columns_of(left@);
                assert(named(cols@) =~= before.push(all[i as int]));
                assert(all.subrange(0, i + 1) =~= all.subrange(0, i as int).push(all[i as int]));
            }
            i += 1;
        }
        i = 0;
        assert(named(cols@) =~= columns_of(left@) + columns_of(right@).subrange(0, 0));
        while i < right.cols.len()
            invariant
                i <= right.cols@.len(),
                named(cols@) == columns_of(left@) + columns_of(right@).subrange(0, i as int),
            decreases right.cols@.len() - i,
        {
            let ghost before = named(cols@);
            cols.push((right.cols[i].dtype, right.cols[i].name.clone()));
            proof {
                let all = columns_of(right@);
                assert(named(cols@) =~= before.push(all[i as int]));
                assert(all.subrange(0, i + 1) =~= all.subrange(0, i as int).push(all[i as int]));
                assert(named(cols@) =~= columns_of(left@) + all.subrange(0, i + 1));
            }
            i += 1;
        }
        assert(named(cols@) =~= wanted);
        match new_schema(cols) {
            Ok(mut s) => {
                s.join_offset = Some(left.cols.len());
                assert(columns_of(s@) =~= wanted);
                Ok(s)
            },
            Err(e) => {
                assert(wanted.len() == cols@.len());
                Err(e)
            },
        }
    }

    /// Plans how the tables of a SELECT are read and filtered. Also gives the schema of the
    /// rows.
    fn plan_source(
        &self,
        scope: &Vec<ScopeEntry>,
        join: Option<BoundJoin>,
        filter: Option<Expression>,
        Ghost(v): Ghost<SelectView>,
    ) -> (res: Result<(Plan, Schema), PlannerError>)
        requires
            scope_ok(scope@),
            v.scope == scope_view(scope@),
            v.join == join_view(join),
            last_filter(v.filters) == filter,
        ensures
            match res {
                Ok((plan, s)) => reads(self.catalog, v, s@, plan) && plan.wf() && s@.wf()
                    && plan.out_schema() == s@,
                Err(e) => {
                    ||| v.join is Some && v.scope.len() != 2 && e.0@
                        == "only 2-way joins supported"@
                    ||| select_too_wide(v) && e.0@ == "too many columns"@
                },
            },
    {
        match join {
            Some(j) => {
                if scope.len() != 2 {
                    return Err(refuse("only 2-way joins supported"));
                }
                assert(v.scope[0] == scope@[0]@);
                assert(v.scope[1] == scope@[1]@);
                assert(scope@[0].table.schema@.wf());
                assert(scope@[1].table.schema@.wf());
                let swapped: bool = scope[1].table.idx < scope[0].table.idx;
                let (left, right) = if swapped {
                    (&scope[1].table, &scope[0].table)
                } else {
                    (&scope[0].table, &scope[1].table)
                };
                let s = match self.join_schema(&left.schema, &right.schema) {
                    Ok(s) => s,
                    Err(e) => { return Err(e); },
                };
                let ghost (l, r) = sides(v.scope);
                let plan = self.build_join(left, right, j, s.clone(), Ghost(l), Ghost(r));
                let plan = match filter {
                    Some(predicate) => Plan::Filter(
                        FilterPlanNode { schema: s.clone(), predicate, child: Box::new(plan) },
                    ),
                    None => plan,
                };
                Ok((plan, s))
            },
            None => {
                if scope.len() == 0 {
                    let none: Vec<(DataType, String)> = Vec::new();
                    assert(named(none@) =~= Seq::empty());
                    let s = match new_schema(none) {
                        Ok(s) => s,
                        Err(e) => { return Err(e); },
                    };
                    let empty: Vec<Expression> = Vec::new();
                    let mut rows: Vec<Vec<Expression>> = Vec::new();
                    assert(empty@ =~= Seq::empty());
                    rows.push(empty);
                    assert(row_views(rows@) =~= seq![Seq::<Expression>::empty()]);
                    let plan = Plan::Values(ValuesPlanNode { schema: s.clone(), rows });
                    assert(plan.wf());
                    let plan = match filter {
                        Some(predicate) => Plan::Filter(
                            FilterPlanNode { schema: s.clone(), predicate, child: Box::new(plan) },
                        ),
                        None => plan,
                    };
                    return Ok((plan, s));
                }
                assert(v.scope[0] == scope@[0]@);
                assert(scope@[0].table.schema@.wf());
                let ts = &scope[0].table;
                let plan = self.build_scan(ts, filter, Ghost(v.scope[0]));
                Ok((plan, ts.schema.clone()))
            },
        }
    }

    /// Plans a SELECT.
    fn plan_select(&self, sel: BoundSelect) -> (res: Result<Plan, PlannerError>)
        requires
            scope_ok(sel.scope@),
        ensures
            match res {
                Ok(plan) => selects(self.catalog, sel@, plan) && plan.wf(),
                Err(e) => unplannable(BoundStatement::Select(sel), e.0@),
            },
    {
        let ghost v = sel@;
        let BoundSelect {
            scope,
            join,
            projections,
            filters,
            group_bys,
            aggregates,
            sort,
            limit,
        } = sel;
        let filter = pop_filter(filters);
        let (mut plan, mut source_schema) = match self.plan_source(
            &scope,
            join,
            filter,
            Ghost(v),
        ) {
            Ok(found) => found,
            Err(e) => { return Err(e); },
        };
        let ghost s0 = source_schema@;
        let ghost source = plan;
        let groups_rows: bool = group_bys.len() > 0 || aggregates.len() > 0;
        if groups_rows {
            let cols = aggregation_cols(&group_bys, &aggregates, &source_schema);
            let ghost wide = cols@.len();
            proof {
                assert(named(cols@).len() == v.group_bys.len() + v.aggregates.len());
            }
            let agg_schema = match new_schema(cols) {
                Ok(s) => s,
                Err(e) => { return Err(e); },
            };
            plan = Plan::Aggregation(
                AggregationPlanNode {
                    schema: agg_schema.clone(),
                    child: Box::new(plan),
                    group_bys,
                    aggregates,
                },
            );
            source_schema = agg_schema;
        }
        let ghost s1 = source_schema@;
        let ghost aggregation = plan;
        assert(plan.wf());
        assert(groups(v, s0, s1, aggregation));
        if let Some(order_by_exprs) = sort {
            plan = Plan::Sort(
                SortPlanNode {
                    schema: source_schema.clone(),
                    child: Box::new(plan),
                    order_by_exprs,
                },
            );
        }
        let ghost order = plan;
        assert(plan.wf());
        let proj_cols = result_cols(&projections, &source_schema, "col");
        assert(named(proj_cols@).len() == v.projections.len());
        let proj_schema = match new_schema(proj_cols) {
            Ok(s) => s,
            Err(e) => { return Err(e); },
        };
        plan = Plan::Projection(
            ProjectionPlanNode {
                schema: proj_schema.clone(),
                expressions: projections,
                child: Box::new(plan),
            },
        );
        let ghost projection = plan;
        assert(plan.wf());
        if let Some(n) = limit {
            plan = Plan::Limit(
                LimitPlanNode { schema: proj_schema, child: Box::new(plan), limit: n },
            );
        }
        proof {
            assert(below(v.limit is Some, plan) == projection);
            assert(projection.first_child() == order);
            assert(below(v.sort is Some, order) == aggregation);
            assert(below(crate::planner::aggregates(v), aggregation) == source);
            assert(reads(self.catalog, v, s0, source));
        }
        Ok(plan)
    }

    /// Plans a VALUES clause. The columns of the first row make the schema.
    fn plan_values(&self, v: BoundValues) -> (res: Result<Plan, PlannerError>)
        ensures
            match res {
                Ok(plan) => gives_values(row_views(v.rows@), plan) && plan.wf(),
                Err(e) => v.rows@.len() > 0 && too_many(v.rows@[0]@.len()) && e.0@
                    == "too many columns"@,
            },
    {
        let mut cols: Vec<(DataType, String)> = Vec::new();
        assert(named(cols@) =~= Seq::empty());
        if v.rows.len() > 0 {
            let first = &v.rows[0];
            let ghost all = Seq::new(
                first@.len(),
                |i: int| (type_or_int(first@[i]), "col"@ + digits(i as nat)),
            );
            let mut i: usize = 0;
            assert(named(cols@) =~= all.subrange(0, 0));
            while i < first.len()
                invariant
                    i <= first@.len(),
                    all == Seq::new(
                        first@.len(),
                        |i: int| (type_or_int(first@[i]), "col"@ + digits(i as nat)),
                    ),
                    named(cols@) == all.subrange(0, i as int),
                decreases first@.len() - i,
            {
                let ghost before = named(cols@);
                cols.push((dtype_or_int(&first[i]), numbered("col", i)));
                proof {
                    assert(named(cols@) =~= before.push(all[i as int]));
                    assert(all.subrange(0, i + 1) =~= all.subrange(0, i as int).push(
                        all[i as int],
                    ));
                }
                i += 1;
            }
            assert(named(cols@) =~= all);
            assert(cols@.len() == first@.len()) by {
                assert(named(cols@).len() == cols@.len());
            }
            assert(row_views(v.rows@)[0] == first@);
        }
        let schema = match new_schema(cols) {
            Ok(s) => s,
            Err(e) => { return Err(e); },
        };
        Ok(Plan::Values(ValuesPlanNode { schema, rows: v.rows }))
    }

    fn plan_insert(&self, ins: BoundInsert) -> (res: Result<Plan, PlannerError>)
        requires
            scope_ok(ins.scope@),
        ensures
            match res {
                Ok(plan) => planned(self.catalog, BoundStatement::Insert(ins), plan) && plan.wf(),
                Err(e) => unplannable(BoundStatement::Insert(ins), e.0@),
            },
    {
        if ins.scope.len() == 0 {
            return Err(refuse("INSERT scope"));
        }
        let ts = &ins.scope[0].table;
        assert(scope_view(ins.scope@)[0] == ins.scope@[0]@);
        assert(ins.scope@[0].table.schema@.wf());
        let values = Plan::Values(ValuesPlanNode { schema: ts.schema.clone(), rows: ins.rows });
        assert(values.wf());
        Ok(
            Plan::Insert(
                InsertPlanNode {
                    schema: ts.schema.clone(),
                    child: Box::new(values),
                    table_oid: ts.oid,
                },
            ),
        )
    }

    fn plan_delete(&self, del: BoundDelete) -> (res: Result<Plan, PlannerError>)
        requires
            scope_ok(del.scope@),
        ensures
            match res {
                Ok(plan) => planned(self.catalog, BoundStatement::Delete(del), plan) && plan.wf(),
                Err(e) => unplannable(BoundStatement::Delete(del), e.0@),
            },
    {
        if del.scope.len() == 0 {
            return Err(refuse("DELETE scope"));
        }
        let ts = &del.scope[0].table;
        let ghost t = scope_view(del.scope@)[0];
        assert(t == del.scope@[0]@);
        assert(del.scope@[0].table.schema@.wf());
        let filter = pop_filter(del.filters);
        let scan = self.build_scan(ts, filter, Ghost(t));
        Ok(
            Plan::Delete(
                DeletePlanNode {
                    schema: ts.schema.clone(),
                    child: Box::new(scan),
                    table_oid: ts.oid,
                },
            ),
        )
    }

    fn plan_update(&self, upd: BoundUpdate) -> (res: Result<Plan, PlannerError>)
        requires
            scope_ok(upd.scope@),
        ensures
            match res {
                Ok(plan) => planned(self.catalog, BoundStatement::Update(upd), plan) && plan.wf(),
                Err(e) => unplannable(BoundStatement::Update(upd), e.0@),
            },
    {
        if upd.scope.len() == 0 {
            return Err(refuse("UPDATE scope"));
        }
        let ts = &upd.scope[0].table;
        let ghost t = scope_view(upd.scope@)[0];
        assert(t == upd.scope@[0]@);
        assert(upd.scope@[0].table.schema@.wf());
        let mut target_exprs: Vec<(u32, Expression)> = Vec::new();
        let mut i: usize = 0;
        while i < upd.cols.len() && i < upd.new_cols.len()
            invariant
                i <= upd.cols@.len(),
                i <= upd.new_cols@.len(),
                target_exprs@.len() == i,
                forall|k: int|
                    0 <= k < i ==> target_is(
                        upd.cols@[k],
                        upd.new_cols@[k],
                        #[trigger] target_exprs@[k],
                    ),
            decreases upd.cols@.len() - i,
        {
            let col: u32 = match &upd.cols[i] {
                Expression::Column { tuple_idx: _, col_idx, dtype: _ } => *col_idx,
                _ => {
                    assert(!(upd.cols@[i as int] is Column));
                    return Err(refuse("UPDATE target must be a column reference"));
                },
            };
            target_exprs.push((col, upd.new_cols[i].clone()));
            i += 1;
        }
        let filter = pop_filter(upd.filters);
        let scan = self.build_scan(ts, filter, Ghost(t));
        Ok(
            Plan::Update(
                UpdatePlanNode {
                    schema: ts.schema.clone(),
                    target_exprs,
                    child: Box::new(scan),
                    table_oid: ts.oid,
                },
            ),
        )
    }

    fn plan_create_table(&self, c: BoundCreateTable) -> (res: Plan)
        requires
            c.schema@.wf(),
        ensures
            planned(self.catalog, BoundStatement::CreateTable(c), res),
            res.wf(),
    {
        Plan::CreateTable(
            CreateTablePlanNode {
                table_name: c.table_name,
                schema: c.schema,
                if_not_exists: false,
            },
        )
    }

    fn plan_create_index(&self, c: BoundCreateIndex) -> (res: Result<Plan, PlannerError>)
        requires
            scope_ok(c.scope@),
            c.index_schema@.wf(),
        ensures
            match res {
                Ok(plan) => planned(self.catalog, BoundStatement::CreateIndex(c), plan)
                    && plan.wf(),
                Err(e) => unplannable(BoundStatement::CreateIndex(c), e.0@),
            },
    {
        if c.scope.len() == 0 {
            return Err(refuse("CREATE INDEX scope"));
        }
        let ts = &c.scope[0].table;
        let ghost t = scope_view(c.scope@)[0];
        assert(t == c.scope@[0]@);
        let mut key_columns: Vec<u32> = Vec::new();
        let mut i: usize = 0;
        while i < c.index_schema.cols.len()
            invariant
                i <= c.index_schema.cols@.len(),
                t.schema == ts.schema@,
                key_columns@.len() == i,
                c.scope@.len() > 0,
                t == scope_view(c.scope@)[0],
                forall|k: int|
                    0 <= k < i ==> key_at(
                        t,
                        c.index_schema@.cols[k].name@,
                        #[trigger] key_columns@[k],
                    ),
            decreases c.index_schema.cols@.len() - i,
        {
            let ghost before = key_columns@;
            match ts.schema.col_idx(c.index_schema.cols[i].name.as_str()) {
                Some(p) => {
                    key_columns.push(p as u32);
                    proof {
                        let name = c.index_schema@.cols[i as int].name@;
                        assert(column_at(t.schema.cols, name, p as int));
                        assert(crate::parser::scope::has_name(t, name));
                        crate::parser::scope::lemma_first_column(
                            t.schema.cols,
                            name,
                            p as int,
                            crate::parser::scope::name_pos(t, name),
                        );
                        assert forall|k: int| 0 <= k < i + 1 implies key_at(
                            t,
                            c.index_schema@.cols[k].name@,
                            #[trigger] key_columns@[k],
                        ) by {
                            if k < i {
                                assert(key_columns@[k] == before[k]);
                            }
                        }
                    }
                },
                None => {
                    assert(!crate::parser::scope::has_name(
                        t,
                        c.index_schema@.cols[i as int].name@,
                    ));
                    return Err(
                        PlannerError(
                            joined(
                                "CREATE INDEX references unknown column: ",
                                c.index_schema.cols[i].name.as_str(),
                            ),
                        ),
                    );
                },
            }
            i += 1;
        }
        Ok(
            Plan::CreateIndex(
                CreateIndexPlanNode {
                    schema: c.index_schema,
                    index_name: c.name,
                    table_oid: ts.oid,
                    key_columns,
                },
            ),
        )
    }

    /// Plans a statement.
    pub fn plan(&self, stmt: BoundStatement) -> (res: Result<Plan, PlannerError>)
        requires
            stmt.wf(),
        ensures
            match res {
                Ok(plan) => planned(self.catalog, stmt, plan) && plan.wf(),
                Err(e) => unplannable(stmt, e.0@),
            },
    {
        match stmt {
            BoundStatement::Select(s) => self.plan_select(s),
            BoundStatement::Values(v) => self.plan_values(v),
            BoundStatement::Insert(i) => self.plan_insert(i),
            BoundStatement::Delete(d) => self.plan_delete(d),
            BoundStatement::Update(u) => self.plan_update(u),
            BoundStatement::CreateTable(c) => Ok(self.plan_create_table(c)),
            BoundStatement::CreateIndex(c) => self.plan_create_index(c),
        }
    }
}

} // verus!
