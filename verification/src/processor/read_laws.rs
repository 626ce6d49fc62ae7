//! Which rows the tables and the filter of a SELECT give.
use vstd::prelude::*;

use crate::catalog::Catalog;
use crate::catalog::registry::is_table;
use crate::catalog::schema::SchemaView;
use crate::catalog::value::Value;
use crate::index::tree_model::Pages;
use crate::parser::binder::SelectView;
use crate::parser::scope::{row_views, ScopeView};
use crate::planner::{
    all_rows, below, columns_of, join_columns, join_index_of, joined_schema, joins, last_filter,
    reads, scan_index_of, scans,
};
use crate::processor::change_laws::lemma_live_contains;
use crate::processor::executor::{filter_stream, live_rows, table_stream};
use crate::processor::expression::{eval, eval_join, Expression, FloatOp};
use crate::processor::index_access::{
    index_join_of, index_join_stream, outer_matches, outers_part, IndexJoinView,
};
use crate::processor::index_laws::{indexes_mirror, is_encoded, rows_encoded};
use crate::processor::join::{loop_join_stream, JoinView};
use crate::processor::join_laws::{law_index_join_is_loop_join, same_join};
use crate::processor::laws::{holds_on, law_filter_rows};
use crate::processor::loop_join_laws::{
    are_origins, joins_origin, law_loop_join_rows, matched, Origin,
};
use crate::processor::plan::{JoinType, Plan};
use crate::processor::row_laws::law_values_rows;
use crate::processor::scan_laws::{comparable, is_current, law_scan_is_filter, lemma_index_for};
use crate::processor::stream::{flat, RowView, StreamView};

verus! {

/// The filter is true on the row.
pub open spec fn is_kept(
    fl: spec_fn(FloatOp, u32, u32) -> u32,
    filter: Expression,
    s: SchemaView,
    row: RowView,
) -> bool {
    eval(fl, filter, row.0, s) == Ok::<Option<Value>, Seq<char>>(Some(Value::BOOLEAN(true)))
}

/// `out` holds those of the rows on which the filter is true, in order.
pub open spec fn keeps(
    fl: spec_fn(FloatOp, u32, u32) -> u32,
    filter: Option<Expression>,
    s: SchemaView,
    rows: Seq<RowView>,
    out: Seq<RowView>,
) -> bool {
    match filter {
        Some(f) => out == rows.filter(|row: RowView| is_kept(fl, f, s, row)),
        None => out == rows,
    }
}

proof fn lemma_kept(
    fl: spec_fn(FloatOp, u32, u32) -> u32,
    f: Expression,
    child: StreamView,
    s: SchemaView,
)
    requires
        filter_stream(fl, f, child, s).error is None,
    ensures
        child.error is None,
        keeps(fl, Some(f), s, child.rows, filter_stream(fl, f, child, s).rows),
{
    law_filter_rows(fl, f, child, s);
    assert(holds_on(fl, f, s) =~= |row: RowView| is_kept(fl, f, s, row));
}

/// A scan of a table that goes through no index gives the rows of the table on which the filter is
/// true, in the order of the table.
pub proof fn law_scan_in_order(
    fl: spec_fn(FloatOp, u32, u32) -> u32,
    c: &Catalog,
    pages: Pages,
    t: ScopeView,
    filter: Option<Expression>,
    plan: Plan,
    s: StreamView,
)
    requires
        is_current(c, t),
        scans(c, t, filter, plan),
        scan_index_of(c, t.oid, filter) is None,
        plan.answers(fl, c, pages, s),
        s.error is None,
    ensures
        keeps(fl, filter, t.schema, live_rows(c.table(t.oid).heap, pages), s.rows),
{
    reveal(Plan::given_none);
    reveal(Plan::given_child);
    match filter {
        Some(f) => {
            let child = plan.first_child();
            assert(all_rows(t, child));
            let all = choose|all: StreamView|
                child.answers(fl, c, pages, all) && #[trigger] plan.given_child(
                    fl,
                    all,
                    s,
                    child.out_schema(),
                    c,
                    pages,
                );
            lemma_kept(fl, f, all, t.schema);
        },
        None => {},
    }
}

/// The WHERE expression of a SELECT.
pub open spec fn where_of(v: SelectView) -> Option<Expression> {
    match v.filters {
        Some(fs) => Some(fs[0]),
        None => None,
    }
}

/// A SELECT has at most one WHERE expression.
pub open spec fn one_filter(v: SelectView) -> bool {
    v.filters matches Some(fs) ==> fs.len() == 1
}

/// The join of two tables by their rows.
pub open spec fn table_join(
    l: ScopeView,
    r: ScopeView,
    join: (JoinType, Expression),
    out: SchemaView,
) -> JoinView {
    JoinView {
        predicate: join.1,
        join_type: join.0,
        out,
        left: l.schema,
        right: r.schema,
    }
}

/// The rows are those that the join makes of the rows of its two tables: one for each pair on which
/// the predicate is true, and for a left join one with NULLs for each left row without a match,
/// ordered by the left row and then by the right one.
pub open spec fn is_join_of(
    fl: spec_fn(FloatOp, u32, u32) -> u32,
    j: JoinView,
    lefts: Seq<RowView>,
    rights: Seq<RowView>,
    rows: Seq<RowView>,
) -> bool {
    exists|origins: Seq<Origin>| #[trigger]
        are_origins(fl, j, lefts, rights, origins, lefts.len() as int) && origins.len()
            == rows.len() && forall|a: int|
            0 <= a < origins.len() ==> joins_origin(j, lefts, rights, #[trigger] origins[a], rows[a])
}

pub(crate) proof fn lemma_loop_join(
    fl: spec_fn(FloatOp, u32, u32) -> u32,
    j: JoinView,
    left: StreamView,
    right: StreamView,
)
    requires
        j.out.wf(),
        loop_join_stream(fl, j, left, right).error is None,
    ensures
        is_join_of(fl, j, left.rows, right.rows, loop_join_stream(fl, j, left, right).rows),
{
    let origins = law_loop_join_rows(fl, j, left, right);
    assert(are_origins(fl, j, left.rows, right.rows, origins, left.rows.len() as int));
}

proof fn lemma_rows_encoded(c: &Catalog, pages: Pages, t: ScopeView)
    requires
        c.wf(pages),
        is_current(c, t),
        rows_encoded(c, t.oid, pages),
    ensures
        forall|i: int|
            0 <= i < live_rows(c.table(t.oid).heap, pages).len() ==> is_encoded(
                t.schema,
                (#[trigger] live_rows(c.table(t.oid).heap, pages)[i]).0,
            ),
{
    let rows = live_rows(c.table(t.oid).heap, pages);
    let stored = c.rows(pages, c.table_pos(t.oid));
    assert(is_table(c.tables@, t.oid, c.table_pos(t.oid)));
    assert forall|i: int| 0 <= i < rows.len() implies is_encoded(
        t.schema,
        (#[trigger] rows[i]).0,
    ) by {
        assert(rows.contains(rows[i]));
        lemma_live_contains(c.table(t.oid).heap, pages, rows[i]);
    }
}

/// An equality of two columns is not true where the left one is NULL.
proof fn lemma_null_joins_nothing(
    fl: spec_fn(FloatOp, u32, u32) -> u32,
    j: JoinView,
    outer: u32,
    inner: u32,
    l: RowView,
    r: RowView,
)
    requires
        join_columns(j.predicate) == Some((outer, inner)),
        j.left.field(l.0, outer as int) matches Ok(None),
    ensures
        !matched(fl, j, l, r),
{
    match j.predicate {
        Expression::Binary { left, right, op } => {
            let a = eval_join(fl, *left, l.0, j.left, r.0, j.right);
            let b = eval_join(fl, *right, l.0, j.left, r.0, j.right);
            assert(a is Err || b is Err || a == Ok::<Option<Value>, Seq<char>>(None) || b == Ok::<
                Option<Value>,
                Seq<char>,
            >(None));
        },
        _ => {},
    }
}

/// A join through an index that holds nothing fails, or all keys of the outer rows are NULL.
proof fn lemma_empty_index(
    fl: spec_fn(FloatOp, u32, u32) -> u32,
    pages: Pages,
    j: IndexJoinView,
    outers: Seq<RowView>,
    n: int,
)
    requires
        0 <= n <= outers.len(),
        j.index.idx.is_empty(pages),
        j.join_type == JoinType::Inner,
        flat(outers_part(fl, pages, j, outers), n).error is None,
    ensures
        flat(outers_part(fl, pages, j, outers), n).rows.len() == 0,
        forall|i: int|
            0 <= i < n ==> eval(fl, j.key, (#[trigger] outers[i]).0, j.outer) == Ok::<
                Option<Value>,
                Seq<char>,
            >(None),
    decreases n,
{
    if n > 0 {
        lemma_empty_index(fl, pages, j, outers, n - 1);
        let f = outers_part(fl, pages, j, outers);
        assert(f(n - 1) == outer_matches(fl, pages, j, outers[n - 1].0));
        assert(f(n - 1).error is None);
    }
}

/// The columns by which a join can go through an index are of one type.
pub open spec fn joinable(l: ScopeView, r: ScopeView, join: (JoinType, Expression)) -> bool {
    join_columns(join.1) matches Some((outer, inner)) ==> outer < l.schema.cols.len() && inner
        < r.schema.cols.len() && l.schema.cols[outer as int].dtype
        == r.schema.cols[inner as int].dtype
}

proof fn lemma_index_join(
    fl: spec_fn(FloatOp, u32, u32) -> u32,
    c: &Catalog,
    pages: Pages,
    l: ScopeView,
    r: ScopeView,
    join: (JoinType, Expression),
    out: SchemaView,
    plan: Plan,
    s: StreamView,
)
    requires
        c.wf(pages),
        out.wf(),
        l.schema.wf(),
        is_current(c, l),
        is_current(c, r),
        joinable(l, r, join),
        joins(c, l, r, join, out, plan),
        join_index_of(c, l, r, join) is Some,
        indexes_mirror(c, r.oid, pages),
        rows_encoded(c, l.oid, pages),
        rows_encoded(c, r.oid, pages),
        plan.answers(fl, c, pages, s),
        s.error is None,
    ensures
        is_join_of(
            fl,
            table_join(l, r, join, out),
            live_rows(c.table(l.oid).heap, pages),
            live_rows(c.table(r.oid).heap, pages),
            s.rows,
        ),
{
    reveal(Plan::given_none);
    reveal(Plan::given_child);
    let (outer, index) = join_index_of(c, l, r, join)->0;
    let inner = (join_columns(join.1)->0).1;
    let p = plan->NestedIndexJoin_0;
    let child = plan.first_child();
    assert(all_rows(l, child));
    let left = choose|t: StreamView|
        child.answers(fl, c, pages, t) && #[trigger] plan.given_child(
            fl,
            t,
            s,
            child.out_schema(),
            c,
            pages,
        );
    assert(left == table_stream(c, pages, l.oid));
    let at = lemma_index_for(c, r.oid, inner as usize);
    assert(c.index_fits(c.indexes@[at]));
    let info = c.index(index);
    let j = index_join_of(p, l.schema, info, c.table(r.oid).heap, c.table(r.oid));
    let lj = table_join(l, r, join, out);
    assert(s == index_join_stream(fl, pages, j, left));
    lemma_rows_encoded(c, pages, l);
    let (lefts, rights) = (left.rows, live_rows(c.table(r.oid).heap, pages));
    if j.index.idx.is_empty(pages) {
        lemma_empty_index(fl, pages, j, lefts, lefts.len() as int);
        let origins = Seq::<Origin>::empty();
        assert forall|i: int, k: int| 0 <= i < lefts.len() && 0 <= k < rights.len() implies (
        #[trigger] origins.contains((i, Some(k))) <==> matched(fl, lj, lefts[i], rights[k])) by {
            assert(eval(fl, j.key, lefts[i].0, j.outer) == Ok::<Option<Value>, Seq<char>>(None));
            lemma_null_joins_nothing(fl, lj, outer, inner, lefts[i], rights[k]);
        }
        assert(are_origins(fl, lj, lefts, rights, origins, lefts.len() as int));
    } else {
        assert(same_join(c, index, j, lj, outer, inner));
        law_index_join_is_loop_join(fl, c, pages, index, j, lj, outer, inner, left);
        lemma_loop_join(fl, lj, left, table_stream(c, pages, r.oid));
    }
}

/// A join of two tables that does not fail, planned through an index or not, gives the rows that
/// the join makes of the rows of the tables.
pub proof fn law_join_rows(
    fl: spec_fn(FloatOp, u32, u32) -> u32,
    c: &Catalog,
    pages: Pages,
    l: ScopeView,
    r: ScopeView,
    join: (JoinType, Expression),
    out: SchemaView,
    plan: Plan,
    s: StreamView,
)
    requires
        c.wf(pages),
        out.wf(),
        l.schema.wf(),
        is_current(c, l),
        is_current(c, r),
        joinable(l, r, join),
        joins(c, l, r, join, out, plan),
        indexes_mirror(c, r.oid, pages),
        rows_encoded(c, l.oid, pages),
        rows_encoded(c, r.oid, pages),
        plan.answers(fl, c, pages, s),
        s.error is None,
    ensures
        is_join_of(
            fl,
            table_join(l, r, join, out),
            live_rows(c.table(l.oid).heap, pages),
            live_rows(c.table(r.oid).heap, pages),
            s.rows,
        ),
{
    if join_index_of(c, l, r, join) is Some {
        lemma_index_join(fl, c, pages, l, r, join, out, plan, s);
    } else {
        reveal(Plan::given_none);
        reveal(Plan::given_two);
        let (a, b) = (plan.first_child(), plan.second_child());
        let (left, right) = choose|left: StreamView, right: StreamView|
            a.answers(fl, c, pages, left) && b.answers(fl, c, pages, right)
                && #[trigger] plan.given_two(fl, left, a.out_schema(), right, b.out_schema(), s);
        assert(left == table_stream(c, pages, l.oid));
        assert(right == table_stream(c, pages, r.oid));
        lemma_loop_join(fl, table_join(l, r, join, out), left, right);
    }
}

proof fn lemma_reads_join(c: &Catalog, v: SelectView, source: SchemaView, plan: Plan)
    requires
        v.join is Some,
        reads(c, v, source, plan),
        v.scope[0].idx == 0,
        v.scope[1].idx == 1,
    ensures
        ({
            let filter = last_filter(v.filters);
            let rest = below(filter is Some, plan);
            &&& source.wf()
            &&& joins(c, v.scope[0], v.scope[1], v.join->0, source, rest)
            &&& rest.out_schema() == source
            &&& filter matches Some(f) ==> plan is Filter && plan->Filter_0.predicate == f
        }),
{
}

pub(crate) proof fn lemma_filtered(
    fl: spec_fn(FloatOp, u32, u32) -> u32,
    c: &Catalog,
    pages: Pages,
    f: Expression,
    source: SchemaView,
    plan: Plan,
    s: StreamView,
) -> (all: StreamView)
    requires
        plan is Filter,
        plan->Filter_0.predicate == f,
        plan.first_child().out_schema() == source,
        plan.answers(fl, c, pages, s),
        s.error is None,
    ensures
        plan.first_child().answers(fl, c, pages, all),
        all.error is None,
        keeps(fl, Some(f), source, all.rows, s.rows),
{
    reveal(Plan::given_child);
    let child = plan.first_child();
    let all = choose|all: StreamView|
        child.answers(fl, c, pages, all) && #[trigger] plan.given_child(
            fl,
            all,
            s,
            child.out_schema(),
            c,
            pages,
        );
    lemma_kept(fl, f, all, source);
    all
}

/// A SELECT of two tables that does not fail reads the rows on which its filter is true among those
/// that the join makes of the rows of the tables.
pub proof fn law_joined_read(
    fl: spec_fn(FloatOp, u32, u32) -> u32,
    c: &Catalog,
    pages: Pages,
    v: SelectView,
    source: SchemaView,
    plan: Plan,
    s: StreamView,
)
    requires
        c.wf(pages),
        v.join is Some,
        one_filter(v),
        reads(c, v, source, plan),
        v.scope[0].schema.wf(),
        v.scope[1].schema.wf(),
        is_current(c, v.scope[0]),
        is_current(c, v.scope[1]),
        v.scope[0].idx == 0,
        v.scope[1].idx == 1,
        joinable(v.scope[0], v.scope[1], v.join->0),
        indexes_mirror(c, v.scope[1].oid, pages),
        rows_encoded(c, v.scope[0].oid, pages),
        rows_encoded(c, v.scope[1].oid, pages),
        plan.answers(fl, c, pages, s),
        s.error is None,
    ensures
        exists|rows: Seq<RowView>|
            {
                &&& #[trigger] is_join_of(
                    fl,
                    table_join(v.scope[0], v.scope[1], v.join->0, source),
                    live_rows(c.table(v.scope[0].oid).heap, pages),
                    live_rows(c.table(v.scope[1].oid).heap, pages),
                    rows,
                )
                &&& keeps(fl, where_of(v), source, rows, s.rows)
            },
{
    let (l, r) = (v.scope[0], v.scope[1]);
    lemma_reads_join(c, v, source, plan);
    let rest = below(last_filter(v.filters) is Some, plan);
    let all = match last_filter(v.filters) {
        Some(f) => lemma_filtered(fl, c, pages, f, source, plan, s),
        None => s,
    };
    law_join_rows(fl, c, pages, l, r, v.join->0, source, rest, all);
}

/// A SELECT of one table that does not fail reads the rows of the table on which its WHERE
/// expression is true, and no others. Where no index is used they come in the order of the table.
pub proof fn law_table_read(
    fl: spec_fn(FloatOp, u32, u32) -> u32,
    c: &Catalog,
    pages: Pages,
    v: SelectView,
    source: SchemaView,
    plan: Plan,
    s: StreamView,
    row: RowView,
)
    requires
        c.wf(pages),
        v.join is None,
        v.scope.len() == 1,
        one_filter(v),
        reads(c, v, source, plan),
        is_current(c, v.scope[0]),
        comparable(where_of(v), v.scope[0].schema),
        indexes_mirror(c, v.scope[0].oid, pages),
        rows_encoded(c, v.scope[0].oid, pages),
        plan.answers(fl, c, pages, s),
        s.error is None,
    ensures
        source == v.scope[0].schema,
        s.rows.contains(row) <==> live_rows(c.table(v.scope[0].oid).heap, pages).contains(row) && (
        where_of(v) matches Some(f) ==> is_kept(fl, f, source, row)),
        !(plan is IndexScan) ==> keeps(
            fl,
            where_of(v),
            source,
            live_rows(c.table(v.scope[0].oid).heap, pages),
            s.rows,
        ),
{
    let t = v.scope[0];
    assert(last_filter(v.filters) == where_of(v));
    law_scan_is_filter(fl, c, pages, t, where_of(v), plan, s, row);
    if !(plan is IndexScan) {
        law_scan_in_order(fl, c, pages, t, where_of(v), plan, s);
    }
}

/// A SELECT without tables reads one row without columns, where its WHERE expression is true or it
/// has none.
pub proof fn law_no_table_read(
    fl: spec_fn(FloatOp, u32, u32) -> u32,
    c: &Catalog,
    pages: Pages,
    v: SelectView,
    source: SchemaView,
    plan: Plan,
    s: StreamView,
)
    requires
        v.join is None,
        v.scope.len() == 0,
        one_filter(v),
        reads(c, v, source, plan),
        plan.answers(fl, c, pages, s),
        s.error is None,
    ensures
        source.cols.len() == 0,
        exists|one: RowView| #[trigger] keeps(fl, where_of(v), source, seq![one], s.rows),
{
    assert(last_filter(v.filters) == where_of(v));
    let rest = below(where_of(v) is Some, plan);
    let all = match where_of(v) {
        Some(f) => lemma_filtered(fl, c, pages, f, source, plan, s),
        None => s,
    };
    reveal(Plan::given_none);
    let p = rest->Values_0;
    assert(row_views(p.rows@).len() == 1);
    assert(p.rows@.len() == 1);
    law_values_rows(fl, p.rows@, p.schema@);
    let one = all.rows[0];
    assert(all.rows =~= seq![one]);
    assert(keeps(fl, where_of(v), source, seq![one], s.rows));
}

/// The rows of a join have the columns of the left table, then those of the right one, with their
/// names and types.
pub proof fn law_join_columns(c: &Catalog, v: SelectView, source: SchemaView, plan: Plan, i: int)
    requires
        v.join is Some,
        reads(c, v, source, plan),
        v.scope[0].idx == 0,
        v.scope[1].idx == 1,
        0 <= i < source.cols.len(),
    ensures
        ({
            let (l, r) = (v.scope[0].schema.cols, v.scope[1].schema.cols);
            &&& source.cols.len() == l.len() + r.len()
            &&& source.join_offset == Some(l.len() as usize)
            &&& i < l.len() ==> source.cols[i].name@ == l[i].name@ && source.cols[i].dtype
                == l[i].dtype
            &&& i >= l.len() ==> source.cols[i].name@ == r[i - l.len()].name@
                && source.cols[i].dtype == r[i - l.len()].dtype
        }),
{
    let (l, r) = (v.scope[0].schema, v.scope[1].schema);
    assert(joined_schema(l, r, source));
    let all = columns_of(l) + columns_of(r);
    assert(columns_of(source).len() == all.len());
    assert(columns_of(source)[i] == all[i]);
}

} // verus!
