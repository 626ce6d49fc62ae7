//! Which rows a SELECT gives, step by step, and what they hold.
use vstd::prelude::*;

use crate::catalog::Catalog;
use crate::catalog::schema::SchemaView;
use crate::catalog::value::{DataType, Value};
use crate::index::tree_model::Pages;
use crate::parser::binder::{describes, SelectView};
use crate::planner::{
    aggregate_column, aggregate_name, aggregates, aggregation_columns, below, groups, reads,
    result_columns, selects, sorts_by,
};
use crate::processor::aggregate::{
    group_key, group_position, group_row, grouped, same_key, start_states, GroupView,
};
use crate::processor::aggregate_laws::{is_group_row, law_aggregation_rows};
use crate::processor::expression::{result_type, Expression, FloatOp};
use crate::processor::laws::{
    has_group, law_groups_partition_rows, lemma_group_position, lemma_same_key,
};
use crate::processor::order_laws::{is_sorted_by, law_sort_order};
use crate::processor::plan::{AggType, Plan};
use crate::processor::row_laws::{holds_results, law_projection_rows};
use crate::processor::stream::{RowView, StreamView};
use crate::text::digits;

verus! {

/// Row `first` is the first of the rows whose key agrees with this one, and has that very key.
pub open spec fn begins_group(
    fl: spec_fn(FloatOp, u32, u32) -> u32,
    group_bys: Seq<Expression>,
    rows: Seq<RowView>,
    s: SchemaView,
    key: Seq<Option<Value>>,
    first: int,
) -> bool {
    &&& 0 <= first < rows.len()
    &&& key == group_key(fl, group_bys, rows[first].0, s)
    &&& forall|i: int|
        0 <= i < first ==> !same_key(key, group_key(fl, group_bys, (#[trigger] rows[i]).0, s))
}

/// Groups come in the order in which they began. The first row of each is returned.
pub proof fn law_group_order(
    fl: spec_fn(FloatOp, u32, u32) -> u32,
    group_bys: Seq<Expression>,
    aggs: Seq<(Expression, AggType)>,
    rows: Seq<RowView>,
    s: SchemaView,
    n: int,
) -> (firsts: Seq<int>)
    requires
        0 <= n <= rows.len(),
        grouped(fl, group_bys, aggs, rows, s, n) is Ok,
    ensures
        firsts.len() == grouped(fl, group_bys, aggs, rows, s, n)->Ok_0.len(),
        forall|g: int, h: int|
            0 <= g < h < firsts.len() ==> #[trigger] firsts[g] < #[trigger] firsts[h],
        forall|g: int|
            0 <= g < firsts.len() ==> #[trigger] firsts[g] < n && begins_group(
                fl,
                group_bys,
                rows,
                s,
                grouped(fl, group_bys, aggs, rows, s, n)->Ok_0[g].key,
                firsts[g],
            ),
    decreases n,
{
    if n == 0 {
        Seq::empty()
    } else {
        let before = grouped(fl, group_bys, aggs, rows, s, n - 1)->Ok_0;
        let after = grouped(fl, group_bys, aggs, rows, s, n)->Ok_0;
        let firsts = law_group_order(fl, group_bys, aggs, rows, s, n - 1);
        let key = group_key(fl, group_bys, rows[n - 1].0, s);
        let p = group_position(before, key, 0);
        lemma_group_position(before, key, 0);
        assert(after == group_row(fl, aggs, before, key, rows[n - 1].0, s)->Ok_0);
        if p < before.len() {
            assert(forall|g: int|
                0 <= g < after.len() ==> (#[trigger] after[g]).key == before[g].key);
            firsts
        } else {
            law_groups_partition_rows(
                fl,
                group_bys,
                aggs,
                rows,
                s,
                n - 1,
            );
            let all = firsts.push(n - 1);
            let present = before.push(GroupView { key, states: start_states(aggs) });
            assert(forall|g: int|
                0 <= g < after.len() ==> (#[trigger] after[g]).key == present[g].key);
            assert forall|i: int| 0 <= i < n - 1 implies !same_key(
                key,
                group_key(fl, group_bys, (#[trigger] rows[i]).0, s),
            ) by {
                let k = group_key(fl, group_bys, rows[i].0, s);
                assert(has_group(before, k));
                let g = choose|g: int|
                    0 <= g < before.len() && same_key((#[trigger] before[g]).key, k);
                if same_key(key, k) {
                    lemma_same_key(before[g].key, k, key);
                    assert(!same_key(before[g].key, key));
                }
            }
            assert forall|g: int| 0 <= g < all.len() implies #[trigger] all[g] < n && begins_group(
                fl,
                group_bys,
                rows,
                s,
                after[g].key,
                all[g],
            ) by {
                if g < firsts.len() {
                    assert(all[g] == firsts[g]);
                }
            }
            all
        }
    }
}

/// The rows that the groups of a SELECT make of the rows that were read.
pub open spec fn rows_grouped(
    fl: spec_fn(FloatOp, u32, u32) -> u32,
    v: SelectView,
    read: Seq<RowView>,
    s0: SchemaView,
    s1: SchemaView,
    keys: Seq<Seq<Option<Value>>>,
    rows: Seq<RowView>,
) -> bool {
    &&& keys.len() == rows.len()
    &&& forall|g: int, h: int|
        0 <= g < h < keys.len() ==> !same_key(#[trigger] keys[g], #[trigger] keys[h])
    &&& forall|i: int|
        0 <= i < read.len() ==> exists|g: int|
            0 <= g < keys.len() && same_key(
                #[trigger] keys[g],
                group_key(fl, v.group_bys, (#[trigger] read[i]).0, s0),
            )
    &&& forall|g: int|
        0 <= g < keys.len() ==> is_group_row(
            fl,
            v.group_bys,
            v.aggregates,
            read,
            s0,
            s1,
            #[trigger] keys[g],
            rows[g],
        )
}

/// The rows that were read, grouped where the SELECT aggregates.
pub open spec fn is_grouping(
    fl: spec_fn(FloatOp, u32, u32) -> u32,
    v: SelectView,
    read: Seq<RowView>,
    s0: SchemaView,
    s1: SchemaView,
    rows: Seq<RowView>,
) -> bool {
    if v.group_bys.len() > 0 || v.aggregates.len() > 0 {
        exists|keys: Seq<Seq<Option<Value>>>| #[trigger]
            rows_grouped(fl, v, read, s0, s1, keys, rows)
    } else {
        s1 == s0 && rows == read
    }
}

/// The rows in the order of the ORDER BY expressions, where there are any.
pub open spec fn is_ordering(
    fl: spec_fn(FloatOp, u32, u32) -> u32,
    v: SelectView,
    s1: SchemaView,
    rows: Seq<RowView>,
    out: Seq<RowView>,
) -> bool {
    match v.sort {
        Some(exprs) => is_sorted_by(fl, exprs, s1, rows, out),
        None => out == rows,
    }
}

/// One row for each, with what the expressions of the projection come to on it.
pub open spec fn is_projection(
    fl: spec_fn(FloatOp, u32, u32) -> u32,
    v: SelectView,
    s1: SchemaView,
    rows: Seq<RowView>,
    s2: SchemaView,
    out: Seq<RowView>,
) -> bool {
    &&& out.len() == rows.len()
    &&& forall|i: int|
        0 <= i < out.len() ==> holds_results(
            fl,
            v.projections,
            rows[i].0,
            s1,
            s2,
            #[trigger] out[i],
        )
}

proof fn lemma_step(
    fl: spec_fn(FloatOp, u32, u32) -> u32,
    c: &Catalog,
    pages: Pages,
    plan: Plan,
    s: StreamView,
) -> (t: StreamView)
    requires
        plan.is_step(),
        plan.answers(fl, c, pages, s),
    ensures
        plan.first_child().answers(fl, c, pages, t),
        plan.given_child(fl, t, s, plan.first_child().out_schema(), c, pages),
{
    choose|t: StreamView|
        plan.first_child().answers(fl, c, pages, t) && #[trigger] plan.given_child(
            fl,
            t,
            s,
            plan.first_child().out_schema(),
            c,
            pages,
        )
}

/// The steps of a SELECT without a limit.
proof fn lemma_select_schemas(c: &Catalog, v: SelectView, plan: Plan) -> (r: (
    SchemaView,
    SchemaView,
))
    requires
        v.limit is None,
        selects(c, v, plan),
    ensures
        ({
            let order = plan.first_child();
            let aggregation = below(v.sort is Some, order);
            let source = below(aggregates(v), aggregation);
            &&& reads(c, v, r.0, source)
            &&& groups(v, r.0, r.1, aggregation)
            &&& sorts_by(v.sort, r.1, order)
            &&& plan matches Plan::Projection(p) && p.expressions@ == v.projections && describes(
                p.schema@,
                result_columns(v.projections, r.1, "col"@),
            )
        }),
{
    let order = plan.first_child();
    let aggregation = below(v.sort is Some, order);
    let source = below(aggregates(v), aggregation);
    let (s0, s1) = choose|s0: SchemaView, s1: SchemaView| #[trigger]
        reads(c, v, s0, source) && #[trigger] groups(v, s0, s1, aggregation) && sorts_by(
            v.sort,
            s1,
            order,
        ) && (plan matches Plan::Projection(p) && p.expressions@ == v.projections && describes(
            p.schema@,
            result_columns(v.projections, s1, "col"@),
        ));
    (s0, s1)
}

proof fn lemma_source_schema(c: &Catalog, v: SelectView, s0: SchemaView, source: Plan)
    requires
        reads(c, v, s0, source),
    ensures
        source.out_schema() == s0,
{
}

proof fn lemma_grouping(
    fl: spec_fn(FloatOp, u32, u32) -> u32,
    c: &Catalog,
    pages: Pages,
    v: SelectView,
    s0: SchemaView,
    s1: SchemaView,
    plan: Plan,
    s: StreamView,
) -> (t: StreamView)
    requires
        groups(v, s0, s1, plan),
        plan.answers(fl, c, pages, s),
        s.error is None,
        below(aggregates(v), plan).out_schema() == s0,
    ensures
        below(aggregates(v), plan).answers(fl, c, pages, t),
        t.error is None,
        is_grouping(fl, v, t.rows, s0, s1, s.rows),
        plan.out_schema() == s1,
{
    reveal(Plan::given_child);
    if aggregates(v) {
        let t = lemma_step(fl, c, pages, plan, s);
        let keys = law_aggregation_rows(fl, v.group_bys, v.aggregates, t, s0, s1);
        assert(rows_grouped(fl, v, t.rows, s0, s1, keys, s.rows));
        t
    } else {
        s
    }
}

proof fn lemma_ordering(
    fl: spec_fn(FloatOp, u32, u32) -> u32,
    c: &Catalog,
    pages: Pages,
    v: SelectView,
    s1: SchemaView,
    plan: Plan,
    s: StreamView,
) -> (t: StreamView)
    requires
        sorts_by(v.sort, s1, plan),
        plan.answers(fl, c, pages, s),
        s.error is None,
    ensures
        below(v.sort is Some, plan).answers(fl, c, pages, t),
        t.error is None,
        is_ordering(fl, v, s1, t.rows, s.rows),
{
    reveal(Plan::given_child);
    match v.sort {
        Some(exprs) => {
            let t = lemma_step(fl, c, pages, plan, s);
            law_sort_order(fl, exprs, s1, t.rows, s.rows);
            t
        },
        None => s,
    }
}

/// A SELECT without a limit that does not fail gives the rows that its tables and its filter give,
/// grouped and aggregated where it aggregates, in the order of its ORDER BY expressions, and of
/// each the values of the expressions of its projection.
pub proof fn law_select_rows(
    fl: spec_fn(FloatOp, u32, u32) -> u32,
    c: &Catalog,
    pages: Pages,
    v: SelectView,
    plan: Plan,
    s: StreamView,
)
    requires
        v.limit is None,
        selects(c, v, plan),
        plan.answers(fl, c, pages, s),
        s.error is None,
    ensures
        exists|
            source: Plan,
            s0: SchemaView,
            s1: SchemaView,
            read: StreamView,
            made: Seq<RowView>,
            sorted: Seq<RowView>,
        |
            {
                &&& #[trigger] reads(c, v, s0, source)
                &&& #[trigger] source.answers(fl, c, pages, read)
                &&& read.error is None
                &&& #[trigger] is_grouping(fl, v, read.rows, s0, s1, made)
                &&& #[trigger] is_ordering(fl, v, s1, made, sorted)
                &&& is_projection(fl, v, s1, sorted, plan.out_schema(), s.rows)
            },
{
    let (s0, s1) = lemma_select_schemas(c, v, plan);
    let order = plan.first_child();
    let aggregation = below(v.sort is Some, order);
    let source = below(aggregates(v), aggregation);
    lemma_source_schema(c, v, s0, source);
    let last = lemma_step(fl, c, pages, plan, s);
    reveal(Plan::given_child);
    assert(order.out_schema() == s1);
    law_projection_rows(fl, v.projections, last, s1, plan.out_schema());
    assert(last.error is None);
    let made = lemma_ordering(fl, c, pages, v, s1, order, last);
    let read = lemma_grouping(fl, c, pages, v, s0, s1, aggregation, made);
    assert(is_projection(fl, v, s1, last.rows, plan.out_schema(), s.rows));
}

/// The name and the type of a column that an expression makes: those of the column that it refers
/// to, else a made-up name with its number and the type of its values.
pub open spec fn is_made_column(
    e: Expression,
    source: SchemaView,
    prefix: Seq<char>,
    i: int,
    name: Seq<char>,
    dtype: DataType,
) -> bool {
    match e {
        Expression::Column { tuple_idx, col_idx, dtype: t } => {
            let at = match source.join_offset {
                Some(n) if tuple_idx == 1 => n + col_idx,
                _ => col_idx as int,
            };
            &&& dtype == t
            &&& at < source.cols.len() ==> name == source.cols[at].name@
            &&& at >= source.cols.len() ==> name == prefix + digits(i as nat)
        },
        _ => name == prefix + digits(i as nat) && match result_type(e) {
            Some(t) => dtype == t,
            None => dtype == DataType::INT,
        },
    }
}

/// The columns of a SELECT are those of its projection, each with the name of the column that it
/// refers to, else `col` and its number.
pub proof fn law_output_columns(c: &Catalog, v: SelectView, plan: Plan)
    requires
        v.limit is None,
        selects(c, v, plan),
    ensures
        exists|source: Plan, s0: SchemaView, s1: SchemaView| #[trigger]
            groups(v, s0, s1, source) && {
                let out = plan.out_schema();
                &&& out.wf()
                &&& out.cols.len() == v.projections.len()
                &&& forall|i: int|
                    0 <= i < out.cols.len() ==> is_made_column(
                        v.projections[i],
                        s1,
                        "col"@,
                        i,
                        (#[trigger] out.cols[i]).name@,
                        out.cols[i].dtype,
                    )
            },
{
    let (s0, s1) = lemma_select_schemas(c, v, plan);
    let aggregation = below(v.sort is Some, plan.first_child());
    assert(groups(v, s0, s1, aggregation));
    let out = plan.out_schema();
    assert(describes(out, result_columns(v.projections, s1, "col"@)));
    assert forall|i: int| 0 <= i < out.cols.len() implies is_made_column(
        v.projections[i],
        s1,
        "col"@,
        i,
        (#[trigger] out.cols[i]).name@,
        out.cols[i].dtype,
    ) by {
        assert(out.cols[i].dtype == result_columns(v.projections, s1, "col"@)[i].0);
    }
}

/// The word with which the name of an aggregate column begins.
pub open spec fn is_aggregate_word(t: AggType, w: Seq<char>) -> bool {
    match t {
        AggType::COUNT => w == seq!['c', 'o', 'u', 'n', 't'],
        AggType::SUM => w == seq!['s', 'u', 'm'],
        AggType::AVG => w == seq!['a', 'v', 'g'],
        AggType::MIN => w == seq!['m', 'i', 'n'],
        AggType::MAX => w == seq!['m', 'a', 'x'],
        AggType::RANK => w == seq!['r', 'a', 'n', 'k'],
    }
}

proof fn lemma_aggregate_word(t: AggType)
    ensures
        is_aggregate_word(t, aggregate_name(t)),
{
    reveal_strlit("count");
    reveal_strlit("sum");
    reveal_strlit("avg");
    reveal_strlit("min");
    reveal_strlit("max");
    reveal_strlit("rank");
    assert("count"@ =~= seq!['c', 'o', 'u', 'n', 't']);
    assert("sum"@ =~= seq!['s', 'u', 'm']);
    assert("avg"@ =~= seq!['a', 'v', 'g']);
    assert("min"@ =~= seq!['m', 'i', 'n']);
    assert("max"@ =~= seq!['m', 'a', 'x']);
    assert("rank"@ =~= seq!['r', 'a', 'n', 'k']);
}

/// The columns of an aggregation are those of its groups, then one for each aggregate with the name
/// of its function and its number: an integer for COUNT, else of the type of its argument.
pub proof fn law_aggregation_columns(
    v: SelectView,
    source: SchemaView,
    out: SchemaView,
    plan: Plan,
)
    requires
        v.group_bys.len() > 0 || v.aggregates.len() > 0,
        groups(v, source, out, plan),
    ensures
        out.cols.len() == v.group_bys.len() + v.aggregates.len(),
        forall|i: int|
            0 <= i < v.group_bys.len() ==> is_made_column(
                v.group_bys[i],
                source,
                "g"@,
                i,
                (#[trigger] out.cols[i]).name@,
                out.cols[i].dtype,
            ),
        forall|k: int|
            0 <= k < v.aggregates.len() ==> {
                let col = #[trigger] out.cols[v.group_bys.len() + k];
                let (arg, t) = v.aggregates[k];
                &&& exists|w: Seq<char>| #[trigger]
                    is_aggregate_word(t, w) && col.name@ == w + "_"@ + digits(k as nat)
                &&& t == AggType::COUNT ==> col.dtype == DataType::INT
                &&& t != AggType::COUNT ==> match result_type(arg) {
                    Some(d) => col.dtype == d,
                    None => col.dtype == DataType::INT,
                }
            },
{
    let cols = aggregation_columns(v.group_bys, v.aggregates, source);
    assert(describes(out, cols));
    assert forall|i: int| 0 <= i < v.group_bys.len() implies is_made_column(
        v.group_bys[i],
        source,
        "g"@,
        i,
        (#[trigger] out.cols[i]).name@,
        out.cols[i].dtype,
    ) by {
        assert(cols[i] == result_columns(v.group_bys, source, "g"@)[i]);
    }
    assert forall|k: int| 0 <= k < v.aggregates.len() implies {
        let col = #[trigger] out.cols[v.group_bys.len() + k];
        let (arg, t) = v.aggregates[k];
        &&& exists|w: Seq<char>| #[trigger]
            is_aggregate_word(t, w) && col.name@ == w + "_"@ + digits(k as nat)
        &&& t == AggType::COUNT ==> col.dtype == DataType::INT
        &&& t != AggType::COUNT ==> match result_type(arg) {
            Some(d) => col.dtype == d,
            None => col.dtype == DataType::INT,
        }
    } by {
        let (arg, t) = v.aggregates[k];
        lemma_aggregate_word(t);
        assert(cols[v.group_bys.len() + k] == aggregate_column(v.aggregates[k], k));
        assert(is_aggregate_word(t, aggregate_name(t)));
    }
}

} // verus!
