//! What a window function plan gives, told by the clauses of the plan and the rows of its child.
use vstd::prelude::*;

use crate::catalog::schema::SchemaView;
use crate::catalog::value::{option_eq, option_lt, Value};
use crate::processor::aggregate::same_key;
use crate::processor::aggregate_laws::{is_aggregate, values_on};
use crate::processor::expression::{eval, Expression, FloatOp};
use crate::processor::order_laws::{
    agree_on, is_sorted_by, law_sort_order, lemma_first_difference, less_at, value_or_null,
};
use crate::processor::plan::{AggType, WindowFunctionPlanNode};
use crate::processor::row_laws::lemma_eval_all;
use crate::processor::sorting::{keys_lt, keys_lt_from, sort_key};
use crate::processor::stream::{eval_all, RowView, StreamView};
use crate::processor::window::{clause, in_order, law_window_ranks, window_answers, window_of};
use crate::processor::window_laws::{is_window_row, law_window_columns};

verus! {

/// The expressions that are written in a clause.
pub open spec fn written(exprs: Option<Vec<Expression>>) -> Seq<Expression> {
    match exprs {
        Some(v) => v@,
        None => Seq::empty(),
    }
}

/// The two rows are in one partition: all PARTITION BY expressions agree on them.
pub open spec fn in_one_partition(
    fl: spec_fn(FloatOp, u32, u32) -> u32,
    plan: WindowFunctionPlanNode,
    s: SchemaView,
    a: Seq<u8>,
    b: Seq<u8>,
) -> bool {
    let exprs = written(plan.partition_by_exprs);
    agree_on(fl, exprs, exprs.len() as int, a, b, s)
}

/// The first row comes before the second by the first of the ORDER BY expressions that differs.
pub open spec fn comes_before(
    fl: spec_fn(FloatOp, u32, u32) -> u32,
    plan: WindowFunctionPlanNode,
    s: SchemaView,
    a: Seq<u8>,
    b: Seq<u8>,
) -> bool {
    exists|p: int| less_at(fl, written(plan.order_by_exprs), p, a, b, s)
}

/// Row `b` is in the frame of row `a`: in its partition, and where there is an ORDER BY clause not
/// behind it.
pub open spec fn in_frame(
    fl: spec_fn(FloatOp, u32, u32) -> u32,
    plan: WindowFunctionPlanNode,
    s: SchemaView,
    a: Seq<u8>,
    b: Seq<u8>,
) -> bool {
    in_one_partition(fl, plan, s, b, a) && (plan.order_by_exprs is Some ==> !comes_before(
        fl,
        plan,
        s,
        a,
        b,
    ))
}

/// The rows among the first `n` that are in the frame of a row, in order.
pub open spec fn frame(
    fl: spec_fn(FloatOp, u32, u32) -> u32,
    plan: WindowFunctionPlanNode,
    s: SchemaView,
    rows: Seq<RowView>,
    a: Seq<u8>,
    n: int,
) -> Seq<RowView>
    decreases n,
{
    if n <= 0 {
        Seq::empty()
    } else {
        let before = frame(fl, plan, s, rows, a, n - 1);
        if in_frame(fl, plan, s, a, rows[n - 1].0) {
            before.push(rows[n - 1])
        } else {
            before
        }
    }
}

/// The number of rows among the first `n` in the partition of a row that come before it.
pub open spec fn rows_ahead(
    fl: spec_fn(FloatOp, u32, u32) -> u32,
    plan: WindowFunctionPlanNode,
    s: SchemaView,
    rows: Seq<RowView>,
    a: Seq<u8>,
    n: int,
) -> nat
    decreases n,
{
    if n <= 0 {
        0
    } else {
        let before = rows_ahead(fl, plan, s, rows, a, n - 1);
        if in_one_partition(fl, plan, s, rows[n - 1].0, a) && comes_before(
            fl,
            plan,
            s,
            rows[n - 1].0,
            a,
        ) {
            before + 1
        } else {
            before
        }
    }
}

/// `row` holds the columns of row `i`, and behind them for each function its value: for RANK one
/// more than the number of rows of the partition that come before, for COUNT, SUM, AVG, MAX and MIN
/// that of the values of its argument on the rows of the frame.
pub open spec fn is_window_output(
    fl: spec_fn(FloatOp, u32, u32) -> u32,
    plan: WindowFunctionPlanNode,
    s: SchemaView,
    rows: Seq<RowView>,
    i: int,
    row: RowView,
) -> bool {
    let (n, all) = (s.cols.len(), rows.len() as int);
    let out = plan.schema@;
    &&& out.cols.len() == n + plan.aggregates@.len()
    &&& forall|c: int|
        0 <= c < n ==> #[trigger] out.field(row.0, c) == s.field(rows[i].0, c) && s.field(
            rows[i].0,
            c,
        ) is Ok
    &&& forall|a: int|
        0 <= a < plan.aggregates@.len() ==> (#[trigger] out.field(row.0, n + a) matches Ok(r) && if
        plan.aggregates@[a].1 == AggType::RANK {
            r matches Some(Value::INT(k)) && k == 1 + rows_ahead(fl, plan, s, rows, rows[i].0, all)
        } else {
            is_aggregate(
                fl,
                plan.aggregates@[a].1,
                values_on(
                    fl,
                    plan.aggregates@[a].0,
                    frame(fl, plan, s, rows, rows[i].0, all),
                    s,
                ),
                r,
            )
        })
}

proof fn lemma_less_is_lt(
    fl: spec_fn(FloatOp, u32, u32) -> u32,
    exprs: Seq<Expression>,
    p: int,
    a: Seq<u8>,
    b: Seq<u8>,
    s: SchemaView,
    i: int,
)
    requires
        less_at(fl, exprs, p, a, b, s),
        0 <= i <= p,
    ensures
        keys_lt_from(sort_key(fl, exprs, a, s), sort_key(fl, exprs, b, s), i),
    decreases p - i,
{
    if i < p {
        let (v, w) = (value_or_null(fl, exprs[i], a, s), value_or_null(fl, exprs[i], b, s));
        assert(option_eq(v, w));
        assert(!option_lt(v, w) && !option_lt(w, v));
        lemma_less_is_lt(fl, exprs, p, a, b, s, i + 1);
    }
}

proof fn lemma_key_values(
    fl: spec_fn(FloatOp, u32, u32) -> u32,
    exprs: Seq<Expression>,
    a: Seq<u8>,
    s: SchemaView,
)
    requires
        eval_all(fl, exprs, a, s) is Ok,
    ensures
        eval_all(fl, exprs, a, s)->Ok_0 == sort_key(fl, exprs, a, s),
{
    lemma_eval_all(fl, exprs, a, s);
    let vs = eval_all(fl, exprs, a, s)->Ok_0;
    assert forall|k: int| 0 <= k < exprs.len() implies vs[k] == sort_key(fl, exprs, a, s)[k] by {
        assert(eval(fl, exprs[k], a, s) == Ok::<Option<Value>, Seq<char>>(vs[k]));
    }
    assert(vs =~= sort_key(fl, exprs, a, s));
}

proof fn lemma_keys_agree(
    fl: spec_fn(FloatOp, u32, u32) -> u32,
    exprs: Seq<Expression>,
    a: Seq<u8>,
    b: Seq<u8>,
    s: SchemaView,
)
    ensures
        same_key(sort_key(fl, exprs, a, s), sort_key(fl, exprs, b, s)) <==> agree_on(
            fl,
            exprs,
            exprs.len() as int,
            a,
            b,
            s,
        ),
        keys_lt(sort_key(fl, exprs, a, s), sort_key(fl, exprs, b, s)) <==> exists|p: int|
            less_at(fl, exprs, p, a, b, s),
{
    let (x, y) = (sort_key(fl, exprs, a, s), sort_key(fl, exprs, b, s));
    if same_key(x, y) {
        assert forall|k: int| 0 <= k < exprs.len() implies option_eq(
            value_or_null(fl, #[trigger] exprs[k], a, s),
            value_or_null(fl, exprs[k], b, s),
        ) by {
            assert(option_eq(x[k], y[k]));
        }
    }
    lemma_first_difference(fl, exprs, a, b, s, 0);
    if exists|p: int| less_at(fl, exprs, p, a, b, s) {
        let p = choose|p: int| less_at(fl, exprs, p, a, b, s);
        lemma_less_is_lt(fl, exprs, p, a, b, s, 0);
    }
}

/// The frame and the rows before, in terms of the keys of the rows.
proof fn lemma_frames(
    fl: spec_fn(FloatOp, u32, u32) -> u32,
    plan: WindowFunctionPlanNode,
    s: SchemaView,
    sorted: Seq<RowView>,
    i: int,
    j: int,
)
    requires
        window_of(plan, s, fl, sorted).rows_ascend(),
        0 <= i < sorted.len(),
        0 <= j < sorted.len(),
    ensures
        ({
            let w = window_of(plan, s, fl, sorted);
            let (a, b) = (sorted[i].0, sorted[j].0);
            &&& w.covers(i, j) == in_frame(fl, plan, s, a, b)
            &&& same_key(w.partition_key(j)->Ok_0, w.partition_key(i)->Ok_0) == in_one_partition(
                fl,
                plan,
                s,
                b,
                a,
            )
            &&& keys_lt(w.order_key(j)->Ok_0, w.order_key(i)->Ok_0) == comes_before(
                fl,
                plan,
                s,
                b,
                a,
            )
        }),
{
    let w = window_of(plan, s, fl, sorted);
    let (a, b) = (sorted[i].0, sorted[j].0);
    let (ps, os) = (written(plan.partition_by_exprs), written(plan.order_by_exprs));
    assert(w.partition_key(i) is Ok && w.partition_key(j) is Ok);
    assert(w.order_key(i) is Ok && w.order_key(j) is Ok);
    lemma_key_values(fl, ps, a, s);
    lemma_key_values(fl, ps, b, s);
    lemma_key_values(fl, os, a, s);
    lemma_key_values(fl, os, b, s);
    lemma_keys_agree(fl, ps, b, a, s);
    lemma_keys_agree(fl, os, a, b, s);
    lemma_keys_agree(fl, os, b, a, s);
}

proof fn lemma_frame(
    fl: spec_fn(FloatOp, u32, u32) -> u32,
    plan: WindowFunctionPlanNode,
    s: SchemaView,
    sorted: Seq<RowView>,
    i: int,
    n: int,
)
    requires
        window_of(plan, s, fl, sorted).rows_ascend(),
        0 <= i < sorted.len(),
        0 <= n <= sorted.len(),
    ensures
        window_of(plan, s, fl, sorted).covered(i, n) == frame(fl, plan, s, sorted, sorted[i].0, n),
    decreases n,
{
    if n > 0 {
        lemma_frame(fl, plan, s, sorted, i, n - 1);
        lemma_frames(fl, plan, s, sorted, i, n - 1);
    }
}

proof fn lemma_ahead(
    fl: spec_fn(FloatOp, u32, u32) -> u32,
    plan: WindowFunctionPlanNode,
    s: SchemaView,
    sorted: Seq<RowView>,
    i: int,
    n: int,
)
    requires
        window_of(plan, s, fl, sorted).rows_ascend(),
        0 <= i < sorted.len(),
        0 <= n <= sorted.len(),
    ensures
        ({
            let first = window_of(plan, s, fl, sorted).rows_before(i).filter(|j: int| j < n);
            first.finite() && first.len() == rows_ahead(fl, plan, s, sorted, sorted[i].0, n)
        }),
    decreases n,
{
    let all = window_of(plan, s, fl, sorted).rows_before(i);
    let first = all.filter(|j: int| j < n);
    if n == 0 {
        assert(first =~= Set::empty());
    } else {
        lemma_ahead(fl, plan, s, sorted, i, n - 1);
        lemma_frames(fl, plan, s, sorted, i, n - 1);
        let before = all.filter(|j: int| j < n - 1);
        if all.contains(n - 1) {
            assert(first =~= before.insert(n - 1));
        } else {
            assert(first =~= before);
        }
    }
}

/// A window function plan that does not fail gives one row for each row of its child, in ascending
/// order of the PARTITION BY and then of the ORDER BY expressions. A row has the columns of that
/// row, then one for each function.
pub proof fn law_window_plan(
    fl: spec_fn(FloatOp, u32, u32) -> u32,
    plan: WindowFunctionPlanNode,
    s: SchemaView,
    child: StreamView,
    out: StreamView,
)
    requires
        plan.schema@.wf(),
        window_answers(plan, s, fl, child, out),
        out.error is None,
    ensures
        child.error is None,
        exists|sorted: Seq<RowView>| #[trigger]
            is_sorted_by(
                fl,
                written(plan.partition_by_exprs) + written(plan.order_by_exprs),
                s,
                child.rows,
                sorted,
            ) && out.rows.len() == sorted.len() && forall|i: int|
                0 <= i < sorted.len() ==> is_window_output(
                    fl,
                    plan,
                    s,
                    sorted,
                    i,
                    #[trigger] out.rows[i],
                ),
{
    let sorted = choose|sorted: Seq<RowView>| #[trigger]
        in_order(plan, s, fl, child.rows, sorted) && window_of(plan, s, fl, sorted).answers(out);
    let w = window_of(plan, s, fl, sorted);
    let exprs = written(plan.partition_by_exprs) + written(plan.order_by_exprs);
    assert(clause(plan.partition_by_exprs) + clause(plan.order_by_exprs) =~= exprs);
    law_sort_order(fl, exprs, s, child.rows, sorted);
    law_window_ranks(plan, s, fl, child.rows, sorted, out.rows);
    law_window_columns(plan, s, fl, child.rows, sorted, out.rows);
    assert forall|i: int| 0 <= i < sorted.len() implies is_window_output(
        fl,
        plan,
        s,
        sorted,
        i,
        #[trigger] out.rows[i],
    ) by {
        let n = sorted.len() as int;
        assert(is_window_row(w, i, out.rows[i]));
        lemma_frame(fl, plan, s, sorted, i, n);
        lemma_ahead(fl, plan, s, sorted, i, n);
        assert(w.rows_before(i).filter(|j: int| j < n) =~= w.rows_before(i));
    }
}

} // verus!
