//! How rows are sorted and grouped, told by the values of the expressions.
use vstd::prelude::*;

use crate::catalog::schema::SchemaView;
use crate::catalog::value::{option_eq, option_lt, Value};
use crate::processor::aggregate::{group_key, same_key};
use crate::processor::expression::{eval, Expression, FloatOp};
use crate::processor::plan::ExternalMergeSortPlanNode;
use crate::processor::sorting::{
    arranged, is_stable_sort, keys_lt_from, lemma_order_covers, row_before, sort_key, sort_keys,
    sorted_part,
};
use crate::processor::spill::{law_merge_sort_sorts, merge_sort_answers, set_aside};
use crate::processor::stream::{RowView, StreamView};

verus! {

/// The value of an expression on a tuple, NULL where it fails.
pub open spec fn value_or_null(
    fl: spec_fn(FloatOp, u32, u32) -> u32,
    e: Expression,
    data: Seq<u8>,
    s: SchemaView,
) -> Option<Value> {
    match eval(fl, e, data, s) {
        Ok(v) => v,
        Err(_) => None,
    }
}

/// All of the expressions agree on the two tuples, from the first up to `n`.
pub open spec fn agree_on(
    fl: spec_fn(FloatOp, u32, u32) -> u32,
    exprs: Seq<Expression>,
    n: int,
    a: Seq<u8>,
    b: Seq<u8>,
    s: SchemaView,
) -> bool {
    forall|k: int|
        0 <= k < n ==> option_eq(
            value_or_null(fl, #[trigger] exprs[k], a, s),
            value_or_null(fl, exprs[k], b, s),
        )
}

/// Expression `p` is the first that differs on the two tuples, and it is less on the first one.
pub open spec fn less_at(
    fl: spec_fn(FloatOp, u32, u32) -> u32,
    exprs: Seq<Expression>,
    p: int,
    a: Seq<u8>,
    b: Seq<u8>,
    s: SchemaView,
) -> bool {
    &&& 0 <= p < exprs.len()
    &&& option_lt(value_or_null(fl, exprs[p], a, s), value_or_null(fl, exprs[p], b, s))
    &&& agree_on(fl, exprs, p, a, b, s)
}

/// The places of `n` rows, each once.
pub open spec fn lists_each_once(order: Seq<int>, n: nat) -> bool {
    &&& order.len() == n
    &&& forall|i: int| 0 <= i < n ==> #[trigger] order.contains(i)
    &&& forall|x: int| 0 <= x < n ==> 0 <= #[trigger] order[x] < n
    &&& forall|x: int, y: int| 0 <= x < y < n ==> #[trigger] order[x] != #[trigger] order[y]
}

/// `out` holds the rows, each once, in ascending order of the first expression, where that agrees
/// of the second, and so on. Rows on which all expressions agree stay in order.
pub open spec fn is_sorted_by(
    fl: spec_fn(FloatOp, u32, u32) -> u32,
    exprs: Seq<Expression>,
    s: SchemaView,
    rows: Seq<RowView>,
    out: Seq<RowView>,
) -> bool {
    exists|order: Seq<int>| #[trigger]
        lists_each_once(order, rows.len()) && out.len() == rows.len() && (forall|x: int|
            0 <= x < out.len() ==> #[trigger] out[x] == rows[order[x]]) && forall|x: int, y: int|
            0 <= x < y < out.len() ==> {
                let (a, b) = ((#[trigger] out[x]).0, (#[trigger] out[y]).0);
                ||| exists|p: int| less_at(fl, exprs, p, a, b, s)
                ||| agree_on(fl, exprs, exprs.len() as int, a, b, s) && order[x] < order[y]
            }
}

pub(crate) proof fn lemma_first_difference(
    fl: spec_fn(FloatOp, u32, u32) -> u32,
    exprs: Seq<Expression>,
    a: Seq<u8>,
    b: Seq<u8>,
    s: SchemaView,
    i: int,
)
    requires
        0 <= i <= exprs.len(),
        agree_on(fl, exprs, i, a, b, s),
    ensures
        ({
            let (x, y) = (sort_key(fl, exprs, a, s), sort_key(fl, exprs, b, s));
            &&& keys_lt_from(x, y, i) ==> exists|p: int| less_at(fl, exprs, p, a, b, s)
            &&& !keys_lt_from(x, y, i) && !keys_lt_from(y, x, i) ==> agree_on(
                fl,
                exprs,
                exprs.len() as int,
                a,
                b,
                s,
            )
        }),
    decreases exprs.len() - i,
{
    if i < exprs.len() {
        let (v, w) = (value_or_null(fl, exprs[i], a, s), value_or_null(fl, exprs[i], b, s));
        if option_lt(v, w) {
            assert(less_at(fl, exprs, i, a, b, s));
        } else if !option_lt(w, v) {
            assert(option_eq(v, w));
            lemma_first_difference(fl, exprs, a, b, s, i + 1);
        }
    }
}

/// A stable sort puts the rows in ascending order of the values of the expressions.
pub proof fn law_sort_order(
    fl: spec_fn(FloatOp, u32, u32) -> u32,
    exprs: Seq<Expression>,
    s: SchemaView,
    rows: Seq<RowView>,
    out: Seq<RowView>,
)
    requires
        is_stable_sort(sort_keys(fl, exprs, rows, s), rows, out),
    ensures
        is_sorted_by(fl, exprs, s, rows, out),
{
    let keys = sort_keys(fl, exprs, rows, s);
    let n = rows.len() as int;
    let order = choose|order: Seq<int>| #[trigger]
        sorted_part(keys, order, 0, n) && out == arranged(rows, order);
    lemma_order_covers(keys, order, n);
    assert(lists_each_once(order, rows.len()));
    assert forall|x: int, y: int| 0 <= x < y < out.len() implies {
        let (a, b) = ((#[trigger] out[x]).0, (#[trigger] out[y]).0);
        ||| exists|p: int| less_at(fl, exprs, p, a, b, s)
        ||| agree_on(fl, exprs, exprs.len() as int, a, b, s) && order[x] < order[y]
    } by {
        assert(row_before(keys, order[x], order[y]));
        lemma_first_difference(fl, exprs, out[x].0, out[y].0, s, 0);
    }
}

/// Sorting in runs that does not fail puts the rows in ascending order too; the rows have no place
/// in a table any more.
pub proof fn law_merge_sort_order(
    fl: spec_fn(FloatOp, u32, u32) -> u32,
    plan: ExternalMergeSortPlanNode,
    child: StreamView,
    ids: bool,
    out: StreamView,
)
    requires
        merge_sort_answers(fl, plan, child, ids, out),
        out.error is None,
    ensures
        ({
            let aside = set_aside(child.rows);
            &&& aside.len() == child.rows.len()
            &&& forall|i: int|
                0 <= i < aside.len() ==> (#[trigger] aside[i]).0 == child.rows[i].0
            &&& is_sorted_by(fl, plan.order_by_exprs@, plan.schema@, aside, out.rows)
        }),
{
    law_merge_sort_sorts(fl, plan, child, ids, out);
    law_sort_order(fl, plan.order_by_exprs@, plan.schema@, set_aside(child.rows), out.rows);
}

/// Two rows belong to one group where all GROUP BY expressions agree on them.
pub proof fn law_same_group(
    fl: spec_fn(FloatOp, u32, u32) -> u32,
    group_bys: Seq<Expression>,
    a: Seq<u8>,
    b: Seq<u8>,
    s: SchemaView,
)
    ensures
        same_key(group_key(fl, group_bys, a, s), group_key(fl, group_bys, b, s)) <==> agree_on(
            fl,
            group_bys,
            group_bys.len() as int,
            a,
            b,
            s,
        ),
        group_key(fl, group_bys, a, s).len() == group_bys.len(),
        forall|i: int|
            0 <= i < group_bys.len() ==> #[trigger] group_key(fl, group_bys, a, s)[i]
                == value_or_null(fl, group_bys[i], a, s),
{
    let (x, y) = (group_key(fl, group_bys, a, s), group_key(fl, group_bys, b, s));
    if same_key(x, y) {
        assert forall|k: int| 0 <= k < group_bys.len() implies option_eq(
            value_or_null(fl, #[trigger] group_bys[k], a, s),
            value_or_null(fl, group_bys[k], b, s),
        ) by {
            assert(option_eq(x[k], y[k]));
        }
    }
}

} // verus!
