//! What the steps of a plan give on the rows of the steps below them.
use vstd::prelude::*;

use crate::catalog::Catalog;
use crate::index::tree_model::Pages;
use crate::processor::expression::FloatOp;
use crate::processor::hash_join::{HashJoinView, PARTITIONS};
use crate::processor::hash_join_laws::{
    keys_meet, law_hash_join_pairs, meets_none, origins_differ, rows_have_origins,
};
use crate::processor::join::JoinView;
use crate::processor::loop_join_laws::Origin;
use crate::processor::order_laws::{is_sorted_by, law_merge_sort_order, law_sort_order};
use crate::processor::plan::{
    ExternalMergeSortPlanNode, FilterPlanNode, HashJoinPlanNode, JoinType, NestedLoopJoinPlanNode,
    Plan, SortPlanNode, WindowFunctionPlanNode,
};
use crate::processor::read_laws::{is_join_of, keeps, lemma_filtered, lemma_loop_join};
use crate::processor::spill::set_aside;
use crate::processor::stream::{unstored, RowView, StreamView};
use crate::processor::window_plan_laws::{is_window_output, law_window_plan, written};

verus! {

/// The parts of a hash join, as the plan has them.
pub open spec fn hash_join_parts(p: HashJoinPlanNode) -> HashJoinView {
    HashJoinView {
        left_exprs: p.left_exprs@,
        right_exprs: p.right_exprs@,
        join_type: p.join_type,
        out: p.schema@,
        left: p.left.out_schema(),
        right: p.right.out_schema(),
    }
}

/// One row for each pair on which the keys meet, and for a left join one for each left row that
/// meets none: each once, and no other.
pub open spec fn is_hash_join(
    fl: spec_fn(FloatOp, u32, u32) -> u32,
    j: HashJoinView,
    lefts: Seq<RowView>,
    rights: Seq<RowView>,
    origins: Seq<Origin>,
    rows: Seq<RowView>,
) -> bool {
    &&& rows_have_origins(j, lefts, rights, origins, rows)
    &&& origins_differ(origins)
    &&& forall|i: int, k: int|
        0 <= i < lefts.len() && 0 <= k < rights.len() ==> (#[trigger] origins.contains((i, Some(k)))
            <==> keys_meet(j, fl, lefts[i], rights[k]))
    &&& forall|i: int|
        0 <= i < lefts.len() ==> (#[trigger] origins.contains((i, None)) <==> j.join_type
            == JoinType::Left && meets_none(j, fl, lefts[i], rights))
}

/// A hash join gives the rows that it makes of those of its two sides.
pub proof fn law_hash_join_step(
    fl: spec_fn(FloatOp, u32, u32) -> u32,
    c: &Catalog,
    pages: Pages,
    p: HashJoinPlanNode,
    s: StreamView,
)
    requires
        p.schema@.wf(),
        Plan::HashJoin(p).answers(fl, c, pages, s),
        s.error is None,
    ensures
        exists|l: StreamView, r: StreamView, origins: Seq<Origin>|
            {
                &&& #[trigger] p.left.answers(fl, c, pages, l)
                &&& #[trigger] p.right.answers(fl, c, pages, r)
                &&& #[trigger] is_hash_join(fl, hash_join_parts(p), l.rows, r.rows, origins, s.rows)
            },
{
    reveal(Plan::given_two);
    let plan = Plan::HashJoin(p);
    let (a, b) = (plan.first_child(), plan.second_child());
    let (l, r) = choose|l: StreamView, r: StreamView|
        a.answers(fl, c, pages, l) && b.answers(fl, c, pages, r) && #[trigger] plan.given_two(
            fl,
            l,
            a.out_schema(),
            r,
            b.out_schema(),
            s,
        );
    let j = hash_join_parts(p);
    let origins = law_hash_join_pairs(
        j,
        fl,
        l,
        r,
        2 * PARTITIONS as int,
    );
    assert(p.left.answers(fl, c, pages, l) && p.right.answers(fl, c, pages, r));
    assert(is_hash_join(fl, j, l.rows, r.rows, origins, s.rows));
}

/// The parts of a join row by row, as the plan has them.
pub open spec fn loop_join_parts(p: NestedLoopJoinPlanNode) -> JoinView {
    JoinView {
        predicate: p.predicate,
        join_type: p.join_type,
        out: p.schema@,
        left: p.left.out_schema(),
        right: p.right.out_schema(),
    }
}

/// A join row by row gives the rows that it makes of those of its two sides.
pub proof fn law_loop_join_step(
    fl: spec_fn(FloatOp, u32, u32) -> u32,
    c: &Catalog,
    pages: Pages,
    p: NestedLoopJoinPlanNode,
    s: StreamView,
)
    requires
        p.schema@.wf(),
        Plan::NestedLoopJoin(p).answers(fl, c, pages, s),
        s.error is None,
    ensures
        exists|l: StreamView, r: StreamView|
            {
                &&& #[trigger] p.left.answers(fl, c, pages, l)
                &&& #[trigger] p.right.answers(fl, c, pages, r)
                &&& is_join_of(fl, loop_join_parts(p), l.rows, r.rows, s.rows)
            },
{
    reveal(Plan::given_two);
    let plan = Plan::NestedLoopJoin(p);
    let (a, b) = (plan.first_child(), plan.second_child());
    let (l, r) = choose|l: StreamView, r: StreamView|
        a.answers(fl, c, pages, l) && b.answers(fl, c, pages, r) && #[trigger] plan.given_two(
            fl,
            l,
            a.out_schema(),
            r,
            b.out_schema(),
            s,
        );
    lemma_loop_join(fl, loop_join_parts(p), l, r);
    assert(p.left.answers(fl, c, pages, l) && p.right.answers(fl, c, pages, r));
}

/// A filter gives the rows below it on which its predicate is true, in order.
pub proof fn law_filter_step(
    fl: spec_fn(FloatOp, u32, u32) -> u32,
    c: &Catalog,
    pages: Pages,
    p: FilterPlanNode,
    s: StreamView,
)
    requires
        Plan::Filter(p).answers(fl, c, pages, s),
        s.error is None,
    ensures
        exists|t: StreamView| #[trigger]
            p.child.answers(fl, c, pages, t) && keeps(
                fl,
                Some(p.predicate),
                p.child.out_schema(),
                t.rows,
                s.rows,
            ),
{
    let t = lemma_filtered(
        fl,
        c,
        pages,
        p.predicate,
        p.child.out_schema(),
        Plan::Filter(p),
        s,
    );
    assert(p.child.answers(fl, c, pages, t));
}

/// A sort gives the rows below it in the order of its expressions.
pub proof fn law_sort_step(
    fl: spec_fn(FloatOp, u32, u32) -> u32,
    c: &Catalog,
    pages: Pages,
    p: SortPlanNode,
    s: StreamView,
)
    requires
        Plan::Sort(p).answers(fl, c, pages, s),
        s.error is None,
    ensures
        exists|t: StreamView| #[trigger]
            p.child.answers(fl, c, pages, t) && t.error is None && is_sorted_by(
                fl,
                p.order_by_exprs@,
                p.schema@,
                t.rows,
                s.rows,
            ),
{
    reveal(Plan::given_child);
    let plan = Plan::Sort(p);
    let t = choose|t: StreamView|
        plan.first_child().answers(fl, c, pages, t) && #[trigger] plan.given_child(
            fl,
            t,
            s,
            plan.first_child().out_schema(),
            c,
            pages,
        );
    law_sort_order(fl, p.order_by_exprs@, p.schema@, t.rows, s.rows);
    assert(p.child.answers(fl, c, pages, t));
}

/// The rows without their places in a table.
pub open spec fn without_places(rows: Seq<RowView>, out: Seq<RowView>) -> bool {
    &&& out.len() == rows.len()
    &&& forall|i: int| 0 <= i < out.len() ==> #[trigger] out[i] == unstored(rows[i].0)
}

/// A sort in runs gives the rows below it, without their places, in the order of its expressions.
pub proof fn law_merge_sort_step(
    fl: spec_fn(FloatOp, u32, u32) -> u32,
    c: &Catalog,
    pages: Pages,
    p: ExternalMergeSortPlanNode,
    s: StreamView,
)
    requires
        Plan::ExternalMergeSort(p).answers(fl, c, pages, s),
        s.error is None,
    ensures
        exists|t: StreamView, rows: Seq<RowView>| #[trigger]
            p.child.answers(fl, c, pages, t) && #[trigger] without_places(t.rows, rows)
                && is_sorted_by(fl, p.order_by_exprs@, p.schema@, rows, s.rows),
{
    reveal(Plan::given_child);
    let plan = Plan::ExternalMergeSort(p);
    let t = choose|t: StreamView|
        plan.first_child().answers(fl, c, pages, t) && #[trigger] plan.given_child(
            fl,
            t,
            s,
            plan.first_child().out_schema(),
            c,
            pages,
        );
    law_merge_sort_order(fl, p, t, true, s);
    let rows = set_aside(t.rows);
    assert(without_places(t.rows, rows));
    assert(p.child.answers(fl, c, pages, t));
}

/// A window function step gives what `law_window_plan` says of the rows below it.
pub proof fn law_window_step(
    fl: spec_fn(FloatOp, u32, u32) -> u32,
    c: &Catalog,
    pages: Pages,
    p: WindowFunctionPlanNode,
    s: StreamView,
)
    requires
        p.schema@.wf(),
        Plan::WindowFunction(p).answers(fl, c, pages, s),
        s.error is None,
    ensures
        exists|t: StreamView, sorted: Seq<RowView>| #[trigger]
            p.child.answers(fl, c, pages, t) && #[trigger] is_sorted_by(
                fl,
                written(p.partition_by_exprs) + written(p.order_by_exprs),
                p.child.out_schema(),
                t.rows,
                sorted,
            ) && s.rows.len() == sorted.len() && forall|i: int|
                0 <= i < sorted.len() ==> is_window_output(
                    fl,
                    p,
                    p.child.out_schema(),
                    sorted,
                    i,
                    #[trigger] s.rows[i],
                ),
{
    reveal(Plan::given_child);
    let plan = Plan::WindowFunction(p);
    let t = choose|t: StreamView|
        plan.first_child().answers(fl, c, pages, t) && #[trigger] plan.given_child(
            fl,
            t,
            s,
            plan.first_child().out_schema(),
            c,
            pages,
        );
    law_window_plan(fl, p, p.child.out_schema(), t, s);
    assert(p.child.answers(fl, c, pages, t));
}

} // verus!
