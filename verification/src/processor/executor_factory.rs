//! Running plans.
use vstd::prelude::*;

use crate::buffer_pool::BufferPoolManager;
use crate::catalog::key_encoding::key_of_values;
use crate::catalog::registry::{is_index, is_table, lemma_catalog_frame};
use crate::catalog::schema::{Schema, SchemaView};
use crate::catalog::table_index::ValueBound;
use crate::catalog::value::Value;
use crate::catalog::Catalog;
use crate::index::tree_model::Pages;
use crate::processor::executor::{
    aggregation_stream, filter_stream, limited, projection_stream, sorts, table_stream,
    values_stream, AggregationExecutor, FilterExecutor, LimitExecutor, ProjectionExecutor,
    SeqScanExecutor, SortExecutor, ValuesExecutor,
};
use crate::processor::expression::{computes, failure, results, ExecutorError, FloatOp};
use crate::processor::aggregate::grouped;
use crate::processor::hash_join::{
    hash_join_of, hash_join_stream, partitions_filled, HashJoinExecutor, PARTITIONS,
};
use crate::processor::index_access::{
    fetch_part, index_join_of, index_join_plan_stream, index_range, is_index_stream, key_match,
    lemma_range_kept, outers_part, rids_of, scan_refused, IndexScanExecutor,
    NestedIndexJoinExecutor,
};
use crate::processor::join::{loop_join_of, loop_join_stream, NestedLoopJoinExecutor};
use crate::processor::plan::{NestedIndexJoinPlanNode, Plan};
use crate::processor::spill::{kept, merge_sort_answers, worked_aside, ExternalMergeSortExecutor};
use crate::processor::stream::{fails, flat, RowStream, StreamView};
use crate::processor::window::{window_answers, WindowFunctionExecutor};
use crate::table_heap::TableHeap;

pub use crate::processor::statement::{create_executor, run_statement, PlanExecutor};

verus! {

impl Plan {
    /// The schema of the rows that the plan gives.
    pub open spec fn out_schema(&self) -> SchemaView {
        match *self {
            Plan::SeqScan(p) => p.schema@,
            Plan::Insert(p) => p.schema@,
            Plan::Values(p) => p.schema@,
            Plan::Update(p) => p.schema@,
            Plan::Delete(p) => p.schema@,
            Plan::IndexScan(p) => p.schema@,
            Plan::Filter(p) => p.schema@,
            Plan::Projection(p) => p.schema@,
            Plan::Aggregation(p) => p.schema@,
            Plan::NestedLoopJoin(p) => p.schema@,
            Plan::NestedIndexJoin(p) => p.schema@,
            Plan::HashJoin(p) => p.schema@,
            Plan::ExternalMergeSort(p) => p.schema@,
            Plan::Sort(p) => p.schema@,
            Plan::WindowFunction(p) => p.schema@,
            Plan::Limit(p) => p.schema@,
            Plan::CreateTable(p) => p.schema@,
            Plan::CreateIndex(p) => p.schema@,
            Plan::DropTable(p) => p.schema@,
            Plan::DropIndex(p) => p.schema@,
        }
    }

    pub fn schema(&self) -> (res: &Schema)
        ensures
            res@ == self.out_schema(),
    {
        match self {
            Plan::SeqScan(p) => &p.schema,
            Plan::Insert(p) => &p.schema,
            Plan::Values(p) => &p.schema,
            Plan::Update(p) => &p.schema,
            Plan::Delete(p) => &p.schema,
            Plan::IndexScan(p) => &p.schema,
            Plan::Filter(p) => &p.schema,
            Plan::Projection(p) => &p.schema,
            Plan::Aggregation(p) => &p.schema,
            Plan::NestedLoopJoin(p) => &p.schema,
            Plan::NestedIndexJoin(p) => &p.schema,
            Plan::HashJoin(p) => &p.schema,
            Plan::ExternalMergeSort(p) => &p.schema,
            Plan::Sort(p) => &p.schema,
            Plan::WindowFunction(p) => &p.schema,
            Plan::Limit(p) => &p.schema,
            Plan::CreateTable(p) => &p.schema,
            Plan::CreateIndex(p) => &p.schema,
            Plan::DropTable(p) => &p.schema,
            Plan::DropIndex(p) => &p.schema,
        }
    }

    /// All schemas in the plan are laid out.
    pub open spec fn wf(&self) -> bool
        decreases self,
    {
        &&& self.out_schema().wf()
        &&& match *self {
            Plan::Insert(p) => p.child.wf(),
            Plan::Update(p) => p.child.wf(),
            Plan::Delete(p) => p.child.wf(),
            Plan::Filter(p) => p.child.wf(),
            Plan::Projection(p) => p.child.wf(),
            Plan::Aggregation(p) => p.child.wf(),
            Plan::NestedLoopJoin(p) => p.left.wf() && p.right.wf(),
            Plan::NestedIndexJoin(p) => p.child.wf(),
            Plan::HashJoin(p) => p.left.wf() && p.right.wf(),
            Plan::ExternalMergeSort(p) => p.child.wf(),
            Plan::Sort(p) => p.child.wf(),
            Plan::WindowFunction(p) => p.child.wf(),
            Plan::Limit(p) => p.child.wf(),
            _ => true,
        }
    }

    /// `s` is what the step at the root of the plan gives on the rows `t` of its child.
    #[verifier::opaque]
    pub open spec fn given_child(
        &self,
        fl: spec_fn(FloatOp, u32, u32) -> u32,
        t: StreamView,
        s: StreamView,
        child: SchemaView,
        c: &Catalog,
        pages: Pages,
    ) -> bool {
        match *self {
            Plan::Filter(p) => s == filter_stream(fl, p.predicate, t, child),
            Plan::Projection(p) => s == projection_stream(
                fl,
                p.expressions@,
                t,
                child,
                p.schema@,
            ),
            Plan::Aggregation(p) => s == aggregation_stream(
                fl,
                p.group_bys@,
                p.aggregates@,
                t,
                child,
                p.schema@,
            ),
            Plan::NestedIndexJoin(p) => s == index_join_plan_stream(fl, c, pages, p, child, t),
            Plan::ExternalMergeSort(p) => merge_sort_answers(fl, p, t, true, s),
            Plan::Sort(p) => match t.error {
                Some(e) => s == fails(e),
                None => sorts(fl, p.order_by_exprs@, p.schema@, t.rows, s),
            },
            Plan::WindowFunction(p) => window_answers(p, child, fl, t, s),
            Plan::Limit(p) => s == limited(t, p.limit as int),
            _ => false,
        }
    }

    /// `s` is what the join at the root of the plan gives on the rows of its two children.
    #[verifier::opaque]
    pub open spec fn given_two(
        &self,
        fl: spec_fn(FloatOp, u32, u32) -> u32,
        l: StreamView,
        left: SchemaView,
        r: StreamView,
        right: SchemaView,
        s: StreamView,
    ) -> bool {
        match *self {
            Plan::NestedLoopJoin(p) => s == loop_join_stream(
                fl,
                loop_join_of(p, left, right),
                l,
                r,
            ),
            Plan::HashJoin(p) => s == hash_join_stream(
                fl,
                hash_join_of(p, left, right),
                l,
                r,
                2 * PARTITIONS as int,
            ),
            _ => false,
        }
    }

    /// The plan is one step over one child.
    pub open spec fn is_step(&self) -> bool {
        self is Filter || self is Projection || self is Aggregation || self is NestedIndexJoin
            || self is ExternalMergeSort || self is Sort || self is WindowFunction || self is Limit
    }

    /// The plan is a join of two children.
    pub open spec fn is_join(&self) -> bool {
        self is NestedLoopJoin || self is HashJoin
    }

    /// The child of a step, or the left child of a join.
    pub open spec fn first_child(&self) -> Plan {
        match *self {
            Plan::Filter(p) => *p.child,
            Plan::Projection(p) => *p.child,
            Plan::Aggregation(p) => *p.child,
            Plan::NestedIndexJoin(p) => *p.child,
            Plan::ExternalMergeSort(p) => *p.child,
            Plan::Sort(p) => *p.child,
            Plan::WindowFunction(p) => *p.child,
            Plan::Limit(p) => *p.child,
            Plan::NestedLoopJoin(p) => *p.left,
            Plan::HashJoin(p) => *p.left,
            _ => *self,
        }
    }

    /// The right child of a join.
    pub open spec fn second_child(&self) -> Plan {
        match *self {
            Plan::NestedLoopJoin(p) => *p.right,
            Plan::HashJoin(p) => *p.right,
            _ => *self,
        }
    }

    /// What a plan without children gives. A step that changes a table is not opened by the steps
    /// above it: a change below another step fails.
    #[verifier::opaque]
    pub open spec fn given_none(
        &self,
        fl: spec_fn(FloatOp, u32, u32) -> u32,
        c: &Catalog,
        pages: Pages,
        s: StreamView,
    ) -> bool {
        match *self {
            Plan::SeqScan(p) => s == table_stream(c, pages, p.table_oid),
            Plan::Values(p) => s == values_stream(fl, p.rows@, p.schema@),
            Plan::IndexScan(p) => is_index_stream(c, pages, p.index_oid, p.start, p.end, s),
            Plan::Insert(_) => s == fails("InsertExecutor::next called before open"@),
            Plan::Update(_) => s == fails("UpdateExecutor::next called before open"@),
            Plan::Delete(_) => s == fails("DeleteExecutor::next called before open"@),
            _ => s == fails("the plan gives no rows"@),
        }
    }

    /// A step over one child fails when it is opened, not when it is asked for rows.
    #[verifier::opaque]
    pub open spec fn step_refused(
        &self,
        fl: spec_fn(FloatOp, u32, u32) -> u32,
        t: StreamView,
        s: StreamView,
        child: SchemaView,
        c: &Catalog,
    ) -> bool {
        match *self {
            Plan::Aggregation(p) => t.error is Some || grouped(
                fl,
                p.group_bys@,
                p.aggregates@,
                t.rows,
                child,
                t.rows.len() as int,
            ) is Err,
            Plan::NestedIndexJoin(p) => !c.has_index(p.index_oid) || !c.has_table(p.table_oid),
            Plan::Sort(_) => t.error is Some,
            Plan::ExternalMergeSort(_) => s.error is Some,
            Plan::WindowFunction(_) => s.error is Some,
            _ => false,
        }
    }

    /// A join fails when it is opened, not when it is asked for rows.
    #[verifier::opaque]
    pub open spec fn join_refused(
        &self,
        fl: spec_fn(FloatOp, u32, u32) -> u32,
        l: StreamView,
        left: SchemaView,
        r: StreamView,
        right: SchemaView,
    ) -> bool {
        match *self {
            Plan::NestedLoopJoin(_) => r.error is Some,
            Plan::HashJoin(p) => !partitions_filled(
                fl,
                hash_join_of(p, left, right),
                l,
                r,
                2 * PARTITIONS as int,
            ),
            _ => false,
        }
    }

    /// A plan without children fails when it is opened, not when it is asked for rows.
    #[verifier::opaque]
    pub open spec fn leaf_refused(&self, c: &Catalog, pages: Pages) -> bool {
        match *self {
            Plan::SeqScan(p) => !c.has_table(p.table_oid),
            Plan::IndexScan(p) => !c.has_index(p.index_oid) || scan_refused(
                c.index(p.index_oid).index,
                pages,
                p.start,
                p.end,
            ),
            _ => false,
        }
    }

    /// `s` is what the plan gives, and `refused` tells whether it fails when it is opened.
    pub open spec fn opens(
        &self,
        fl: spec_fn(FloatOp, u32, u32) -> u32,
        c: &Catalog,
        pages: Pages,
        s: StreamView,
        refused: bool,
    ) -> bool {
        let (a, b) = (self.first_child(), self.second_child());
        if self.is_step() {
            exists|t: StreamView|
                a.answers(fl, c, pages, t) && #[trigger] self.given_child(
                    fl,
                    t,
                    s,
                    a.out_schema(),
                    c,
                    pages,
                ) && refused == self.step_refused(fl, t, s, a.out_schema(), c)
        } else if self.is_join() {
            exists|l: StreamView, r: StreamView|
                a.answers(fl, c, pages, l) && b.answers(fl, c, pages, r)
                    && #[trigger] self.given_two(fl, l, a.out_schema(), r, b.out_schema(), s)
                    && refused == self.join_refused(fl, l, a.out_schema(), r, b.out_schema())
        } else {
            self.given_none(fl, c, pages, s) && refused == self.leaf_refused(c, pages)
        }
    }

    /// The pages that the step at the root of the plan may take to put rows aside.
    pub open spec fn own_pages(&self) -> int {
        match *self {
            Plan::ExternalMergeSort(_) => 1,
            Plan::HashJoin(_) => 2 * PARTITIONS as int,
            _ => 0,
        }
    }

    /// The pages that the plan may take to put rows aside.
    pub open spec fn page_budget(&self) -> int
        decreases *self,
    {
        proof {
            lemma_children_smaller(self);
        }
        self.own_pages() + if self.is_step() {
            self.first_child().page_budget()
        } else if self.is_join() {
            self.first_child().page_budget() + self.second_child().page_budget()
        } else {
            0
        }
    }

    /// `s` is what the plan gives on the tables and indexes as the pages hold them.
    pub open spec fn answers(
        &self,
        fl: spec_fn(FloatOp, u32, u32) -> u32,
        c: &Catalog,
        pages: Pages,
        s: StreamView,
    ) -> bool
        decreases *self,
    {
        proof {
            lemma_children_smaller(self);
        }
        if self.is_step() {
            exists|t: StreamView|
                self.first_child().answers(fl, c, pages, t) && #[trigger] self.given_child(
                    fl,
                    t,
                    s,
                    self.first_child().out_schema(),
                    c,
                    pages,
                )
        } else if self.is_join() {
            exists|l: StreamView, r: StreamView|
                self.first_child().answers(fl, c, pages, l) && self.second_child().answers(
                    fl,
                    c,
                    pages,
                    r,
                ) && #[trigger] self.given_two(
                    fl,
                    l,
                    self.first_child().out_schema(),
                    r,
                    self.second_child().out_schema(),
                    s,
                )
        } else {
            self.given_none(fl, c, pages, s)
        }
    }
}

pub proof fn lemma_children_smaller(plan: &Plan)
    ensures
        plan.is_step() || plan.is_join() ==> decreases_to!(*plan => plan.first_child()),
        plan.is_join() ==> decreases_to!(*plan => plan.second_child()),
{
}

pub(crate) proof fn lemma_flat_same(
    f: spec_fn(int) -> StreamView,
    g: spec_fn(int) -> StreamView,
    n: int,
)
    requires
        forall|i: int| 0 <= i < n ==> #[trigger] f(i) == g(i),
    ensures
        flat(f, n) == flat(g, n),
    decreases n,
{
    if n > 0 {
        lemma_flat_same(f, g, n - 1);
        assert(f(n - 1) == g(n - 1));
    }
}

proof fn lemma_live_same(heap: TableHeap, p0: Pages, p1: Pages, n: int)
    requires
        heap.rows(p1) == heap.rows(p0),
    ensures
        heap.live_rows(p1, n) == heap.live_rows(p0, n),
    decreases n,
{
    if n > 0 {
        lemma_live_same(heap, p0, p1, n - 1);
    }
}

/// What kept pages say of a catalog.
pub(crate) proof fn lemma_kept_parts(c: &Catalog, p0: Pages, p1: Pages)
    requires
        c.wf(p0),
        kept(p0, p1),
    ensures
        c.wf(p1),
        forall|i: int|
            0 <= i < c.tables@.len() ==> (#[trigger] c.tables@[i]).info.heap.rows(p1)
                == c.tables@[i].info.heap.rows(p0),
        forall|j: int|
            0 <= j < c.indexes@.len() ==> {
                &&& #[trigger] c.index_kept(p0, p1, j)
                &&& c.indexes@[j].index.wf(p0)
                &&& c.indexes@[j].index.idx.is_empty(p1) == c.indexes@[j].index.idx.is_empty(p0)
            },
{
    lemma_catalog_frame(*c, p0, p1);
    assert forall|i: int| 0 <= i < c.tables@.len() implies (
    #[trigger] c.tables@[i]).info.heap.rows(p1) == c.tables@[i].info.heap.rows(p0) by {
        assert(c.rows(p1, i) == c.rows(p0, i));
    }
    assert forall|j: int| 0 <= j < c.indexes@.len() implies #[trigger] c.index_kept(p0, p1, j)
        && c.indexes@[j].index.wf(p0) && c.indexes@[j].index.idx.is_empty(p1)
        == c.indexes@[j].index.idx.is_empty(p0) by {
        assert(c.indexes@[j].index.wf(p0));
        assert(p0.contains_key(c.indexes@[j].index.idx.header_page_id));
    }
}

proof fn lemma_index_stream_kept(
    c: &Catalog,
    p0: Pages,
    p1: Pages,
    oid: u32,
    start: ValueBound,
    end: ValueBound,
    s: StreamView,
)
    requires
        c.wf(p0),
        kept(p0, p1),
    ensures
        is_index_stream(c, p1, oid, start, end, s) == is_index_stream(c, p0, oid, start, end, s),
{
    lemma_kept_parts(c, p0, p1);
    if c.has_index(oid) {
        let j = c.index_pos(oid);
        assert(is_index(c.indexes@, oid, j));
        let info = c.indexes@[j];
        assert(c.index_kept(p0, p1, j));
        assert(c.index_fits(c.indexes@[j]));
        let i = c.table_pos(info.table_oid);
        assert(is_table(c.tables@, info.table_oid, i));
        let heap = c.tables@[i].info.heap;
        assert(heap.rows(p1) == heap.rows(p0));
        if !scan_refused(info.index, p0, start, end) {
            lemma_range_kept(info.index, p0, p1, start, end);
            let rids = rids_of(index_range(info.index, p0, start, end));
            lemma_flat_same(
                fetch_part(heap, p1, rids),
                fetch_part(heap, p0, rids),
                rids.len() as int,
            );
        }
    }
}

proof fn lemma_index_join_kept(
    fl: spec_fn(FloatOp, u32, u32) -> u32,
    c: &Catalog,
    p0: Pages,
    p1: Pages,
    plan: NestedIndexJoinPlanNode,
    outer: SchemaView,
    child: StreamView,
)
    requires
        c.wf(p0),
        kept(p0, p1),
    ensures
        index_join_plan_stream(fl, c, p1, plan, outer, child) == index_join_plan_stream(
            fl,
            c,
            p0,
            plan,
            outer,
            child,
        ),
{
    lemma_kept_parts(c, p0, p1);
    if c.has_index(plan.index_oid) && c.has_table(plan.table_oid) {
        let j = c.index_pos(plan.index_oid);
        assert(is_index(c.indexes@, plan.index_oid, j));
        let info = c.indexes@[j];
        assert(c.index_kept(p0, p1, j));
        let i = c.table_pos(plan.table_oid);
        assert(is_table(c.tables@, plan.table_oid, i));
        let table = c.tables@[i].info;
        assert(c.index_fits(c.indexes@[j]));
        let o = c.table_pos(info.table_oid);
        assert(is_table(c.tables@, info.table_oid, o));
        let source = c.tables@[o].info.heap;
        assert(c.tables@[o].info.heap.rows(p1) == source.rows(p0));
        let join = index_join_of(plan, outer, info, source, table);
        let (f, g) = (
            outers_part(fl, p1, join, child.rows),
            outers_part(fl, p0, join, child.rows),
        );
        assert forall|x: int| 0 <= x < child.rows.len() implies #[trigger] f(x) == g(x) by {
            assert forall|v: Value| #[trigger] key_match(p1, join, child.rows[x].0, v)
                == key_match(p0, join, child.rows[x].0, v) by {
                let k = key_of_values(seq![v]);
                assert(c.indexes@[j].index.find(p1, k) == c.indexes@[j].index.find(p0, k));
            }
        }
        lemma_flat_same(f, g, child.rows.len() as int);
    }
}

proof fn lemma_given_kept(
    plan: &Plan,
    fl: spec_fn(FloatOp, u32, u32) -> u32,
    c: &Catalog,
    p0: Pages,
    p1: Pages,
    t: StreamView,
    s: StreamView,
    child: SchemaView,
)
    requires
        c.wf(p0),
        kept(p0, p1),
    ensures
        plan.given_child(fl, t, s, child, c, p1) == plan.given_child(fl, t, s, child, c, p0),
{
    reveal(Plan::given_child);
    if let Plan::NestedIndexJoin(p) = *plan {
        lemma_index_join_kept(fl, c, p0, p1, p, child, t);
    }
}

proof fn lemma_given_none_kept(
    plan: &Plan,
    fl: spec_fn(FloatOp, u32, u32) -> u32,
    c: &Catalog,
    p0: Pages,
    p1: Pages,
    s: StreamView,
)
    requires
        c.wf(p0),
        kept(p0, p1),
    ensures
        plan.given_none(fl, c, p1, s) == plan.given_none(fl, c, p0, s),
{
    reveal(Plan::given_none);
    match *plan {
        Plan::SeqScan(p) => {
            lemma_kept_parts(c, p0, p1);
            if c.has_table(p.table_oid) {
                let i = c.table_pos(p.table_oid);
                assert(is_table(c.tables@, p.table_oid, i));
                let heap = c.tables@[i].info.heap;
                assert(heap.rows(p1) == heap.rows(p0));
                lemma_live_same(heap, p0, p1, heap.rows(p0).len() as int);
            }
        },
        Plan::IndexScan(p) => {
            lemma_index_stream_kept(c, p0, p1, p.index_oid, p.start, p.end, s);
        },
        _ => {},
    }
}

/// A plan gives on kept pages what it gives on the pages they were.
pub proof fn law_answers_kept(
    plan: &Plan,
    fl: spec_fn(FloatOp, u32, u32) -> u32,
    c: &Catalog,
    p0: Pages,
    p1: Pages,
    s: StreamView,
)
    requires
        c.wf(p0),
        kept(p0, p1),
        plan.answers(fl, c, p1, s),
    ensures
        plan.answers(fl, c, p0, s),
    decreases *plan,
{
    lemma_children_smaller(plan);
    let child = plan.first_child();
    if plan.is_step() {
        let t = choose|t: StreamView|
            child.answers(fl, c, p1, t) && #[trigger] plan.given_child(
                fl,
                t,
                s,
                child.out_schema(),
                c,
                p1,
            );
        law_answers_kept(&child, fl, c, p0, p1, t);
        lemma_given_kept(plan, fl, c, p0, p1, t, s, child.out_schema());
    } else if plan.is_join() {
        let second = plan.second_child();
        let (l, r) = choose|l: StreamView, r: StreamView|
            child.answers(fl, c, p1, l) && second.answers(fl, c, p1, r)
                && #[trigger] plan.given_two(
                fl,
                l,
                child.out_schema(),
                r,
                second.out_schema(),
                s,
            );
        law_answers_kept(&child, fl, c, p0, p1, l);
        law_answers_kept(&second, fl, c, p0, p1, r);
    } else {
        lemma_given_none_kept(plan, fl, c, p0, p1, s);
    }
}

/// A step that was opened, or the error with which it failed to open, as a stream.
pub open spec fn opened_view(res: Result<RowStream, ExecutorError>) -> StreamView {
    match res {
        Ok(s) => s@,
        Err(e) => fails(e.0@),
    }
}

/// The stream of a step that was opened.
fn stream_of(opened: Result<(), ExecutorError>, output: Option<RowStream>) -> (res: Result<
    RowStream,
    ExecutorError,
>)
    requires
        opened is Ok ==> output is Some,
    ensures
        match opened {
            Ok(_) => res matches Ok(s) && s@ == output->0@,
            Err(e) => res matches Err(x) && x.0@ == e.0@,
        },
{
    match opened {
        Ok(_) => match output {
            Some(s) => Ok(s),
            None => Ok(RowStream::empty()),
        },
        Err(e) => Err(e),
    }
}

/// Runs the step at the root of a plan on the rows of its child.
fn run_step<F: Fn(FloatOp, u32, u32) -> u32>(
    catalog: &Catalog,
    bpm: &mut BufferPoolManager,
    plan: &Plan,
    child: RowStream,
    child_schema: &Schema,
    fl: &F,
) -> (res: Result<RowStream, ExecutorError>)
    requires
        computes(*fl),
        old(bpm).wf(),
        old(bpm).ready(),
        old(bpm).ids_fresh(),
        catalog.wf(old(bpm).pages()),
        plan.out_schema().wf(),
        plan is Filter || plan is Projection || plan is Aggregation || plan is NestedIndexJoin
            || plan is Sort || plan is WindowFunction || plan is Limit || plan is ExternalMergeSort,
    ensures
        worked_aside(old(bpm), final(bpm)),
        final(bpm).next_page_id() <= old(bpm).next_page_id() + plan.own_pages(),
        old(bpm).next_page_id() + plan.own_pages() <= u32::MAX ==> plan.given_child(
            results(*fl),
            child@,
            opened_view(res),
            child_schema@,
            catalog,
            old(bpm).pages(),
        ) && (res is Err) == plan.step_refused(
            results(*fl),
            child@,
            opened_view(res),
            child_schema@,
            catalog,
        ),
{
    proof {
        reveal(Plan::given_child);
        reveal(Plan::step_refused);
    }
    match plan {
        Plan::Filter(p) => {
            let mut e = FilterExecutor::new(p, child, child_schema);
            e.open(fl);
            stream_of(Ok(()), e.output)
        },
        Plan::Projection(p) => {
            let mut e = ProjectionExecutor::new(p, child, child_schema);
            e.open(fl);
            stream_of(Ok(()), e.output)
        },
        Plan::Aggregation(p) => {
            let mut e = AggregationExecutor::new(p, child, child_schema);
            let opened = e.open(fl);
            stream_of(opened, e.output)
        },
        Plan::NestedIndexJoin(p) => {
            let mut e = NestedIndexJoinExecutor::new(p, child, child_schema);
            let opened = e.open(catalog, bpm, fl);
            stream_of(opened, e.output)
        },
        Plan::ExternalMergeSort(p) => {
            let mut e = ExternalMergeSortExecutor::new(p, child);
            let opened = e.open(bpm, fl);
            stream_of(opened, e.output)
        },
        Plan::Sort(p) => {
            let mut e = SortExecutor::new(p, child);
            let opened = e.open(fl);
            stream_of(opened, e.output)
        },
        Plan::WindowFunction(p) => {
            let mut e = WindowFunctionExecutor::new(p, child, child_schema);
            let opened = e.open(fl);
            stream_of(opened, e.output)
        },
        Plan::Limit(p) => {
            let mut e = LimitExecutor::new(p, child);
            Ok(e.drain())
        },
        _ => Ok(RowStream::empty()),
    }
}

/// Runs a plan without children.
fn run_leaf<F: Fn(FloatOp, u32, u32) -> u32>(
    catalog: &Catalog,
    bpm: &mut BufferPoolManager,
    plan: &Plan,
    fl: &F,
) -> (res: Result<RowStream, ExecutorError>)
    requires
        computes(*fl),
        old(bpm).wf(),
        old(bpm).ready(),
        old(bpm).ids_fresh(),
        catalog.wf(old(bpm).pages()),
        plan.out_schema().wf(),
    ensures
        worked_aside(old(bpm), final(bpm)),
        final(bpm).next_page_id() == old(bpm).next_page_id(),
        !plan.is_step() && !plan.is_join() ==> plan.given_none(
            results(*fl),
            catalog,
            old(bpm).pages(),
            opened_view(res),
        ) && (res is Err) == plan.leaf_refused(catalog, old(bpm).pages()),
{
    proof {
        reveal(Plan::given_none);
        reveal(Plan::leaf_refused);
    }
    match plan {
        Plan::SeqScan(p) => {
            let mut e = SeqScanExecutor::new(p);
            let opened = e.open(catalog, bpm);
            stream_of(opened, e.output)
        },
        Plan::Values(p) => {
            Ok(ValuesExecutor::new(p, fl).rows)
        },
        Plan::IndexScan(p) => {
            let mut e = IndexScanExecutor::new(p);
            let opened = e.open(catalog, bpm);
            stream_of(opened, e.output)
        },
        Plan::Insert(_) => Ok(RowStream::failed(failure("InsertExecutor::next called before open"))),
        Plan::Update(_) => Ok(RowStream::failed(failure("UpdateExecutor::next called before open"))),
        Plan::Delete(_) => Ok(RowStream::failed(failure("DeleteExecutor::next called before open"))),
        _ => Ok(RowStream::failed(failure("the plan gives no rows"))),
    }
}

/// Joins the rows of two children.
fn run_join<F: Fn(FloatOp, u32, u32) -> u32>(
    bpm: &mut BufferPoolManager,
    plan: &Plan,
    left: RowStream,
    left_schema: &Schema,
    right: RowStream,
    right_schema: &Schema,
    fl: &F,
) -> (res: Result<RowStream, ExecutorError>)
    requires
        computes(*fl),
        old(bpm).wf(),
        old(bpm).ready(),
        old(bpm).ids_fresh(),
        plan.out_schema().wf(),
        plan.is_join(),
    ensures
        worked_aside(old(bpm), final(bpm)),
        final(bpm).next_page_id() <= old(bpm).next_page_id() + plan.own_pages(),
        old(bpm).next_page_id() + plan.own_pages() <= u32::MAX ==> plan.given_two(
            results(*fl),
            left@,
            left_schema@,
            right@,
            right_schema@,
            opened_view(res),
        ) && (res is Err) == plan.join_refused(
            results(*fl),
            left@,
            left_schema@,
            right@,
            right_schema@,
        ),
{
    proof {
        reveal(Plan::given_two);
        reveal(Plan::join_refused);
    }
    match plan {
        Plan::NestedLoopJoin(p) => {
            let mut e = NestedLoopJoinExecutor::new(p, left, left_schema, right, right_schema);
            let opened = e.open(fl);
            stream_of(opened, Some(e.output))
        },
        Plan::HashJoin(p) => {
            let mut e = HashJoinExecutor::new(p, left, left_schema, right, right_schema);
            let opened = e.open(bpm, fl);
            stream_of(opened, e.output)
        },
        _ => Ok(RowStream::empty()),
    }
}

/// The child of a step.
fn child_of(plan: &Plan) -> (res: Option<&Plan>)
    ensures
        plan.is_step() ==> (res matches Some(p) && *p == plan.first_child()),
        !plan.is_step() ==> res is None,
{
    match plan {
        Plan::Filter(p) => Some(&*p.child),
        Plan::Projection(p) => Some(&*p.child),
        Plan::Aggregation(p) => Some(&*p.child),
        Plan::NestedIndexJoin(p) => Some(&*p.child),
        Plan::ExternalMergeSort(p) => Some(&*p.child),
        Plan::Sort(p) => Some(&*p.child),
        Plan::WindowFunction(p) => Some(&*p.child),
        Plan::Limit(p) => Some(&*p.child),
        _ => None,
    }
}

/// The children of a join.
fn children_of(plan: &Plan) -> (res: Option<(&Plan, &Plan)>)
    ensures
        plan.is_join() ==> (res matches Some((l, r)) && *l == plan.first_child() && *r
            == plan.second_child()),
        !plan.is_join() ==> res is None,
{
    match plan {
        Plan::NestedLoopJoin(p) => Some((&*p.left, &*p.right)),
        Plan::HashJoin(p) => Some((&*p.left, &*p.right)),
        _ => None,
    }
}

/// What holds of a plan that reads holds of its children.
proof fn lemma_children(plan: &Plan)
    requires
        plan.wf(),
    ensures
        plan.is_step() ==> plan.first_child().wf(),
        plan.is_join() ==> plan.first_child().wf() && plan.second_child().wf(),
        plan.out_schema().wf(),
{
}

/// A plan takes its own pages and those of its children.
proof fn lemma_budget(plan: &Plan)
    ensures
        0 <= plan.own_pages() <= plan.page_budget(),
        plan.is_step() ==> plan.page_budget() == plan.own_pages()
            + plan.first_child().page_budget(),
        plan.is_join() ==> plan.page_budget() == plan.own_pages()
            + plan.first_child().page_budget() + plan.second_child().page_budget(),
    decreases *plan,
{
    lemma_children_smaller(plan);
    if plan.is_step() {
        lemma_budget(&plan.first_child());
    } else if plan.is_join() {
        lemma_budget(&plan.first_child());
        lemma_budget(&plan.second_child());
    }
}

/// Runs a plan that reads and changes nothing. Steps that change a table are not opened. The pages
/// that the plan may take have to have numbers that record ids can hold.
pub fn run_query<F: Fn(FloatOp, u32, u32) -> u32>(
    catalog: &Catalog,
    bpm: &mut BufferPoolManager,
    plan: &Plan,
    fl: &F,
) -> (res: RowStream)
    requires
        computes(*fl),
        old(bpm).wf(),
        old(bpm).ready(),
        old(bpm).ids_fresh(),
        catalog.wf(old(bpm).pages()),
        plan.wf(),
    ensures
        worked_aside(old(bpm), final(bpm)),
        catalog.wf(final(bpm).pages()),
        final(bpm).next_page_id() <= old(bpm).next_page_id() + plan.page_budget(),
        old(bpm).next_page_id() + plan.page_budget() <= u32::MAX ==> plan.answers(
            results(*fl),
            catalog,
            old(bpm).pages(),
            res@,
        ),
    decreases *plan, 1nat,
{
    match open_query(catalog, bpm, plan, fl) {
        Ok(s) => s,
        Err(e) => RowStream::failed(e),
    }
}

/// Opens a plan that reads and changes nothing, as `run_query` does, and tells apart the errors
/// that come when the step at its root is opened.
pub fn open_query<F: Fn(FloatOp, u32, u32) -> u32>(
    catalog: &Catalog,
    bpm: &mut BufferPoolManager,
    plan: &Plan,
    fl: &F,
) -> (res: Result<RowStream, ExecutorError>)
    requires
        computes(*fl),
        old(bpm).wf(),
        old(bpm).ready(),
        old(bpm).ids_fresh(),
        catalog.wf(old(bpm).pages()),
        plan.wf(),
    ensures
        worked_aside(old(bpm), final(bpm)),
        catalog.wf(final(bpm).pages()),
        final(bpm).next_page_id() <= old(bpm).next_page_id() + plan.page_budget(),
        old(bpm).next_page_id() + plan.page_budget() <= u32::MAX ==> plan.opens(
            results(*fl),
            catalog,
            old(bpm).pages(),
            opened_view(res),
            res is Err,
        ),
    decreases *plan, 0nat,
{
    let ghost p0 = bpm.pages();
    let ghost enough = bpm.next_page_id() + plan.page_budget() <= u32::MAX;
    proof {
        lemma_children(plan);
        lemma_children_smaller(plan);
        lemma_budget(plan);
        if plan.is_step() || plan.is_join() {
            lemma_budget(&plan.first_child());
            lemma_budget(&plan.second_child());
        }
    }
    if let Some(child_plan) = child_of(plan) {
        let child = run_query(catalog, bpm, child_plan, fl);
        let ghost t = child@;
        let ghost p1 = bpm.pages();
        let out = run_step(catalog, bpm, plan, child, child_plan.schema(), fl);
        proof {
            if enough {
                lemma_given_kept(
                    plan,
                    results(*fl),
                    catalog,
                    p0,
                    p1,
                    t,
                    opened_view(out),
                    child_plan.out_schema(),
                );
            }
            lemma_kept_parts(catalog, p0, bpm.pages());
        }
        return out;
    }
    if let Some((left_plan, right_plan)) = children_of(plan) {
        let left = run_query(catalog, bpm, left_plan, fl);
        let ghost p1 = bpm.pages();
        let right = run_query(catalog, bpm, right_plan, fl);
        let ghost (l, r) = (left@, right@);
        proof {
            if enough {
                law_answers_kept(right_plan, results(*fl), catalog, p0, p1, r);
            }
        }
        let out = run_join(
            bpm,
            plan,
            left,
            left_plan.schema(),
            right,
            right_plan.schema(),
            fl,
        );
        proof {
            lemma_kept_parts(catalog, p0, bpm.pages());
        }
        return out;
    }
    let out = run_leaf(catalog, bpm, plan, fl);
    proof {
        lemma_kept_parts(catalog, p0, bpm.pages());
    }
    out
}

} // verus!
