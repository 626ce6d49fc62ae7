//! The steps of a plan that read and shape rows.
use vstd::prelude::*;

use crate::buffer_pool::BufferPoolManager;
use crate::catalog::schema::{Schema, SchemaView};
use crate::catalog::value::Value;
use crate::catalog::{Catalog, CatalogError};
use crate::index::tree_model::Pages;
use crate::processor::aggregate::{
    add_to_group, evaluate_key, group_views, grouped, lemma_grouped_fails, read_states,
    state_values, Group, GroupView,
};
use crate::processor::expression::{
    boolean, computes, eval, failure, results, Expression, FloatOp,
};
use crate::processor::plan::{
    AggType, AggregationPlanNode, FilterPlanNode, LimitPlanNode, ProjectionPlanNode,
    SeqScanPlanNode, SortPlanNode, ValuesPlanNode,
};
use crate::processor::sorting::{is_stable_sort, sort_keys, sort_rows};
use crate::processor::stream::{
    catalog_failure, catalog_message, clone_tuple, encode, encoded, ending, error_view, eval_all,
    evaluate_all, fails, flat, gives_tuple, lemma_flat_stops, one_row, row_view, row_views,
    rows_only, unstored, RowStream, RowView, StreamView,
};
use crate::table_heap::{scanned, RecordId, TableHeap, Tuple};

pub use crate::processor::aggregate::AggState;
pub use crate::processor::expression::ExecutorError;
pub use crate::processor::hash_join::HashJoinExecutor;
pub use crate::processor::index_access::{IndexScanExecutor, NestedIndexJoinExecutor};
pub use crate::processor::join::NestedLoopJoinExecutor;
pub use crate::processor::modify::{DeleteExecutor, InsertExecutor, UpdateExecutor};
pub use crate::processor::spill::ExternalMergeSortExecutor;
pub use crate::processor::window::WindowFunctionExecutor;

verus! {

/// A step of a plan that gives its rows one after the other.
pub trait Executor: Sized {
    /// What is still to come; `None` where the step has to be opened first.
    spec fn output(&self) -> Option<StreamView>;

    spec fn out_schema(&self) -> SchemaView;

    /// The error of a step that has to be opened first.
    spec fn unopened(&self) -> Seq<char>;

    /// Takes the next row; `Ok(None)` once there is none.
    fn next(&mut self) -> (res: Result<Option<(Tuple, RecordId)>, ExecutorError>)
        ensures
            pulled(old(self).output(), final(self).output(), res, old(self).unopened()),
            final(self).out_schema() == old(self).out_schema(),
    ;

    /// The schema of the rows.
    fn schema(&self) -> (res: &Schema)
        ensures
            res@ == self.out_schema(),
    ;

    /// Ends the step. There is nothing to be done for it.
    fn close(&mut self) -> (res: Result<(), ExecutorError>)
        ensures
            res is Ok,
            *final(self) == *old(self),
    ;
}

/// Takes the next row of a step that was opened.
pub fn pull(output: &mut Option<RowStream>, unopened: &str) -> (res: Result<
    Option<(Tuple, RecordId)>,
    ExecutorError,
>)
    ensures
        pulled(stream_view(*old(output)), stream_view(*final(output)), res, unopened@),
{
    match output.take() {
        None => Err(failure(unopened)),
        Some(mut s) => {
            let res = s.next();
            *output = Some(s);
            res
        },
    }
}

/// Reads the rows of a table.
pub struct SeqScanExecutor<'a> {
    pub plan: &'a SeqScanPlanNode,
    pub output: Option<RowStream>,
}

/// The rows of a table that were not deleted, each with its place.
pub open spec fn live_rows(heap: TableHeap, pages: Pages) -> Seq<RowView> {
    let rows = heap.live_rows(pages, heap.rows(pages).len() as int);
    Seq::new(rows.len(), |i: int| (rows[i].1, rows[i].0))
}

pub open spec fn table_stream(catalog: &Catalog, pages: Pages, oid: u32) -> StreamView {
    if catalog.has_table(oid) {
        rows_only(live_rows(catalog.table(oid).heap, pages))
    } else {
        fails(catalog_message(CatalogError::TableDoesNotExist))
    }
}

/// All rows of a table that were not deleted.
pub fn scan_table(heap: &TableHeap, bpm: &mut BufferPoolManager) -> (res: RowStream)
    requires
        old(bpm).wf(),
        old(bpm).ready(),
        heap.wf(old(bpm).pages()),
    ensures
        final(bpm).wf(),
        final(bpm).ready(),
        final(bpm).same_pages(old(bpm)),
        res@ == rows_only(live_rows(*heap, old(bpm).pages())),
{
    let found = heap.scan(bpm);
    let ghost live = live_rows(*heap, old(bpm).pages());
    let mut out = RowStream::empty();
    let mut i: usize = 0;
    assert(live.len() == scanned(found@).len());
    while i < found.len()
        invariant
            i <= found@.len(),
            bpm.wf(),
            bpm.ready(),
            bpm.same_pages(old(bpm)),
            live == live_rows(*heap, old(bpm).pages()),
            scanned(found@) == heap.live_rows(
                old(bpm).pages(),
                heap.rows(old(bpm).pages()).len() as int,
            ),
            live.len() == found@.len(),
            out@ == rows_only(live.subrange(0, i as int)),
        decreases found@.len() - i,
    {
        assert(scanned(found@)[i as int] == (found@[i as int].0, found@[i as int].1.data@));
        out.add(clone_tuple(&found[i].1), found[i].0);
        i += 1;
        assert(out@.rows =~= live.subrange(0, i as int));
    }
    assert(live.subrange(0, i as int) =~= live);
    out
}

impl<'a> SeqScanExecutor<'a> {
    pub fn new(plan: &'a SeqScanPlanNode) -> (res: Self)
        ensures
            res.plan == plan,
            res.output is None,
    {
        SeqScanExecutor { plan, output: None }
    }

    pub fn open(&mut self, catalog: &Catalog, bpm: &mut BufferPoolManager) -> (res: Result<
        (),
        ExecutorError,
    >)
        requires
            old(bpm).wf(),
            old(bpm).ready(),
            catalog.wf(old(bpm).pages()),
        ensures
            final(bpm).wf(),
            final(bpm).ready(),
            final(bpm).same_pages(old(bpm)),
            final(self).plan == old(self).plan,
            ({
                let oid = old(self).plan.table_oid;
                match res {
                    Ok(_) => {
                        &&& catalog.has_table(oid)
                        &&& final(self).output matches Some(s) && s@ == table_stream(
                            catalog,
                            old(bpm).pages(),
                            oid,
                        )
                    },
                    Err(e) => {
                        &&& !catalog.has_table(oid)
                        &&& e.0@ == catalog_message(CatalogError::TableDoesNotExist)
                    },
                }
            }),
    {
        match catalog.get_table(self.plan.table_oid) {
            Ok(info) => {
                self.output = Some(scan_table(&info.heap, bpm));
                Ok(())
            },
            Err(e) => Err(catalog_failure(e)),
        }
    }
}

impl<'a> Executor for SeqScanExecutor<'a> {
    open spec fn output(&self) -> Option<StreamView> {
        stream_view(self.output)
    }

    open spec fn out_schema(&self) -> SchemaView {
        self.plan.schema@
    }

    open spec fn unopened(&self) -> Seq<char> {
        "SeqScanExecutor::next called before open"@
    }

    fn next(&mut self) -> (res: Result<Option<(Tuple, RecordId)>, ExecutorError>) {
        pull(&mut self.output, "SeqScanExecutor::next called before open")
    }

    fn schema(&self) -> (res: &Schema) {
        &self.plan.schema
    }

    fn close(&mut self) -> (res: Result<(), ExecutorError>) {
        Ok(())
    }
}

/// What taking the next row of a step does to its output.
pub open spec fn pulled(
    before: Option<StreamView>,
    after: Option<StreamView>,
    res: Result<Option<(Tuple, RecordId)>, ExecutorError>,
    unopened: Seq<char>,
) -> bool {
    match before {
        None => after is None && (res matches Err(e) && e.0@ == unopened),
        Some(s) => if s.rows.len() > 0 {
            &&& res matches Ok(Some(row)) && row_view(row) == s.rows[0]
            &&& after == Some(StreamView { rows: s.rows.drop_first(), error: s.error })
        } else {
            &&& match s.error {
                Some(m) => res matches Err(e) && e.0@ == m,
                None => res matches Ok(None),
            }
            &&& after == Some(s)
        },
    }
}

pub open spec fn stream_view(output: Option<RowStream>) -> Option<StreamView> {
    match output {
        Some(s) => Some(s@),
        None => None,
    }
}

/// What is still to come of a step that need not be opened.
pub open spec fn left_over(output: Option<RowStream>) -> StreamView {
    match output {
        Some(s) => s@,
        None => rows_only(Seq::empty()),
    }
}

/// Takes the next row of a step; one that was not opened has none.
pub fn pull_any(output: &mut Option<RowStream>) -> (res: Result<
    Option<(Tuple, RecordId)>,
    ExecutorError,
>)
    ensures
        pulled(Some(left_over(*old(output))), Some(left_over(*final(output))), res, ""@),
{
    match output.take() {
        None => Ok(None),
        Some(mut s) => {
            let res = s.next();
            *output = Some(s);
            res
        },
    }
}

/// Produces the tuples of a list of expressions.
pub struct ValuesExecutor<'a> {
    pub plan: &'a ValuesPlanNode,
    pub rows: RowStream,
}

/// The tuple that a list of expressions gives.
pub open spec fn shaped(
    fl: spec_fn(FloatOp, u32, u32) -> u32,
    exprs: Seq<Expression>,
    data: Seq<u8>,
    s: SchemaView,
    out: SchemaView,
) -> Result<Seq<u8>, Seq<char>> {
    match eval_all(fl, exprs, data, s) {
        Err(e) => Err(e),
        Ok(values) => encoded(out, values),
    }
}

/// Makes the tuple that a list of expressions gives.
pub fn shape<F: Fn(FloatOp, u32, u32) -> u32>(
    exprs: &Vec<Expression>,
    tuple: &Tuple,
    schema: &Schema,
    out: &Schema,
    fl: &F,
) -> (res: Result<Tuple, ExecutorError>)
    requires
        computes(*fl),
        out@.wf(),
    ensures
        gives_tuple(res, shaped(results(*fl), exprs@, tuple.data@, schema@, out@)),
{
    match evaluate_all(exprs, tuple, schema, fl) {
        Ok(values) => encode(out, &values),
        Err(e) => Err(e),
    }
}

pub open spec fn values_part(
    fl: spec_fn(FloatOp, u32, u32) -> u32,
    rows: Seq<Vec<Expression>>,
    s: SchemaView,
) -> spec_fn(int) -> StreamView {
    |i: int| one_row(shaped(fl, rows[i]@, Seq::empty(), s, s))
}

/// A tuple for each list of expressions, up to the first that fails.
pub open spec fn values_stream(
    fl: spec_fn(FloatOp, u32, u32) -> u32,
    rows: Seq<Vec<Expression>>,
    s: SchemaView,
) -> StreamView {
    flat(values_part(fl, rows, s), rows.len() as int)
}

/// Adds a part that is one row or an error to the parts before it.
fn add_one(out: &mut RowStream, row: Result<Tuple, ExecutorError>) -> (res: bool)
    requires
        old(out)@.error is None,
    ensures
        ({
            let part = one_row(
                match row {
                    Ok(t) => Ok::<Seq<u8>, Seq<char>>(t.data@),
                    Err(e) => Err(e.0@),
                },
            );
            &&& final(out)@.rows == old(out)@.rows + part.rows
            &&& final(out)@.error == part.error
            &&& res == (part.error is None)
        }),
{
    match row {
        Ok(t) => {
            out.add(t, RecordId::reserved());
            assert(out@.rows =~= old(out)@.rows + seq![unstored(t.data@)]);
            true
        },
        Err(e) => {
            out.error = Some(e);
            assert(out@.rows =~= old(out)@.rows + Seq::empty());
            false
        },
    }
}

impl<'a> ValuesExecutor<'a> {
    /// A step that gives the tuples of the plan, whether it is opened or not.
    pub fn new<F: Fn(FloatOp, u32, u32) -> u32>(plan: &'a ValuesPlanNode, fl: &F) -> (res: Self)
        requires
            computes(*fl),
            plan.schema@.wf(),
        ensures
            res.plan == plan,
            res.rows@ == values_stream(results(*fl), plan.rows@, plan.schema@),
    {
        let ghost f = values_part(results(*fl), plan.rows@, plan.schema@);
        let mut out = RowStream::empty();
        let mut i: usize = 0;
        let mut going: bool = true;
        while going && i < plan.rows.len()
            invariant
                i <= plan.rows@.len(),
                computes(*fl),
                plan.schema@.wf(),
                f == values_part(results(*fl), plan.rows@, plan.schema@),
                out@ == flat(f, i as int),
                going == (out@.error is None),
            decreases plan.rows@.len() - i,
        {
            let none = Tuple { data: Vec::new() };
            assert(none.data@ =~= Seq::empty());
            let row = shape(&plan.rows[i], &none, &plan.schema, &plan.schema, fl);
            going = add_one(&mut out, row);
            i += 1;
            assert(out@ == flat(f, i as int));
        }
        proof {
            if !going {
                lemma_flat_stops(f, i as int, plan.rows@.len() as int);
            }
        }
        ValuesExecutor { plan, rows: out }
    }

    /// Opens the step. There is nothing to be done for it.
    pub fn open(&mut self) -> (res: Result<(), ExecutorError>)
        ensures
            res is Ok,
            *final(self) == *old(self),
    {
        Ok(())
    }
}

impl<'a> Executor for ValuesExecutor<'a> {
    open spec fn output(&self) -> Option<StreamView> {
        Some(self.rows@)
    }

    open spec fn out_schema(&self) -> SchemaView {
        self.plan.schema@
    }

    open spec fn unopened(&self) -> Seq<char> {
        ""@
    }

    fn next(&mut self) -> (res: Result<Option<(Tuple, RecordId)>, ExecutorError>) {
        self.rows.next()
    }

    fn schema(&self) -> (res: &Schema) {
        &self.plan.schema
    }

    fn close(&mut self) -> (res: Result<(), ExecutorError>) {
        Ok(())
    }
}

/// Keeps the rows on which a predicate is true.
pub struct FilterExecutor<'a> {
    pub plan: &'a FilterPlanNode,
    pub child: RowStream,
    pub child_schema: &'a Schema,
    pub output: Option<RowStream>,
}

/// A row on which the predicate is true, or nothing.
pub open spec fn filter_part(
    fl: spec_fn(FloatOp, u32, u32) -> u32,
    predicate: Expression,
    rows: Seq<RowView>,
    s: SchemaView,
) -> spec_fn(int) -> StreamView {
    |i: int|
        match eval(fl, predicate, rows[i].0, s) {
            Err(e) => fails(e),
            Ok(v) => if v == boolean(true) {
                rows_only(seq![rows[i]])
            } else {
                rows_only(Seq::empty())
            },
        }
}

pub open spec fn filter_stream(
    fl: spec_fn(FloatOp, u32, u32) -> u32,
    predicate: Expression,
    child: StreamView,
    s: SchemaView,
) -> StreamView {
    ending(flat(filter_part(fl, predicate, child.rows, s), child.rows.len() as int), child.error)
}

/// A stream without a failure of its own ends as the one it came from.
fn end_with(out: &mut RowStream, error: Option<ExecutorError>)
    ensures
        final(out)@ == ending(old(out)@, error_view(error)),
{
    if out.error.is_none() {
        out.error = error;
    }
}

impl<'a> FilterExecutor<'a> {
    pub fn new(plan: &'a FilterPlanNode, child: RowStream, child_schema: &'a Schema) -> (res: Self)
        ensures
            res.plan == plan,
            res.child == child,
            res.child_schema == child_schema,
            res.output is None,
    {
        FilterExecutor { plan, child, child_schema, output: None }
    }

    pub fn open<F: Fn(FloatOp, u32, u32) -> u32>(&mut self, fl: &F)
        requires
            computes(*fl),
        ensures
            final(self).plan == old(self).plan,
            final(self).output matches Some(s) && s@ == filter_stream(
                results(*fl),
                old(self).plan.predicate,
                old(self).child@,
                old(self).child_schema@,
            ),
    {
        let ghost rows = self.child@.rows;
        let ghost f = filter_part(results(*fl), self.plan.predicate, rows, self.child_schema@);
        let mut out = RowStream::empty();
        let mut i: usize = 0;
        while out.error.is_none() && i < self.child.rows.len()
            invariant
                i <= self.child.rows@.len(),
                computes(*fl),
                *self == *old(self),
                rows == self.child@.rows,
                f == filter_part(results(*fl), self.plan.predicate, rows, self.child_schema@),
                out@ == flat(f, i as int),
            decreases self.child.rows@.len() - i,
        {
            let row = &self.child.rows[i];
            assert(rows[i as int] == row_view(*row));
            let ghost before = out@;
            match self.plan.predicate.evaluate(&row.0, self.child_schema, fl) {
                Ok(Some(Value::BOOLEAN(true))) => {
                    out.add(clone_tuple(&row.0), row.1);
                    assert(out@.rows =~= before.rows + seq![rows[i as int]]);
                },
                Ok(_) => {
                    assert(out@.rows =~= before.rows + Seq::empty());
                },
                Err(e) => {
                    out.error = Some(e);
                    assert(out@.rows =~= before.rows + Seq::empty());
                },
            }
            i += 1;
            assert(out@ == flat(f, i as int));
        }
        proof {
            if out@.error is Some {
                lemma_flat_stops(f, i as int, rows.len() as int);
            }
        }
        let error = self.child.error.take();
        end_with(&mut out, error);
        self.output = Some(out);
    }
}

impl<'a> Executor for FilterExecutor<'a> {
    open spec fn output(&self) -> Option<StreamView> {
        stream_view(self.output)
    }

    open spec fn out_schema(&self) -> SchemaView {
        self.plan.schema@
    }

    open spec fn unopened(&self) -> Seq<char> {
        "FilterExecutor::next called before open"@
    }

    fn next(&mut self) -> (res: Result<Option<(Tuple, RecordId)>, ExecutorError>) {
        pull(&mut self.output, "FilterExecutor::next called before open")
    }

    fn schema(&self) -> (res: &Schema) {
        &self.plan.schema
    }

    fn close(&mut self) -> (res: Result<(), ExecutorError>) {
        Ok(())
    }
}

/// Computes the columns of the result from each row.
pub struct ProjectionExecutor<'a> {
    pub plan: &'a ProjectionPlanNode,
    pub child: RowStream,
    pub child_schema: &'a Schema,
    pub output: Option<RowStream>,
}

pub open spec fn projection_part(
    fl: spec_fn(FloatOp, u32, u32) -> u32,
    exprs: Seq<Expression>,
    rows: Seq<RowView>,
    s: SchemaView,
    out: SchemaView,
) -> spec_fn(int) -> StreamView {
    |i: int| one_row(shaped(fl, exprs, rows[i].0, s, out))
}

pub open spec fn projection_stream(
    fl: spec_fn(FloatOp, u32, u32) -> u32,
    exprs: Seq<Expression>,
    child: StreamView,
    s: SchemaView,
    out: SchemaView,
) -> StreamView {
    ending(
        flat(projection_part(fl, exprs, child.rows, s, out), child.rows.len() as int),
        child.error,
    )
}

impl<'a> ProjectionExecutor<'a> {
    pub fn new(plan: &'a ProjectionPlanNode, child: RowStream, child_schema: &'a Schema) -> (res:
        Self)
        ensures
            res.plan == plan,
            res.child == child,
            res.child_schema == child_schema,
            res.output is None,
    {
        ProjectionExecutor { plan, child, child_schema, output: None }
    }

    pub fn open<F: Fn(FloatOp, u32, u32) -> u32>(&mut self, fl: &F)
        requires
            computes(*fl),
            old(self).plan.schema@.wf(),
        ensures
            final(self).plan == old(self).plan,
            final(self).output matches Some(s) && s@ == projection_stream(
                results(*fl),
                old(self).plan.expressions@,
                old(self).child@,
                old(self).child_schema@,
                old(self).plan.schema@,
            ),
    {
        let ghost rows = self.child@.rows;
        let ghost f = projection_part(
            results(*fl),
            self.plan.expressions@,
            rows,
            self.child_schema@,
            self.plan.schema@,
        );
        let mut out = RowStream::empty();
        let mut i: usize = 0;
        let mut going: bool = true;
        while going && i < self.child.rows.len()
            invariant
                i <= self.child.rows@.len(),
                computes(*fl),
                *self == *old(self),
                self.plan.schema@.wf(),
                rows == self.child@.rows,
                f == projection_part(
                    results(*fl),
                    self.plan.expressions@,
                    rows,
                    self.child_schema@,
                    self.plan.schema@,
                ),
                out@ == flat(f, i as int),
                going == (out@.error is None),
            decreases self.child.rows@.len() - i,
        {
            let row = &self.child.rows[i];
            assert(rows[i as int] == row_view(*row));
            let shaped_row = shape(
                &self.plan.expressions,
                &row.0,
                self.child_schema,
                &self.plan.schema,
                fl,
            );
            going = add_one(&mut out, shaped_row);
            i += 1;
            assert(out@ == flat(f, i as int));
        }
        proof {
            if !going {
                lemma_flat_stops(f, i as int, rows.len() as int);
            }
        }
        let error = self.child.error.take();
        end_with(&mut out, error);
        self.output = Some(out);
    }
}

impl<'a> Executor for ProjectionExecutor<'a> {
    open spec fn output(&self) -> Option<StreamView> {
        stream_view(self.output)
    }

    open spec fn out_schema(&self) -> SchemaView {
        self.plan.schema@
    }

    open spec fn unopened(&self) -> Seq<char> {
        "ProjectionExecutor::next called before open"@
    }

    fn next(&mut self) -> (res: Result<Option<(Tuple, RecordId)>, ExecutorError>) {
        pull(&mut self.output, "ProjectionExecutor::next called before open")
    }

    fn schema(&self) -> (res: &Schema) {
        &self.plan.schema
    }

    fn close(&mut self) -> (res: Result<(), ExecutorError>) {
        Ok(())
    }
}

/// Passes on a number of rows.
pub struct LimitExecutor<'a> {
    pub plan: &'a LimitPlanNode,
    pub child: RowStream,
    pub count: u32,
}

/// The first rows of a stream. It ends where one row more would have come; where none would,
/// it ends as the stream does.
pub open spec fn limited(child: StreamView, limit: int) -> StreamView {
    if child.rows.len() > limit {
        rows_only(child.rows.subrange(0, limit))
    } else {
        child
    }
}

impl<'a> LimitExecutor<'a> {
    pub fn new(plan: &'a LimitPlanNode, child: RowStream) -> (res: Self)
        ensures
            res.plan == plan,
            res.child == child,
            res.count == 0,
    {
        LimitExecutor { plan, child, count: 0 }
    }

    /// What is still to come.
    pub open spec fn remaining(&self) -> StreamView {
        limited(self.child@, self.plan.limit - self.count)
    }

    pub fn next(&mut self) -> (res: Result<Option<(Tuple, RecordId)>, ExecutorError>)
        requires
            old(self).count <= old(self).plan.limit,
        ensures
            final(self).plan == old(self).plan,
            final(self).count <= final(self).plan.limit,
            ({
                let before = old(self).remaining();
                if before.rows.len() > 0 {
                    &&& res matches Ok(Some(row)) && row_view(row) == before.rows[0]
                    &&& final(self).remaining() == (StreamView {
                        rows: before.rows.drop_first(),
                        error: before.error,
                    })
                } else {
                    match before.error {
                        Some(m) => res matches Err(e) && e.0@ == m,
                        None => res matches Ok(None),
                    }
                }
            }),
    {
        match self.child.next() {
            Ok(Some(row)) => {
                if self.count >= self.plan.limit {
                    assert(old(self).remaining().rows =~= Seq::empty());
                    return Ok(None);
                }
                self.count = self.count + 1;
                proof {
                    assert(self.remaining().rows =~= old(self).remaining().rows.drop_first());
                }
                Ok(Some(row))
            },
            Ok(None) => Ok(None),
            Err(e) => Err(e),
        }
    }

    /// Takes all the rows that the limit lets through.
    pub fn drain(&mut self) -> (res: RowStream)
        requires
            old(self).count <= old(self).plan.limit,
        ensures
            res@ == old(self).remaining(),
    {
        let ghost all = self.remaining();
        let mut out = RowStream::empty();
        assert(all.rows =~= Seq::empty() + self.remaining().rows);
        loop
            invariant_except_break
                self.count <= self.plan.limit,
                out@.error is None,
                all.rows == out@.rows + self.remaining().rows,
                all.error == self.remaining().error,
            ensures
                out@ == all,
            decreases self.remaining().rows.len(),
        {
            let ghost rest = self.remaining().rows;
            match self.next() {
                Ok(Some(row)) => {
                    let ghost before = out@.rows;
                    out.add(row.0, row.1);
                    proof {
                        assert(rest =~= seq![row_view(row)] + self.remaining().rows);
                        assert(before + rest =~= out@.rows + self.remaining().rows);
                    }
                },
                Ok(None) => {
                    assert(out@.rows =~= all.rows);
                    break ;
                },
                Err(e) => {
                    out.error = Some(e);
                    assert(out@.rows =~= all.rows);
                    break ;
                },
            }
        }
        out
    }

    pub fn schema(&self) -> (res: &Schema)
        ensures
            res == self.plan.schema,
    {
        &self.plan.schema
    }
}

/// Sorts all rows.
pub struct SortExecutor<'a> {
    pub plan: &'a SortPlanNode,
    pub child: RowStream,
    pub output: Option<RowStream>,
}

/// `out` holds the rows of `child` sorted by the expressions.
pub open spec fn sorts(
    fl: spec_fn(FloatOp, u32, u32) -> u32,
    exprs: Seq<Expression>,
    s: SchemaView,
    child: Seq<RowView>,
    out: StreamView,
) -> bool {
    out.error is None && is_stable_sort(sort_keys(fl, exprs, child, s), child, out.rows)
}

/// The rows of a stream, or its error.
pub(crate) fn drained(child: RowStream) -> (res: Result<Vec<(Tuple, RecordId)>, ExecutorError>)
    ensures
        match res {
            Ok(rows) => child@.error is None && row_views(rows@) == child@.rows,
            Err(e) => child@.error == Some(e.0@),
        },
{
    match child.error {
        Some(e) => Err(e),
        None => Ok(child.rows),
    }
}

/// Takes a stream out and leaves an empty one.
pub(crate) fn take_stream(s: &mut RowStream) -> (res: RowStream)
    ensures
        res@ == old(s)@,
{
    let mut rows: Vec<(Tuple, RecordId)> = Vec::new();
    rows.append(&mut s.rows);
    assert(rows@ =~= old(s).rows@);
    RowStream { rows, error: s.error.take() }
}

impl<'a> SortExecutor<'a> {
    pub fn new(plan: &'a SortPlanNode, child: RowStream) -> (res: Self)
        ensures
            res.plan == plan,
            res.child == child,
            res.output is None,
    {
        SortExecutor { plan, child, output: None }
    }

    pub fn open<F: Fn(FloatOp, u32, u32) -> u32>(&mut self, fl: &F) -> (res: Result<
        (),
        ExecutorError,
    >)
        requires
            computes(*fl),
        ensures
            final(self).plan == old(self).plan,
            match res {
                Ok(_) => {
                    &&& old(self).child@.error is None
                    &&& final(self).output matches Some(s) && sorts(
                        results(*fl),
                        old(self).plan.order_by_exprs@,
                        old(self).plan.schema@,
                        old(self).child@.rows,
                        s@,
                    )
                },
                Err(e) => old(self).child@.error == Some(e.0@),
            },
    {
        match drained(take_stream(&mut self.child)) {
            Ok(rows) => {
                let sorted = sort_rows(rows, &self.plan.order_by_exprs, &self.plan.schema, fl);
                self.output = Some(RowStream { rows: sorted, error: None });
                Ok(())
            },
            Err(e) => Err(e),
        }
    }
}

impl<'a> Executor for SortExecutor<'a> {
    open spec fn output(&self) -> Option<StreamView> {
        Some(left_over(self.output))
    }

    open spec fn out_schema(&self) -> SchemaView {
        self.plan.schema@
    }

    open spec fn unopened(&self) -> Seq<char> {
        ""@
    }

    fn next(&mut self) -> (res: Result<Option<(Tuple, RecordId)>, ExecutorError>) {
        pull_any(&mut self.output)
    }

    fn schema(&self) -> (res: &Schema) {
        &self.plan.schema
    }

    fn close(&mut self) -> (res: Result<(), ExecutorError>) {
        Ok(())
    }
}

/// Computes aggregates over groups of rows.
pub struct AggregationExecutor<'a> {
    pub plan: &'a AggregationPlanNode,
    pub child: RowStream,
    pub child_schema: &'a Schema,
    pub output: Option<RowStream>,
}

/// The tuple of a group: the values its rows agree in, then the aggregates.
pub open spec fn group_tuple(
    fl: spec_fn(FloatOp, u32, u32) -> u32,
    g: GroupView,
    out: SchemaView,
) -> Result<Seq<u8>, Seq<char>> {
    match state_values(fl, g.states, g.states.len() as int) {
        Err(e) => Err(e),
        Ok(vs) => encoded(out, g.key + vs),
    }
}

pub open spec fn groups_part(
    fl: spec_fn(FloatOp, u32, u32) -> u32,
    groups: Seq<GroupView>,
    out: SchemaView,
) -> spec_fn(int) -> StreamView {
    |i: int| one_row(group_tuple(fl, groups[i], out))
}

/// A row for each group, in the order in which the groups began; nothing but the error where a
/// row could not be aggregated.
pub open spec fn aggregation_stream(
    fl: spec_fn(FloatOp, u32, u32) -> u32,
    group_bys: Seq<Expression>,
    aggs: Seq<(Expression, AggType)>,
    child: StreamView,
    s: SchemaView,
    out: SchemaView,
) -> StreamView {
    match grouped(fl, group_bys, aggs, child.rows, s, child.rows.len() as int) {
        Err(e) => fails(e),
        Ok(groups) => match child.error {
            Some(e) => fails(e),
            None => flat(groups_part(fl, groups, out), groups.len() as int),
        },
    }
}

impl<'a> AggregationExecutor<'a> {
    pub fn new(plan: &'a AggregationPlanNode, child: RowStream, child_schema: &'a Schema) -> (res:
        Self)
        ensures
            res.plan == plan,
            res.child == child,
            res.child_schema == child_schema,
            res.output is None,
    {
        AggregationExecutor { plan, child, child_schema, output: None }
    }

    /// The groups of all rows of the child.
    fn gather<F: Fn(FloatOp, u32, u32) -> u32>(&self, fl: &F) -> (res: Result<
        Vec<Group>,
        ExecutorError,
    >)
        requires
            computes(*fl),
        ensures
            ({
                let groups = grouped(
                    results(*fl),
                    self.plan.group_bys@,
                    self.plan.aggregates@,
                    self.child@.rows,
                    self.child_schema@,
                    self.child@.rows.len() as int,
                );
                match res {
                    Ok(g) => groups == Ok::<Seq<GroupView>, Seq<char>>(group_views(g@)),
                    Err(e) => groups == Err::<Seq<GroupView>, Seq<char>>(e.0@),
                }
            }),
    {
        let ghost rows = self.child@.rows;
        let mut groups: Vec<Group> = Vec::new();
        let mut i: usize = 0;
        assert(group_views(groups@) =~= Seq::empty());
        while i < self.child.rows.len()
            invariant
                i <= self.child.rows@.len(),
                computes(*fl),
                rows == self.child@.rows,
                grouped(
                    results(*fl),
                    self.plan.group_bys@,
                    self.plan.aggregates@,
                    rows,
                    self.child_schema@,
                    i as int,
                ) == Ok::<Seq<GroupView>, Seq<char>>(group_views(groups@)),
                forall|k: int|
                    0 <= k < groups@.len() ==> (#[trigger] groups@[k]).states@.len()
                        == self.plan.aggregates@.len(),
            decreases self.child.rows@.len() - i,
        {
            let tuple = &self.child.rows[i].0;
            assert(rows[i as int].0 == tuple.data@);
            let key = evaluate_key(&self.plan.group_bys, tuple, self.child_schema, fl);
            match add_to_group(
                &mut groups,
                key,
                &self.plan.aggregates,
                tuple,
                self.child_schema,
                fl,
            ) {
                Ok(_) => {},
                Err(e) => {
                    proof {
                        lemma_grouped_fails(
                            results(*fl),
                            self.plan.group_bys@,
                            self.plan.aggregates@,
                            rows,
                            self.child_schema@,
                            i as int + 1,
                            rows.len() as int,
                        );
                    }
                    return Err(e);
                },
            }
            i += 1;
        }
        Ok(groups)
    }

    /// The tuple of a group.
    fn finish<F: Fn(FloatOp, u32, u32) -> u32>(&self, g: &Group, fl: &F) -> (res: Result<
        Tuple,
        ExecutorError,
    >)
        requires
            computes(*fl),
            self.plan.schema@.wf(),
        ensures
            gives_tuple(res, group_tuple(results(*fl), g@, self.plan.schema@)),
    {
        let mut out: Vec<Option<Value>> = Vec::new();
        let mut i: usize = 0;
        while i < g.key.len()
            invariant
                i <= g.key@.len(),
                out@ == g.key@.subrange(0, i as int),
            decreases g.key@.len() - i,
        {
            out.push(g.key[i]);
            i += 1;
            assert(out@ =~= g.key@.subrange(0, i as int));
        }
        assert(out@ =~= g.key@);
        match read_states(&g.states, &mut out, fl) {
            Ok(_) => encode(&self.plan.schema, &out),
            Err(e) => Err(e),
        }
    }

    pub fn open<F: Fn(FloatOp, u32, u32) -> u32>(&mut self, fl: &F) -> (res: Result<
        (),
        ExecutorError,
    >)
        requires
            computes(*fl),
            old(self).plan.schema@.wf(),
        ensures
            final(self).plan == old(self).plan,
            ({
                let all = aggregation_stream(
                    results(*fl),
                    old(self).plan.group_bys@,
                    old(self).plan.aggregates@,
                    old(self).child@,
                    old(self).child_schema@,
                    old(self).plan.schema@,
                );
                let groups = grouped(
                    results(*fl),
                    old(self).plan.group_bys@,
                    old(self).plan.aggregates@,
                    old(self).child@.rows,
                    old(self).child_schema@,
                    old(self).child@.rows.len() as int,
                );
                let gathered = groups is Ok && old(self).child@.error is None;
                match res {
                    Ok(_) => gathered && (final(self).output matches Some(s) && s@ == all),
                    Err(e) => !gathered && all == fails(e.0@),
                }
            }),
    {
        let groups = match self.gather(fl) {
            Ok(groups) => groups,
            Err(e) => { return Err(e); },
        };
        if let Some(e) = self.child.error.take() {
            return Err(e);
        }
        let ghost f = groups_part(results(*fl), group_views(groups@), self.plan.schema@);
        let mut out = RowStream::empty();
        let mut i: usize = 0;
        let mut going: bool = true;
        while going && i < groups.len()
            invariant
                i <= groups@.len(),
                computes(*fl),
                self.plan == old(self).plan,
                self.plan.schema@.wf(),
                f == groups_part(results(*fl), group_views(groups@), self.plan.schema@),
                out@ == flat(f, i as int),
                going == (out@.error is None),
            decreases groups@.len() - i,
        {
            assert(group_views(groups@)[i as int] == groups@[i as int]@);
            let row = self.finish(&groups[i], fl);
            going = add_one(&mut out, row);
            i += 1;
            assert(out@ == flat(f, i as int));
        }
        proof {
            if !going {
                lemma_flat_stops(f, i as int, groups@.len() as int);
            }
        }
        self.output = Some(out);
        Ok(())
    }
}

impl<'a> Executor for AggregationExecutor<'a> {
    open spec fn output(&self) -> Option<StreamView> {
        stream_view(self.output)
    }

    open spec fn out_schema(&self) -> SchemaView {
        self.plan.schema@
    }

    open spec fn unopened(&self) -> Seq<char> {
        "AggregationExecutor::next called before open"@
    }

    fn next(&mut self) -> (res: Result<Option<(Tuple, RecordId)>, ExecutorError>) {
        pull(&mut self.output, "AggregationExecutor::next called before open")
    }

    fn schema(&self) -> (res: &Schema) {
        &self.plan.schema
    }

    fn close(&mut self) -> (res: Result<(), ExecutorError>) {
        Ok(())
    }
}

} // verus!
