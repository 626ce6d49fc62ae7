//! Running statements: queries, changes to rows, and changes to the catalog.
use vstd::prelude::*;

use crate::buffer_pool::BufferPoolManager;
use crate::catalog::registry::{index_created, index_error_is, is_table_named, table_created, texts};
use crate::catalog::schema::Schema;
use crate::catalog::{Catalog, CatalogError, IndexType};
use crate::index::tree_model::Pages;
use crate::processor::executor::{
    left_over, limited, pull_any, pulled, values_stream, LimitExecutor, ValuesExecutor,
};
use crate::processor::executor_factory::{open_query, run_query};
use crate::processor::expression::{computes, failure, results, ExecutorError, FloatOp};
use crate::processor::join::{loop_join_of, unmatched_stream, NestedLoopJoinExecutor};
use crate::processor::modify::{
    delete_outcome, deletes_made, insert_outcome, pool_kept, rest, single, update_outcome, updated,
    updates_made, DeleteExecutor, InsertExecutor, UpdateExecutor,
};
use crate::processor::plan::{
    CreateIndexPlanNode, CreateTablePlanNode, DeletePlanNode, InsertPlanNode, Plan, UpdatePlanNode,
};
use crate::processor::spill::{kept, worked_aside};
use crate::processor::stream::{
    catalog_failure, catalog_message, fails, row_view, rows_only, RowStream, StreamView,
};
use crate::processor::upkeep::ids_spent;
use crate::table_heap::{RecordId, Tuple};

verus! {

/// The pages that a plan may take have numbers that record ids can hold.
pub open spec fn pages_suffice(bpm: &BufferPoolManager, plan: Plan) -> bool {
    bpm.next_page_id() + plan.page_budget() <= u32::MAX
}

/// The rows of a query were inserted.
pub open spec fn insert_ran(
    fl: spec_fn(FloatOp, u32, u32) -> u32,
    c: &Catalog,
    p0: Pages,
    p1: Pages,
    p: InsertPlanNode,
    s: StreamView,
    spent: bool,
) -> bool {
    exists|t: StreamView, pm: Pages|
        p.child.answers(fl, c, p0, t) && kept(p0, pm) && #[trigger] insert_outcome(
            c,
            p.table_oid,
            pm,
            p1,
            t,
            s,
            spent,
        )
}

/// The rows of a query were updated.
pub open spec fn update_ran(
    fl: spec_fn(FloatOp, u32, u32) -> u32,
    c: &Catalog,
    p0: Pages,
    p1: Pages,
    p: UpdatePlanNode,
    s: StreamView,
    spent: bool,
) -> bool {
    if c.has_table(p.table_oid) {
        exists|t: StreamView, trace: Seq<Pages>|
            p.child.answers(fl, c, p0, t) && trace.len() > 0 && kept(p0, trace[0])
                && #[trigger] updates_made(fl, c, p, trace, p1, t, s, spent)
    } else {
        kept(p0, p1) && s == fails(catalog_message(CatalogError::TableDoesNotExist))
    }
}

/// The rows of a query were deleted.
pub open spec fn delete_ran(
    fl: spec_fn(FloatOp, u32, u32) -> u32,
    c: &Catalog,
    p0: Pages,
    p1: Pages,
    p: DeletePlanNode,
    s: StreamView,
    spent: bool,
) -> bool {
    if c.has_table(p.table_oid) {
        exists|t: StreamView, trace: Seq<Pages>|
            p.child.answers(fl, c, p0, t) && trace.len() > 0 && kept(p0, trace[0])
                && #[trigger] deletes_made(c, p, trace, p1, t, s, spent)
    } else {
        kept(p0, p1) && s == fails(catalog_message(CatalogError::TableDoesNotExist))
    }
}

/// A table was created, or why not.
pub open spec fn create_table_ran(
    a: &Catalog,
    b: &Catalog,
    bpm: &BufferPoolManager,
    p1: Pages,
    p: CreateTablePlanNode,
    s: StreamView,
) -> bool {
    let p0 = bpm.pages();
    if exists|i: int| is_table_named(a.tables@, p.table_name@, i) {
        *b == *a && p1 == p0 && s == if p.if_not_exists {
            rows_only(Seq::empty())
        } else {
            fails(catalog_message(CatalogError::TableExists))
        }
    } else if a.next_table_oid == u32::MAX || bpm.next_page_id() >= u32::MAX {
        *b == *a && p1 == p0 && s == fails("no table can be created any more"@)
    } else {
        s == rows_only(Seq::empty()) && table_created(
            a,
            b,
            p0,
            p1,
            p.table_name@,
            p.schema@,
        )
    }
}

/// The names of the columns at some positions of a schema.
pub open spec fn names_at(
    cols: Seq<crate::catalog::schema::Column>,
    idxs: Seq<u32>,
) -> Seq<Seq<char>> {
    Seq::new(idxs.len(), |k: int| cols[idxs[k] as int].name@)
}

/// An index was created, or why not.
pub open spec fn create_index_ran(
    a: &Catalog,
    b: &Catalog,
    bpm: &BufferPoolManager,
    p1: Pages,
    p: CreateIndexPlanNode,
    s: StreamView,
) -> bool {
    let p0 = bpm.pages();
    let cols = a.table(p.table_oid).schema@.cols;
    let in_range = forall|k: int|
        0 <= k < p.key_columns@.len() ==> #[trigger] p.key_columns@[k] < cols.len();
    if !a.has_table(p.table_oid) {
        *b == *a && p1 == p0 && s == fails(catalog_message(CatalogError::TableDoesNotExist))
    } else if !in_range {
        *b == *a && p1 == p0 && s == fails(catalog_message(CatalogError::ColumnNotFound))
    } else if a.next_index_oid == u32::MAX || p.key_columns@.len() > usize::MAX / 16 {
        *b == *a && p1 == p0 && s == fails("no index can be created any more"@)
    } else {
        let names = names_at(cols, p.key_columns@);
        match s.error {
            None => s == rows_only(Seq::empty()) && index_created(
                a,
                b,
                p0,
                p1,
                p.table_oid,
                p.index_name@,
                names,
            ),
            Some(m) => {
                &&& *b == *a && p1 == p0 && s.rows.len() == 0
                &&& exists|e: CatalogError| #[trigger]
                    index_error_is(a, bpm, p.table_oid, p.index_name@, names, e) && m
                        == catalog_message(e)
            },
        }
    }
}

/// Inserts the rows of a query.
fn run_insert<F: Fn(FloatOp, u32, u32) -> u32>(
    catalog: &Catalog,
    bpm: &mut BufferPoolManager,
    p: &InsertPlanNode,
    fl: &F,
) -> (res: RowStream)
    requires
        computes(*fl),
        old(bpm).wf(),
        old(bpm).ready(),
        old(bpm).ids_fresh(),
        catalog.wf(old(bpm).pages()),
        p.child.wf(),
    ensures
        pool_kept(old(bpm), final(bpm)),
        catalog.wf(final(bpm).pages()),
        pages_suffice(old(bpm), *p.child) ==> insert_ran(
            results(*fl),
            catalog,
            old(bpm).pages(),
            final(bpm).pages(),
            *p,
            res@,
            ids_spent(final(bpm)),
        ),
{
    let child = run_query(catalog, bpm, &*p.child, fl);
    let ghost t = child@;
    let ghost pm = bpm.pages();
    let mut e = InsertExecutor::new(p, child);
    match e.open(catalog) {
        Ok(_) => {},
        Err(x) => {
            let out = RowStream::failed(x);
            assert(insert_outcome(catalog, p.table_oid, pm, bpm.pages(), t, out@, ids_spent(bpm)));
            return out;
        },
    }
    let done = e.next(catalog, bpm);
    let ghost s = single(done);
    assert(insert_outcome(catalog, p.table_oid, pm, bpm.pages(), t, s, ids_spent(bpm)));
    match done {
        Ok(Some(row)) => {
            let mut out = RowStream::empty();
            out.add(row.0, row.1);
            assert(out@.rows =~= seq![row_view(row)]);
            out
        },
        Ok(None) => RowStream::empty(),
        Err(x) => RowStream::failed(x),
    }
}

/// Updates the rows of a query.
fn run_update<F: Fn(FloatOp, u32, u32) -> u32>(
    catalog: &Catalog,
    bpm: &mut BufferPoolManager,
    p: &UpdatePlanNode,
    fl: &F,
) -> (res: RowStream)
    requires
        computes(*fl),
        old(bpm).wf(),
        old(bpm).ready(),
        old(bpm).ids_fresh(),
        catalog.wf(old(bpm).pages()),
        p.child.wf(),
        p.schema@.wf(),
    ensures
        pool_kept(old(bpm), final(bpm)),
        catalog.wf(final(bpm).pages()),
        pages_suffice(old(bpm), *p.child) ==> update_ran(
            results(*fl),
            catalog,
            old(bpm).pages(),
            final(bpm).pages(),
            *p,
            res@,
            ids_spent(final(bpm)),
        ),
{
    let child = run_query(catalog, bpm, &*p.child, fl);
    let mut e = UpdateExecutor::new(p, child);
    match e.open(catalog) {
        Ok(_) => {},
        Err(x) => { return RowStream::failed(x); },
    }
    e.drain(catalog, bpm, fl)
}

/// Deletes the rows of a query.
fn run_delete<F: Fn(FloatOp, u32, u32) -> u32>(
    catalog: &Catalog,
    bpm: &mut BufferPoolManager,
    p: &DeletePlanNode,
    fl: &F,
) -> (res: RowStream)
    requires
        computes(*fl),
        old(bpm).wf(),
        old(bpm).ready(),
        old(bpm).ids_fresh(),
        catalog.wf(old(bpm).pages()),
        p.child.wf(),
    ensures
        pool_kept(old(bpm), final(bpm)),
        catalog.wf(final(bpm).pages()),
        pages_suffice(old(bpm), *p.child) ==> delete_ran(
            results(*fl),
            catalog,
            old(bpm).pages(),
            final(bpm).pages(),
            *p,
            res@,
            ids_spent(final(bpm)),
        ),
{
    let child = run_query(catalog, bpm, &*p.child, fl);
    let mut e = DeleteExecutor::new(p, child);
    match e.open(catalog) {
        Ok(_) => {},
        Err(x) => { return RowStream::failed(x); },
    }
    e.drain(catalog, bpm)
}

/// Creates a table.
fn run_create_table(catalog: &mut Catalog, bpm: &mut BufferPoolManager, p: &CreateTablePlanNode) -> (res:
    RowStream)
    requires
        old(bpm).wf(),
        old(bpm).ready(),
        old(bpm).ids_fresh(),
        old(catalog).wf(old(bpm).pages()),
        p.schema@.wf(),
    ensures
        pool_kept(old(bpm), final(bpm)),
        final(catalog).wf(final(bpm).pages()),
        create_table_ran(
            old(catalog),
            final(catalog),
            old(bpm),
            final(bpm).pages(),
            *p,
            res@,
        ),
{
    match catalog.table_oid(p.table_name.as_str()) {
        Ok(_) => {
            if p.if_not_exists {
                return RowStream::empty();
            }
            return RowStream::failed(catalog_failure(CatalogError::TableExists));
        },
        Err(_) => {},
    }
    if catalog.next_table_oid == u32::MAX || bpm.next_id() >= u32::MAX as usize {
        return RowStream::failed(failure("no table can be created any more"));
    }
    match catalog.create_table(bpm, p.table_name.clone(), p.schema.clone()) {
        Ok(_) => RowStream::empty(),
        Err(e) => RowStream::failed(catalog_failure(e)),
    }
}

/// The names of the columns at some positions; `None` where a position is past the end.
fn column_names(schema: &Schema, idxs: &Vec<u32>) -> (res: Option<Vec<String>>)
    ensures
        match res {
            Some(names) => {
                &&& names@.len() == idxs@.len()
                &&& forall|k: int|
                    0 <= k < idxs@.len() ==> #[trigger] idxs@[k] < schema@.cols.len()
                &&& forall|k: int|
                    0 <= k < idxs@.len() ==> (#[trigger] names@[k])@ == schema@.cols[
                        idxs@[k] as int].name@
            },
            None => exists|k: int|
                0 <= k < idxs@.len() && #[trigger] idxs@[k] >= schema@.cols.len(),
        },
{
    let mut names: Vec<String> = Vec::new();
    let mut k: usize = 0;
    while k < idxs.len()
        invariant
            k <= idxs@.len(),
            names@.len() == k,
            forall|x: int| 0 <= x < k ==> #[trigger] idxs@[x] < schema@.cols.len(),
            forall|x: int|
                0 <= x < k ==> (#[trigger] names@[x])@ == schema@.cols[idxs@[x] as int].name@,
        decreases idxs@.len() - k,
    {
        let i: usize = idxs[k] as usize;
        if i >= schema.cols.len() {
            assert(idxs@[k as int] >= schema@.cols.len());
            return None;
        }
        names.push(schema.cols[i].name.clone());
        k += 1;
    }
    Some(names)
}

/// Creates an index.
fn run_create_index(catalog: &mut Catalog, bpm: &mut BufferPoolManager, p: &CreateIndexPlanNode) -> (res:
    RowStream)
    requires
        old(bpm).wf(),
        old(bpm).ready(),
        old(bpm).ids_fresh(),
        old(catalog).wf(old(bpm).pages()),
    ensures
        pool_kept(old(bpm), final(bpm)),
        final(catalog).wf(final(bpm).pages()),
        create_index_ran(
            old(catalog),
            final(catalog),
            old(bpm),
            final(bpm).pages(),
            *p,
            res@,
        ),
{
    let names = match catalog.get_table(p.table_oid) {
        Ok(table) => match column_names(&table.schema, &p.key_columns) {
            Some(names) => names,
            None => {
                return RowStream::failed(catalog_failure(CatalogError::ColumnNotFound));
            },
        },
        Err(e) => { return RowStream::failed(catalog_failure(e)); },
    };
    if catalog.next_index_oid == u32::MAX || p.key_columns.len() > usize::MAX / 16 {
        return RowStream::failed(failure("no index can be created any more"));
    }
    let ghost cols = catalog.table(p.table_oid).schema@.cols;
    let ghost wanted = names_at(cols, p.key_columns@);
    let mut refs: Vec<&str> = Vec::new();
    let mut k: usize = 0;
    while k < names.len()
        invariant
            k <= names@.len(),
            refs@.len() == k,
            forall|x: int| 0 <= x < k ==> (#[trigger] refs@[x])@ == names@[x]@,
        decreases names@.len() - k,
    {
        refs.push(names[k].as_str());
        k += 1;
    }
    proof {
        assert(texts(refs@) =~= wanted) by {
            assert forall|x: int| 0 <= x < wanted.len() implies texts(refs@)[x] == wanted[x] by {
                assert(refs@[x]@ == names@[x]@);
                assert(names@[x]@ == cols[p.key_columns@[x] as int].name@);
            }
        }
    }
    match catalog.create_index(
        bpm,
        p.table_oid,
        p.index_name.clone(),
        refs.as_slice(),
        IndexType::BPlusTree,
    ) {
        Ok(_) => RowStream::empty(),
        Err(e) => {
            assert(index_error_is(
                old(catalog),
                old(bpm),
                p.table_oid,
                p.index_name@,
                wanted,
                e,
            ));
            RowStream::failed(catalog_failure(e))
        },
    }
}

/// Runs a plan and gives its rows: those of a query, the number of inserted rows, the rows that
/// were updated or deleted, or none for a change to the catalog.
pub fn run_statement<F: Fn(FloatOp, u32, u32) -> u32>(
    catalog: &mut Catalog,
    bpm: &mut BufferPoolManager,
    plan: &Plan,
    fl: &F,
) -> (res: RowStream)
    requires
        computes(*fl),
        old(bpm).wf(),
        old(bpm).ready(),
        old(bpm).ids_fresh(),
        old(catalog).wf(old(bpm).pages()),
        plan.wf(),
    ensures
        pool_kept(old(bpm), final(bpm)),
        final(catalog).wf(final(bpm).pages()),
        statement_ran(
            results(*fl),
            old(catalog),
            final(catalog),
            old(bpm),
            final(bpm).pages(),
            *plan,
            res@,
            ids_spent(final(bpm)),
        ),
{
    match plan {
        Plan::Insert(p) => run_insert(catalog, bpm, p, fl),
        Plan::Update(p) => run_update(catalog, bpm, p, fl),
        Plan::Delete(p) => run_delete(catalog, bpm, p, fl),
        Plan::CreateTable(p) => run_create_table(catalog, bpm, p),
        Plan::CreateIndex(p) => run_create_index(catalog, bpm, p),
        Plan::DropTable(p) => {
            let _ = catalog.drop_table(p.table_oid);
            RowStream::empty()
        },
        Plan::DropIndex(p) => {
            let _ = catalog.drop_index(p.index_oid);
            RowStream::empty()
        },
        _ => run_query(catalog, bpm, plan, fl),
    }
}

/// What running a plan did to the catalog and the pages, and what it gave.
pub open spec fn statement_ran(
    fl: spec_fn(FloatOp, u32, u32) -> u32,
    a: &Catalog,
    b: &Catalog,
    bpm: &BufferPoolManager,
    p1: Pages,
    plan: Plan,
    s: StreamView,
    spent: bool,
) -> bool {
    let p0 = bpm.pages();
    match plan {
        Plan::Insert(p) => *b == *a && (pages_suffice(bpm, *p.child) ==> insert_ran(
            fl,
            a,
            p0,
            p1,
            p,
            s,
            spent,
        )),
        Plan::Update(p) => *b == *a && (pages_suffice(bpm, *p.child) ==> update_ran(
            fl,
            a,
            p0,
            p1,
            p,
            s,
            spent,
        )),
        Plan::Delete(p) => *b == *a && (pages_suffice(bpm, *p.child) ==> delete_ran(
            fl,
            a,
            p0,
            p1,
            p,
            s,
            spent,
        )),
        Plan::CreateTable(p) => create_table_ran(a, b, bpm, p1, p, s),
        Plan::CreateIndex(p) => create_index_ran(a, b, bpm, p1, p, s),
        Plan::DropTable(p) => {
            &&& p1 == p0
            &&& s == rows_only(Seq::empty())
            &&& b.next_table_oid == a.next_table_oid
            &&& b.next_index_oid == a.next_index_oid
            &&& a.has_table(p.table_oid) ==> {
                &&& b.tables@ == a.tables@.remove(a.table_pos(p.table_oid))
                &&& b.indexes@ == crate::catalog::registry::indexes_elsewhere(
                    a.indexes@,
                    p.table_oid,
                )
            }
            &&& !a.has_table(p.table_oid) ==> *b == *a
        },
        Plan::DropIndex(p) => {
            &&& p1 == p0
            &&& s == rows_only(Seq::empty())
            &&& b.tables@ == a.tables@
            &&& b.next_table_oid == a.next_table_oid
            &&& b.next_index_oid == a.next_index_oid
            &&& b.indexes@ == if a.has_index(p.index_oid) {
                a.indexes@.remove(a.index_pos(p.index_oid))
            } else {
                a.indexes@
            }
        },
        _ => *b == *a && kept(p0, p1) && (pages_suffice(bpm, plan) ==> plan.answers(fl, a, p0, s)),
    }
}

/// A plan that is run step by step. Nothing is done before it is opened.
pub struct PlanExecutor<'a> {
    pub plan: &'a Plan,
    pub opened: bool,
    pub done: bool,
    /// What a query still gives, or the rows that are still to be updated or deleted.
    pub rows: Option<RowStream>,
}

/// An executor for a plan. It is to be opened before it is asked for rows.
pub fn create_executor<'a>(plan: &'a Plan) -> (res: PlanExecutor<'a>)
    ensures
        res.plan == plan,
        !res.opened,
        !res.done,
        res.rows is None,
{
    PlanExecutor { plan, opened: false, done: false, rows: None }
}

/// The table that a plan changes.
pub open spec fn changed_table(plan: Plan) -> Option<u32> {
    match plan {
        Plan::Insert(p) => Some(p.table_oid),
        Plan::Update(p) => Some(p.table_oid),
        Plan::Delete(p) => Some(p.table_oid),
        _ => None,
    }
}

/// The plan changes the catalog.
pub open spec fn changes_catalog(plan: Plan) -> bool {
    plan is CreateTable || plan is CreateIndex || plan is DropTable || plan is DropIndex
}

/// The rows that a plan is to change, and the pages once they were read: those that were read
/// before, else what the query below the plan gives.
pub open spec fn rows_to_change(
    fl: spec_fn(FloatOp, u32, u32) -> u32,
    c: &Catalog,
    child: Plan,
    before: Option<RowStream>,
    p0: Pages,
    t: StreamView,
    pm: Pages,
) -> bool {
    match before {
        Some(s) => t == s@ && pm == p0,
        None => child.answers(fl, c, p0, t) && kept(p0, pm),
    }
}

impl<'a> PlanExecutor<'a> {
    /// Opens the plan: runs a query, and looks up the table of a change. Nothing is changed yet.
    pub fn open<F: Fn(FloatOp, u32, u32) -> u32>(
        &mut self,
        catalog: &Catalog,
        bpm: &mut BufferPoolManager,
        fl: &F,
    ) -> (res: Result<(), ExecutorError>)
        requires
            computes(*fl),
            old(bpm).wf(),
            old(bpm).ready(),
            old(bpm).ids_fresh(),
            catalog.wf(old(bpm).pages()),
            old(self).plan.wf(),
        ensures
            worked_aside(old(bpm), final(bpm)),
            catalog.wf(final(bpm).pages()),
            final(self).plan == old(self).plan,
            final(self).done == old(self).done,
            res is Ok ==> final(self).opened,
            match changed_table(*old(self).plan) {
                Some(oid) => {
                    &&& final(bpm).pages() == old(bpm).pages()
                    &&& final(self).rows == old(self).rows
                    &&& match res {
                        Ok(_) => catalog.has_table(oid),
                        Err(e) => !catalog.has_table(oid) && e.0@ == catalog_message(
                            CatalogError::TableDoesNotExist,
                        ),
                    }
                },
                None => if changes_catalog(*old(self).plan) {
                    res is Ok && final(bpm).pages() == old(bpm).pages() && final(self).rows == old(
                        self).rows
                } else {
                    &&& res is Ok ==> final(self).rows is Some
                    &&& pages_suffice(old(bpm), *old(self).plan) ==> old(self).plan.opens(
                        results(*fl),
                        catalog,
                        old(bpm).pages(),
                        match res {
                            Ok(_) => final(self).rows->0@,
                            Err(e) => fails(e.0@),
                        },
                        res is Err,
                    )
                },
            },
    {
        let oid: u32 = match self.plan {
            Plan::Insert(p) => p.table_oid,
            Plan::Update(p) => p.table_oid,
            Plan::Delete(p) => p.table_oid,
            Plan::CreateTable(_) | Plan::CreateIndex(_) | Plan::DropTable(_) | Plan::DropIndex(
                _,
            ) => {
                self.opened = true;
                return Ok(());
            },
            _ => {
                return match open_query(catalog, bpm, self.plan, fl) {
                    Ok(s) => {
                        self.rows = Some(s);
                        self.opened = true;
                        Ok(())
                    },
                    Err(e) => Err(e),
                };
            },
        };
        match catalog.get_table(oid) {
            Ok(_) => {
                self.opened = true;
                Ok(())
            },
            Err(e) => Err(catalog_failure(e)),
        }
    }
}

/// What a plan gives that is asked for rows before it is opened: an error where it has to be
/// opened, else what can be had without its tables.
pub open spec fn unopened_stream(fl: spec_fn(FloatOp, u32, u32) -> u32, plan: Plan) -> Result<
    StreamView,
    Seq<char>,
>
    decreases plan,
{
    match plan {
        Plan::Values(p) => Ok(values_stream(fl, p.rows@, p.schema@)),
        Plan::Sort(_) => Ok(rows_only(Seq::empty())),
        Plan::HashJoin(_) => Ok(rows_only(Seq::empty())),
        Plan::Limit(p) => match unopened_stream(fl, *p.child) {
            Ok(t) => Ok(limited(t, p.limit as int)),
            Err(e) => Err(e),
        },
        Plan::NestedLoopJoin(p) => match unopened_stream(fl, *p.left) {
            Ok(t) => Ok(
                unmatched_stream(loop_join_of(p, p.left.out_schema(), p.right.out_schema()), t),
            ),
            Err(e) => Err(e),
        },
        Plan::SeqScan(_) => Err("SeqScanExecutor::next called before open"@),
        Plan::IndexScan(_) => Err("IndexScanExecutor::next called before open"@),
        Plan::Insert(_) => Err("InsertExecutor::next called before open"@),
        Plan::Update(_) => Err("UpdateExecutor::next called before open"@),
        Plan::Delete(_) => Err("DeleteExecutor::next called before open"@),
        Plan::Aggregation(_) => Err("AggregationExecutor::next called before open"@),
        Plan::NestedIndexJoin(_) => Err("NestedIndexJoinExecutor::next called before open"@),
        Plan::WindowFunction(_) => Err("WindowFunctionExecutor::next called before open"@),
        Plan::ExternalMergeSort(_) => Err("ExternalMergeSortExecutor: next(): ran before open"@),
        Plan::Filter(_) => Err("FilterExecutor::next called before open"@),
        Plan::Projection(_) => Err("ProjectionExecutor::next called before open"@),
        _ => Err("PlanExecutor::next called before open"@),
    }
}

fn unopened<F: Fn(FloatOp, u32, u32) -> u32>(plan: &Plan, fl: &F) -> (res: Result<
    RowStream,
    ExecutorError,
>)
    requires
        computes(*fl),
        plan.wf(),
    ensures
        match unopened_stream(results(*fl), *plan) {
            Ok(t) => res matches Ok(s) && s@ == t,
            Err(m) => res matches Err(e) && e.0@ == m,
        },
    decreases *plan,
{
    match plan {
        Plan::Values(p) => Ok(ValuesExecutor::new(p, fl).rows),
        Plan::Sort(_) => Ok(RowStream::empty()),
        Plan::HashJoin(_) => Ok(RowStream::empty()),
        Plan::Limit(p) => match unopened(&*p.child, fl) {
            Ok(t) => Ok(LimitExecutor::new(p, t).drain()),
            Err(e) => Err(e),
        },
        Plan::NestedLoopJoin(p) => match unopened(&*p.left, fl) {
            Ok(t) => Ok(
                NestedLoopJoinExecutor::new(
                    p,
                    t,
                    p.left.schema(),
                    RowStream::empty(),
                    p.right.schema(),
                ).output,
            ),
            Err(e) => Err(e),
        },
        Plan::SeqScan(_) => Err(failure("SeqScanExecutor::next called before open")),
        Plan::IndexScan(_) => Err(failure("IndexScanExecutor::next called before open")),
        Plan::Insert(_) => Err(failure("InsertExecutor::next called before open")),
        Plan::Update(_) => Err(failure("UpdateExecutor::next called before open")),
        Plan::Delete(_) => Err(failure("DeleteExecutor::next called before open")),
        Plan::Aggregation(_) => Err(failure("AggregationExecutor::next called before open")),
        Plan::NestedIndexJoin(_) => {
            Err(failure("NestedIndexJoinExecutor::next called before open"))
        },
        Plan::WindowFunction(_) => {
            Err(failure("WindowFunctionExecutor::next called before open"))
        },
        Plan::ExternalMergeSort(_) => {
            Err(failure("ExternalMergeSortExecutor: next(): ran before open"))
        },
        Plan::Filter(_) => Err(failure("FilterExecutor::next called before open")),
        Plan::Projection(_) => Err(failure("ProjectionExecutor::next called before open")),
        _ => Err(failure("PlanExecutor::next called before open")),
    }
}

/// Takes the next row of an open plan.
pub open spec fn plan_stepped(
    fl: spec_fn(FloatOp, u32, u32) -> u32,
    a: PlanExecutor<'_>,
    b: PlanExecutor<'_>,
    c: &Catalog,
    d: &Catalog,
    bpm: &BufferPoolManager,
    p1: Pages,
    res: Result<Option<(Tuple, RecordId)>, ExecutorError>,
    spent: bool,
) -> bool {
    let p0 = bpm.pages();
    match *a.plan {
        Plan::Insert(p) => *d == *c && if a.done {
            p1 == p0 && (res matches Err(e) && e.0@ == "already executed"@)
        } else {
            &&& b.done == (res is Ok)
            &&& b.rows is Some
            &&& a.rows is Some || pages_suffice(bpm, *p.child) ==> exists|
                t: StreamView,
                pm: Pages,
            | #[trigger]
                rows_to_change(fl, c, *p.child, a.rows, p0, t, pm) && insert_outcome(
                    c,
                    p.table_oid,
                    pm,
                    p1,
                    t,
                    single(res),
                    spent,
                )
        },
        Plan::Update(p) => {
            let oid = p.table_oid;
            &&& *d == *c
            &&& b.rows is Some
            &&& a.rows is Some || pages_suffice(bpm, *p.child) ==> exists|
                t: StreamView,
                pm: Pages,
            | #[trigger]
                rows_to_change(fl, c, *p.child, a.rows, p0, t, pm) && if !c.has_table(oid) {
                    p1 == pm && (res matches Err(e) && e.0@ == catalog_message(
                        CatalogError::TableDoesNotExist,
                    ))
                } else if t.rows.len() == 0 {
                    p1 == pm && single(res) == t
                } else {
                    b.rows->0@ == rest(t) && update_outcome(
                        c,
                        oid,
                        c.table_pos(oid),
                        pm,
                        p1,
                        t.rows[0],
                        updated(fl, p.target_exprs@, t.rows[0].0, p.schema@),
                        res,
                        spent,
                    )
                }
        },
        Plan::Delete(p) => {
            let oid = p.table_oid;
            &&& *d == *c
            &&& b.rows is Some
            &&& a.rows is Some || pages_suffice(bpm, *p.child) ==> exists|
                t: StreamView,
                pm: Pages,
            | #[trigger]
                rows_to_change(fl, c, *p.child, a.rows, p0, t, pm) && if !c.has_table(oid) {
                    p1 == pm && (res matches Err(e) && e.0@ == catalog_message(
                        CatalogError::TableDoesNotExist,
                    ))
                } else if t.rows.len() == 0 {
                    p1 == pm && single(res) == t
                } else {
                    b.rows->0@ == rest(t) && delete_outcome(
                        c,
                        oid,
                        c.table_pos(oid),
                        pm,
                        p1,
                        t.rows[0],
                        res,
                        spent,
                    )
                }
        },
        _ => if changes_catalog(*a.plan) {
            if a.done {
                *d == *c && p1 == p0 && (res matches Ok(None))
            } else {
                b.done && statement_ran(fl, c, d, bpm, p1, *a.plan, single(res), spent)
            }
        } else {
            *d == *c && p1 == p0 && pulled(Some(left_over(a.rows)), Some(left_over(b.rows)), res, ""@)
        },
    }
}

impl<'a> PlanExecutor<'a> {
    /// Takes the next row: of a query, the number of rows that were inserted, or a row once it was
    /// updated or deleted. A change to the catalog gives none.
    pub fn next<F: Fn(FloatOp, u32, u32) -> u32>(
        &mut self,
        catalog: &mut Catalog,
        bpm: &mut BufferPoolManager,
        fl: &F,
    ) -> (res: Result<Option<(Tuple, RecordId)>, ExecutorError>)
        requires
            computes(*fl),
            old(bpm).wf(),
            old(bpm).ready(),
            old(bpm).ids_fresh(),
            old(catalog).wf(old(bpm).pages()),
            old(self).plan.wf(),
        ensures
            pool_kept(old(bpm), final(bpm)),
            final(catalog).wf(final(bpm).pages()),
            final(self).plan == old(self).plan,
            final(self).opened == old(self).opened,
            if old(self).opened {
                plan_stepped(
                    results(*fl),
                    *old(self),
                    *final(self),
                    old(catalog),
                    final(catalog),
                    old(bpm),
                    final(bpm).pages(),
                    res,
                    ids_spent(final(bpm)),
                )
            } else {
                &&& *final(catalog) == *old(catalog)
                &&& final(bpm).pages() == old(bpm).pages()
                &&& match (old(self).rows, unopened_stream(results(*fl), *old(self).plan)) {
                    (Some(s), _) => pulled(
                        Some(s@),
                        Some(left_over(final(self).rows)),
                        res,
                        ""@,
                    ),
                    (None, Ok(t)) => pulled(
                        Some(t),
                        Some(left_over(final(self).rows)),
                        res,
                        ""@,
                    ),
                    (None, Err(m)) => final(self).rows is None && (res matches Err(e) && e.0@ == m),
                }
            },
    {
        if !self.opened {
            if self.rows.is_none() {
                match unopened(self.plan, fl) {
                    Ok(s) => { self.rows = Some(s); },
                    Err(e) => { return Err(e); },
                }
            }
            return pull_any(&mut self.rows);
        }
        match self.plan {
            Plan::Insert(p) => {
                if self.done {
                    return Err(failure("already executed"));
                }
                let ghost before = self.rows;
                let ghost p0 = bpm.pages();
                let child = match self.rows.take() {
                    Some(s) => s,
                    None => run_query(catalog, bpm, &*p.child, fl),
                };
                let ghost (t, pm) = (child@, bpm.pages());
                let mut e = InsertExecutor { plan: p, child, opened: true, done: false };
                let res = e.next(catalog, bpm);
                self.rows = Some(e.child);
                self.done = e.done;
                proof {
                    if before is Some || pages_suffice(old(bpm), *p.child) {
                        assert(rows_to_change(
                            results(*fl),
                            catalog,
                            *p.child,
                            before,
                            p0,
                            t,
                            pm,
                        ));
                    }
                }
                res
            },
            Plan::Update(p) => {
                let ghost before = self.rows;
                let ghost p0 = bpm.pages();
                let child = match self.rows.take() {
                    Some(s) => s,
                    None => run_query(catalog, bpm, &*p.child, fl),
                };
                let ghost (t, pm) = (child@, bpm.pages());
                let mut e = UpdateExecutor { plan: p, child, opened: true };
                let res = e.next(catalog, bpm, fl);
                self.rows = Some(e.child);
                proof {
                    if before is Some || pages_suffice(old(bpm), *p.child) {
                        assert(rows_to_change(
                            results(*fl),
                            catalog,
                            *p.child,
                            before,
                            p0,
                            t,
                            pm,
                        ));
                        assert(t.rows.len() == 0 ==> t.rows =~= Seq::empty());
                    }
                }
                res
            },
            Plan::Delete(p) => {
                let ghost before = self.rows;
                let ghost p0 = bpm.pages();
                let child = match self.rows.take() {
                    Some(s) => s,
                    None => run_query(catalog, bpm, &*p.child, fl),
                };
                let ghost (t, pm) = (child@, bpm.pages());
                let mut e = DeleteExecutor { plan: p, child, opened: true };
                let res = e.next(catalog, bpm);
                self.rows = Some(e.child);
                proof {
                    if before is Some || pages_suffice(old(bpm), *p.child) {
                        assert(rows_to_change(
                            results(*fl),
                            catalog,
                            *p.child,
                            before,
                            p0,
                            t,
                            pm,
                        ));
                        assert(t.rows.len() == 0 ==> t.rows =~= Seq::empty());
                    }
                }
                res
            },
            Plan::CreateTable(_) | Plan::CreateIndex(_) | Plan::DropTable(_) | Plan::DropIndex(
                _,
            ) => {
                if self.done {
                    return Ok(None);
                }
                self.done = true;
                let mut out = run_statement(catalog, bpm, self.plan, fl);
                let ghost all = out@;
                let res = out.next();
                assert(single(res) =~= all);
                res
            },
            _ => pull_any(&mut self.rows),
        }
    }

    /// The schema of the rows.
    pub fn schema(&self) -> (res: &Schema)
        ensures
            res@ == self.plan.out_schema(),
    {
        self.plan.schema()
    }

    /// Ends the plan. There is nothing to be done for it.
    pub fn close(&mut self) -> (res: Result<(), ExecutorError>)
        ensures
            res is Ok,
            *final(self) == *old(self),
    {
        Ok(())
    }
}

} // verus!
