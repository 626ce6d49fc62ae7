//! Rows that are put aside on pages, and sorting that works on such runs.
use vstd::prelude::*;

use crate::buffer_pool::BufferPoolManager;
use crate::catalog::schema::{Schema, SchemaView};
use crate::catalog::value::Value;
use crate::disk::PAGE_SIZE;
use crate::index::tree_model::Pages;
use crate::processor::executor::{pull, stream_view, Executor};
use crate::processor::expression::{computes, results, ExecutorError, FloatOp};
use crate::processor::plan::ExternalMergeSortPlanNode;
use crate::processor::sorting::{
    arranged, is_stable_sort, lemma_order_covers, merge_rows, row_before, sort_keys, sort_part,
    sorted_part,
};
use crate::processor::stream::{
    clone_tuple, error_view, fails, heap_failure, heap_message, row_views, rows_only, unstored,
    RowStream, RowView, StreamView,
};
use crate::table_heap::{
    directory_end, insert_message, scanned, RecordId, Row, TableHeap, TableHeapError, Tuple, SLOT_BYTES,
};

verus! {

/// Pages that were there hold what they held.
pub open spec fn kept(p0: Pages, p1: Pages) -> bool {
    forall|p: usize| #[trigger] p0.contains_key(p) ==> p1.contains_key(p) && p1[p] == p0[p]
}

/// What work on pages of its own leaves as it was.
pub open spec fn worked_aside(a: &BufferPoolManager, b: &BufferPoolManager) -> bool {
    &&& b.wf()
    &&& b.ready()
    &&& b.ids_fresh()
    &&& a.next_page_id() <= b.next_page_id()
    &&& kept(a.pages(), b.pages())
    &&& forall|q: usize| #[trigger] b.pins(q) == a.pins(q)
}

/// The bytes that rows and their slots take.
pub open spec fn total_bytes(rows: Seq<RowView>) -> int
    decreases rows.len(),
{
    if rows.len() == 0 {
        0
    } else {
        total_bytes(rows.drop_last()) + rows.last().0.len() + SLOT_BYTES
    }
}

/// The room that a table has left once it holds these rows.
pub open spec fn room_after(rows: Seq<RowView>) -> int {
    PAGE_SIZE - directory_end(0) - total_bytes(rows)
}

/// Why a table that holds these rows does not take one of `len` bytes; `None` where it does.
pub open spec fn row_error(had: Seq<RowView>, len: int) -> Option<Seq<char>> {
    if len + SLOT_BYTES <= room_after(had) {
        None
    } else {
        Some(heap_message(insert_message(had.len() as int, room_after(had), len)))
    }
}

/// Why rows do not fit into a table of their own; `None` where they do.
pub open spec fn aside_error(rows: Seq<RowView>) -> Option<Seq<char>>
    decreases rows.len(),
{
    if rows.len() == 0 {
        None
    } else {
        match aside_error(rows.drop_last()) {
            Some(e) => Some(e),
            None => row_error(rows.drop_last(), rows.last().0.len() as int),
        }
    }
}

/// The error of a table for which there is no page.
pub open spec fn no_page() -> Seq<char> {
    heap_message("failed to allocate first page: No free frame available"@)
}

/// The table holds these rows and nothing else.
pub open spec fn holds(heap: TableHeap, pages: Pages, rows: Seq<RowView>) -> bool {
    &&& heap.wf(pages)
    &&& heap.rows(pages).len() == rows.len()
    &&& forall|i: int|
        0 <= i < rows.len() ==> #[trigger] heap.rows(pages)[i] == (Row {
            deleted: false,
            data: rows[i].0,
        })
    &&& heap.room(pages) == room_after(rows)
}

/// A row was added to a table.
pub proof fn lemma_row_held(heap: TableHeap, p0: Pages, p1: Pages, rows: Seq<RowView>, row: RowView)
    requires
        holds(heap, p0, rows),
        heap.wf(p1),
        heap.rows(p1) == heap.rows(p0).push(Row { deleted: false, data: row.0 }),
        heap.room(p1) == heap.room(p0) - row.0.len() - SLOT_BYTES,
    ensures
        holds(heap, p1, rows.push(row)),
{
    let after = rows.push(row);
    assert(after.drop_last() =~= rows);
    assert forall|i: int| 0 <= i < after.len() implies #[trigger] heap.rows(p1)[i] == (Row {
        deleted: false,
        data: after[i].0,
    }) by {
        if i < rows.len() {
            assert(heap.rows(p0)[i] == (Row { deleted: false, data: rows[i].0 }));
        }
    }
}

/// Rows that fit into a table take no more bytes than a page has.
proof fn lemma_aside_bytes(rows: Seq<RowView>)
    requires
        aside_error(rows) is None,
    ensures
        total_bytes(rows) <= PAGE_SIZE,
    decreases rows.len(),
{
    if rows.len() > 0 {
        lemma_aside_bytes(rows.drop_last());
    }
}

/// Once a row does not fit, those behind it do not matter.
proof fn lemma_aside_stops(rows: Seq<RowView>, m: int)
    requires
        0 <= m <= rows.len(),
        aside_error(rows.subrange(0, m)) is Some,
    ensures
        aside_error(rows) == aside_error(rows.subrange(0, m)),
    decreases rows.len(),
{
    if m < rows.len() {
        assert(rows.drop_last().subrange(0, m) =~= rows.subrange(0, m));
        lemma_aside_stops(rows.drop_last(), m);
    } else {
        assert(rows.subrange(0, m) =~= rows);
    }
}

/// The error of a table for which there is no page.
pub fn no_page_failure() -> (res: ExecutorError)
    ensures
        res.0@ == no_page(),
{
    heap_failure(
        TableHeapError("failed to allocate first page: No free frame available".to_owned()),
    )
}

/// Creates an empty table.
pub fn new_run(bpm: &mut BufferPoolManager) -> (res: Result<TableHeap, ExecutorError>)
    requires
        old(bpm).wf(),
        old(bpm).ready(),
        old(bpm).ids_fresh(),
    ensures
        worked_aside(old(bpm), final(bpm)),
        res is Ok <==> old(bpm).next_page_id() < u32::MAX,
        match res {
            Ok(h) => {
                &&& holds(h, final(bpm).pages(), Seq::empty())
                &&& !old(bpm).pages().contains_key(h.last_page_id)
                &&& final(bpm).next_page_id() == old(bpm).next_page_id() + 1
            },
            Err(e) => {
                &&& e.0@ == no_page()
                &&& final(bpm).next_page_id() == old(bpm).next_page_id()
            },
        },
{
    let id: usize = bpm.next_id();
    if id >= u32::MAX as usize {
        return Err(no_page_failure());
    }
    match TableHeap::new(bpm) {
        Ok(h) => Ok(h),
        Err(e) => Err(heap_failure(e)),
    }
}

/// Puts rows aside on a page of their own.
pub fn spill(bpm: &mut BufferPoolManager, rows: &Vec<(Tuple, RecordId)>) -> (res: Result<
    TableHeap,
    ExecutorError,
>)
    requires
        old(bpm).wf(),
        old(bpm).ready(),
        old(bpm).ids_fresh(),
    ensures
        worked_aside(old(bpm), final(bpm)),
        old(bpm).next_page_id() >= u32::MAX ==> {
            &&& res matches Err(e) && e.0@ == no_page()
            &&& final(bpm).next_page_id() == old(bpm).next_page_id()
        },
        old(bpm).next_page_id() < u32::MAX ==> {
            &&& final(bpm).next_page_id() == old(bpm).next_page_id() + 1
            &&& match res {
                Ok(h) => {
                    &&& aside_error(row_views(rows@)) is None
                    &&& holds(h, final(bpm).pages(), row_views(rows@))
                    &&& !old(bpm).pages().contains_key(h.last_page_id)
                },
                Err(e) => aside_error(row_views(rows@)) == Some(e.0@),
            }
        },
{
    let heap = match new_run(bpm) {
        Ok(h) => h,
        Err(e) => { return Err(e); },
    };
    let ghost all = row_views(rows@);
    let mut i: usize = 0;
    assert(all.subrange(0, 0) =~= Seq::empty());
    while i < rows.len()
        invariant
            i <= rows@.len(),
            all == row_views(rows@),
            worked_aside(old(bpm), bpm),
            old(bpm).ids_fresh(),
            bpm.next_page_id() == old(bpm).next_page_id() + 1,
            old(bpm).next_page_id() < u32::MAX,
            !old(bpm).pages().contains_key(heap.last_page_id),
            holds(heap, bpm.pages(), all.subrange(0, i as int)),
            aside_error(all.subrange(0, i as int)) is None,
        decreases rows@.len() - i,
    {
        let ghost before = bpm.pages();
        let ghost had = all.subrange(0, i as int);
        let ghost next = all.subrange(0, i + 1);
        proof {
            assert(all[i as int].0 == rows@[i as int].0.data@);
            assert(next.drop_last() =~= had);
            assert(next.last() == all[i as int]);
            assert(next =~= had.push(all[i as int]));
        }
        match heap.insert(bpm, &rows[i].0) {
            Ok(_) => {},
            Err(e) => {
                proof {
                    lemma_aside_stops(all, i + 1);
                }
                return Err(heap_failure(e));
            },
        }
        proof {
            lemma_row_held(heap, before, bpm.pages(), had, all[i as int]);
        }
        i += 1;
    }
    assert(all.subrange(0, i as int) =~= all);
    Ok(heap)
}

/// The rows of a table as a stream gives them that stores none of them.
pub open spec fn set_aside(rows: Seq<RowView>) -> Seq<RowView> {
    Seq::new(rows.len(), |i: int| unstored(rows[i].0))
}

/// Where nothing was deleted, all rows are live.
proof fn lemma_all_live(heap: TableHeap, pages: Pages, rows: Seq<RowView>, n: int)
    requires
        holds(heap, pages, rows),
        0 <= n <= rows.len(),
    ensures
        heap.live_rows(pages, n).len() == n,
        forall|i: int| 0 <= i < n ==> (#[trigger] heap.live_rows(pages, n)[i]).1 == rows[i].0,
    decreases n,
{
    if n > 0 {
        lemma_all_live(heap, pages, rows, n - 1);
        assert(heap.rows(pages)[n - 1] == (Row { deleted: false, data: rows[n - 1].0 }));
        let rest = heap.live_rows(pages, n - 1);
        assert(heap.live_rows(pages, n) == rest.push((heap.rid(n - 1), rows[n - 1].0)));
    }
}

/// Reads rows back that were put aside.
pub(crate) fn read_back(bpm: &mut BufferPoolManager, heap: &TableHeap, Ghost(rows): Ghost<Seq<RowView>>) -> (res:
    Vec<(Tuple, RecordId)>)
    requires
        old(bpm).wf(),
        old(bpm).ready(),
        holds(*heap, old(bpm).pages(), rows),
    ensures
        final(bpm).wf(),
        final(bpm).ready(),
        final(bpm).same_pages(old(bpm)),
        row_views(res@) == set_aside(rows),
{
    let ghost pages = bpm.pages();
    let found = heap.scan(bpm);
    proof {
        lemma_all_live(*heap, pages, rows, rows.len() as int);
        assert(scanned(found@).len() == rows.len());
    }
    let mut out: Vec<(Tuple, RecordId)> = Vec::new();
    let mut i: usize = 0;
    assert(row_views(out@) =~= set_aside(rows).subrange(0, 0));
    while i < found.len()
        invariant
            i <= found@.len(),
            found@.len() == rows.len(),
            scanned(found@) == heap.live_rows(pages, rows.len() as int),
            forall|k: int|
                0 <= k < rows.len() ==> (#[trigger] heap.live_rows(
                    pages,
                    rows.len() as int,
                )[k]).1 == rows[k].0,
            bpm.wf(),
            bpm.ready(),
            bpm.same_pages(old(bpm)),
            row_views(out@) == set_aside(rows).subrange(0, i as int),
        decreases found@.len() - i,
    {
        assert(scanned(found@)[i as int].1 == found@[i as int].1.data@);
        assert(heap.live_rows(pages, rows.len() as int)[i as int].1 == rows[i as int].0);
        let ghost before = out@;
        out.push((clone_tuple(&found[i].1), RecordId::reserved()));
        proof {
            assert(row_views(out@) =~= row_views(before).push(set_aside(rows)[i as int]));
            assert(set_aside(rows).subrange(0, i + 1) =~= set_aside(rows).subrange(
                0,
                i as int,
            ).push(set_aside(rows)[i as int]));
        }
        i += 1;
    }
    assert(set_aside(rows).subrange(0, i as int) =~= set_aside(rows));
    out
}

/// How many bytes of rows make a run.
pub const RUN_BYTES: usize = 40_960_000;

/// Sorts rows in runs that are put aside and then merged two at a time.
pub struct ExternalMergeSortExecutor<'a> {
    pub plan: &'a ExternalMergeSortPlanNode,
    pub child: RowStream,
    pub output: Option<RowStream>,
}

/// The bytes of the first `n` rows.
pub open spec fn data_bytes(rows: Seq<RowView>, n: int) -> int
    decreases n,
{
    if n <= 0 {
        0
    } else {
        data_bytes(rows, n - 1) + rows[n - 1].0.len()
    }
}

/// The first `m` rows, and no fewer, make a run.
pub open spec fn is_run(rows: Seq<RowView>, m: int) -> bool {
    0 < m <= rows.len() && data_bytes(rows, m - 1) < RUN_BYTES <= data_bytes(rows, m)
}

/// `out` is what putting the first `m` rows aside, in the order of their keys, and reading them
/// back gives.
pub open spec fn sorted_aside(
    keys: Seq<Seq<Option<Value>>>,
    rows: Seq<RowView>,
    m: int,
    out: StreamView,
) -> bool {
    exists|order: Seq<int>| #[trigger]
        sorted_part(keys, order, 0, m) && out == match aside_error(arranged(rows, order)) {
            None => rows_only(arranged(rows, order)),
            Some(e) => fails(e),
        }
}

/// What putting rows aside in sorted runs and reading them back in order gives, where the rows
/// end in `error`. A run that is full does not fit on its page. `ids` tells whether there is a
/// page for a run.
pub open spec fn runs_answer(
    keys: Seq<Seq<Option<Value>>>,
    rows: Seq<RowView>,
    error: Option<Seq<char>>,
    ids: bool,
    out: StreamView,
) -> bool {
    if exists|m: int| is_run(rows, m) {
        if ids {
            exists|m: int| #[trigger] is_run(rows, m) && sorted_aside(keys, rows, m, out)
        } else {
            out == fails(no_page())
        }
    } else {
        match error {
            Some(e) => out == fails(e),
            None => if ids {
                sorted_aside(keys, rows, rows.len() as int, out)
            } else {
                out == fails(no_page())
            },
        }
    }
}

/// What sorting in runs gives: the rows in order, unless the input fails or a run does not fit
/// on its page.
pub open spec fn merge_sort_answers(
    fl: spec_fn(FloatOp, u32, u32) -> u32,
    plan: ExternalMergeSortPlanNode,
    child: StreamView,
    ids: bool,
    out: StreamView,
) -> bool {
    let rows = set_aside(child.rows);
    runs_answer(
        sort_keys(fl, plan.order_by_exprs@, rows, plan.schema@),
        rows,
        child.error,
        ids,
        out,
    )
}

proof fn lemma_bytes_removed(rows: Seq<RowView>, x: int)
    requires
        0 <= x < rows.len(),
    ensures
        total_bytes(rows) == total_bytes(rows.remove(x)) + rows[x].0.len() + SLOT_BYTES,
    decreases rows.len(),
{
    if x == rows.len() - 1 {
        assert(rows.remove(x) =~= rows.drop_last());
    } else {
        lemma_bytes_removed(rows.drop_last(), x);
        assert(rows.remove(x).drop_last() =~= rows.drop_last().remove(x));
        assert(rows.remove(x).last() == rows.last());
    }
}

/// Rows in any order take no fewer bytes than they hold.
proof fn lemma_arranged_bytes(
    keys: Seq<Seq<Option<Value>>>,
    rows: Seq<RowView>,
    order: Seq<int>,
    m: int,
)
    requires
        sorted_part(keys, order, 0, m),
        0 <= m <= rows.len() == keys.len(),
        forall|i: int, j: int|
            0 <= i < keys.len() && 0 <= j < keys.len() ==> #[trigger] keys[i].len()
                == #[trigger] keys[j].len(),
    ensures
        data_bytes(rows, m) <= total_bytes(arranged(rows, order)),
    decreases m,
{
    if m > 0 {
        lemma_order_covers(keys, order, m);
        assert(order.contains(m - 1));
        let x = choose|x: int| 0 <= x < order.len() && order[x] == m - 1;
        let rest = order.remove(x);
        assert forall|a: int| 0 <= a < rest.len() implies 0 <= #[trigger] rest[a] < m - 1 by {
            let b = if a < x { a } else { a + 1 };
            assert(rest[a] == order[b] && b != x);
        }
        assert forall|a: int, b: int| 0 <= a < b < rest.len() implies row_before(
            keys,
            #[trigger] rest[a],
            #[trigger] rest[b],
        ) by {
            let c = if a < x { a } else { a + 1 };
            let d = if b < x { b } else { b + 1 };
            assert(row_before(keys, order[c], order[d]));
        }
        lemma_arranged_bytes(keys, rows, rest, m - 1);
        assert(arranged(rows, order).remove(x) =~= arranged(rows, rest));
        lemma_bytes_removed(arranged(rows, order), x);
    } else {
        lemma_bytes_not_negative(arranged(rows, order));
    }
}

proof fn lemma_bytes_not_negative(rows: Seq<RowView>)
    ensures
        0 <= total_bytes(rows),
    decreases rows.len(),
{
    if rows.len() > 0 {
        lemma_bytes_not_negative(rows.drop_last());
    }
}

/// A run that is full does not fit on a page.
proof fn lemma_full_run(
    keys: Seq<Seq<Option<Value>>>,
    rows: Seq<RowView>,
    order: Seq<int>,
    m: int,
)
    requires
        sorted_part(keys, order, 0, m),
        is_run(rows, m),
        rows.len() == keys.len(),
        forall|i: int, j: int|
            0 <= i < keys.len() && 0 <= j < keys.len() ==> #[trigger] keys[i].len()
                == #[trigger] keys[j].len(),
    ensures
        aside_error(arranged(rows, order)) is Some,
{
    lemma_arranged_bytes(keys, rows, order, m);
    if aside_error(arranged(rows, order)) is None {
        lemma_aside_bytes(arranged(rows, order));
    }
}

proof fn lemma_bytes_grow(rows: Seq<RowView>, m: int, n: int)
    requires
        m <= n,
    ensures
        data_bytes(rows, m) <= data_bytes(rows, n),
    decreases n - m,
{
    if m < n {
        lemma_bytes_grow(rows, m, n - 1);
    }
}

/// Where sorting in runs does not fail, it sorts.
pub proof fn law_merge_sort_sorts(
    fl: spec_fn(FloatOp, u32, u32) -> u32,
    plan: ExternalMergeSortPlanNode,
    child: StreamView,
    ids: bool,
    out: StreamView,
)
    requires
        merge_sort_answers(fl, plan, child, ids, out),
        out.error is None,
    ensures
        child.error is None,
        is_stable_sort(
            sort_keys(fl, plan.order_by_exprs@, set_aside(child.rows), plan.schema@),
            set_aside(child.rows),
            out.rows,
        ),
{
    let rows = set_aside(child.rows);
    let keys = sort_keys(fl, plan.order_by_exprs@, rows, plan.schema@);
    if exists|m: int| is_run(rows, m) {
        let m = choose|m: int| #[trigger] is_run(rows, m) && sorted_aside(keys, rows, m, out);
        let order = choose|order: Seq<int>| #[trigger]
            sorted_part(keys, order, 0, m) && out == match aside_error(arranged(rows, order)) {
                None => rows_only(arranged(rows, order)),
                Some(e) => fails(e),
            };
        lemma_full_run(keys, rows, order, m);
    }
}

/// Why rows could not be put aside.
spec fn refused(e: Seq<char>) -> bool {
    e == no_page() || exists|rows: Seq<RowView>| #[trigger] aside_error(rows) == Some(e)
}

/// A run holds the rows `lo` to `hi - 1` in the order of their keys.
pub struct RunView {
    pub lo: int,
    pub hi: int,
    pub order: Seq<int>,
}

/// The runs hold all rows up to `hi`, one stretch after the other, each in order.
pub open spec fn runs_hold(
    runs: Seq<TableHeap>,
    views: Seq<RunView>,
    pages: Pages,
    rows: Seq<RowView>,
    keys: Seq<Seq<Option<Value>>>,
    hi: int,
) -> bool {
    &&& runs.len() == views.len()
    &&& if views.len() == 0 {
        hi == 0
    } else {
        views[0].lo == 0 && views.last().hi == hi
    }
    &&& forall|r: int| 0 <= r < views.len() ==> #[trigger] run_holds(runs[r], views[r], pages, rows, keys)
    &&& forall|r: int| 0 < r < views.len() ==> (#[trigger] views[r]).lo == views[r - 1].hi
}

#[verifier::opaque]
pub open spec fn run_holds(
    run: TableHeap,
    view: RunView,
    pages: Pages,
    rows: Seq<RowView>,
    keys: Seq<Seq<Option<Value>>>,
) -> bool {
    &&& 0 <= view.lo <= view.hi <= rows.len()
    &&& sorted_part(keys, view.order, view.lo, view.hi)
    &&& holds(run, pages, arranged(rows, view.order))
}

/// Work aside keeps runs as they are.
proof fn lemma_runs_kept(
    runs: Seq<TableHeap>,
    views: Seq<RunView>,
    p0: Pages,
    p1: Pages,
    rows: Seq<RowView>,
    keys: Seq<Seq<Option<Value>>>,
    hi: int,
)
    requires
        runs_hold(runs, views, p0, rows, keys, hi),
        kept(p0, p1),
    ensures
        runs_hold(runs, views, p1, rows, keys, hi),
{
    reveal(run_holds);
    assert forall|r: int| 0 <= r < views.len() implies #[trigger] run_holds(
        runs[r],
        views[r],
        p1,
        rows,
        keys,
    ) by {
        assert(run_holds(runs[r], views[r], p0, rows, keys));
        assert(p0.contains_key(runs[r].last_page_id));
        let all = arranged(rows, views[r].order);
        assert forall|i: int| 0 <= i < all.len() implies #[trigger] runs[r].rows(p1)[i] == (Row {
            deleted: false,
            data: all[i].0,
        }) by {
            assert(runs[r].rows(p0)[i] == (Row { deleted: false, data: all[i].0 }));
        }
    }
}

/// One more run behind the others.
proof fn lemma_run_added(
    runs: Seq<TableHeap>,
    views: Seq<RunView>,
    pages: Pages,
    rows: Seq<RowView>,
    keys: Seq<Seq<Option<Value>>>,
    hi: int,
    run: TableHeap,
    view: RunView,
)
    requires
        runs_hold(runs, views, pages, rows, keys, hi),
        run_holds(run, view, pages, rows, keys),
        view.lo == hi,
    ensures
        runs_hold(runs.push(run), views.push(view), pages, rows, keys, view.hi),
{
    assert forall|r: int| 0 <= r < views.push(view).len() implies #[trigger] run_holds(
        runs.push(run)[r],
        views.push(view)[r],
        pages,
        rows,
        keys,
    ) by {
        if r < views.len() {
            assert(run_holds(runs[r], views[r], pages, rows, keys));
        }
    }
}

/// The rows of a stream without their places.
fn makes_run(rows: &Vec<(Tuple, RecordId)>) -> (res: bool)
    ensures
        res == exists|m: int| is_run(row_views(rows@), m),
{
    let ghost all = row_views(rows@);
    let mut bytes: usize = 0;
    let mut i: usize = 0;
    while i < rows.len()
        invariant
            i <= rows@.len(),
            all == row_views(rows@),
            bytes == data_bytes(all, i as int),
            bytes < RUN_BYTES,
        decreases rows@.len() - i,
    {
        assert(all[i as int].0 == rows@[i as int].0.data@);
        let size: usize = rows[i].0.data.len();
        assert(data_bytes(all, i + 1) == data_bytes(all, i as int) + size);
        if size >= RUN_BYTES - bytes {
            assert(is_run(all, i + 1));
            return true;
        }
        bytes = bytes + size;
        i += 1;
    }
    assert forall|m: int| !is_run(all, m) by {
        if is_run(all, m) {
            lemma_bytes_grow(all, m, all.len() as int);
        }
    }
    false
}

fn strip(rows: &Vec<(Tuple, RecordId)>) -> (res: Vec<(Tuple, RecordId)>)
    ensures
        row_views(res@) == set_aside(row_views(rows@)),
{
    let ghost all = set_aside(row_views(rows@));
    let mut out: Vec<(Tuple, RecordId)> = Vec::new();
    let mut i: usize = 0;
    assert(row_views(out@) =~= all.subrange(0, 0));
    while i < rows.len()
        invariant
            i <= rows@.len(),
            all == set_aside(row_views(rows@)),
            row_views(out@) == all.subrange(0, i as int),
        decreases rows@.len() - i,
    {
        let ghost before = out@;
        out.push((clone_tuple(&rows[i].0), RecordId::reserved()));
        proof {
            assert(row_views(rows@)[i as int].0 == rows@[i as int].0.data@);
            assert(row_views(out@) =~= row_views(before).push(all[i as int]));
            assert(all.subrange(0, i + 1) =~= all.subrange(0, i as int).push(all[i as int]));
        }
        i += 1;
    }
    assert(all.subrange(0, i as int) =~= all);
    out
}

impl<'a> ExternalMergeSortExecutor<'a> {
    pub fn new(plan: &'a ExternalMergeSortPlanNode, child: RowStream) -> (res: Self)
        ensures
            res.plan == plan,
            res.child == child,
            res.output is None,
    {
        ExternalMergeSortExecutor { plan, child, output: None }
    }

    /// Sorts the rows `lo` and behind it that `part` holds, and puts them aside.
    fn write_run<F: Fn(FloatOp, u32, u32) -> u32>(
        &self,
        bpm: &mut BufferPoolManager,
        part: Vec<(Tuple, RecordId)>,
        fl: &F,
        Ghost(rows): Ghost<Seq<RowView>>,
        Ghost(lo): Ghost<int>,
    ) -> (res: Result<(TableHeap, Ghost<RunView>), ExecutorError>)
        requires
            computes(*fl),
            old(bpm).wf(),
            old(bpm).ready(),
            old(bpm).ids_fresh(),
            0 <= lo,
            lo + part@.len() <= rows.len(),
            row_views(part@) == rows.subrange(lo, lo + part@.len()),
        ensures
            worked_aside(old(bpm), final(bpm)),
            old(bpm).next_page_id() >= u32::MAX ==> {
                &&& res matches Err(e) && e.0@ == no_page()
                &&& final(bpm).next_page_id() == old(bpm).next_page_id()
            },
            old(bpm).next_page_id() < u32::MAX ==> {
                let keys = sort_keys(
                    results(*fl),
                    self.plan.order_by_exprs@,
                    rows,
                    self.plan.schema@,
                );
                &&& final(bpm).next_page_id() == old(bpm).next_page_id() + 1
                &&& match res {
                    Ok((h, view)) => {
                        &&& view@.lo == lo
                        &&& view@.hi == lo + part@.len()
                        &&& aside_error(arranged(rows, view@.order)) is None
                        &&& run_holds(h, view@, final(bpm).pages(), rows, keys)
                    },
                    Err(e) => exists|order: Seq<int>| #[trigger]
                        sorted_part(keys, order, lo, lo + part@.len()) && aside_error(
                            arranged(rows, order),
                        ) == Some(e.0@),
                }
            },
    {
        let ghost n = part@.len() as int;
        let (sorted, Ghost(order)) = sort_part(
            part,
            &self.plan.order_by_exprs,
            &self.plan.schema,
            fl,
            Ghost(rows),
            Ghost(lo),
        );
        assert(row_views(sorted@) =~= arranged(rows, order));
        let outcome = spill(bpm, &sorted);
        proof {
            reveal(run_holds);
        }
        match outcome {
            Ok(h) => Ok((h, Ghost(RunView { lo, hi: lo + n, order }))),
            Err(e) => Err(e),
        }
    }

    /// Puts all rows aside in sorted runs, unless they end in an error. Where none fails there is
    /// one run: a full run does not fit on its page.
    fn write_runs<F: Fn(FloatOp, u32, u32) -> u32>(
        &self,
        bpm: &mut BufferPoolManager,
        rows: &Vec<(Tuple, RecordId)>,
        error: Option<ExecutorError>,
        fl: &F,
    ) -> (res: Result<(Vec<TableHeap>, Ghost<Seq<RunView>>), ExecutorError>)
        requires
            computes(*fl),
            old(bpm).wf(),
            old(bpm).ready(),
            old(bpm).ids_fresh(),
        ensures
            worked_aside(old(bpm), final(bpm)),
            final(bpm).next_page_id() <= old(bpm).next_page_id() + 1,
            ({
                let all = row_views(rows@);
                let keys = sort_keys(
                    results(*fl),
                    self.plan.order_by_exprs@,
                    all,
                    self.plan.schema@,
                );
                let ids = old(bpm).next_page_id() < u32::MAX;
                match res {
                    Ok((runs, views)) => {
                        &&& runs@.len() == 1
                        &&& runs_hold(
                            runs@,
                            views@,
                            final(bpm).pages(),
                            all,
                            keys,
                            all.len() as int,
                        )
                        &&& runs_answer(
                            keys,
                            all,
                            error_view(error),
                            ids,
                            rows_only(arranged(all, views@[0].order)),
                        )
                    },
                    Err(e) => runs_answer(keys, all, error_view(error), ids, fails(e.0@)),
                }
            }),
    {
        let ghost all = row_views(rows@);
        let ghost keys = sort_keys(
            results(*fl),
            self.plan.order_by_exprs@,
            all,
            self.plan.schema@,
        );
        let mut runs: Vec<TableHeap> = Vec::new();
        let ghost mut views: Seq<RunView> = Seq::empty();
        let mut buf: Vec<(Tuple, RecordId)> = Vec::new();
        let mut run_bytes: usize = 0;
        let mut i: usize = 0;
        assert(row_views(buf@) =~= all.subrange(0, 0));
        while i < rows.len()
            invariant
                i <= rows@.len(),
                computes(*fl),
                all == row_views(rows@),
                keys == sort_keys(
                    results(*fl),
                    self.plan.order_by_exprs@,
                    all,
                    self.plan.schema@,
                ),
                worked_aside(old(bpm), bpm),
                bpm.next_page_id() == old(bpm).next_page_id(),
                buf@.len() == i,
                row_views(buf@) == all.subrange(0, i as int),
                run_bytes == data_bytes(all, i as int),
                run_bytes < RUN_BYTES,
                runs@.len() == 0,
                runs_hold(runs@, views, bpm.pages(), all, keys, 0),
            decreases rows@.len() - i,
        {
            assert(all[i as int].0 == rows@[i as int].0.data@);
            let size: usize = rows[i].0.data.len();
            let ghost before = buf@;
            buf.push((clone_tuple(&rows[i].0), rows[i].1));
            proof {
                assert(row_views(buf@) =~= row_views(before).push(all[i as int]));
                assert(all.subrange(0, i + 1) =~= all.subrange(0, i as int).push(all[i as int]));
                assert(data_bytes(all, i + 1) == data_bytes(all, i as int) + size);
            }
            if size >= RUN_BYTES - run_bytes {
                assert(is_run(all, i + 1));
                let part = buf;
                buf = Vec::new();
                match self.write_run(bpm, part, fl, Ghost(all), Ghost(0)) {
                    Ok((h, v)) => {
                        proof {
                            reveal(run_holds);
                            lemma_full_run(keys, all, v@.order, i + 1);
                        }
                        runs.push(h);
                    },
                    Err(e) => {
                        proof {
                            if old(bpm).next_page_id() < u32::MAX {
                                lemma_run_failed(keys, all, i + 1, e.0@);
                            }
                        }
                        return Err(e);
                    },
                }
                run_bytes = 0;
            } else {
                run_bytes = run_bytes + size;
            }
            i += 1;
        }
        assert forall|m: int| !is_run(all, m) by {
            if is_run(all, m) {
                lemma_bytes_grow(all, m, all.len() as int);
            }
        }
        if let Some(e) = error {
            return Err(e);
        }
        match self.write_run(bpm, buf, fl, Ghost(all), Ghost(0)) {
            Ok((h, v)) => {
                let ghost view = v@;
                proof {
                    lemma_runs_kept(runs@, views, old(bpm).pages(), bpm.pages(), all, keys, 0);
                    lemma_run_added(runs@, views, bpm.pages(), all, keys, 0, h, view);
                    reveal(run_holds);
                    assert(sorted_part(keys, view.order, 0, all.len() as int));
                }
                runs.push(h);
                Ok((runs, Ghost(views.push(view))))
            },
            Err(e) => {
                proof {
                    if old(bpm).next_page_id() < u32::MAX {
                        lemma_run_failed(keys, all, all.len() as int, e.0@);
                    }
                }
                Err(e)
            },
        }
    }
}

/// A run that did not fit.
proof fn lemma_run_failed(
    keys: Seq<Seq<Option<Value>>>,
    rows: Seq<RowView>,
    m: int,
    e: Seq<char>,
)
    requires
        exists|order: Seq<int>| #[trigger]
            sorted_part(keys, order, 0, m) && aside_error(arranged(rows, order)) == Some(e),
    ensures
        sorted_aside(keys, rows, m, fails(e)),
{
    let order = choose|order: Seq<int>| #[trigger]
        sorted_part(keys, order, 0, m) && aside_error(arranged(rows, order)) == Some(e);
    assert(sorted_part(keys, order, 0, m));
}

/// Rows without a place, in any order, have none.
proof fn lemma_arranged_aside(rows: Seq<RowView>, order: Seq<int>, lo: int, hi: int)
    requires
        rows == set_aside(rows),
        0 <= lo <= hi <= rows.len(),
        forall|x: int| 0 <= x < order.len() ==> lo <= #[trigger] order[x] < hi,
    ensures
        set_aside(arranged(rows, order)) == arranged(rows, order),
{
    assert forall|i: int| 0 <= i < order.len() implies set_aside(arranged(rows, order))[i]
        == arranged(rows, order)[i] by {
        assert(lo <= order[i] < hi);
        assert(rows[order[i]] == set_aside(rows)[order[i]]);
    }
    assert(set_aside(arranged(rows, order)) =~= arranged(rows, order));
}

impl<'a> ExternalMergeSortExecutor<'a> {
    /// Merges two runs that lie next to each other into a new one.
    fn merge_pair<F: Fn(FloatOp, u32, u32) -> u32>(
        &self,
        bpm: &mut BufferPoolManager,
        a: &TableHeap,
        b: &TableHeap,
        fl: &F,
        Ghost(rows): Ghost<Seq<RowView>>,
        Ghost(va): Ghost<RunView>,
        Ghost(vb): Ghost<RunView>,
    ) -> (res: Result<(TableHeap, Ghost<RunView>), ExecutorError>)
        requires
            computes(*fl),
            old(bpm).wf(),
            old(bpm).ready(),
            old(bpm).ids_fresh(),
            rows == set_aside(rows),
            rows.len() <= usize::MAX,
            va.hi == vb.lo,
            ({
                let keys = sort_keys(
                    results(*fl),
                    self.plan.order_by_exprs@,
                    rows,
                    self.plan.schema@,
                );
                &&& run_holds(*a, va, old(bpm).pages(), rows, keys)
                &&& run_holds(*b, vb, old(bpm).pages(), rows, keys)
            }),
        ensures
            worked_aside(old(bpm), final(bpm)),
            match res {
                Ok((h, view)) => {
                    &&& view@.lo == va.lo
                    &&& view@.hi == vb.hi
                    &&& run_holds(
                        h,
                        view@,
                        final(bpm).pages(),
                        rows,
                        sort_keys(
                            results(*fl),
                            self.plan.order_by_exprs@,
                            rows,
                            self.plan.schema@,
                        ),
                    )
                },
                Err(e) => refused(e.0@),
            },
    {
        proof {
            reveal(run_holds);
        }
        let left = read_back(bpm, a, Ghost(arranged(rows, va.order)));
        let right = read_back(bpm, b, Ghost(arranged(rows, vb.order)));
        proof {
            lemma_arranged_aside(rows, va.order, va.lo, va.hi);
            lemma_arranged_aside(rows, vb.order, vb.lo, vb.hi);
            assert(row_views(left@).len() == left@.len());
            assert(row_views(right@).len() == right@.len());
        }
        let (out, Ghost(order)) = merge_rows(
            &left,
            &right,
            &self.plan.order_by_exprs,
            &self.plan.schema,
            fl,
            Ghost(rows),
            Ghost(va.order),
            Ghost(vb.order),
            Ghost((va.lo, va.hi, vb.hi)),
        );
        match spill(bpm, &out) {
            Ok(h) => Ok((h, Ghost(RunView { lo: va.lo, hi: vb.hi, order }))),
            Err(e) => Err(e),
        }
    }

    /// Copies a run that has no neighbour to be merged with.
    fn copy_run(
        &self,
        bpm: &mut BufferPoolManager,
        run: &TableHeap,
        Ghost(rows): Ghost<Seq<RowView>>,
        Ghost(view): Ghost<RunView>,
        Ghost(keys): Ghost<Seq<Seq<Option<Value>>>>,
    ) -> (res: Result<TableHeap, ExecutorError>)
        requires
            old(bpm).wf(),
            old(bpm).ready(),
            old(bpm).ids_fresh(),
            rows == set_aside(rows),
            run_holds(*run, view, old(bpm).pages(), rows, keys),
        ensures
            worked_aside(old(bpm), final(bpm)),
            match res {
                Ok(h) => run_holds(h, view, final(bpm).pages(), rows, keys),
                Err(e) => refused(e.0@),
            },
    {
        proof {
            reveal(run_holds);
        }
        let left = read_back(bpm, run, Ghost(arranged(rows, view.order)));
        proof {
            lemma_arranged_aside(rows, view.order, view.lo, view.hi);
        }
        spill(bpm, &left)
    }

    /// Merges the runs two at a time.
    fn merge_pass<F: Fn(FloatOp, u32, u32) -> u32>(
        &self,
        bpm: &mut BufferPoolManager,
        runs: &Vec<TableHeap>,
        fl: &F,
        Ghost(rows): Ghost<Seq<RowView>>,
        Ghost(views): Ghost<Seq<RunView>>,
    ) -> (res: Result<(Vec<TableHeap>, Ghost<Seq<RunView>>), ExecutorError>)
        requires
            computes(*fl),
            old(bpm).wf(),
            old(bpm).ready(),
            old(bpm).ids_fresh(),
            rows == set_aside(rows),
            rows.len() <= usize::MAX,
            runs@.len() > 1,
            runs_hold(
                runs@,
                views,
                old(bpm).pages(),
                rows,
                sort_keys(results(*fl), self.plan.order_by_exprs@, rows, self.plan.schema@),
                rows.len() as int,
            ),
        ensures
            worked_aside(old(bpm), final(bpm)),
            match res {
                Ok((next, nviews)) => {
                    &&& 0 < next@.len() < runs@.len()
                    &&& runs_hold(
                        next@,
                        nviews@,
                        final(bpm).pages(),
                        rows,
                        sort_keys(
                            results(*fl),
                            self.plan.order_by_exprs@,
                            rows,
                            self.plan.schema@,
                        ),
                        rows.len() as int,
                    )
                },
                Err(e) => refused(e.0@),
            },
    {
        let ghost keys = sort_keys(
            results(*fl),
            self.plan.order_by_exprs@,
            rows,
            self.plan.schema@,
        );
        let mut next: Vec<TableHeap> = Vec::new();
        let ghost mut nviews: Seq<RunView> = Seq::empty();
        let mut r: usize = 0;
        while r < runs.len()
            invariant
                r <= runs@.len(),
                computes(*fl),
                rows == set_aside(rows),
                rows.len() <= usize::MAX,
                runs@.len() > 1,
                keys == sort_keys(
                    results(*fl),
                    self.plan.order_by_exprs@,
                    rows,
                    self.plan.schema@,
                ),
                worked_aside(old(bpm), bpm),
                runs_hold(runs@, views, bpm.pages(), rows, keys, rows.len() as int),
                runs_hold(
                    next@,
                    nviews,
                    bpm.pages(),
                    rows,
                    keys,
                    if r == 0 {
                        0
                    } else {
                        views[r - 1].hi
                    },
                ),
                r <= 2 * next@.len() <= r + 1,
                r < runs@.len() ==> 2 * next@.len() == r,
            decreases runs@.len() - r,
        {
            let ghost pages = bpm.pages();
            let ghost hi: int = if r == 0 { 0 } else { views[r - 1].hi };
            assert(run_holds(runs@[r as int], views[r as int], pages, rows, keys));
            assert(views[r as int].lo == hi);
            if runs.len() - r >= 2 {
                assert(run_holds(runs@[r + 1], views[r + 1], pages, rows, keys));
                match self.merge_pair(
                    bpm,
                    &runs[r],
                    &runs[r + 1],
                    fl,
                    Ghost(rows),
                    Ghost(views[r as int]),
                    Ghost(views[r + 1]),
                ) {
                    Ok((h, v)) => {
                        let ghost view = v@;
                        proof {
                            lemma_runs_kept(
                                runs@,
                                views,
                                pages,
                                bpm.pages(),
                                rows,
                                keys,
                                rows.len() as int,
                            );
                            lemma_runs_kept(next@, nviews, pages, bpm.pages(), rows, keys, hi);
                            lemma_run_added(next@, nviews, bpm.pages(), rows, keys, hi, h, view);
                        }
                        next.push(h);
                        proof {
                            nviews = nviews.push(view);
                        }
                    },
                    Err(e) => { return Err(e); },
                }
                r += 2;
            } else {
                match self.copy_run(bpm, &runs[r], Ghost(rows), Ghost(views[r as int]), Ghost(keys)) {
                    Ok(h) => {
                        let ghost view = views[r as int];
                        proof {
                            lemma_runs_kept(
                                runs@,
                                views,
                                pages,
                                bpm.pages(),
                                rows,
                                keys,
                                rows.len() as int,
                            );
                            lemma_runs_kept(next@, nviews, pages, bpm.pages(), rows, keys, hi);
                            lemma_run_added(next@, nviews, bpm.pages(), rows, keys, hi, h, view);
                        }
                        next.push(h);
                        proof {
                            nviews = nviews.push(view);
                        }
                    },
                    Err(e) => { return Err(e); },
                }
                r += 1;
            }
        }
        assert(views[r - 1] == views.last());
        Ok((next, Ghost(nviews)))
    }

    /// Sorts the rows of the child. Runs are put aside on pages of their own; other pages are
    /// not touched.
    pub fn open<F: Fn(FloatOp, u32, u32) -> u32>(&mut self, bpm: &mut BufferPoolManager, fl: &F) -> (
    res: Result<(), ExecutorError>)
        requires
            computes(*fl),
            old(bpm).wf(),
            old(bpm).pins_countable(),
            old(bpm).ids_fresh(),
        ensures
            old(bpm).has_frame() ==> worked_aside(old(bpm), final(bpm)),
            !old(bpm).has_frame() ==> *final(bpm) == *old(bpm),
            final(bpm).next_page_id() <= old(bpm).next_page_id() + 1,
            final(self).plan == old(self).plan,
            res is Ok ==> (final(self).output matches Some(s) && s@.error is None),
            merge_sort_answers(
                results(*fl),
                *old(self).plan,
                old(self).child@,
                old(bpm).has_frame() && old(bpm).next_page_id() < u32::MAX,
                match res {
                    Ok(_) => final(self).output->0@,
                    Err(e) => fails(e.0@),
                },
            ),
    {
        let rows = strip(&self.child.rows);
        let ghost all = row_views(rows@);
        let ghost keys = sort_keys(
            results(*fl),
            self.plan.order_by_exprs@,
            all,
            self.plan.schema@,
        );
        proof {
            assert(set_aside(all) =~= all);
            assert(all.len() == rows@.len());
        }
        let error = self.child.error.take();
        if !bpm.frame_available() {
            if !makes_run(&rows) {
                if let Some(e) = error {
                    return Err(e);
                }
            }
            return Err(no_page_failure());
        }
        let (mut runs, mut views) = match self.write_runs(bpm, &rows, error, fl) {
            Ok(found) => found,
            Err(e) => { return Err(e); },
        };
        while runs.len() > 1
            invariant
                runs@.len() == 1,
                runs_hold(runs@, views@, bpm.pages(), all, keys, all.len() as int),
                worked_aside(old(bpm), bpm),
                bpm.next_page_id() <= old(bpm).next_page_id() + 1,
                self.plan == old(self).plan,
                runs_answer(
                    keys,
                    all,
                    old(self).child@.error,
                    old(bpm).next_page_id() < u32::MAX,
                    rows_only(arranged(all, views@[0].order)),
                ),
            decreases runs@.len(),
        {
            match self.merge_pass(bpm, &runs, fl, Ghost(all), Ghost(views@)) {
                Ok((next, nviews)) => {
                    runs = next;
                    views = nviews;
                },
                Err(e) => { return Err(e); },
            }
        }
        let ghost order = views@[0].order;
        proof {
            assert(run_holds(runs@[0], views@[0], bpm.pages(), all, keys));
            reveal(run_holds);
        }
        let out = read_back(bpm, &runs[0], Ghost(arranged(all, order)));
        proof {
            lemma_arranged_aside(all, order, 0, all.len() as int);
        }
        self.output = Some(RowStream { rows: out, error: None });
        Ok(())
    }
}

impl<'a> Executor for ExternalMergeSortExecutor<'a> {
    open spec fn output(&self) -> Option<StreamView> {
        stream_view(self.output)
    }

    open spec fn out_schema(&self) -> SchemaView {
        self.plan.schema@
    }

    open spec fn unopened(&self) -> Seq<char> {
        "ExternalMergeSortExecutor: next(): ran before open"@
    }

    fn next(&mut self) -> (res: Result<Option<(Tuple, RecordId)>, ExecutorError>) {
        pull(&mut self.output, "ExternalMergeSortExecutor: next(): ran before open")
    }

    fn schema(&self) -> (res: &Schema) {
        &self.plan.schema
    }

    fn close(&mut self) -> (res: Result<(), ExecutorError>) {
        Ok(())
    }
}

} // verus!
