//! The steps of a plan that go through an index.
use vstd::prelude::*;

use crate::buffer_pool::{can_pin, BpmError, BufferPoolManager};
use crate::catalog::index_schema::{key_le, key_lt, lemma_key_order, IndexValue};
use crate::catalog::key_encoding::key_of_values;
use crate::catalog::registry::{is_index, is_table, IndexInfo, TableInfo};
use crate::catalog::schema::{Schema, SchemaView};
use crate::catalog::table_index::{no_first_leaf, TableIndex, ValueBound};
use crate::catalog::value::Value;
use crate::catalog::{Catalog, CatalogError};
use crate::index::page_codec::INVALID_PAGE_ID;
use crate::index::tree_iter::entry_views;
use crate::index::tree_model::Pages;
use crate::index::tree_scan::{
    above, ascending, below, entries_from, is_range, law_tree_chain, lemma_range_from, take_below,
    tree_leaves, KeyBound,
};
use crate::index::{IndexError, InsertError};
use crate::processor::executor::{pull, stream_view, Executor};
use crate::processor::expression::{
    computes, eval, failure, results, ExecutorError, Expression, FloatOp,
};
use crate::processor::join::{join_tuples, joined_tuple};
use crate::processor::plan::{IndexScanPlanNode, JoinType, NestedIndexJoinPlanNode};
use crate::processor::stream::{
    catalog_failure, catalog_message, ending, fails, flat, heap_failure, heap_message,
    index_failure, index_message, lemma_flat_stops, one_row, rows_only, unstored, RowStream,
    RowView, StreamView,
};
use crate::table_heap::{RecordId, TableHeap, Tuple};

verus! {

/// A key does not lie before a lower bound.
pub open spec fn not_before(b: ValueBound, k: Seq<u8>) -> bool {
    match b {
        ValueBound::Included(v) => key_le(key_of_values(v@), k),
        ValueBound::Excluded(v) => key_lt(key_of_values(v@), k),
        ValueBound::Unbounded => true,
    }
}

/// A key does not lie behind an upper bound.
pub open spec fn not_behind(b: ValueBound, k: Seq<u8>) -> bool {
    match b {
        ValueBound::Included(v) => key_le(k, key_of_values(v@)),
        ValueBound::Excluded(v) => key_lt(k, key_of_values(v@)),
        ValueBound::Unbounded => true,
    }
}

/// The index holds an entry, and it lies between two bounds.
pub open spec fn lies_between(
    index: TableIndex,
    pages: Pages,
    start: ValueBound,
    end: ValueBound,
    e: (Seq<u8>, RecordId),
) -> bool {
    index.find(pages, e.0) == Some(e.1) && not_before(start, e.0) && not_behind(end, e.0)
}

/// `es` are the entries of the index between two bounds, in key order.
pub open spec fn is_index_range(
    index: TableIndex,
    pages: Pages,
    start: ValueBound,
    end: ValueBound,
    es: Seq<(Seq<u8>, RecordId)>,
) -> bool {
    &&& ascending(es)
    &&& forall|e: (Seq<u8>, RecordId)| #[trigger]
        es.contains(e) <==> lies_between(index, pages, start, end, e)
}

/// The entries of the index between two bounds, in key order.
pub open spec fn index_range(
    index: TableIndex,
    pages: Pages,
    start: ValueBound,
    end: ValueBound,
) -> Seq<(Seq<u8>, RecordId)> {
    choose|es: Seq<(Seq<u8>, RecordId)>| is_index_range(index, pages, start, end, es)
}

/// Ascending entries are determined by what they are.
proof fn lemma_ascending_unique(a: Seq<(Seq<u8>, RecordId)>, b: Seq<(Seq<u8>, RecordId)>)
    requires
        ascending(a),
        ascending(b),
        forall|x: (Seq<u8>, RecordId)| #[trigger] a.contains(x) <==> b.contains(x),
    ensures
        a == b,
    decreases a.len(),
{
    lemma_key_order();
    if a.len() == 0 {
        if b.len() > 0 {
            assert(b.contains(b[0]));
            assert(a.contains(b[0]));
        }
        assert(a =~= b);
    } else {
        assert(a.contains(a[0]));
        assert(b.contains(a[0]));
        let j = choose|j: int| 0 <= j < b.len() && b[j] == a[0];
        assert(b.contains(b[0]));
        assert(a.contains(b[0]));
        let i = choose|i: int| 0 <= i < a.len() && a[i] == b[0];
        if a[0] != b[0] {
            assert(key_lt(a[0].0, a[i].0));
            assert(key_lt(b[0].0, b[j].0));
        }
        let (c, d) = (a.drop_first(), b.drop_first());
        assert forall|x: (Seq<u8>, RecordId)| #[trigger] c.contains(x) <==> d.contains(x) by {
            if c.contains(x) {
                let k = choose|k: int| 0 <= k < c.len() && c[k] == x;
                assert(a[k + 1] == x);
                assert(a.contains(x));
                assert(key_lt(a[0].0, a[k + 1].0));
                let m = choose|m: int| 0 <= m < b.len() && b[m] == x;
                assert(m != 0);
                assert(d[m - 1] == x);
            }
            if d.contains(x) {
                let k = choose|k: int| 0 <= k < d.len() && d[k] == x;
                assert(b[k + 1] == x);
                assert(b.contains(x));
                assert(key_lt(b[0].0, b[k + 1].0));
                assert(a.contains(x));
                let m = choose|m: int| 0 <= m < a.len() && a[m] == x;
                assert(m != 0);
                assert(c[m - 1] == x);
            }
        }
        assert forall|x: int, y: int| 0 <= x < y < c.len() implies key_lt(
            (#[trigger] c[x]).0,
            (#[trigger] c[y]).0,
        ) by {
            assert(key_lt(a[x + 1].0, a[y + 1].0));
        }
        assert forall|x: int, y: int| 0 <= x < y < d.len() implies key_lt(
            (#[trigger] d[x]).0,
            (#[trigger] d[y]).0,
        ) by {
            assert(key_lt(b[x + 1].0, b[y + 1].0));
        }
        lemma_ascending_unique(c, d);
        assert(a =~= seq![a[0]] + c);
        assert(b =~= seq![b[0]] + d);
    }
}

/// The entries between two bounds are determined by the index and the bounds.
pub proof fn law_range_is_unique(
    index: TableIndex,
    pages: Pages,
    start: ValueBound,
    end: ValueBound,
    a: Seq<(Seq<u8>, RecordId)>,
    b: Seq<(Seq<u8>, RecordId)>,
)
    requires
        is_index_range(index, pages, start, end, a),
        is_index_range(index, pages, start, end, b),
    ensures
        a == b,
        index_range(index, pages, start, end) == a,
{
    assert forall|x: Seq<(Seq<u8>, RecordId)>, y: Seq<(Seq<u8>, RecordId)>|
        is_index_range(index, pages, start, end, x) && is_index_range(
            index,
            pages,
            start,
            end,
            y,
        ) implies x == y by {
        assert forall|e: (Seq<u8>, RecordId)| #[trigger] x.contains(e) <==> y.contains(e) by {
            assert(x.contains(e) <==> lies_between(index, pages, start, end, e));
            assert(y.contains(e) <==> lies_between(index, pages, start, end, e));
        }
        lemma_ascending_unique(x, y);
    }
    let es = index_range(index, pages, start, end);
    assert(is_index_range(index, pages, start, end, es));
}

/// The entries among `es` that lie between two bounds.
spec fn between(
    es: Seq<(Seq<u8>, RecordId)>,
    start: ValueBound,
    end: ValueBound,
) -> Seq<(Seq<u8>, RecordId)>
    decreases es.len(),
{
    if es.len() == 0 {
        Seq::empty()
    } else {
        let before = between(es.drop_last(), start, end);
        if not_before(start, es.last().0) && not_behind(end, es.last().0) {
            before.push(es.last())
        } else {
            before
        }
    }
}

proof fn lemma_between(es: Seq<(Seq<u8>, RecordId)>, start: ValueBound, end: ValueBound)
    requires
        ascending(es),
    ensures
        ascending(between(es, start, end)),
        forall|e: (Seq<u8>, RecordId)| #[trigger]
            between(es, start, end).contains(e) <==> es.contains(e) && not_before(start, e.0)
                && not_behind(end, e.0),
    decreases es.len(),
{
    let out = between(es, start, end);
    if es.len() > 0 {
        let init = es.drop_last();
        let before = between(init, start, end);
        assert forall|a: int, b: int| 0 <= a < b < init.len() implies key_lt(
            (#[trigger] init[a]).0,
            (#[trigger] init[b]).0,
        ) by {
            assert(key_lt(es[a].0, es[b].0));
        }
        lemma_between(init, start, end);
        assert forall|a: int, b: int| 0 <= a < b < out.len() implies key_lt(
            (#[trigger] out[a]).0,
            (#[trigger] out[b]).0,
        ) by {
            if b < before.len() {
                assert(key_lt(before[a].0, before[b].0));
            } else {
                assert(before.contains(before[a]));
                assert(init.contains(before[a]));
                let x = choose|x: int| 0 <= x < init.len() && init[x] == before[a];
                assert(key_lt(es[x].0, es[es.len() - 1].0));
            }
        }
        assert forall|e: (Seq<u8>, RecordId)| #[trigger] out.contains(e) <==> es.contains(e)
            && not_before(start, e.0) && not_behind(end, e.0) by {
            if out.contains(e) {
                let x = choose|x: int| 0 <= x < out.len() && out[x] == e;
                if x < before.len() {
                    assert(before[x] == e);
                    assert(before.contains(e));
                    let y = choose|y: int| 0 <= y < init.len() && init[y] == e;
                    assert(es[y] == e);
                } else {
                    assert(es[es.len() - 1] == e);
                }
            }
            if es.contains(e) && not_before(start, e.0) && not_behind(end, e.0) {
                let y = choose|y: int| 0 <= y < es.len() && es[y] == e;
                if y < init.len() {
                    assert(init[y] == e);
                    assert(before.contains(e));
                    let x = choose|x: int| 0 <= x < before.len() && before[x] == e;
                    assert(out[x] == e);
                } else {
                    assert(out[out.len() - 1] == e);
                }
            }
        }
    } else {
        assert forall|e: (Seq<u8>, RecordId)| !(#[trigger] out.contains(e)) && !es.contains(e) by {}
    }
}

/// An index that holds something has entries between any two bounds, if only none.
pub proof fn lemma_range_exists(index: TableIndex, pages: Pages, start: ValueBound, end: ValueBound)
    requires
        index.wf(pages),
        !index.idx.is_empty(pages),
    ensures
        is_index_range(index, pages, start, end, index_range(index, pages, start, end)),
{
    let (t, hid) = (index.idx.shape(), index.idx.header_page_id);
    let ls = tree_leaves(pages, t, hid);
    let all = take_below(entries_from(pages, t, ls, 0, 0), KeyBound::Unbounded);
    law_tree_chain(pages, t, hid);
    lemma_range_from(pages, t, hid, KeyBound::Unbounded, KeyBound::Unbounded, 0, 0);
    lemma_between(all, start, end);
    let es = between(all, start, end);
    assert forall|e: (Seq<u8>, RecordId)| #[trigger] es.contains(e) <==> lies_between(
        index,
        pages,
        start,
        end,
        e,
    ) by {
        assert(all.contains((e.0, e.1)) <==> index.find(pages, e.0) == Some(e.1));
    }
    assert(is_index_range(index, pages, start, end, es));
}

/// The entries between two bounds depend on what the index finds alone.
pub proof fn lemma_range_kept(
    index: TableIndex,
    p0: Pages,
    p1: Pages,
    start: ValueBound,
    end: ValueBound,
)
    requires
        index.wf(p0),
        !index.idx.is_empty(p0),
        forall|k: Seq<u8>| #[trigger] index.find(p1, k) == index.find(p0, k),
    ensures
        index_range(index, p1, start, end) == index_range(index, p0, start, end),
{
    lemma_range_exists(index, p0, start, end);
    let es = index_range(index, p0, start, end);
    assert forall|e: (Seq<u8>, RecordId)| #[trigger] es.contains(e) <==> lies_between(
        index,
        p1,
        start,
        end,
        e,
    ) by {
        assert(es.contains(e) <==> lies_between(index, p0, start, end, e));
        assert(index.find(p1, e.0) == index.find(p0, e.0));
    }
    law_range_is_unique(index, p1, start, end, es, es);
}

/// Whether a bound has a value for each of `n` columns.
fn has_arity(b: &ValueBound, n: usize) -> (res: bool)
    ensures
        res == b.arity_is(n as nat),
{
    match b {
        ValueBound::Included(v) => v.len() == n,
        ValueBound::Excluded(v) => v.len() == n,
        ValueBound::Unbounded => true,
    }
}

/// What a scan of an index cannot start with: bounds of the wrong arity, and an index that
/// holds nothing.
pub open spec fn scan_refused(
    index: TableIndex,
    pages: Pages,
    start: ValueBound,
    end: ValueBound,
) -> bool {
    ||| !start.arity_is(index.indexed_cols@.len())
    ||| !end.arity_is(index.indexed_cols@.len())
    ||| index.idx.is_empty(pages)
}

/// The error with which a scan is refused.
pub open spec fn refusal(index: TableIndex, start: ValueBound, end: ValueBound, e: Seq<char>) -> bool {
    if !start.arity_is(index.indexed_cols@.len()) || !end.arity_is(index.indexed_cols@.len()) {
        e == index_message(IndexError::Insert(InsertError::InvalidKey))
    } else if start !is Unbounded {
        e == index_message(IndexError::Lookup)
    } else {
        exists|x: IndexError| #[trigger] no_first_leaf(x) && e == index_message(x)
    }
}

pub open spec fn rids_of(es: Seq<(Seq<u8>, RecordId)>) -> Seq<RecordId> {
    Seq::new(es.len(), |i: int| es[i].1)
}

/// The text of an index error that came from the buffer pool.
pub open spec fn is_pool_error(e: Seq<char>) -> bool {
    exists|x: BpmError| e == #[trigger] index_message(IndexError::BpmError(x))
}

/// The rows that an index holds between two bounds.
fn scan_index(
    index: &TableIndex,
    bpm: &mut BufferPoolManager,
    start: &ValueBound,
    end: &ValueBound,
) -> (res: Result<Vec<RecordId>, ExecutorError>)
    requires
        old(bpm).wf(),
        index.wf(old(bpm).pages()),
    ensures
        final(bpm).wf(),
        old(bpm).ready() ==> final(bpm).ready(),
        final(bpm).same_pages(old(bpm)),
        match res {
            Ok(rids) => {
                &&& !scan_refused(*index, old(bpm).pages(), *start, *end)
                &&& is_index_range(
                    *index,
                    old(bpm).pages(),
                    *start,
                    *end,
                    index_range(*index, old(bpm).pages(), *start, *end),
                )
                &&& rids@ == rids_of(index_range(*index, old(bpm).pages(), *start, *end))
            },
            Err(e) => !old(bpm).ready() && is_pool_error(e.0@) || {
                &&& scan_refused(*index, old(bpm).pages(), *start, *end)
                &&& !old(bpm).pages().contains_key(INVALID_PAGE_ID) || start !is Unbounded
                    ==> refusal(*index, *start, *end, e.0@)
            },
        },
{
    let n: usize = index.indexed_cols.len();
    if !has_arity(start, n) || !has_arity(end, n) {
        return Err(index_failure(IndexError::Insert(InsertError::InvalidKey)));
    }
    let ghost pages = bpm.pages();
    let it = match index.scan(bpm, start, end) {
        Ok(it) => it,
        Err(e) => {
            assert(e is Lookup ==> index_message(e) == index_message(IndexError::Lookup));
            if let IndexError::BpmError(x) = &e {
                assert(index_message(e) == index_message(IndexError::BpmError(*x)));
            }
            return Err(index_failure(e));
        },
    };
    let ghost all = it.remaining(pages);
    proof {
        let (lower, upper) = choose|lower: KeyBound, upper: KeyBound| #[trigger]
            start.stands_for(lower) && #[trigger] end.stands_for(upper) && is_range(
                pages,
                index.idx.shape(),
                index.idx.header_page_id,
                lower,
                upper,
                all,
            );
        assert forall|e: (Seq<u8>, RecordId)| #[trigger] all.contains(e) <==> lies_between(
            *index,
            pages,
            *start,
            *end,
            e,
        ) by {
            assert(above(lower, e.0) == not_before(*start, e.0));
            assert(below(upper, e.0) == not_behind(*end, e.0));
            assert(all.contains((e.0, e.1)) <==> index.find(pages, e.0) == Some(e.1) && above(
                lower,
                e.0,
            ) && below(upper, e.0));
        }
        assert(is_index_range(*index, pages, *start, *end, all));
        law_range_is_unique(*index, pages, *start, *end, all, all);
    }
    let es = match it.collect(bpm) {
        Ok(es) => es,
        Err(e) => {
            if let IndexError::BpmError(x) = &e {
                assert(index_message(e) == index_message(IndexError::BpmError(*x)));
            }
            return Err(index_failure(e));
        },
    };
    let mut rids: Vec<RecordId> = Vec::new();
    let mut i: usize = 0;
    while i < es.len()
        invariant
            i <= es@.len(),
            entry_views(es@) == all,
            rids@ == rids_of(all).subrange(0, i as int),
        decreases es@.len() - i,
    {
        assert(entry_views(es@)[i as int] == all[i as int]);
        match es[i].1 {
            IndexValue::IndexValue(rid) => {
                rids.push(rid);
            },
        }
        i += 1;
        assert(rids@ =~= rids_of(all).subrange(0, i as int));
    }
    assert(all.len() == es@.len());
    assert(rids@ =~= rids_of(all));
    Ok(rids)
}

/// The row at a place of a table, unless it was deleted.
pub open spec fn stored_row(heap: TableHeap, pages: Pages, rid: RecordId) -> Result<
    Seq<u8>,
    Seq<char>,
> {
    let row = heap.rows(pages)[rid.slot_id as int];
    if row.deleted {
        Err(heap_message("record has been deleted"@))
    } else {
        Ok(row.data)
    }
}

fn fetch_row(heap: &TableHeap, bpm: &mut BufferPoolManager, rid: RecordId) -> (res: Result<
    Tuple,
    ExecutorError,
>)
    requires
        old(bpm).wf(),
        can_pin(old(bpm), rid.page_id as usize),
        heap.wf(old(bpm).pages()),
        heap.has_slot(old(bpm).pages(), rid),
    ensures
        final(bpm).wf(),
        old(bpm).ready() ==> final(bpm).ready(),
        final(bpm).same_pages(old(bpm)),
        crate::processor::stream::gives_tuple(res, stored_row(*heap, old(bpm).pages(), rid)),
{
    match heap.get(bpm, rid) {
        Ok((_, t)) => Ok(t),
        Err(e) => Err(heap_failure(e)),
    }
}

pub open spec fn fetch_part(heap: TableHeap, pages: Pages, rids: Seq<RecordId>) -> spec_fn(
    int,
) -> StreamView {
    |i: int|
        match stored_row(heap, pages, rids[i]) {
            Ok(data) => rows_only(seq![(data, rids[i])]),
            Err(e) => fails(e),
        }
}

/// The rows at some places of a table, up to the first that was deleted.
pub open spec fn fetched(heap: TableHeap, pages: Pages, rids: Seq<RecordId>) -> StreamView {
    flat(fetch_part(heap, pages, rids), rids.len() as int)
}

/// The entries of a range stand for slots of the table that the index belongs to.
proof fn lemma_range_in_table(
    catalog: &Catalog,
    pages: Pages,
    i: int,
    j: int,
    start: ValueBound,
    end: ValueBound,
    es: Seq<(Seq<u8>, RecordId)>,
)
    requires
        catalog.wf(pages),
        0 <= j < catalog.indexes@.len(),
        is_table(catalog.tables@, catalog.indexes@[j].table_oid, i),
        is_index_range(catalog.indexes@[j].index, pages, start, end, es),
    ensures
        forall|k: int|
            0 <= k < es.len() ==> catalog.tables@[i].info.heap.has_slot(
                pages,
                #[trigger] rids_of(es)[k],
            ),
{
    let index = catalog.indexes@[j].index;
    assert forall|k: int| 0 <= k < es.len() implies catalog.tables@[i].info.heap.has_slot(
        pages,
        #[trigger] rids_of(es)[k],
    ) by {
        assert(es.contains(es[k]));
        assert(index.find(pages, es[k].0) == Some(es[k].1));
    }
}

/// Reads the rows of a table that an index holds between two bounds.
pub struct IndexScanExecutor<'a> {
    pub plan: &'a IndexScanPlanNode,
    pub output: Option<RowStream>,
}

/// What an index scan gives: the rows between the bounds in key order, unless the index does
/// not exist or refuses the scan.
pub open spec fn is_index_stream(
    catalog: &Catalog,
    pages: Pages,
    oid: u32,
    start: ValueBound,
    end: ValueBound,
    s: StreamView,
) -> bool {
    let info = catalog.index(oid);
    if !catalog.has_index(oid) {
        s == fails(catalog_message(CatalogError::IndexDoesNotExist))
    } else if scan_refused(info.index, pages, start, end) {
        s.rows.len() == 0 && (s.error matches Some(e) && refusal(info.index, start, end, e))
    } else {
        s == fetched(
            catalog.table(info.table_oid).heap,
            pages,
            rids_of(index_range(info.index, pages, start, end)),
        )
    }
}

impl<'a> IndexScanExecutor<'a> {
    pub fn new(plan: &'a IndexScanPlanNode) -> (res: Self)
        ensures
            res.plan == plan,
            res.output is None,
    {
        IndexScanExecutor { plan, output: None }
    }

    pub fn open(&mut self, catalog: &Catalog, bpm: &mut BufferPoolManager) -> (res: Result<
        (),
        ExecutorError,
    >)
        requires
            old(bpm).wf(),
            old(bpm).ids_fresh(),
            catalog.wf(old(bpm).pages()),
        ensures
            final(bpm).wf(),
            old(bpm).ready() ==> final(bpm).ready(),
            final(bpm).same_pages(old(bpm)),
            final(self).plan == old(self).plan,
            !old(bpm).ready() ==> ({
                let (plan, pages) = (old(self).plan, old(bpm).pages());
                let (start, end) = (plan.start, plan.end);
                let info = catalog.index(plan.index_oid);
                let rids = rids_of(index_range(info.index, pages, start, end));
                let full = fetched(catalog.table(info.table_oid).heap, pages, rids);
                match res {
                    Ok(_) => {
                        &&& catalog.has_index(plan.index_oid)
                        &&& !scan_refused(info.index, pages, start, end)
                        &&& final(self).output matches Some(s) && cut_short(s@, full)
                    },
                    Err(e) => if !catalog.has_index(plan.index_oid) {
                        e.0@ == catalog_message(CatalogError::IndexDoesNotExist)
                    } else {
                        is_pool_error(e.0@) || scan_refused(info.index, pages, start, end)
                            && refusal(info.index, start, end, e.0@)
                    },
                }
            }),
            old(bpm).ready() ==> ({
                let stream = match res {
                    Ok(_) => final(self).output->0@,
                    Err(e) => fails(e.0@),
                };
                &&& res is Ok ==> final(self).output is Some
                &&& res is Ok <==> catalog.has_index(old(self).plan.index_oid) && !scan_refused(
                    catalog.index(old(self).plan.index_oid).index,
                    old(bpm).pages(),
                    old(self).plan.start,
                    old(self).plan.end,
                )
                &&& is_index_stream(
                    catalog,
                    old(bpm).pages(),
                    old(self).plan.index_oid,
                    old(self).plan.start,
                    old(self).plan.end,
                    stream,
                )
            }),
    {
        let ghost pages = bpm.pages();
        let info = match catalog.get_index(self.plan.index_oid) {
            Ok(info) => info,
            Err(e) => { return Err(catalog_failure(e)); },
        };
        let ghost j = catalog.index_pos(self.plan.index_oid);
        proof {
            assert(is_index(catalog.indexes@, self.plan.index_oid, j));
            assert(catalog.index_fits(catalog.indexes@[j]));
        }
        let rids = match scan_index(&info.index, bpm, &self.plan.start, &self.plan.end) {
            Ok(rids) => rids,
            Err(e) => { return Err(e); },
        };
        let table = match catalog.get_table(info.table_oid) {
            Ok(t) => t,
            Err(e) => {
                assert(false);
                return Err(catalog_failure(e));
            },
        };
        let ghost i = catalog.table_pos(info.table_oid);
        proof {
            assert(is_table(catalog.tables@, info.table_oid, i));
            assert(catalog.tables@[i].info.heap.wf(pages));
            lemma_range_in_table(
                catalog,
                pages,
                i,
                j,
                self.plan.start,
                self.plan.end,
                index_range(info.index, pages, self.plan.start, self.plan.end),
            );
        }
        let ghost f = fetch_part(table.heap, pages, rids@);
        let mut out = RowStream::empty();
        let mut k: usize = 0;
        let mut blocked: bool = false;
        while !blocked && out.error.is_none() && k < rids.len()
            invariant
                k <= rids@.len(),
                bpm.wf(),
                old(bpm).ready() ==> bpm.ready(),
                bpm.same_pages(old(bpm)),
                blocked ==> !old(bpm).ready() && out@.rows == flat(f, k as int).rows && flat(
                    f,
                    k as int,
                ).error is None && out@.error is Some,
                pages == old(bpm).pages(),
                self.plan == old(self).plan,
                table.heap.wf(pages),
                forall|x: int|
                    0 <= x < rids@.len() ==> table.heap.has_slot(pages, #[trigger] rids@[x]),
                f == fetch_part(table.heap, pages, rids@),
                !blocked ==> out@ == flat(f, k as int),
            decreases
                    rids@.len() - k,
                    if blocked {
                        0int
                    } else {
                        1int
                    },
        {
            let ghost before = out@;
            assert(table.heap.has_slot(pages, rids@[k as int]));
            if !bpm.can_read(rids[k].page_id as usize) {
                out.error = Some(failure("the page of the row cannot be pinned"));
                blocked = true;
                continue ;
            }
            match fetch_row(&table.heap, bpm, rids[k]) {
                Ok(t) => {
                    out.add(t, rids[k]);
                    assert(out@.rows =~= before.rows + seq![(t.data@, rids@[k as int])]);
                },
                Err(e) => {
                    out.error = Some(e);
                    assert(out@.rows =~= before.rows + Seq::empty());
                },
            }
            k += 1;
            assert(out@ == flat(f, k as int));
        }
        proof {
            if blocked {
                lemma_flat_grows(f, k as int, rids@.len() as int);
            } else if out@.error is Some {
                lemma_flat_stops(f, k as int, rids@.len() as int);
            }
        }
        self.output = Some(out);
        Ok(())
    }
}

/// `s` is `full`, or breaks off with an error before its end.
pub open spec fn cut_short(s: StreamView, full: StreamView) -> bool {
    s == full || (s.error is Some && s.rows.is_prefix_of(full.rows))
}

/// More parts add rows at the end.
proof fn lemma_flat_grows(f: spec_fn(int) -> StreamView, m: int, n: int)
    requires
        0 <= m <= n,
    ensures
        flat(f, m).rows.is_prefix_of(flat(f, n).rows),
    decreases n,
{
    if m < n {
        lemma_flat_grows(f, m, n - 1);
        let (a, b, c) = (flat(f, m).rows, flat(f, n - 1).rows, flat(f, n).rows);
        assert(b.is_prefix_of(c)) by {
            assert(c.subrange(0, b.len() as int) =~= b);
        }
        assert(a =~= c.subrange(0, a.len() as int));
    } else {
        assert(flat(f, m).rows =~= flat(f, m).rows.subrange(0, flat(f, m).rows.len() as int));
    }
}

impl<'a> Executor for IndexScanExecutor<'a> {
    open spec fn output(&self) -> Option<StreamView> {
        stream_view(self.output)
    }

    open spec fn out_schema(&self) -> SchemaView {
        self.plan.schema@
    }

    open spec fn unopened(&self) -> Seq<char> {
        "IndexScanExecutor::next called before open"@
    }

    fn next(&mut self) -> (res: Result<Option<(Tuple, RecordId)>, ExecutorError>) {
        pull(&mut self.output, "IndexScanExecutor::next called before open")
    }

    fn schema(&self) -> (res: &Schema) {
        &self.plan.schema
    }

    fn close(&mut self) -> (res: Result<(), ExecutorError>) {
        Ok(())
    }
}

/// Joins each row of the child with the rows of a table that an index finds for it.
pub struct NestedIndexJoinExecutor<'a> {
    pub plan: &'a NestedIndexJoinPlanNode,
    pub child: RowStream,
    pub child_schema: &'a Schema,
    pub output: Option<RowStream>,
}

/// What an index join is made of.
pub struct IndexJoinView {
    pub key: Expression,
    pub join_type: JoinType,
    pub out: SchemaView,
    pub outer: SchemaView,
    pub index: TableIndex,
    /// The rows that the index stands for.
    pub source: TableHeap,
    /// The table that gives the columns of the inner rows.
    pub inner: TableInfo,
}

/// The row that the index holds for that key, joined with the outer row. An index on several
/// columns has no such key.
pub open spec fn key_match(pages: Pages, j: IndexJoinView, outer: Seq<u8>, v: Value) -> StreamView {
    if j.index.indexed_cols@.len() != 1 {
        fails("the index is not on one column"@)
    } else if j.index.idx.is_empty(pages) {
        fails(index_message(IndexError::Lookup))
    } else {
        match j.index.find(pages, key_of_values(seq![v])) {
            None => rows_only(Seq::empty()),
            Some(rid) => match stored_row(j.source, pages, rid) {
                Err(e) => fails(e),
                Ok(data) => one_row(
                    joined_tuple(j.out, j.outer, outer, j.inner.schema@, Some(data)),
                ),
            },
        }
    }
}

/// What an outer row gives: its match, or for a left join a row with NULLs where there is none.
/// A NULL matches nothing.
pub open spec fn outer_matches(
    fl: spec_fn(FloatOp, u32, u32) -> u32,
    pages: Pages,
    j: IndexJoinView,
    outer: Seq<u8>,
) -> StreamView {
    match eval(fl, j.key, outer, j.outer) {
        Err(e) => fails(e),
        Ok(key) => {
            let matches = match key {
                Some(v) => key_match(pages, j, outer, v),
                None => rows_only(Seq::empty()),
            };
            if j.join_type == JoinType::Left && matches == rows_only(Seq::empty()) {
                one_row(joined_tuple(j.out, j.outer, outer, j.inner.schema@, None))
            } else {
                matches
            }
        },
    }
}

pub open spec fn outers_part(
    fl: spec_fn(FloatOp, u32, u32) -> u32,
    pages: Pages,
    j: IndexJoinView,
    outers: Seq<RowView>,
) -> spec_fn(int) -> StreamView {
    |i: int| outer_matches(fl, pages, j, outers[i].0)
}

pub open spec fn index_join_stream(
    fl: spec_fn(FloatOp, u32, u32) -> u32,
    pages: Pages,
    j: IndexJoinView,
    child: StreamView,
) -> StreamView {
    ending(flat(outers_part(fl, pages, j, child.rows), child.rows.len() as int), child.error)
}

/// Between a key and itself lies the entry of that key, if any.
proof fn lemma_point_range(index: TableIndex, pages: Pages, b: ValueBound, c: ValueBound, v: Value)
    requires
        b matches ValueBound::Included(x) && x@ == seq![v],
        c matches ValueBound::Included(y) && y@ == seq![v],
        is_index_range(index, pages, b, c, index_range(index, pages, b, c)),
    ensures
        rids_of(index_range(index, pages, b, c)) == match index.find(
            pages,
            key_of_values(seq![v]),
        ) {
            Some(rid) => seq![rid],
            None => Seq::empty(),
        },
{
    lemma_key_order();
    let es = index_range(index, pages, b, c);
    let k = key_of_values(seq![v]);
    assert forall|i: int| 0 <= i < es.len() implies (#[trigger] es[i]).0 == k && index.find(
        pages,
        k,
    ) == Some(es[i].1) by {
        assert(es.contains(es[i]));
    }
    if es.len() > 1 {
        assert(key_lt(es[0].0, es[1].0));
    }
    match index.find(pages, k) {
        Some(rid) => {
            assert(lies_between(index, pages, b, c, (k, rid)));
            assert(es.contains((k, rid)));
            assert(rids_of(es) =~= seq![rid]);
        },
        None => {
            if es.len() > 0 {
                assert(es[0].0 == k);
            }
            assert(rids_of(es) =~= Seq::empty());
        },
    }
}

impl<'a> NestedIndexJoinExecutor<'a> {
    pub fn new(plan: &'a NestedIndexJoinPlanNode, child: RowStream, child_schema: &'a Schema) -> (
    res: Self)
        ensures
            res.plan == plan,
            res.child == child,
            res.child_schema == child_schema,
            res.output is None,
    {
        NestedIndexJoinExecutor { plan, child, child_schema, output: None }
    }

    pub open spec fn join(&self, info: IndexInfo, source: TableHeap, table: TableInfo) -> IndexJoinView {
        index_join_of(*self.plan, self.child_schema@, info, source, table)
    }

    /// Appends the match of a key.
    fn match_key(
        &self,
        bpm: &mut BufferPoolManager,
        info: &IndexInfo,
        source: &TableHeap,
        table: &TableInfo,
        outer: &Tuple,
        v: Value,
        out: &mut RowStream,
    )
        requires
            old(bpm).wf(),
            info.index.wf(old(bpm).pages()),
            source.wf(old(bpm).pages()),
            forall|k: Seq<u8>|
                (#[trigger] info.index.find(old(bpm).pages(), k)) matches Some(rid)
                    ==> source.has_slot(old(bpm).pages(), rid),
            self.plan.schema@.wf(),
            old(out)@.error is None,
        ensures
            final(bpm).wf(),
            old(bpm).ready() ==> final(bpm).ready(),
            final(bpm).same_pages(old(bpm)),
            !old(bpm).ready() && final(out)@.rows == old(out)@.rows && final(out)@.error is Some || ({
                let part = key_match(
                    old(bpm).pages(),
                    self.join(*info, *source, *table),
                    outer.data@,
                    v,
                );
                final(out)@ == (StreamView { rows: old(out)@.rows + part.rows, error: part.error })
            }),
    {
        let ghost pages = bpm.pages();
        if info.index.indexed_cols.len() != 1 {
            out.error = Some(failure("the index is not on one column"));
            assert(out@.rows =~= old(out)@.rows + Seq::empty());
            return ;
        }
        let mut lower: Vec<Value> = Vec::new();
        lower.push(v);
        let mut upper: Vec<Value> = Vec::new();
        upper.push(v);
        assert(lower@ =~= seq![v]);
        assert(upper@ =~= seq![v]);
        let start = ValueBound::Included(lower);
        let end = ValueBound::Included(upper);
        let rids = match scan_index(&info.index, bpm, &start, &end) {
            Ok(rids) => rids,
            Err(e) => {
                out.error = Some(e);
                assert(out@.rows =~= old(out)@.rows + Seq::empty());
                return ;
            },
        };
        proof {
            lemma_point_range(info.index, pages, start, end, v);
        }
        if rids.len() == 0 {
            assert(out@.rows =~= old(out)@.rows + Seq::empty());
            return ;
        }
        assert(info.index.find(pages, key_of_values(seq![v])) == Some(rids@[0]));
        if !bpm.can_read(rids[0].page_id as usize) {
            out.error = Some(failure("the page of the row cannot be pinned"));
            return ;
        }
        let inner = match fetch_row(source, bpm, rids[0]) {
            Ok(t) => t,
            Err(e) => {
                out.error = Some(e);
                assert(out@.rows =~= old(out)@.rows + Seq::empty());
                return ;
            },
        };
        match join_tuples(
            &self.plan.schema,
            self.child_schema,
            outer,
            &table.schema,
            Some(&inner),
        ) {
            Ok(t) => {
                out.add(t, RecordId::reserved());
                assert(out@.rows =~= old(out)@.rows + seq![unstored(t.data@)]);
            },
            Err(e) => {
                out.error = Some(e);
                assert(out@.rows =~= old(out)@.rows + Seq::empty());
            },
        }
    }

    /// Appends what one outer row gives.
    fn match_outer<F: Fn(FloatOp, u32, u32) -> u32>(
        &self,
        bpm: &mut BufferPoolManager,
        info: &IndexInfo,
        source: &TableHeap,
        table: &TableInfo,
        outer: &Tuple,
        out: &mut RowStream,
        fl: &F,
    )
        requires
            computes(*fl),
            old(bpm).wf(),
            info.index.wf(old(bpm).pages()),
            source.wf(old(bpm).pages()),
            forall|k: Seq<u8>|
                (#[trigger] info.index.find(old(bpm).pages(), k)) matches Some(rid)
                    ==> source.has_slot(old(bpm).pages(), rid),
            self.plan.schema@.wf(),
            old(out)@.error is None,
        ensures
            final(bpm).wf(),
            old(bpm).ready() ==> final(bpm).ready(),
            final(bpm).same_pages(old(bpm)),
            !old(bpm).ready() && final(out)@.rows == old(out)@.rows && final(out)@.error is Some || ({
                let part = outer_matches(
                    results(*fl),
                    old(bpm).pages(),
                    self.join(*info, *source, *table),
                    outer.data@,
                );
                final(out)@ == (StreamView { rows: old(out)@.rows + part.rows, error: part.error })
            }),
    {
        let count: usize = out.rows.len();
        let ghost start = out@.rows;
        let key = match self.plan.key_predicate.evaluate(outer, self.child_schema, fl) {
            Ok(v) => v,
            Err(e) => {
                out.error = Some(e);
                assert(out@.rows =~= start + Seq::empty());
                return ;
            },
        };
        match key {
            Some(v) => self.match_key(bpm, info, source, table, outer, v, out),
            None => {
                assert(out@.rows =~= start + Seq::empty());
            },
        }
        let ghost j = self.join(*info, *source, *table);
        let ghost matches = match key {
            Some(v) => key_match(old(bpm).pages(), j, outer.data@, v),
            None => rows_only(Seq::empty()),
        };
        assert(out.error is None ==> out.rows@.len() == start.len() + matches.rows.len()) by {
            assert(out@.rows.len() == out.rows@.len());
        }
        if self.plan.join_type == JoinType::Left && out.error.is_none() && out.rows.len() == count {
            proof {
                assert(matches.rows =~= Seq::empty());
            }
            match join_tuples(
                &self.plan.schema,
                self.child_schema,
                outer,
                &table.schema,
                None,
            ) {
                Ok(t) => {
                    out.add(t, RecordId::reserved());
                    assert(out@.rows =~= start + seq![unstored(t.data@)]);
                },
                Err(e) => {
                    out.error = Some(e);
                    assert(out@.rows =~= start + Seq::empty());
                },
            }
        }
    }

    /// What the outer rows give.
    #[verifier::rlimit(40)]
    #[verifier::spinoff_prover]
    fn match_all<F: Fn(FloatOp, u32, u32) -> u32>(
        &self,
        bpm: &mut BufferPoolManager,
        info: &IndexInfo,
        source: &TableHeap,
        table: &TableInfo,
        fl: &F,
    ) -> (out: RowStream)
        requires
            computes(*fl),
            old(bpm).wf(),
            info.index.wf(old(bpm).pages()),
            source.wf(old(bpm).pages()),
            forall|k: Seq<u8>|
                (#[trigger] info.index.find(old(bpm).pages(), k)) matches Some(rid)
                    ==> source.has_slot(old(bpm).pages(), rid),
            self.plan.schema@.wf(),
        ensures
            final(bpm).wf(),
            old(bpm).ready() ==> final(bpm).ready(),
            final(bpm).same_pages(old(bpm)),
            ({
                let rows = self.child@.rows;
                let join = self.join(*info, *source, *table);
                let f = outers_part(results(*fl), old(bpm).pages(), join, rows);
                let all = flat(f, rows.len() as int);
                if old(bpm).ready() {
                    out@ == all
                } else {
                    cut_short(out@, all)
                }
            }),
    {
        let ghost pages = bpm.pages();
        let ghost outers = self.child@.rows;
        let ghost join = self.join(*info, *source, *table);
        let ghost f = outers_part(results(*fl), pages, join, outers);
        let mut out = RowStream::empty();
        let mut x: usize = 0;
        let ghost mut done: int = 0;
        while out.error.is_none() && x < self.child.rows.len()
            invariant
                x <= self.child.rows@.len(),
                computes(*fl),
                bpm.wf(),
                old(bpm).ready() ==> bpm.ready(),
                bpm.same_pages(old(bpm)),
                0 <= done <= x,
                done == x || (!old(bpm).ready() && out@.rows == flat(f, done).rows && out@.error
                    is Some),
                pages == old(bpm).pages(),
                
                info.index.wf(pages),
                source.wf(pages),
                forall|k: Seq<u8>|
                    (#[trigger] info.index.find(pages, k)) matches Some(rid)
                        ==> source.has_slot(pages, rid),
                self.plan.schema@.wf(),
                outers == self.child@.rows,
                join == self.join(*info, *source, *table),
                f == outers_part(results(*fl), pages, join, outers),
                done == x ==> out@ == flat(f, x as int),
            decreases self.child.rows@.len() - x,
        {
            let outer = &self.child.rows[x].0;
            assert(outers[x as int].0 == outer.data@);
            let ghost before = out@;
            self.match_outer(bpm, info, source, table, outer, &mut out, fl);
            x += 1;
            proof {
                let part = f(x - 1);
                if out@ == (StreamView { rows: before.rows + part.rows, error: part.error }) {
                    done = x as int;
                    assert(out@ == flat(f, x as int));
                }
            }
        }
        proof {
            if done < x {
                lemma_flat_grows(f, done, outers.len() as int);
            } else if out@.error is Some {
                lemma_flat_stops(f, x as int, outers.len() as int);
            }
        }
        out
    }

    /// Opens the step.
    pub fn open<F: Fn(FloatOp, u32, u32) -> u32>(
        &mut self,
        catalog: &Catalog,
        bpm: &mut BufferPoolManager,
        fl: &F,
    ) -> (res: Result<(), ExecutorError>)
        requires
            computes(*fl),
            old(bpm).wf(),
            catalog.wf(old(bpm).pages()),
            old(self).plan.schema@.wf(),
        ensures
            final(bpm).wf(),
            old(bpm).ready() ==> final(bpm).ready(),
            final(bpm).same_pages(old(bpm)),
            final(self).plan == old(self).plan,
            ({
                let all = index_join_plan_stream(
                    results(*fl),
                    catalog,
                    old(bpm).pages(),
                    *old(self).plan,
                    old(self).child_schema@,
                    old(self).child@,
                );
                let found = catalog.has_index(old(self).plan.index_oid) && catalog.has_table(
                    old(self).plan.table_oid,
                );
                match res {
                    Ok(_) => found && (final(self).output matches Some(s) && if old(bpm).ready() {
                        s@ == all
                    } else {
                        cut_short(s@, all)
                    }),
                    Err(e) => !found && all == fails(e.0@),
                }
            }),
    {
        let ghost pages = bpm.pages();
        let info = match catalog.get_index(self.plan.index_oid) {
            Ok(info) => info,
            Err(e) => { return Err(catalog_failure(e)); },
        };
        let table = match catalog.get_table(self.plan.table_oid) {
            Ok(t) => t,
            Err(e) => { return Err(catalog_failure(e)); },
        };
        let ghost j = catalog.index_pos(self.plan.index_oid);
        proof {
            assert(is_index(catalog.indexes@, self.plan.index_oid, j));
            assert(catalog.index_fits(catalog.indexes@[j]));
        }
        let source = match catalog.get_table(info.table_oid) {
            Ok(t) => &t.heap,
            Err(e) => {
                assert(false);
                return Err(catalog_failure(e));
            },
        };
        let ghost i = catalog.table_pos(info.table_oid);
        proof {
            assert(is_table(catalog.tables@, catalog.indexes@[j].table_oid, i));
            assert(catalog.tables@[i].info.heap.wf(pages));
            assert(catalog.indexes@[j].index.wf(pages));
            assert forall|k: Seq<u8>|
                (#[trigger] info.index.find(pages, k)) matches Some(rid) implies
                source.has_slot(pages, info.index.find(pages, k)->0) by {
                assert(catalog.indexes@[j].index.find(pages, k) == info.index.find(pages, k));
            }
        }
        let mut out = self.match_all(bpm, info, source, table, fl);
        if out.error.is_none() {
            out.error = self.child.error.take();
        }
        self.output = Some(out);
        Ok(())
    }
}

impl<'a> Executor for NestedIndexJoinExecutor<'a> {
    open spec fn output(&self) -> Option<StreamView> {
        stream_view(self.output)
    }

    open spec fn out_schema(&self) -> SchemaView {
        self.plan.schema@
    }

    open spec fn unopened(&self) -> Seq<char> {
        "NestedIndexJoinExecutor::next called before open"@
    }

    fn next(&mut self) -> (res: Result<Option<(Tuple, RecordId)>, ExecutorError>) {
        pull(&mut self.output, "NestedIndexJoinExecutor::next called before open")
    }

    fn schema(&self) -> (res: &Schema) {
        &self.plan.schema
    }

    fn close(&mut self) -> (res: Result<(), ExecutorError>) {
        Ok(())
    }
}

pub open spec fn index_join_of(
    plan: NestedIndexJoinPlanNode,
    outer: SchemaView,
    info: IndexInfo,
    source: TableHeap,
    table: TableInfo,
) -> IndexJoinView {
    IndexJoinView {
        key: plan.key_predicate,
        join_type: plan.join_type,
        out: plan.schema@,
        outer,
        index: info.index,
        source,
        inner: table,
    }
}

/// What an index join gives with the index and the table that the plan names.
pub open spec fn index_join_plan_stream(
    fl: spec_fn(FloatOp, u32, u32) -> u32,
    catalog: &Catalog,
    pages: Pages,
    plan: NestedIndexJoinPlanNode,
    outer: SchemaView,
    child: StreamView,
) -> StreamView {
    let info = catalog.index(plan.index_oid);
    let table = catalog.table(plan.table_oid);
    if !catalog.has_index(plan.index_oid) {
        fails(catalog_message(CatalogError::IndexDoesNotExist))
    } else if !catalog.has_table(plan.table_oid) {
        fails(catalog_message(CatalogError::TableDoesNotExist))
    } else {
        let source = catalog.table(info.table_oid).heap;
        index_join_stream(fl, pages, index_join_of(plan, outer, info, source, table), child)
    }
}

} // verus!
