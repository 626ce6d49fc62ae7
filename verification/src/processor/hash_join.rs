//! Joins of rows with equal keys, by way of partitions that are put aside.
use vstd::prelude::*;

use crate::buffer_pool::BufferPoolManager;
use crate::catalog::schema::{Schema, SchemaView};
use crate::catalog::value::{option_eq, type_rank, value_key, Value};
use crate::index::tree_model::Pages;
use crate::processor::aggregate::{keys_agree, same_key};
use crate::processor::executor::{left_over, pull_any, Executor};
use crate::processor::expression::{computes, results, ExecutorError, Expression, FloatOp};
use crate::processor::join::{join_tuples, joined_tuple};
use crate::processor::plan::{HashJoinPlanNode, JoinType};
use crate::processor::spill::{
    holds, kept, lemma_row_held, new_run, no_page, no_page_failure, read_back, row_error, set_aside,
    worked_aside,
};
use crate::processor::stream::{
    eval_all, evaluate_all, fails, flat, heap_failure, lemma_flat_stops, one_row, row_view,
    row_views, rows_only, unstored, RowStream, RowView, StreamView,
};
use crate::table_heap::{RecordId, Row, TableHeap, Tuple, SLOT_BYTES};

verus! {

/// How many partitions the rows of each side are put into.
pub const PARTITIONS: usize = 64;

pub const HASH_RANGE: u64 = 2_147_483_647;

/// A number for a value that is the same for equal values.
pub open spec fn value_code(v: Option<Value>) -> int {
    match v {
        None => 0,
        Some(x) => (value_key(x) + 0x8000_0000_0000_0000) % HASH_RANGE as int + type_rank(x) + 1,
    }
}

/// The hash of the first `n` values of a key.
pub open spec fn hash_prefix(key: Seq<Option<Value>>, n: int) -> int
    decreases n,
{
    if n <= 0 {
        0
    } else {
        (31 * hash_prefix(key, n - 1) + value_code(key[n - 1])) % HASH_RANGE as int
    }
}

pub open spec fn hash_of(key: Seq<Option<Value>>) -> int {
    hash_prefix(key, key.len() as int)
}

/// Keys that agree have the same hash.
pub proof fn law_hash_agrees(a: Seq<Option<Value>>, b: Seq<Option<Value>>)
    requires
        same_key(a, b),
    ensures
        hash_of(a) == hash_of(b),
{
    lemma_hash_agrees(a, b, a.len() as int);
}

proof fn lemma_hash_agrees(a: Seq<Option<Value>>, b: Seq<Option<Value>>, n: int)
    requires
        same_key(a, b),
        0 <= n <= a.len(),
    ensures
        hash_prefix(a, n) == hash_prefix(b, n),
    decreases n,
{
    if n > 0 {
        lemma_hash_agrees(a, b, n - 1);
        assert(option_eq(a[n - 1], b[n - 1]));
    }
}

impl Value {
    /// A number for the value that is the same for equal values.
    fn code(&self) -> (res: u64)
        ensures
            res == value_code(Some(*self)),
            res < HASH_RANGE + 4,
    {
        let (rank, key): (u64, i64) = match self {
            Value::BOOLEAN(b) => (
                0,
                if *b {
                    1
                } else {
                    0
                },
            ),
            Value::INT(i) => (1, *i as i64),
            Value::FLOAT(f) => (2, f.key()),
            Value::TIMESTAMP(t) => (3, *t),
        };
        let shifted: u64 = (key as i128 + 0x8000_0000_0000_0000) as u64;
        shifted % HASH_RANGE + rank + 1
    }
}

/// The hash of a key.
pub fn hash_key(key: &Vec<Option<Value>>) -> (res: u64)
    ensures
        res == hash_of(key@),
{
    let mut h: u64 = 0;
    let mut i: usize = 0;
    while i < key.len()
        invariant
            i <= key@.len(),
            h == hash_prefix(key@, i as int),
            h < HASH_RANGE,
        decreases key@.len() - i,
    {
        let c: u64 = match &key[i] {
            Some(v) => v.code(),
            None => 0,
        };
        h = (31 * h + c) % HASH_RANGE;
        i += 1;
    }
    h
}

/// The partition of a row whose key can be computed.
pub open spec fn bucket(
    fl: spec_fn(FloatOp, u32, u32) -> u32,
    exprs: Seq<Expression>,
    s: SchemaView,
    data: Seq<u8>,
) -> int {
    hash_of(eval_all(fl, exprs, data, s)->Ok_0) % PARTITIONS as int
}

/// The rows among the first `n` that belong to partition `p`.
pub open spec fn bucket_rows(
    fl: spec_fn(FloatOp, u32, u32) -> u32,
    exprs: Seq<Expression>,
    s: SchemaView,
    rows: Seq<RowView>,
    p: int,
    n: int,
) -> Seq<RowView>
    decreases n,
{
    if n <= 0 {
        Seq::empty()
    } else {
        let before = bucket_rows(fl, exprs, s, rows, p, n - 1);
        if bucket(fl, exprs, s, rows[n - 1].0) == p {
            before.push(unstored(rows[n - 1].0))
        } else {
            before
        }
    }
}

/// All keys of the rows can be computed.
pub open spec fn keys_computed(
    fl: spec_fn(FloatOp, u32, u32) -> u32,
    exprs: Seq<Expression>,
    s: SchemaView,
    rows: Seq<RowView>,
) -> bool {
    forall|i: int| 0 <= i < rows.len() ==> eval_all(fl, exprs, (#[trigger] rows[i]).0, s) is Ok
}

/// Why the first `n` rows cannot be put into partitions: the key of one of them cannot be
/// computed, or its partition does not take it. `None` where they can.
pub open spec fn filing_error(
    fl: spec_fn(FloatOp, u32, u32) -> u32,
    exprs: Seq<Expression>,
    s: SchemaView,
    rows: Seq<RowView>,
    n: int,
) -> Option<Seq<char>>
    decreases n,
{
    if n <= 0 {
        None
    } else {
        match filing_error(fl, exprs, s, rows, n - 1) {
            Some(e) => Some(e),
            None => match eval_all(fl, exprs, rows[n - 1].0, s) {
                Err(e) => Some(e),
                Ok(_) => row_error(
                    bucket_rows(fl, exprs, s, rows, bucket(fl, exprs, s, rows[n - 1].0), n - 1),
                    rows[n - 1].0.len() as int,
                ),
            },
        }
    }
}

/// Once a row cannot be put into its partition, those behind it do not matter.
proof fn lemma_filing_stops(
    fl: spec_fn(FloatOp, u32, u32) -> u32,
    exprs: Seq<Expression>,
    s: SchemaView,
    rows: Seq<RowView>,
    m: int,
    n: int,
)
    requires
        0 <= m <= n,
        filing_error(fl, exprs, s, rows, m) is Some,
    ensures
        filing_error(fl, exprs, s, rows, n) == filing_error(fl, exprs, s, rows, m),
    decreases n,
{
    if m < n {
        lemma_filing_stops(fl, exprs, s, rows, m, n - 1);
    }
}

/// Rows that can be put into partitions have keys.
pub(crate) proof fn lemma_filed_keys(
    fl: spec_fn(FloatOp, u32, u32) -> u32,
    exprs: Seq<Expression>,
    s: SchemaView,
    rows: Seq<RowView>,
    n: int,
)
    requires
        n <= rows.len(),
        filing_error(fl, exprs, s, rows, n) is None,
    ensures
        forall|i: int| 0 <= i < n ==> eval_all(fl, exprs, (#[trigger] rows[i]).0, s) is Ok,
    decreases n,
{
    if n > 0 {
        lemma_filed_keys(fl, exprs, s, rows, n - 1);
    }
}

/// Rows that were put into a partition are among those that were given, and their keys can be
/// computed.
proof fn lemma_bucket_rows(
    fl: spec_fn(FloatOp, u32, u32) -> u32,
    exprs: Seq<Expression>,
    s: SchemaView,
    rows: Seq<RowView>,
    p: int,
    n: int,
)
    requires
        0 <= n <= rows.len(),
    ensures
        bucket_rows(fl, exprs, s, rows, p, n).len() <= n,
        set_aside(bucket_rows(fl, exprs, s, rows, p, n)) == bucket_rows(fl, exprs, s, rows, p, n),
        forall|k: int|
            0 <= k < bucket_rows(fl, exprs, s, rows, p, n).len() ==> exists|i: int|
                0 <= i < n && (#[trigger] rows[i]).0 == (#[trigger] bucket_rows(
                    fl,
                    exprs,
                    s,
                    rows,
                    p,
                    n,
                )[k]).0 && bucket(fl, exprs, s, rows[i].0) == p,
        forall|i: int|
            0 <= i < n && bucket(fl, exprs, s, (#[trigger] rows[i]).0) == p ==> bucket_rows(
                fl,
                exprs,
                s,
                rows,
                p,
                n,
            ).contains(unstored(rows[i].0)),
    decreases n,
{
    let b = bucket_rows(fl, exprs, s, rows, p, n);
    if n > 0 {
        lemma_bucket_rows(fl, exprs, s, rows, p, n - 1);
        let before = bucket_rows(fl, exprs, s, rows, p, n - 1);
        assert forall|k: int| 0 <= k < b.len() implies exists|i: int|
            0 <= i < n && (#[trigger] rows[i]).0 == (#[trigger] b[k]).0 && bucket(
                fl,
                exprs,
                s,
                rows[i].0,
            ) == p by {
            if k < before.len() {
                assert(b[k] == before[k]);
                let i = choose|i: int|
                    0 <= i < n - 1 && (#[trigger] rows[i]).0 == before[k].0 && bucket(
                        fl,
                        exprs,
                        s,
                        rows[i].0,
                    ) == p;
                assert(rows[i].0 == b[k].0);
            } else {
                assert(rows[n - 1].0 == b[k].0);
            }
        }
        assert forall|i: int|
            0 <= i < n && bucket(fl, exprs, s, (#[trigger] rows[i]).0) == p implies b.contains(
            unstored(rows[i].0),
        ) by {
            if i < n - 1 {
                let k = choose|k: int| 0 <= k < before.len() && before[k] == unstored(rows[i].0);
                assert(b[k] == unstored(rows[i].0));
            } else {
                assert(b[b.len() - 1] == unstored(rows[i].0));
            }
        }
    }
    assert(set_aside(b) =~= b) by {
        assert forall|k: int| 0 <= k < b.len() implies set_aside(b)[k] == b[k] by {
            if n > 0 {
                let before = bucket_rows(fl, exprs, s, rows, p, n - 1);
                if k < before.len() {
                    assert(set_aside(before)[k] == before[k]);
                }
            }
        }
    }
}

/// The tables lie on pages of their own.
pub open spec fn apart(heaps: Seq<TableHeap>, taken: Pages) -> bool {
    &&& forall|p: int| 0 <= p < heaps.len() ==> !taken.contains_key((#[trigger] heaps[p]).last_page_id)
    &&& forall|p: int, q: int|
        0 <= p < q < heaps.len() ==> (#[trigger] heaps[p]).last_page_id != (
        #[trigger] heaps[q]).last_page_id
}

/// The tables hold the rows of the partitions.
pub open spec fn partitioned(
    fl: spec_fn(FloatOp, u32, u32) -> u32,
    exprs: Seq<Expression>,
    s: SchemaView,
    rows: Seq<RowView>,
    n: int,
    heaps: Seq<TableHeap>,
    pages: Pages,
) -> bool {
    &&& heaps.len() == PARTITIONS
    &&& forall|p: int|
        0 <= p < PARTITIONS ==> holds(
            #[trigger] heaps[p],
            pages,
            bucket_rows(fl, exprs, s, rows, p, n),
        )
}

/// Creates the tables for the partitions of one side.
fn new_partitions(bpm: &mut BufferPoolManager) -> (res: Result<Vec<TableHeap>, ExecutorError>)
    requires
        old(bpm).wf(),
        old(bpm).ready(),
        old(bpm).ids_fresh(),
    ensures
        worked_aside(old(bpm), final(bpm)),
        res is Ok <==> old(bpm).next_page_id() + PARTITIONS <= u32::MAX,
        final(bpm).next_page_id() <= old(bpm).next_page_id() + PARTITIONS,
        match res {
            Ok(heaps) => {
                &&& heaps@.len() == PARTITIONS
                &&& apart(heaps@, old(bpm).pages())
                &&& final(bpm).next_page_id() == old(bpm).next_page_id() + PARTITIONS
                &&& forall|p: int|
                    0 <= p < PARTITIONS ==> holds(
                        #[trigger] heaps@[p],
                        final(bpm).pages(),
                        Seq::empty(),
                    )
            },
            Err(e) => e.0@ == no_page(),
        },
{
    let mut heaps: Vec<TableHeap> = Vec::new();
    while heaps.len() < PARTITIONS
        invariant
            heaps@.len() <= PARTITIONS,
            worked_aside(old(bpm), bpm),
            bpm.next_page_id() == old(bpm).next_page_id() + heaps@.len(),
            heaps@.len() > 0 ==> bpm.next_page_id() <= u32::MAX,
            apart(heaps@, old(bpm).pages()),
            forall|p: int|
                0 <= p < heaps@.len() ==> holds(#[trigger] heaps@[p], bpm.pages(), Seq::empty()),
        decreases PARTITIONS - heaps@.len(),
    {
        let ghost pages = bpm.pages();
        let ghost before = heaps@;
        match new_run(bpm) {
            Ok(h) => {
                heaps.push(h);
                proof {
                    assert forall|p: int| 0 <= p < heaps@.len() implies holds(
                        #[trigger] heaps@[p],
                        bpm.pages(),
                        Seq::empty(),
                    ) by {
                        if p < before.len() {
                            assert(holds(before[p], pages, Seq::empty()));
                            assert(pages.contains_key(before[p].last_page_id));
                        }
                    }
                    assert forall|p: int, q: int| 0 <= p < q < heaps@.len() implies (
                    #[trigger] heaps@[p]).last_page_id != (#[trigger] heaps@[q]).last_page_id by {
                        assert(holds(before[p], pages, Seq::empty()));
                    }
                }
            },
            Err(e) => { return Err(e); },
        }
    }
    Ok(heaps)
}

/// A row was added to the table of one partition.
proof fn lemma_row_filed(
    fl: spec_fn(FloatOp, u32, u32) -> u32,
    exprs: Seq<Expression>,
    s: SchemaView,
    rows: Seq<RowView>,
    i: int,
    heaps: Seq<TableHeap>,
    taken: Pages,
    p0: Pages,
    p1: Pages,
)
    requires
        0 <= i < rows.len(),
        partitioned(fl, exprs, s, rows, i, heaps, p0),
        apart(heaps, taken),
        ({
            let h = heaps[bucket(fl, exprs, s, rows[i].0)];
            &&& p1 == p0.insert(h.last_page_id, p1[h.last_page_id])
            &&& h.wf(p1)
            &&& h.rows(p1) == h.rows(p0).push(Row { deleted: false, data: rows[i].0 })
            &&& h.room(p1) == h.room(p0) - rows[i].0.len() - SLOT_BYTES
        }),
    ensures
        partitioned(fl, exprs, s, rows, i + 1, heaps, p1),
{
    let b = bucket(fl, exprs, s, rows[i].0);
    assert(0 <= b < PARTITIONS);
    assert forall|p: int| 0 <= p < PARTITIONS implies holds(
        #[trigger] heaps[p],
        p1,
        bucket_rows(fl, exprs, s, rows, p, i + 1),
    ) by {
        let before = bucket_rows(fl, exprs, s, rows, p, i);
        assert(holds(heaps[p], p0, before));
        if p == b {
            lemma_row_held(heaps[p], p0, p1, before, unstored(rows[i].0));
        } else {
            assert(heaps[p].last_page_id != heaps[b].last_page_id) by {
                if p < b {
                    assert(heaps[p].last_page_id != heaps[b].last_page_id);
                } else {
                    assert(heaps[b].last_page_id != heaps[p].last_page_id);
                }
            }
            assert(p1[heaps[p].last_page_id] == p0[heaps[p].last_page_id]);
            assert(heaps[p].rows(p1) == heaps[p].rows(p0));
        }
    }
}

/// Puts the rows of one side into partitions by the hash of their keys.
fn partition<F: Fn(FloatOp, u32, u32) -> u32>(
    bpm: &mut BufferPoolManager,
    rows: &Vec<(Tuple, RecordId)>,
    exprs: &Vec<Expression>,
    schema: &Schema,
    fl: &F,
) -> (res: Result<Vec<TableHeap>, ExecutorError>)
    requires
        computes(*fl),
        old(bpm).wf(),
        old(bpm).ready(),
        old(bpm).ids_fresh(),
    ensures
        worked_aside(old(bpm), final(bpm)),
        final(bpm).next_page_id() <= old(bpm).next_page_id() + PARTITIONS,
        old(bpm).next_page_id() + PARTITIONS > u32::MAX ==> (res matches Err(e) && e.0@
            == no_page()),
        old(bpm).next_page_id() + PARTITIONS <= u32::MAX ==> {
            let all = row_views(rows@);
            let error = filing_error(results(*fl), exprs@, schema@, all, all.len() as int);
            match res {
                Ok(heaps) => {
                    &&& error is None
                    &&& final(bpm).next_page_id() == old(bpm).next_page_id() + PARTITIONS
                    &&& partitioned(
                        results(*fl),
                        exprs@,
                        schema@,
                        all,
                        all.len() as int,
                        heaps@,
                        final(bpm).pages(),
                    )
                },
                Err(e) => error == Some(e.0@),
            }
        },
{
    let heaps = match new_partitions(bpm) {
        Ok(heaps) => heaps,
        Err(e) => { return Err(e); },
    };
    let ghost all = row_views(rows@);
    let ghost taken = old(bpm).pages();
    let ghost next = bpm.next_page_id();
    let mut i: usize = 0;
    while i < rows.len()
        invariant
            i <= rows@.len(),
            all == row_views(rows@),
            taken == old(bpm).pages(),
            computes(*fl),
            worked_aside(old(bpm), bpm),
            bpm.next_page_id() == next,
            apart(heaps@, taken),
            partitioned(results(*fl), exprs@, schema@, all, i as int, heaps@, bpm.pages()),
            filing_error(results(*fl), exprs@, schema@, all, i as int) is None,
            old(bpm).next_page_id() + PARTITIONS <= u32::MAX,
            next == old(bpm).next_page_id() + PARTITIONS,
        decreases rows@.len() - i,
    {
        assert(all[i as int].0 == rows@[i as int].0.data@);
        let key = match evaluate_all(exprs, &rows[i].0, schema, fl) {
            Ok(k) => k,
            Err(e) => {
                proof {
                    lemma_filing_stops(
                        results(*fl),
                        exprs@,
                        schema@,
                        all,
                        i + 1,
                        all.len() as int,
                    );
                }
                return Err(e);
            },
        };
        let slot: usize = (hash_key(&key) % 64) as usize;
        let ghost before = bpm.pages();
        assert(slot == bucket(results(*fl), exprs@, schema@, all[i as int].0));
        assert(holds(
            heaps@[slot as int],
            before,
            bucket_rows(results(*fl), exprs@, schema@, all, slot as int, i as int),
        ));
        match heaps[slot].insert(bpm, &rows[i].0) {
            Ok(_) => {},
            Err(e) => {
                proof {
                    lemma_filing_stops(
                        results(*fl),
                        exprs@,
                        schema@,
                        all,
                        i + 1,
                        all.len() as int,
                    );
                }
                return Err(heap_failure(e));
            },
        }
        proof {
            lemma_row_filed(
                results(*fl),
                exprs@,
                schema@,
                all,
                i as int,
                heaps@,
                taken,
                before,
                bpm.pages(),
            );
        }
        i += 1;
    }
    Ok(heaps)
}

/// Joins rows with equal keys.
pub struct HashJoinExecutor<'a> {
    pub plan: &'a HashJoinPlanNode,
    pub left: RowStream,
    pub left_schema: &'a Schema,
    pub right: RowStream,
    pub right_schema: &'a Schema,
    pub output: Option<RowStream>,
}

/// What a hash join is made of.
pub struct HashJoinView {
    pub left_exprs: Seq<Expression>,
    pub right_exprs: Seq<Expression>,
    pub join_type: JoinType,
    pub out: SchemaView,
    pub left: SchemaView,
    pub right: SchemaView,
}

impl HashJoinView {
    pub open spec fn left_key(
        self,
        fl: spec_fn(FloatOp, u32, u32) -> u32,
        row: RowView,
    ) -> Seq<Option<Value>> {
        eval_all(fl, self.left_exprs, row.0, self.left)->Ok_0
    }

    pub open spec fn right_key(
        self,
        fl: spec_fn(FloatOp, u32, u32) -> u32,
        row: RowView,
    ) -> Seq<Option<Value>> {
        eval_all(fl, self.right_exprs, row.0, self.right)->Ok_0
    }

    /// The keys of a left and a right row agree.
    pub open spec fn agree(
        self,
        fl: spec_fn(FloatOp, u32, u32) -> u32,
        l: RowView,
        r: RowView,
    ) -> bool {
        same_key(self.left_key(fl, l), self.right_key(fl, r))
    }

    /// No right row has the key of a left one.
    pub open spec fn unmatched(
        self,
        fl: spec_fn(FloatOp, u32, u32) -> u32,
        l: RowView,
        rights: Seq<RowView>,
    ) -> bool {
        forall|r: int| 0 <= r < rights.len() ==> !self.agree(fl, l, #[trigger] rights[r])
    }

    pub open spec fn joined(self, l: RowView, r: Option<RowView>) -> StreamView {
        one_row(
            joined_tuple(
                self.out,
                self.left,
                l.0,
                self.right,
                match r {
                    Some(x) => Some(x.0),
                    None => None,
                },
            ),
        )
    }

    /// The joined row of a right row with left row `i`, where their keys agree.
    pub open spec fn match_part(
        self,
        fl: spec_fn(FloatOp, u32, u32) -> u32,
        lefts: Seq<RowView>,
        r: RowView,
    ) -> spec_fn(int) -> StreamView {
        |i: int|
            if self.agree(fl, lefts[i], r) {
                self.joined(lefts[i], Some(r))
            } else {
                rows_only(Seq::empty())
            }
    }

    /// The matches of right row `r`, the last left row first.
    pub open spec fn rights_part(
        self,
        fl: spec_fn(FloatOp, u32, u32) -> u32,
        lefts: Seq<RowView>,
        rights: Seq<RowView>,
    ) -> spec_fn(int) -> StreamView {
        |r: int| from_the_back(flat(self.match_part(fl, lefts, rights[r]), lefts.len() as int))
    }

    /// Left row `i` with NULLs, where no right row has its key.
    pub open spec fn unmatched_part(
        self,
        fl: spec_fn(FloatOp, u32, u32) -> u32,
        lefts: Seq<RowView>,
        rights: Seq<RowView>,
    ) -> spec_fn(int) -> StreamView {
        |i: int|
            if self.unmatched(fl, lefts[i], rights) {
                self.joined(lefts[i], None)
            } else {
                rows_only(Seq::empty())
            }
    }

    /// What the rows of one partition give: the matches of each right row, then for a left join
    /// the left rows without a match.
    pub open spec fn partition_stream(
        self,
        fl: spec_fn(FloatOp, u32, u32) -> u32,
        lefts: Seq<RowView>,
        rights: Seq<RowView>,
    ) -> StreamView {
        let matches = flat(self.rights_part(fl, lefts, rights), rights.len() as int);
        if self.join_type == JoinType::Left {
            followed_by(
                matches,
                from_the_back(flat(self.unmatched_part(fl, lefts, rights), lefts.len() as int)),
            )
        } else {
            matches
        }
    }

    pub open spec fn partitions_part(
        self,
        fl: spec_fn(FloatOp, u32, u32) -> u32,
        lefts: Seq<RowView>,
        rights: Seq<RowView>,
    ) -> spec_fn(int) -> StreamView {
        |p: int|
            self.partition_stream(
                fl,
                bucket_rows(fl, self.left_exprs, self.left, lefts, p, lefts.len() as int),
                bucket_rows(fl, self.right_exprs, self.right, rights, p, rights.len() as int),
            )
    }

    /// What all partitions give, one after the other.
    pub open spec fn stream(
        self,
        fl: spec_fn(FloatOp, u32, u32) -> u32,
        lefts: Seq<RowView>,
        rights: Seq<RowView>,
    ) -> StreamView {
        flat(self.partitions_part(fl, lefts, rights), PARTITIONS as int)
    }
}

/// The rows of a stream from the last to the first; nothing but the error where it fails.
pub open spec fn from_the_back(s: StreamView) -> StreamView {
    match s.error {
        Some(e) => fails(e),
        None => rows_only(s.rows.reverse()),
    }
}

/// A stream and, where it does not fail, another one behind it.
pub open spec fn followed_by(a: StreamView, b: StreamView) -> StreamView {
    if a.error is Some {
        a
    } else {
        StreamView { rows: a.rows + b.rows, error: b.error }
    }
}

/// Appends the rows of `part` from the last to the first, or its error.
fn append_back(out: &mut RowStream, part: RowStream)
    requires
        old(out)@.error is None,
    ensures
        final(out)@ == followed_by(old(out)@, from_the_back(part@)),
{
    let mut rows = part.rows;
    let ghost all = row_views(rows@);
    match part.error {
        Some(e) => {
            out.error = Some(e);
            assert(out@.rows =~= old(out)@.rows + Seq::empty());
        },
        None => {
            let ghost start = out@.rows;
            assert(out@.rows =~= start + all.reverse().subrange(0, 0));
            while rows.len() > 0
                invariant
                    rows@.len() <= all.len(),
                    row_views(rows@) == all.subrange(0, rows@.len() as int),
                    out@.error is None,
                    out@.rows == start + all.reverse().subrange(0, all.len() - rows@.len()),
                decreases rows@.len(),
            {
                let ghost before = rows@;
                let ghost m = all.len() - before.len();
                match rows.pop() {
                    Some(row) => {
                        proof {
                            assert(row_views(before)[before.len() - 1] == row_view(row));
                            assert(all.reverse()[m as int] == row_view(row));
                            assert(row_views(rows@) =~= all.subrange(0, rows@.len() as int)) by {
                                assert forall|k: int| 0 <= k < rows@.len() implies row_views(
                                    rows@,
                                )[k] == all[k] by {
                                    assert(row_views(before)[k] == all.subrange(
                                        0,
                                        before.len() as int,
                                    )[k]);
                                }
                            }
                            assert(all.reverse().subrange(0, m + 1) =~= all.reverse().subrange(
                                0,
                                m as int,
                            ).push(row_view(row)));
                        }
                        let ghost now = out@.rows;
                        out.add(row.0, row.1);
                        assert(out@.rows =~= start + all.reverse().subrange(0, m + 1));
                    },
                    None => {},
                }
            }
            assert(all.reverse().subrange(0, all.len() as int) =~= all.reverse());
        },
    }
}

pub open spec fn hash_join_of(
    plan: HashJoinPlanNode,
    left: SchemaView,
    right: SchemaView,
) -> HashJoinView {
    HashJoinView {
        left_exprs: plan.left_exprs@,
        right_exprs: plan.right_exprs@,
        join_type: plan.join_type,
        out: plan.schema@,
        left,
        right,
    }
}

/// How many pages can be had that record ids can name.
pub open spec fn pages_to_have(bpm: &BufferPoolManager) -> int {
    if bpm.has_frame() {
        u32::MAX - bpm.next_page_id()
    } else {
        0
    }
}

/// The rows of both sides can be put into partitions, where `ids` pages can still be had.
pub open spec fn partitions_filled(
    fl: spec_fn(FloatOp, u32, u32) -> u32,
    j: HashJoinView,
    left: StreamView,
    right: StreamView,
    ids: int,
) -> bool {
    let (n, m) = (left.rows.len() as int, right.rows.len() as int);
    &&& ids >= 2 * PARTITIONS
    &&& filing_error(fl, j.left_exprs, j.left, left.rows, n) is None && left.error is None
    &&& filing_error(fl, j.right_exprs, j.right, right.rows, m) is None && right.error is None
}

/// What a hash join gives, where `ids` pages can still be had: the joined rows, unless the rows
/// of one side cannot be put into partitions or end in an error. The partitions come first, then
/// the left side.
pub open spec fn hash_join_stream(
    fl: spec_fn(FloatOp, u32, u32) -> u32,
    j: HashJoinView,
    left: StreamView,
    right: StreamView,
    ids: int,
) -> StreamView {
    let (n, m) = (left.rows.len() as int, right.rows.len() as int);
    if ids < 2 * PARTITIONS {
        fails(no_page())
    } else {
        match filing_error(fl, j.left_exprs, j.left, left.rows, n) {
            Some(e) => fails(e),
            None => match left.error {
                Some(e) => fails(e),
                None => match filing_error(fl, j.right_exprs, j.right, right.rows, m) {
                    Some(e) => fails(e),
                    None => match right.error {
                        Some(e) => fails(e),
                        None => j.stream(fl, left.rows, right.rows),
                    },
                },
            },
        }
    }
}

/// The keys of the left rows of a partition, and which of them found a match.
struct LeftTable {
    keys: Vec<Vec<Option<Value>>>,
    matched: Vec<bool>,
}

impl<'a> HashJoinExecutor<'a> {
    pub fn new(
        plan: &'a HashJoinPlanNode,
        left: RowStream,
        left_schema: &'a Schema,
        right: RowStream,
        right_schema: &'a Schema,
    ) -> (res: Self)
        ensures
            res.plan == plan,
            res.left == left,
            res.left_schema == left_schema,
            res.right == right,
            res.right_schema == right_schema,
            res.output is None,
    {
        HashJoinExecutor { plan, left, left_schema, right, right_schema, output: None }
    }

    pub open spec fn join(&self) -> HashJoinView {
        hash_join_of(*self.plan, self.left_schema@, self.right_schema@)
    }

    /// The table holds the keys of the left rows and marks those that agree with one of the
    /// first `n` right rows.
    spec fn table_ok(
        &self,
        fl: spec_fn(FloatOp, u32, u32) -> u32,
        table: LeftTable,
        lefts: Seq<RowView>,
        rights: Seq<RowView>,
        n: int,
    ) -> bool {
        &&& table.keys@.len() == lefts.len()
        &&& table.matched@.len() == lefts.len()
        &&& forall|i: int|
            0 <= i < lefts.len() ==> (#[trigger] table.keys@[i])@ == self.join().left_key(
                fl,
                lefts[i],
            )
        &&& forall|i: int|
            0 <= i < lefts.len() ==> #[trigger] table.matched@[i] == !self.join().unmatched(
                fl,
                lefts[i],
                rights.subrange(0, n),
            )
    }

    /// Computes the keys of the left rows of a partition.
    fn build_table<F: Fn(FloatOp, u32, u32) -> u32>(
        &self,
        lefts: &Vec<(Tuple, RecordId)>,
        fl: &F,
        Ghost(rights): Ghost<Seq<RowView>>,
    ) -> (res: LeftTable)
        requires
            computes(*fl),
            keys_computed(
                results(*fl),
                self.plan.left_exprs@,
                self.left_schema@,
                row_views(lefts@),
            ),
        ensures
            self.table_ok(results(*fl), res, row_views(lefts@), rights, 0),
    {
        let ghost all = row_views(lefts@);
        let mut keys: Vec<Vec<Option<Value>>> = Vec::new();
        let mut matched: Vec<bool> = Vec::new();
        let mut i: usize = 0;
        while i < lefts.len()
            invariant
                i <= lefts@.len(),
                computes(*fl),
                all == row_views(lefts@),
                keys_computed(
                    results(*fl),
                    self.plan.left_exprs@,
                    self.left_schema@,
                    all,
                ),
                keys@.len() == i,
                matched@.len() == i,
                forall|k: int|
                    0 <= k < i ==> (#[trigger] keys@[k])@ == self.join().left_key(
                        results(*fl),
                        all[k],
                    ),
                forall|k: int| 0 <= k < i ==> !#[trigger] matched@[k],
            decreases lefts@.len() - i,
        {
            assert(all[i as int].0 == lefts@[i as int].0.data@);
            match evaluate_all(&self.plan.left_exprs, &lefts[i].0, self.left_schema, fl) {
                Ok(k) => keys.push(k),
                Err(_) => {
                    assert(false);
                    keys.push(Vec::new());
                },
            }
            matched.push(false);
            i += 1;
        }
        proof {
            assert forall|k: int| 0 <= k < all.len() implies #[trigger] matched@[k]
                == !self.join().unmatched(results(*fl), all[k], rights.subrange(0, 0)) by {
                assert(self.join().unmatched(results(*fl), all[k], rights.subrange(0, 0)));
            }
        }
        LeftTable { keys, matched }
    }

    /// The matches of one right row, which are marked in the table.
    fn probe<F: Fn(FloatOp, u32, u32) -> u32>(
        &self,
        table: &mut LeftTable,
        lefts: &Vec<(Tuple, RecordId)>,
        rt: &Tuple,
        fl: &F,
        Ghost(rights): Ghost<Seq<RowView>>,
        Ghost(n): Ghost<int>,
    ) -> (res: RowStream)
        requires
            computes(*fl),
            self.plan.schema@.wf(),
            0 <= n < rights.len(),
            rights[n] == unstored(rt.data@),
            keys_computed(results(*fl), self.plan.right_exprs@, self.right_schema@, rights),
            self.table_ok(results(*fl), *old(table), row_views(lefts@), rights, n),
        ensures
            res@ == flat(
                self.join().match_part(results(*fl), row_views(lefts@), rights[n]),
                lefts@.len() as int,
            ),
            res@.error is None ==> self.table_ok(
                results(*fl),
                *final(table),
                row_views(lefts@),
                rights,
                n + 1,
            ),
    {
        let ghost all = row_views(lefts@);
        let ghost j = self.join();
        let ghost f = j.match_part(results(*fl), all, rights[n]);
        let ghost marks = table.matched@;
        let key = match evaluate_all(&self.plan.right_exprs, rt, self.right_schema, fl) {
            Ok(k) => k,
            Err(_) => {
                assert(eval_all(
                    results(*fl),
                    self.plan.right_exprs@,
                    rights[n].0,
                    self.right_schema@,
                ) is Ok);
                assert(false);
                Vec::new()
            },
        };
        assert(key@ == j.right_key(results(*fl), rights[n]));
        let mut out = RowStream::empty();
        let mut i: usize = 0;
        while out.error.is_none() && i < lefts.len()
            invariant
                i <= lefts@.len(),
                computes(*fl),
                self.plan.schema@.wf(),
                all == row_views(lefts@),
                j == self.join(),
                f == j.match_part(results(*fl), all, rights[n]),
                rights[n] == unstored(rt.data@),
                key@ == j.right_key(results(*fl), rights[n]),
                table.keys@ == old(table).keys@,
                table.keys@.len() == all.len(),
                table.matched@.len() == all.len(),
                marks.len() == all.len(),
                forall|k: int|
                    0 <= k < all.len() ==> (#[trigger] table.keys@[k])@ == j.left_key(
                        results(*fl),
                        all[k],
                    ),
                forall|k: int|
                    0 <= k < i ==> #[trigger] table.matched@[k] == (marks[k] || j.agree(
                        results(*fl),
                        all[k],
                        rights[n],
                    )),
                forall|k: int| i <= k < all.len() ==> #[trigger] table.matched@[k] == marks[k],
                out@ == flat(f, i as int),
            decreases lefts@.len() - i,
        {
            let lt = &lefts[i].0;
            assert(all[i as int].0 == lt.data@);
            let ghost before = out@;
            if keys_agree(&table.keys[i], &key) {
                table.matched.set(i, true);
                match join_tuples(
                    &self.plan.schema,
                    self.left_schema,
                    lt,
                    self.right_schema,
                    Some(rt),
                ) {
                    Ok(t) => {
                        out.add(t, RecordId::reserved());
                        assert(out@.rows =~= before.rows + seq![unstored(t.data@)]);
                    },
                    Err(e) => {
                        out.error = Some(e);
                        assert(out@.rows =~= before.rows + Seq::empty());
                    },
                }
            } else {
                assert(out@.rows =~= before.rows + Seq::empty());
            }
            i += 1;
            assert(out@ == flat(f, i as int));
        }
        proof {
            if out@.error is Some {
                lemma_flat_stops(f, i as int, all.len() as int);
            } else {
                assert forall|k: int| 0 <= k < all.len() implies #[trigger] table.matched@[k]
                    == !j.unmatched(results(*fl), all[k], rights.subrange(0, n + 1)) by {
                    lemma_one_more_right(j, results(*fl), all[k], rights, n);
                }
            }
        }
        out
    }

    /// The left rows of a partition that found no match, with NULLs.
    fn leftovers(
        &self,
        table: &LeftTable,
        lefts: &Vec<(Tuple, RecordId)>,
        Ghost(fl): Ghost<spec_fn(FloatOp, u32, u32) -> u32>,
        Ghost(rights): Ghost<Seq<RowView>>,
    ) -> (res: RowStream)
        requires
            self.plan.schema@.wf(),
            self.table_ok(fl, *table, row_views(lefts@), rights, rights.len() as int),
        ensures
            res@ == flat(
                self.join().unmatched_part(fl, row_views(lefts@), rights),
                lefts@.len() as int,
            ),
    {
        let ghost all = row_views(lefts@);
        let ghost j = self.join();
        let ghost f = j.unmatched_part(fl, all, rights);
        assert(rights.subrange(0, rights.len() as int) =~= rights);
        let mut out = RowStream::empty();
        let mut i: usize = 0;
        while out.error.is_none() && i < lefts.len()
            invariant
                i <= lefts@.len(),
                self.plan.schema@.wf(),
                all == row_views(lefts@),
                j == self.join(),
                f == j.unmatched_part(fl, all, rights),
                table.matched@.len() == all.len(),
                forall|k: int|
                    0 <= k < all.len() ==> #[trigger] table.matched@[k] == !j.unmatched(
                        fl,
                        all[k],
                        rights,
                    ),
                out@ == flat(f, i as int),
            decreases lefts@.len() - i,
        {
            let lt = &lefts[i].0;
            assert(all[i as int].0 == lt.data@);
            let ghost before = out@;
            if !table.matched[i] {
                match join_tuples(
                    &self.plan.schema,
                    self.left_schema,
                    lt,
                    self.right_schema,
                    None,
                ) {
                    Ok(t) => {
                        out.add(t, RecordId::reserved());
                        assert(out@.rows =~= before.rows + seq![unstored(t.data@)]);
                    },
                    Err(e) => {
                        out.error = Some(e);
                        assert(out@.rows =~= before.rows + Seq::empty());
                    },
                }
            } else {
                assert(out@.rows =~= before.rows + Seq::empty());
            }
            i += 1;
            assert(out@ == flat(f, i as int));
        }
        proof {
            if out@.error is Some {
                lemma_flat_stops(f, i as int, all.len() as int);
            }
        }
        out
    }

    /// Joins the rows of one partition.
    fn join_partition<F: Fn(FloatOp, u32, u32) -> u32>(
        &self,
        lefts: &Vec<(Tuple, RecordId)>,
        rights: &Vec<(Tuple, RecordId)>,
        fl: &F,
    ) -> (res: RowStream)
        requires
            computes(*fl),
            self.plan.schema@.wf(),
            row_views(rights@) == set_aside(row_views(rights@)),
            keys_computed(
                results(*fl),
                self.plan.left_exprs@,
                self.left_schema@,
                row_views(lefts@),
            ),
            keys_computed(
                results(*fl),
                self.plan.right_exprs@,
                self.right_schema@,
                row_views(rights@),
            ),
        ensures
            res@ == self.join().partition_stream(
                results(*fl),
                row_views(lefts@),
                row_views(rights@),
            ),
    {
        let ghost ls = row_views(lefts@);
        let ghost rs = row_views(rights@);
        let ghost f = self.join().rights_part(results(*fl), ls, rs);
        let mut table = self.build_table(lefts, fl, Ghost(rs));
        let mut out = RowStream::empty();
        let mut r: usize = 0;
        while out.error.is_none() && r < rights.len()
            invariant
                r <= rights@.len(),
                computes(*fl),
                self.plan.schema@.wf(),
                ls == row_views(lefts@),
                rs == row_views(rights@),
                rs == set_aside(rs),
                f == self.join().rights_part(results(*fl), ls, rs),
                keys_computed(
                    results(*fl),
                    self.plan.right_exprs@,
                    self.right_schema@,
                    rs,
                ),
                out@.error is None ==> self.table_ok(results(*fl), table, ls, rs, r as int),
                out@ == flat(f, r as int),
            decreases rights@.len() - r,
        {
            assert(rs[r as int] == set_aside(rs)[r as int]);
            assert(rs[r as int].0 == rights@[r as int].0.data@);
            let part = self.probe(
                &mut table,
                lefts,
                &rights[r].0,
                fl,
                Ghost(rs),
                Ghost(r as int),
            );
            append_back(&mut out, part);
            r += 1;
            assert(out@ == flat(f, r as int));
        }
        proof {
            if out@.error is Some {
                lemma_flat_stops(f, r as int, rs.len() as int);
            }
        }
        if out.error.is_none() && self.plan.join_type == JoinType::Left {
            let part = self.leftovers(&table, lefts, Ghost(results(*fl)), Ghost(rs));
            append_back(&mut out, part);
        }
        out
    }
}

/// Rows of a partition that was put aside are given back as they are, and their keys can be
/// computed.
proof fn lemma_bucket_ready(
    fl: spec_fn(FloatOp, u32, u32) -> u32,
    exprs: Seq<Expression>,
    s: SchemaView,
    rows: Seq<RowView>,
    p: int,
)
    requires
        keys_computed(fl, exprs, s, rows),
    ensures
        ({
            let b = bucket_rows(fl, exprs, s, rows, p, rows.len() as int);
            set_aside(b) == b && keys_computed(fl, exprs, s, b)
        }),
{
    lemma_bucket_rows(fl, exprs, s, rows, p, rows.len() as int);
    let b = bucket_rows(fl, exprs, s, rows, p, rows.len() as int);
    assert forall|k: int| 0 <= k < b.len() implies eval_all(fl, exprs, (#[trigger] b[k]).0, s) is Ok by {
        let i = choose|i: int|
            0 <= i < rows.len() && (#[trigger] rows[i]).0 == b[k].0 && bucket(
                fl,
                exprs,
                s,
                rows[i].0,
            ) == p;
        assert(eval_all(fl, exprs, rows[i].0, s) is Ok);
    }
}

/// Work aside keeps partitions as they are.
proof fn lemma_partitions_kept(
    fl: spec_fn(FloatOp, u32, u32) -> u32,
    exprs: Seq<Expression>,
    s: SchemaView,
    rows: Seq<RowView>,
    n: int,
    heaps: Seq<TableHeap>,
    p0: Pages,
    p1: Pages,
)
    requires
        partitioned(fl, exprs, s, rows, n, heaps, p0),
        kept(p0, p1),
    ensures
        partitioned(fl, exprs, s, rows, n, heaps, p1),
{
    assert forall|p: int| 0 <= p < PARTITIONS implies holds(
        #[trigger] heaps[p],
        p1,
        bucket_rows(fl, exprs, s, rows, p, n),
    ) by {
        let b = bucket_rows(fl, exprs, s, rows, p, n);
        assert(holds(heaps[p], p0, b));
        assert(p0.contains_key(heaps[p].last_page_id));
        assert(heaps[p].rows(p1) == heaps[p].rows(p0));
    }
}

/// Appends a stream to one that did not fail.
fn append_stream(out: &mut RowStream, part: RowStream)
    requires
        old(out)@.error is None,
    ensures
        final(out)@ == followed_by(old(out)@, part@),
{
    let mut rows = part.rows;
    let ghost before = out.rows@;
    out.rows.append(&mut rows);
    out.error = part.error;
    assert(out@.rows =~= old(out)@.rows + part@.rows);
}

impl<'a> HashJoinExecutor<'a> {
    /// Joins all partitions, one after the other.
    fn join_partitions<F: Fn(FloatOp, u32, u32) -> u32>(
        &self,
        bpm: &mut BufferPoolManager,
        left_partitions: &Vec<TableHeap>,
        right_partitions: &Vec<TableHeap>,
        fl: &F,
    ) -> (res: RowStream)
        requires
            computes(*fl),
            old(bpm).wf(),
            old(bpm).ready(),
            self.plan.schema@.wf(),
            ({
                let (ls, rs) = (self.left@.rows, self.right@.rows);
                let (j, pages) = (self.join(), old(bpm).pages());
                let f = results(*fl);
                &&& keys_computed(f, j.left_exprs, j.left, ls)
                &&& keys_computed(f, j.right_exprs, j.right, rs)
                &&& partitioned(
                    f,
                    j.left_exprs,
                    j.left,
                    ls,
                    ls.len() as int,
                    left_partitions@,
                    pages,
                )
                &&& partitioned(
                    f,
                    j.right_exprs,
                    j.right,
                    rs,
                    rs.len() as int,
                    right_partitions@,
                    pages,
                )
            }),
        ensures
            final(bpm).wf(),
            final(bpm).ready(),
            final(bpm).same_pages(old(bpm)),
            res@ == self.join().stream(results(*fl), self.left@.rows, self.right@.rows),
    {
        let ghost (ls, rs) = (self.left@.rows, self.right@.rows);
        let ghost j = self.join();
        let ghost pages = bpm.pages();
        let ghost f = j.partitions_part(results(*fl), ls, rs);
        let mut out = RowStream::empty();
        let mut p: usize = 0;
        while out.error.is_none() && p < PARTITIONS
            invariant
                p <= PARTITIONS,
                computes(*fl),
                bpm.wf(),
                bpm.ready(),
                bpm.same_pages(old(bpm)),
                pages == old(bpm).pages(),
                self.plan.schema@.wf(),
                ls == self.left@.rows,
                rs == self.right@.rows,
                j == self.join(),
                f == j.partitions_part(results(*fl), ls, rs),
                keys_computed(results(*fl), j.left_exprs, j.left, ls),
                keys_computed(results(*fl), j.right_exprs, j.right, rs),
                partitioned(
                    results(*fl),
                    j.left_exprs,
                    j.left,
                    ls,
                    ls.len() as int,
                    left_partitions@,
                    pages,
                ),
                partitioned(
                    results(*fl),
                    j.right_exprs,
                    j.right,
                    rs,
                    rs.len() as int,
                    right_partitions@,
                    pages,
                ),
                out@ == flat(f, p as int),
            decreases PARTITIONS - p,
        {
            let ghost lb = bucket_rows(
                results(*fl),
                j.left_exprs,
                j.left,
                ls,
                p as int,
                ls.len() as int,
            );
            let ghost rb = bucket_rows(
                results(*fl),
                j.right_exprs,
                j.right,
                rs,
                p as int,
                rs.len() as int,
            );
            assert(holds(left_partitions@[p as int], pages, lb));
            assert(holds(right_partitions@[p as int], pages, rb));
            let lefts = read_back(bpm, &left_partitions[p], Ghost(lb));
            let rights = read_back(bpm, &right_partitions[p], Ghost(rb));
            proof {
                lemma_bucket_ready(results(*fl), j.left_exprs, j.left, ls, p as int);
                lemma_bucket_ready(results(*fl), j.right_exprs, j.right, rs, p as int);
            }
            let part = self.join_partition(&lefts, &rights, fl);
            append_stream(&mut out, part);
            p += 1;
            assert(out@ == flat(f, p as int));
        }
        proof {
            if out@.error is Some {
                lemma_flat_stops(f, p as int, PARTITIONS as int);
            }
        }
        out
    }

    /// Puts both sides into partitions and joins these. Partitions are put aside on pages of
    /// their own; other pages are not touched.
    pub fn open<F: Fn(FloatOp, u32, u32) -> u32>(&mut self, bpm: &mut BufferPoolManager, fl: &F) -> (
    res: Result<(), ExecutorError>)
        requires
            computes(*fl),
            old(bpm).wf(),
            old(bpm).pins_countable(),
            old(bpm).ids_fresh(),
            old(self).plan.schema@.wf(),
        ensures
            old(bpm).has_frame() ==> worked_aside(old(bpm), final(bpm)),
            !old(bpm).has_frame() ==> *final(bpm) == *old(bpm),
            final(self).plan == old(self).plan,
            res is Ok ==> final(self).output is Some,
            final(bpm).next_page_id() <= old(bpm).next_page_id() + 2 * PARTITIONS,
            res is Ok <==> partitions_filled(
                results(*fl),
                old(self).join(),
                old(self).left@,
                old(self).right@,
                pages_to_have(old(bpm)),
            ),
            hash_join_stream(
                results(*fl),
                old(self).join(),
                old(self).left@,
                old(self).right@,
                pages_to_have(old(bpm)),
            ) == (match res {
                Ok(_) => final(self).output->0@,
                Err(e) => fails(e.0@),
            }),
    {
        let ghost j = self.join();
        let ghost (ls, rs) = (self.left@.rows, self.right@.rows);
        let next: usize = bpm.next_id();
        if !bpm.frame_available() || next > u32::MAX as usize - 2 * PARTITIONS {
            return Err(no_page_failure());
        }
        let left_partitions = match partition(
            bpm,
            &self.left.rows,
            &self.plan.left_exprs,
            self.left_schema,
            fl,
        ) {
            Ok(heaps) => heaps,
            Err(e) => { return Err(e); },
        };
        if let Some(e) = self.left.error.take() {
            return Err(e);
        }
        let ghost mid = bpm.pages();
        let right_partitions = match partition(
            bpm,
            &self.right.rows,
            &self.plan.right_exprs,
            self.right_schema,
            fl,
        ) {
            Ok(heaps) => heaps,
            Err(e) => { return Err(e); },
        };
        if let Some(e) = self.right.error.take() {
            return Err(e);
        }
        proof {
            lemma_filed_keys(results(*fl), j.left_exprs, j.left, ls, ls.len() as int);
            lemma_filed_keys(results(*fl), j.right_exprs, j.right, rs, rs.len() as int);
            lemma_partitions_kept(
                results(*fl),
                j.left_exprs,
                j.left,
                ls,
                ls.len() as int,
                left_partitions@,
                mid,
                bpm.pages(),
            );
        }
        let out = self.join_partitions(bpm, &left_partitions, &right_partitions, fl);
        self.output = Some(out);
        Ok(())
    }
}

impl<'a> Executor for HashJoinExecutor<'a> {
    open spec fn output(&self) -> Option<StreamView> {
        Some(left_over(self.output))
    }

    open spec fn out_schema(&self) -> SchemaView {
        self.plan.schema@
    }

    open spec fn unopened(&self) -> Seq<char> {
        ""@
    }

    fn next(&mut self) -> (res: Result<Option<(Tuple, RecordId)>, ExecutorError>) {
        pull_any(&mut self.output)
    }

    fn schema(&self) -> (res: &Schema) {
        &self.plan.schema
    }

    fn close(&mut self) -> (res: Result<(), ExecutorError>) {
        Ok(())
    }
}

/// The rows of parts that do not fail are those of the parts.
pub(crate) proof fn lemma_flat_rows(f: spec_fn(int) -> StreamView, n: int)
    requires
        0 <= n,
        flat(f, n).error is None,
    ensures
        forall|i: int| 0 <= i < n ==> (#[trigger] f(i)).error is None,
        forall|row: RowView| #[trigger]
            flat(f, n).rows.contains(row) <==> exists|i: int|
                0 <= i < n && (#[trigger] f(i)).rows.contains(row),
    decreases n,
{
    if n > 0 {
        lemma_flat_rows(f, n - 1);
        let before = flat(f, n - 1).rows;
        let last = f(n - 1).rows;
        assert forall|row: RowView| #[trigger]
            flat(f, n).rows.contains(row) <==> exists|i: int|
                0 <= i < n && (#[trigger] f(i)).rows.contains(row) by {
            if flat(f, n).rows.contains(row) {
                let k = choose|k: int| 0 <= k < (before + last).len() && (before + last)[k] == row;
                if k < before.len() {
                    assert(before.contains(row)) by {
                        assert(before[k] == row);
                    }
                } else {
                    assert(last[k - before.len()] == row);
                    assert(f(n - 1).rows.contains(row));
                }
            }
            if exists|i: int| 0 <= i < n && (#[trigger] f(i)).rows.contains(row) {
                let i = choose|i: int| 0 <= i < n && (#[trigger] f(i)).rows.contains(row);
                if i < n - 1 {
                    assert(before.contains(row));
                    let k = choose|k: int| 0 <= k < before.len() && before[k] == row;
                    assert((before + last)[k] == row);
                } else {
                    let k = choose|k: int| 0 <= k < last.len() && last[k] == row;
                    assert((before + last)[before.len() + k] == row);
                }
            }
        }
    }
}

proof fn lemma_back_rows(s: StreamView)
    requires
        from_the_back(s).error is None,
    ensures
        s.error is None,
        forall|row: RowView| #[trigger]
            from_the_back(s).rows.contains(row) <==> s.rows.contains(row),
{
    assert forall|row: RowView| #[trigger]
        from_the_back(s).rows.contains(row) <==> s.rows.contains(row) by {
        let b = s.rows.reverse();
        if b.contains(row) {
            let k = choose|k: int| 0 <= k < b.len() && b[k] == row;
            assert(s.rows[s.rows.len() - 1 - k] == row);
        }
        if s.rows.contains(row) {
            let k = choose|k: int| 0 <= k < s.rows.len() && s.rows[k] == row;
            assert(b[s.rows.len() - 1 - k] == row);
        }
    }
}

/// A left row is unmatched by one more right row where it was unmatched and does not agree with
/// it.
proof fn lemma_one_more_right(
    j: HashJoinView,
    fl: spec_fn(FloatOp, u32, u32) -> u32,
    l: RowView,
    rights: Seq<RowView>,
    n: int,
)
    requires
        0 <= n < rights.len(),
    ensures
        j.unmatched(fl, l, rights.subrange(0, n + 1)) == (j.unmatched(
            fl,
            l,
            rights.subrange(0, n),
        ) && !j.agree(fl, l, rights[n])),
{
    let a = rights.subrange(0, n);
    let b = rights.subrange(0, n + 1);
    if j.unmatched(fl, l, b) {
        assert forall|r: int| 0 <= r < a.len() implies !j.agree(fl, l, #[trigger] a[r]) by {
            assert(b[r] == a[r]);
        }
        assert(b[n] == rights[n]);
    } else {
        let r = choose|r: int| 0 <= r < b.len() && j.agree(fl, l, #[trigger] b[r]);
        if r < n {
            assert(a[r] == b[r]);
        }
    }
}

impl HashJoinView {
    /// `row` joins a left and a right row whose keys agree.
    pub open spec fn pairs(
        self,
        fl: spec_fn(FloatOp, u32, u32) -> u32,
        l: RowView,
        r: RowView,
        row: RowView,
    ) -> bool {
        self.agree(fl, l, r) && self.joined(l, Some(r)) == rows_only(seq![row])
    }

    /// `row` is a left row with NULLs that no right row matches.
    pub open spec fn alone(
        self,
        fl: spec_fn(FloatOp, u32, u32) -> u32,
        l: RowView,
        rights: Seq<RowView>,
        row: RowView,
    ) -> bool {
        &&& self.join_type == JoinType::Left
        &&& self.unmatched(fl, l, rights)
        &&& self.joined(l, None) == rows_only(seq![row])
    }

    pub open spec fn gives_row(
        self,
        fl: spec_fn(FloatOp, u32, u32) -> u32,
        lefts: Seq<RowView>,
        rights: Seq<RowView>,
        row: RowView,
    ) -> bool {
        ||| exists|i: int, k: int|
            0 <= i < lefts.len() && 0 <= k < rights.len() && self.pairs(
                fl,
                #[trigger] lefts[i],
                #[trigger] rights[k],
                row,
            )
        ||| exists|i: int|
            0 <= i < lefts.len() && self.alone(fl, #[trigger] lefts[i], rights, row)
    }
}

/// A joined row that did not fail is the only one of its stream.
proof fn lemma_joined_row(j: HashJoinView, l: RowView, r: Option<RowView>, row: RowView)
    requires
        j.joined(l, r).error is None,
    ensures
        j.joined(l, r).rows.contains(row) <==> j.joined(l, r) == rows_only(seq![row]),
{
    let rows = j.joined(l, r).rows;
    if rows.contains(row) {
        assert(rows[0] == row);
        assert(rows =~= seq![row]);
    } else if j.joined(l, r) == rows_only(seq![row]) {
        assert(rows[0] == row);
    }
}

/// The matches of one right row.
proof fn lemma_match_rows(
    j: HashJoinView,
    fl: spec_fn(FloatOp, u32, u32) -> u32,
    lefts: Seq<RowView>,
    r: RowView,
)
    requires
        flat(j.match_part(fl, lefts, r), lefts.len() as int).error is None,
    ensures
        forall|row: RowView| #[trigger]
            flat(j.match_part(fl, lefts, r), lefts.len() as int).rows.contains(row)
                <==> exists|i: int|
                0 <= i < lefts.len() && j.pairs(fl, #[trigger] lefts[i], r, row),
{
    let f = j.match_part(fl, lefts, r);
    let n = lefts.len() as int;
    lemma_flat_rows(f, n);
    assert forall|row: RowView| #[trigger] flat(f, n).rows.contains(row) <==> exists|i: int|
        0 <= i < lefts.len() && j.pairs(fl, #[trigger] lefts[i], r, row) by {
        if flat(f, n).rows.contains(row) {
            let i = choose|i: int| 0 <= i < n && (#[trigger] f(i)).rows.contains(row);
            if j.agree(fl, lefts[i], r) {
                lemma_joined_row(j, lefts[i], Some(r), row);
            }
            assert(j.pairs(fl, lefts[i], r, row));
        }
        if exists|i: int| 0 <= i < lefts.len() && j.pairs(fl, #[trigger] lefts[i], r, row) {
            let i = choose|i: int| 0 <= i < lefts.len() && j.pairs(fl, #[trigger] lefts[i], r, row);
            assert(f(i).rows[0] == row);
            assert(f(i).rows.contains(row));
        }
    }
}

/// What one partition gives.
proof fn lemma_partition_rows(
    j: HashJoinView,
    fl: spec_fn(FloatOp, u32, u32) -> u32,
    lefts: Seq<RowView>,
    rights: Seq<RowView>,
)
    requires
        j.partition_stream(fl, lefts, rights).error is None,
    ensures
        forall|row: RowView| #[trigger]
            j.partition_stream(fl, lefts, rights).rows.contains(row) <==> j.gives_row(
                fl,
                lefts,
                rights,
                row,
            ),
{
    let g = j.rights_part(fl, lefts, rights);
    let m = rights.len() as int;
    let n = lefts.len() as int;
    let matches = flat(g, m);
    assert(matches.error is None);
    lemma_flat_rows(g, m);
    let u = j.unmatched_part(fl, lefts, rights);
    let lone = flat(u, n);
    if j.join_type == JoinType::Left {
        lemma_back_rows(lone);
        lemma_flat_rows(u, n);
    }
    let all = j.partition_stream(fl, lefts, rights).rows;
    assert forall|row: RowView| #[trigger] all.contains(row) <==> j.gives_row(
        fl,
        lefts,
        rights,
        row,
    ) by {
        assert(matches.rows.contains(row) <==> exists|i: int, k: int|
            0 <= i < n && 0 <= k < m && j.pairs(
                fl,
                #[trigger] lefts[i],
                #[trigger] rights[k],
                row,
            )) by {
            if matches.rows.contains(row) {
                let k = choose|k: int| 0 <= k < m && (#[trigger] g(k)).rows.contains(row);
                let s = flat(j.match_part(fl, lefts, rights[k]), n);
                assert(g(k) == from_the_back(s));
                lemma_back_rows(s);
                lemma_match_rows(j, fl, lefts, rights[k]);
                assert(s.rows.contains(row));
                let i = choose|i: int| 0 <= i < n && j.pairs(fl, #[trigger] lefts[i], rights[k], row);
                assert(j.pairs(fl, lefts[i], rights[k], row));
            }
            if exists|i: int, k: int|
                0 <= i < n && 0 <= k < m && j.pairs(
                    fl,
                    #[trigger] lefts[i],
                    #[trigger] rights[k],
                    row,
                ) {
                let (i, k) = choose|i: int, k: int|
                    0 <= i < n && 0 <= k < m && j.pairs(
                        fl,
                        #[trigger] lefts[i],
                        #[trigger] rights[k],
                        row,
                    );
                let s = flat(j.match_part(fl, lefts, rights[k]), n);
                assert(g(k) == from_the_back(s));
                assert(g(k).error is None);
                lemma_back_rows(s);
                lemma_match_rows(j, fl, lefts, rights[k]);
                assert(s.rows.contains(row));
                assert(g(k).rows.contains(row));
            }
        }
        if j.join_type == JoinType::Left {
            assert(lone.rows.contains(row) <==> exists|i: int|
                0 <= i < n && j.alone(fl, #[trigger] lefts[i], rights, row)) by {
                if lone.rows.contains(row) {
                    let i = choose|i: int| 0 <= i < n && (#[trigger] u(i)).rows.contains(row);
                    if j.unmatched(fl, lefts[i], rights) {
                        lemma_joined_row(j, lefts[i], None, row);
                    }
                    assert(j.alone(fl, lefts[i], rights, row));
                }
                if exists|i: int| 0 <= i < n && j.alone(fl, #[trigger] lefts[i], rights, row) {
                    let i = choose|i: int|
                        0 <= i < n && j.alone(fl, #[trigger] lefts[i], rights, row);
                    assert(u(i).rows[0] == row);
                    assert(u(i).rows.contains(row));
                }
            }
            let back = from_the_back(lone).rows;
            assert(all == matches.rows + back);
            if all.contains(row) {
                let x = choose|x: int| 0 <= x < all.len() && all[x] == row;
                if x < matches.rows.len() {
                    assert(matches.rows[x] == row);
                } else {
                    assert(back[x - matches.rows.len()] == row);
                    assert(back.contains(row));
                }
            }
            if matches.rows.contains(row) {
                let x = choose|x: int| 0 <= x < matches.rows.len() && matches.rows[x] == row;
                assert(all[x] == row);
            }
            if lone.rows.contains(row) {
                assert(back.contains(row));
                let x = choose|x: int| 0 <= x < back.len() && back[x] == row;
                assert(all[matches.rows.len() + x] == row);
            }
        } else {
            assert(all == matches.rows);
        }
    }
}

/// A hash join gives the rows that join a left and a right row whose keys agree, and for a left
/// join the left rows that no right row matches. The partitions do not matter.
pub proof fn law_hash_join_rows(
    j: HashJoinView,
    fl: spec_fn(FloatOp, u32, u32) -> u32,
    lefts: Seq<RowView>,
    rights: Seq<RowView>,
    row: RowView,
)
    requires
        j.stream(fl, lefts, rights).error is None,
    ensures
        j.stream(fl, lefts, rights).rows.contains(row) <==> j.gives_row(fl, lefts, rights, row),
{
    let f = j.partitions_part(fl, lefts, rights);
    let n = PARTITIONS as int;
    lemma_flat_rows(f, n);
    if j.stream(fl, lefts, rights).rows.contains(row) {
        let p = choose|p: int| 0 <= p < n && (#[trigger] f(p)).rows.contains(row);
        lemma_bucket_rows(fl, j.left_exprs, j.left, lefts, p, lefts.len() as int);
        lemma_bucket_rows(fl, j.right_exprs, j.right, rights, p, rights.len() as int);
        let lb = bucket_rows(fl, j.left_exprs, j.left, lefts, p, lefts.len() as int);
        let rb = bucket_rows(fl, j.right_exprs, j.right, rights, p, rights.len() as int);
        lemma_partition_rows(j, fl, lb, rb);
        assert(j.gives_row(fl, lb, rb, row));
        if exists|a: int, b: int|
            0 <= a < lb.len() && 0 <= b < rb.len() && j.pairs(
                fl,
                #[trigger] lb[a],
                #[trigger] rb[b],
                row,
            ) {
            let (a, b) = choose|a: int, b: int|
                0 <= a < lb.len() && 0 <= b < rb.len() && j.pairs(
                    fl,
                    #[trigger] lb[a],
                    #[trigger] rb[b],
                    row,
                );
            let i = choose|i: int|
                0 <= i < lefts.len() && (#[trigger] lefts[i]).0 == lb[a].0 && bucket(
                    fl,
                    j.left_exprs,
                    j.left,
                    lefts[i].0,
                ) == p;
            let k = choose|k: int|
                0 <= k < rights.len() && (#[trigger] rights[k]).0 == rb[b].0 && bucket(
                    fl,
                    j.right_exprs,
                    j.right,
                    rights[k].0,
                ) == p;
            assert(j.pairs(fl, lefts[i], rights[k], row));
        } else {
            let a = choose|a: int| 0 <= a < lb.len() && j.alone(fl, #[trigger] lb[a], rb, row);
            let i = choose|i: int|
                0 <= i < lefts.len() && (#[trigger] lefts[i]).0 == lb[a].0 && bucket(
                    fl,
                    j.left_exprs,
                    j.left,
                    lefts[i].0,
                ) == p;
            assert forall|k: int| 0 <= k < rights.len() implies !j.agree(
                fl,
                lefts[i],
                #[trigger] rights[k],
            ) by {
                if j.agree(fl, lefts[i], rights[k]) {
                    law_hash_agrees(j.left_key(fl, lefts[i]), j.right_key(fl, rights[k]));
                    assert(bucket(fl, j.right_exprs, j.right, rights[k].0) == p);
                    assert(rb.contains(unstored(rights[k].0)));
                    let b = choose|b: int| 0 <= b < rb.len() && rb[b] == unstored(rights[k].0);
                    assert(j.agree(fl, lb[a], rb[b]));
                }
            }
            assert(j.alone(fl, lefts[i], rights, row));
        }
    }
    if j.gives_row(fl, lefts, rights, row) {
        if exists|i: int, k: int|
            0 <= i < lefts.len() && 0 <= k < rights.len() && j.pairs(
                fl,
                #[trigger] lefts[i],
                #[trigger] rights[k],
                row,
            ) {
            let (i, k) = choose|i: int, k: int|
                0 <= i < lefts.len() && 0 <= k < rights.len() && j.pairs(
                    fl,
                    #[trigger] lefts[i],
                    #[trigger] rights[k],
                    row,
                );
            let p = bucket(fl, j.left_exprs, j.left, lefts[i].0);
            law_hash_agrees(j.left_key(fl, lefts[i]), j.right_key(fl, rights[k]));
            lemma_bucket_rows(fl, j.left_exprs, j.left, lefts, p, lefts.len() as int);
            lemma_bucket_rows(fl, j.right_exprs, j.right, rights, p, rights.len() as int);
            let lb = bucket_rows(fl, j.left_exprs, j.left, lefts, p, lefts.len() as int);
            let rb = bucket_rows(fl, j.right_exprs, j.right, rights, p, rights.len() as int);
            let a = choose|a: int| 0 <= a < lb.len() && lb[a] == unstored(lefts[i].0);
            let b = choose|b: int| 0 <= b < rb.len() && rb[b] == unstored(rights[k].0);
            assert(j.pairs(fl, lb[a], rb[b], row));
            assert(f(p).error is None);
            lemma_partition_rows(j, fl, lb, rb);
            assert(f(p).rows.contains(row));
        } else {
            let i = choose|i: int|
                0 <= i < lefts.len() && j.alone(fl, #[trigger] lefts[i], rights, row);
            let p = bucket(fl, j.left_exprs, j.left, lefts[i].0);
            lemma_bucket_rows(fl, j.left_exprs, j.left, lefts, p, lefts.len() as int);
            lemma_bucket_rows(fl, j.right_exprs, j.right, rights, p, rights.len() as int);
            let lb = bucket_rows(fl, j.left_exprs, j.left, lefts, p, lefts.len() as int);
            let rb = bucket_rows(fl, j.right_exprs, j.right, rights, p, rights.len() as int);
            let a = choose|a: int| 0 <= a < lb.len() && lb[a] == unstored(lefts[i].0);
            assert forall|b: int| 0 <= b < rb.len() implies !j.agree(fl, lb[a], #[trigger] rb[b]) by {
                let k = choose|k: int|
                    0 <= k < rights.len() && (#[trigger] rights[k]).0 == rb[b].0 && bucket(
                        fl,
                        j.right_exprs,
                        j.right,
                        rights[k].0,
                    ) == p;
                assert(!j.agree(fl, lefts[i], rights[k]));
            }
            assert(j.alone(fl, lb[a], rb, row));
            assert(f(p).error is None);
            lemma_partition_rows(j, fl, lb, rb);
            assert(f(p).rows.contains(row));
        }
    }
}

} // verus!
