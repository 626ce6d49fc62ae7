//! Window functions.
use vstd::prelude::*;

use crate::catalog::schema::{Schema, SchemaView};
use crate::catalog::value::{option_eq, value_eq, Value};
use crate::processor::aggregate::{
    keys_agree, new_states, read_states, same_key, start_states, state_values, states_step,
    update_states, AggState,
};
use crate::processor::executor::{drained, pull, stream_view, take_stream, Executor};
use crate::processor::expression::{computes, failure, results, ExecutorError, Expression, FloatOp};
use crate::processor::plan::{AggType, WindowFunctionPlanNode};
use crate::processor::sorting::{
    arranged, is_stable_sort, keys_lt, keys_lt_from, lemma_keys_weak_from, row_before, sort_key,
    sort_keys, sort_rows, sorted_part,
};
use crate::processor::stream::{
    all_fields, encode, encoded, eval_all, evaluate_all, fails, read_fields, row_views, unstored,
    RowStream, RowView, StreamView,
};
use crate::table_heap::{RecordId, Tuple};

verus! {

/// The expressions of a clause that may be missing.
pub open spec fn clause(exprs: Option<Vec<Expression>>) -> Seq<Expression> {
    match exprs {
        Some(v) => v@,
        None => Seq::empty(),
    }
}

/// What a window function is computed from: the rows in order, and the clauses.
pub struct WindowView {
    pub fl: spec_fn(FloatOp, u32, u32) -> u32,
    pub rows: Seq<RowView>,
    pub s: SchemaView,
    pub out: SchemaView,
    pub partition_by: Seq<Expression>,
    pub order_by: Seq<Expression>,
    /// There is an ORDER BY clause: aggregates run up to the peers of a row.
    pub running: bool,
    pub aggs: Seq<(Expression, AggType)>,
}

impl WindowView {
    pub open spec fn partition_key(self, i: int) -> Result<Seq<Option<Value>>, Seq<char>> {
        eval_all(self.fl, self.partition_by, self.rows[i].0, self.s)
    }

    pub open spec fn order_key(self, i: int) -> Result<Seq<Option<Value>>, Seq<char>> {
        eval_all(self.fl, self.order_by, self.rows[i].0, self.s)
    }

    /// Row `i` is the first one of its partition.
    #[verifier::opaque]
    pub open spec fn new_partition(self, i: int) -> bool {
        i <= 0 || !(self.partition_key(i) matches Ok(b) && self.partition_key(i - 1) matches Ok(a)
            && same_key(b, a))
    }

    /// Row `i` is the first one of its peers: the rows of its partition with the same order key.
    #[verifier::opaque]
    pub open spec fn new_order(self, i: int) -> bool {
        self.new_partition(i) || !(self.order_key(i) matches Ok(b) && self.order_key(i - 1)
            matches Ok(a) && same_key(b, a))
    }

    /// The first row of the partition of row `i`.
    pub open spec fn partition_start(self, i: int) -> int
        decreases i,
    {
        if i <= 0 || self.new_partition(i) {
            i
        } else {
            self.partition_start(i - 1)
        }
    }

    /// The first of the peers of row `i`.
    pub open spec fn peers_start(self, i: int) -> int
        decreases i,
    {
        if i <= 0 || self.new_order(i) {
            i
        } else {
            self.peers_start(i - 1)
        }
    }

    /// The rows that an aggregate covers end before row `i`.
    pub open spec fn boundary(self, i: int) -> bool {
        if self.running {
            self.new_order(i)
        } else {
            self.new_partition(i)
        }
    }

    /// Where the rows end that an aggregate at row `i` covers: with the peers of the row where
    /// there is an order, with its partition where there is none.
    pub open spec fn frame_end(self, i: int) -> int
        decreases self.rows.len() - i,
    {
        if i + 1 >= self.rows.len() {
            self.rows.len() as int
        } else if self.boundary(i + 1) {
            i + 1
        } else {
            self.frame_end(i + 1)
        }
    }

    /// The aggregates over the rows `from` to `to - 1`.
    pub open spec fn states(self, from: int, to: int) -> Result<Seq<AggState>, Seq<char>>
        decreases to - from,
    {
        if to <= from {
            Ok(start_states(self.aggs))
        } else {
            match self.states(from, to - 1) {
                Err(e) => Err(e),
                Ok(before) => states_step(
                    self.fl,
                    self.aggs,
                    before,
                    self.rows[to - 1].0,
                    self.s,
                    true,
                    self.aggs.len() as int,
                ),
            }
        }
    }

    /// The rank of row `i`: the position of its first peer in the partition, counted from one.
    pub open spec fn rank(self, i: int) -> int {
        self.peers_start(i) - self.partition_start(i) + 1
    }

    /// Row `i` lies in the partition that starts at `start`, its aggregates cover the rows up to
    /// `end`, and its rank is `rank`.
    #[verifier::opaque]
    pub open spec fn placed(self, i: int, start: int, end: int, rank: int) -> bool {
        &&& self.partition_start(i) == start
        &&& self.frame_end(i) == end
        &&& self.rank(i) == rank
    }

    /// Row `i` of the result: the columns of the row, then the window functions.
    #[verifier::opaque]
    pub open spec fn result(self, i: int) -> Result<Seq<u8>, Seq<char>> {
        match self.states(self.partition_start(i), self.frame_end(i)) {
            Err(e) => Err(e),
            Ok(states) => if self.rank(i) > i32::MAX {
                Err("integer overflow"@)
            } else {
                self.row_with(i, ranked(states, self.aggs, self.rank(i) as i32))
            },
        }
    }

    #[verifier::opaque]
    pub open spec fn row_with(self, i: int, states: Seq<AggState>) -> Result<Seq<u8>, Seq<char>> {
        match all_fields(self.s, self.rows[i].0) {
            Err(e) => Err(e),
            Ok(vals) => match state_values(self.fl, states, states.len() as int) {
                Err(e) => Err(e),
                Ok(vs) => encoded(self.out, vals + vs),
            },
        }
    }

    /// The first error among the results of the rows `from` to `to - 1`.
    pub open spec fn results_error(self, from: int, to: int) -> Option<Seq<char>>
        decreases to - from,
    {
        if from >= to {
            None
        } else {
            match self.result(from) {
                Err(e) => Some(e),
                Ok(_) => self.results_error(from + 1, to),
            }
        }
    }

    /// The first error from row `i` on, where the results from row `from` on are still to come:
    /// they come as soon as the rows that their aggregates cover are known. The keys of a row
    /// come before the results of the rows before it.
    pub open spec fn error_from(self, i: int, from: int) -> Option<Seq<char>>
        decreases self.rows.len() - i,
    {
        if i >= self.rows.len() {
            self.results_error(from, self.rows.len() as int)
        } else {
            match (self.partition_key(i), self.order_key(i)) {
                (Err(e), _) => Some(e),
                (_, Err(e)) => Some(e),
                _ => if i > 0 && self.boundary(i) {
                    match self.results_error(from, i) {
                        Some(e) => Some(e),
                        None => self.error_from(i + 1, i),
                    }
                } else {
                    self.error_from(i + 1, from)
                },
            }
        }
    }

    /// `row` is the result of row `i`.
    pub open spec fn emits(self, i: int, row: RowView) -> bool {
        self.result(i) == Ok::<Seq<u8>, Seq<char>>(row.0) && row == unstored(row.0)
    }

    /// `rows` are the results of all rows.
    pub open spec fn gives(self, rows: Seq<RowView>) -> bool {
        &&& rows.len() == self.rows.len()
        &&& forall|i: int| 0 <= i < rows.len() ==> #[trigger] self.partition_key(i) is Ok
        &&& forall|i: int| 0 <= i < rows.len() ==> #[trigger] self.order_key(i) is Ok
        &&& forall|i: int| 0 <= i < rows.len() ==> self.emits(i, #[trigger] rows[i])
    }
}

impl WindowView {
    /// The stream holds the results of all rows, or the first error.
    pub open spec fn answers(self, out: StreamView) -> bool {
        match self.error_from(0, 0) {
            Some(e) => out == fails(e),
            None => out.error is None && self.gives(out.rows),
        }
    }
}

/// The states with the rank in place of those that stand for it.
pub open spec fn ranked(states: Seq<AggState>, aggs: Seq<(Expression, AggType)>, rank: i32) -> Seq<
    AggState,
> {
    Seq::new(
        states.len(),
        |k: int|
            if aggs[k].1 == AggType::RANK {
                AggState::Rank(rank)
            } else {
                states[k]
            },
    )
}

proof fn lemma_partition_start(w: WindowView, p: int, i: int)
    requires
        0 <= p <= i,
        p == 0 || w.new_partition(p),
        forall|k: int| p < k <= i ==> !#[trigger] w.new_partition(k),
    ensures
        w.partition_start(i) == p,
    decreases i,
{
    if p < i {
        assert(!w.new_partition(i));
        lemma_partition_start(w, p, i - 1);
    }
}

proof fn lemma_peers_start(w: WindowView, p: int, i: int)
    requires
        0 <= p <= i,
        p == 0 || w.new_order(p),
        forall|k: int| p < k <= i ==> !#[trigger] w.new_order(k),
    ensures
        w.peers_start(i) == p,
    decreases i,
{
    if p < i {
        assert(!w.new_order(i));
        lemma_peers_start(w, p, i - 1);
    }
}

proof fn lemma_frame_end(w: WindowView, i: int, e: int)
    requires
        0 <= i < e <= w.rows.len(),
        e == w.rows.len() || w.boundary(e),
        forall|k: int| i < k < e ==> !#[trigger] w.boundary(k),
    ensures
        w.frame_end(i) == e,
    decreases e - i,
{
    if i + 1 < e {
        assert(!w.boundary(i + 1));
        lemma_frame_end(w, i + 1, e);
    }
}

proof fn lemma_states_fail(w: WindowView, from: int, m: int, n: int)
    requires
        from <= m <= n,
        w.states(from, m) is Err,
    ensures
        w.states(from, n) == w.states(from, m),
    decreases n - m,
{
    if m < n {
        lemma_states_fail(w, from, m, n - 1);
    }
}

pub(crate) proof fn lemma_states_len(w: WindowView, from: int, to: int)
    requires
        w.states(from, to) is Ok,
    ensures
        w.states(from, to)->Ok_0.len() == w.aggs.len(),
    decreases to - from,
{
    if from < to {
        lemma_states_len(w, from, to - 1);
        lemma_step_len(
            w,
            w.states(from, to - 1)->Ok_0,
            w.rows[to - 1].0,
            w.aggs.len() as int,
        );
    }
}

proof fn lemma_step_len(w: WindowView, states: Seq<AggState>, data: Seq<u8>, n: int)
    requires
        n <= states.len(),
        states_step(w.fl, w.aggs, states, data, w.s, true, n) is Ok,
    ensures
        states_step(w.fl, w.aggs, states, data, w.s, true, n)->Ok_0.len() == states.len(),
    decreases n,
{
    if n > 0 {
        lemma_step_len(w, states, data, n - 1);
    }
}

/// What a row gives once the aggregates over its frame are known.
proof fn lemma_result(w: WindowView, i: int, start: int, end: int, rank: int)
    requires
        w.placed(i, start, end, rank),
    ensures
        match w.states(start, end) {
            Err(e) => w.result(i) == Err::<Seq<u8>, Seq<char>>(e),
            Ok(states) => if rank > i32::MAX {
                w.result(i) == Err::<Seq<u8>, Seq<char>>("integer overflow"@)
            } else {
                w.result(i) == w.row_with(i, ranked(states, w.aggs, rank as i32))
            },
        },
{
    reveal(WindowView::placed);
    reveal(WindowView::result);
}

/// Adds columns computed over partitions of the rows.
pub struct WindowFunctionExecutor<'a> {
    pub plan: &'a WindowFunctionPlanNode,
    pub child: RowStream,
    pub child_schema: &'a Schema,
    pub output: Option<RowStream>,
}

/// What the window functions are computed from once the rows are in order.
pub open spec fn window_of(
    plan: WindowFunctionPlanNode,
    s: SchemaView,
    fl: spec_fn(FloatOp, u32, u32) -> u32,
    rows: Seq<RowView>,
) -> WindowView {
    WindowView {
        fl,
        rows,
        s,
        out: plan.schema@,
        partition_by: clause(plan.partition_by_exprs),
        order_by: clause(plan.order_by_exprs),
        running: plan.order_by_exprs is Some,
        aggs: plan.aggregates@,
    }
}

/// `sorted` are the rows by partition, then by order.
pub open spec fn in_order(
    plan: WindowFunctionPlanNode,
    s: SchemaView,
    fl: spec_fn(FloatOp, u32, u32) -> u32,
    rows: Seq<RowView>,
    sorted: Seq<RowView>,
) -> bool {
    is_stable_sort(
        sort_keys(
            fl,
            clause(plan.partition_by_exprs) + clause(plan.order_by_exprs),
            rows,
            s,
        ),
        rows,
        sorted,
    )
}

/// What a window function plan gives on the rows of its child.
pub open spec fn window_answers(
    plan: WindowFunctionPlanNode,
    s: SchemaView,
    fl: spec_fn(FloatOp, u32, u32) -> u32,
    child: StreamView,
    out: StreamView,
) -> bool {
    match child.error {
        Some(m) => out == fails(m),
        None => exists|sorted: Seq<RowView>| #[trigger]
            in_order(plan, s, fl, child.rows, sorted) && window_of(plan, s, fl, sorted).answers(
                out,
            ),
    }
}

fn clause_of(exprs: &Option<Vec<Expression>>) -> (res: Vec<Expression>)
    ensures
        res@ == clause(*exprs),
{
    let mut out: Vec<Expression> = Vec::new();
    if let Some(v) = exprs {
        let mut i: usize = 0;
        while i < v.len()
            invariant
                i <= v@.len(),
                out@ == v@.subrange(0, i as int),
            decreases v@.len() - i,
        {
            out.push(v[i].clone());
            i += 1;
            assert(out@ =~= v@.subrange(0, i as int));
        }
        assert(out@ =~= v@);
    }
    assert(out@ =~= clause(*exprs));
    out
}

/// The states with the rank in place of those that stand for it.
fn with_rank(states: &Vec<AggState>, aggs: &Vec<(Expression, AggType)>, rank: i32) -> (res: Vec<
    AggState,
>)
    requires
        states@.len() == aggs@.len(),
    ensures
        res@ == ranked(states@, aggs@, rank),
{
    let mut out: Vec<AggState> = Vec::new();
    let mut k: usize = 0;
    while k < states.len()
        invariant
            k <= states@.len(),
            states@.len() == aggs@.len(),
            out@ == ranked(states@, aggs@, rank).subrange(0, k as int),
        decreases states@.len() - k,
    {
        if aggs[k].1 == AggType::RANK {
            let mut st = AggState::Rank(1);
            st.update_rank(true, rank);
            out.push(st);
        } else {
            out.push(states[k]);
        }
        k += 1;
        assert(out@ =~= ranked(states@, aggs@, rank).subrange(0, k as int));
    }
    assert(out@ =~= ranked(states@, aggs@, rank));
    out
}

impl<'a> WindowFunctionExecutor<'a> {
    pub fn new(plan: &'a WindowFunctionPlanNode, child: RowStream, child_schema: &'a Schema) -> (res:
        Self)
        ensures
            res.plan == plan,
            res.child == child,
            res.child_schema == child_schema,
            res.output is None,
    {
        WindowFunctionExecutor { plan, child, child_schema, output: None }
    }

    pub open spec fn window(
        &self,
        fl: spec_fn(FloatOp, u32, u32) -> u32,
        rows: Seq<RowView>,
    ) -> WindowView {
        window_of(*self.plan, self.child_schema@, fl, rows)
    }

    /// Takes the rows `from` to `to - 1` into the aggregates, then emits a row for each of them.
    fn flush_peer_group<F: Fn(FloatOp, u32, u32) -> u32>(
        &self,
        rows: &Vec<(Tuple, RecordId)>,
        from: usize,
        to: usize,
        states: &mut Vec<AggState>,
        rank: usize,
        out: &mut RowStream,
        fl: &F,
        Ghost(start): Ghost<int>,
    ) -> (res: Result<(), ExecutorError>)
        requires
            computes(*fl),
            self.plan.schema@.wf(),
            from < to <= rows@.len(),
            0 <= start <= from,
            old(out)@.error is None,
            old(out)@.rows.len() == from,
            ({
                let w = self.window(results(*fl), row_views(rows@));
                &&& w.states(start, from as int) == Ok::<Seq<AggState>, Seq<char>>(old(states)@)
                &&& forall|k: int|
                    from <= k < to ==> #[trigger] w.placed(k, start, to as int, rank as int)
            }),
        ensures
            ({
                let w = self.window(results(*fl), row_views(rows@));
                match res {
                    Ok(_) => {
                        &&& w.results_error(from as int, to as int) is None
                        &&& final(out)@.error is None
                        &&& final(out)@.rows.len() == to
                        &&& forall|k: int|
                            0 <= k < from ==> #[trigger] final(out)@.rows[k] == old(out)@.rows[k]
                        &&& forall|k: int|
                            from <= k < to ==> w.emits(k, #[trigger] final(out)@.rows[k])
                        &&& w.states(start, to as int) == Ok::<Seq<AggState>, Seq<char>>(
                            final(states)@,
                        )
                    },
                    Err(e) => w.results_error(from as int, to as int) == Some(e.0@),
                }
            }),
    {
        let ghost w = self.window(results(*fl), row_views(rows@));
        let mut i: usize = from;
        proof {
            lemma_states_len(w, start, from as int);
        }
        while i < to
            invariant
                from <= i <= to <= rows@.len(),
                from < to,
                0 <= start <= from,
                computes(*fl),
                w == self.window(results(*fl), row_views(rows@)),
                states@.len() == w.aggs.len(),
                w.states(start, i as int) == Ok::<Seq<AggState>, Seq<char>>(states@),
                forall|k: int|
                    from <= k < to ==> #[trigger] w.placed(k, start, to as int, rank as int),
            decreases to - i,
        {
            assert(w.rows[i as int].0 == rows@[i as int].0.data@);
            match update_states(
                states,
                &self.plan.aggregates,
                &rows[i].0,
                self.child_schema,
                true,
                fl,
            ) {
                Ok(_) => {},
                Err(e) => {
                    proof {
                        assert(w.states(start, i as int + 1) == Err::<Seq<AggState>, Seq<char>>(
                            e.0@,
                        ));
                        lemma_states_fail(w, start, i as int + 1, to as int);
                        assert(w.placed(from as int, start, to as int, rank as int));
                        lemma_result(w, from as int, start, to as int, rank as int);
                    }
                    return Err(e);
                },
            }
            i += 1;
        }
        if rank > i32::MAX as usize {
            let e = failure("integer overflow");
            proof {
                assert(w.placed(from as int, start, to as int, rank as int));
                lemma_result(w, from as int, start, to as int, rank as int);
            }
            return Err(e);
        }
        let shown = with_rank(states, &self.plan.aggregates, rank as i32);
        let mut k: usize = from;
        while k < to
            invariant
                from <= k <= to <= rows@.len(),
                computes(*fl),
                self.plan.schema@.wf(),
                rank <= i32::MAX,
                w == self.window(results(*fl), row_views(rows@)),
                w.states(start, to as int) == Ok::<Seq<AggState>, Seq<char>>(states@),
                shown@ == ranked(states@, w.aggs, rank as i32),
                w.results_error(from as int, to as int) == w.results_error(k as int, to as int),
                out@.error is None,
                out@.rows.len() == k,
                forall|x: int| 0 <= x < from ==> #[trigger] out@.rows[x] == old(out)@.rows[x],
                forall|x: int|
                    from <= x < k ==> w.emits(x, #[trigger] out@.rows[x]),
                forall|x: int|
                    from <= x < to ==> #[trigger] w.placed(x, start, to as int, rank as int),
            decreases to - k,
        {
            assert(w.rows[k as int].0 == rows@[k as int].0.data@);
            proof {
                assert(w.placed(k as int, start, to as int, rank as int));
                lemma_result(w, k as int, start, to as int, rank as int);
                assert(w.result(k as int) == w.row_with(k as int, shown@));
                reveal(WindowView::row_with);
            }
            let mut combined: Vec<Option<Value>> = Vec::new();
            match read_fields(self.child_schema, &rows[k].0, &mut combined) {
                Ok(_) => {},
                Err(e) => { return Err(e); },
            }
            let ghost vals = combined@;
            assert(all_fields(w.s, w.rows[k as int].0)->Ok_0 =~= vals);
            match read_states(&shown, &mut combined, fl) {
                Ok(_) => {},
                Err(e) => { return Err(e); },
            }
            match encode(&self.plan.schema, &combined) {
                Ok(t) => out.add(t, RecordId::reserved()),
                Err(e) => { return Err(e); },
            }
            k += 1;
        }
        Ok(())
    }

    /// Computes the window functions over rows that are in order.
    fn compute<F: Fn(FloatOp, u32, u32) -> u32>(&self, rows: &Vec<(Tuple, RecordId)>, fl: &F) -> (res:
        Result<RowStream, ExecutorError>)
        requires
            computes(*fl),
            self.plan.schema@.wf(),
        ensures
            ({
                let w = self.window(results(*fl), row_views(rows@));
                w.answers(
                    match res {
                        Ok(s) => s@,
                        Err(e) => fails(e.0@),
                    },
                )
            }),
            res matches Ok(s) ==> s@.error is None,
    {
        let ghost w = self.window(results(*fl), row_views(rows@));
        let running: bool = self.plan.order_by_exprs.is_some();
        let partition_by = clause_of(&self.plan.partition_by_exprs);
        let order_by = clause_of(&self.plan.order_by_exprs);
        let mut out = RowStream::empty();
        let mut states = new_states(&self.plan.aggregates);
        let mut prev_partition: Vec<Option<Value>> = Vec::new();
        let mut prev_order: Vec<Option<Value>> = Vec::new();
        let mut part: usize = 0;
        let mut peers: usize = 0;
        let mut buffered: usize = 0;
        let mut i: usize = 0;
        while i < rows.len()
            invariant
                i <= rows@.len(),
                computes(*fl),
                self.plan.schema@.wf(),
                w == self.window(results(*fl), row_views(rows@)),
                running == w.running,
                partition_by@ == w.partition_by,
                order_by@ == w.order_by,
                part <= buffered <= i,
                part <= peers <= i,
                i > 0 ==> buffered < i && peers < i,
                w.error_from(0, 0) == w.error_from(i as int, buffered as int),
                part == 0 || w.new_partition(part as int),
                forall|k: int| part < k < i ==> !#[trigger] w.new_partition(k),
                peers == 0 || w.new_order(peers as int),
                forall|k: int| peers < k < i ==> !#[trigger] w.new_order(k),
                buffered == if running { peers } else { part },
                !running ==> peers == part,
                i > 0 ==> w.partition_key(i - 1) == Ok::<Seq<Option<Value>>, Seq<char>>(
                    prev_partition@,
                ),
                i > 0 ==> w.order_key(i - 1) == Ok::<Seq<Option<Value>>, Seq<char>>(prev_order@),
                w.states(part as int, buffered as int) == Ok::<Seq<AggState>, Seq<char>>(states@),
                out@.error is None,
                out@.rows.len() == buffered,
                forall|k: int|
                    0 <= k < i ==> #[trigger] w.partition_key(k) is Ok,
                forall|k: int| 0 <= k < i ==> #[trigger] w.order_key(k) is Ok,
                forall|k: int|
                    0 <= k < buffered ==> w.emits(k, #[trigger] out@.rows[k]),
            decreases rows@.len() - i,
        {
            assert(w.rows[i as int].0 == rows@[i as int].0.data@);
            let partition_key = match evaluate_all(
                &partition_by,
                &rows[i].0,
                self.child_schema,
                fl,
            ) {
                Ok(k) => k,
                Err(e) => { return Err(e); },
            };
            let order_key = match evaluate_all(&order_by, &rows[i].0, self.child_schema, fl) {
                Ok(k) => k,
                Err(e) => { return Err(e); },
            };
            let new_partition: bool = i == 0 || !keys_agree(&partition_key, &prev_partition);
            let new_order: bool = new_partition || !keys_agree(&order_key, &prev_order);
            proof {
                assert(new_partition == w.new_partition(i as int)) by {
                    reveal(WindowView::new_partition);
                }
                assert(new_order == w.new_order(i as int)) by {
                    reveal(WindowView::new_order);
                }
                if !running {
                    assert(order_by@.len() == 0);
                    assert(order_key@.len() == 0);
                    if i > 0 {
                        lemma_no_order(w, i as int);
                    }
                }
            }
            if i > 0 && (new_partition || (running && new_order)) {
                proof {
                    lemma_group_bounds(w, part as int, peers as int, buffered as int, i as int);
                }
                match self.flush_peer_group(
                    rows,
                    buffered,
                    i,
                    &mut states,
                    peers - part + 1,
                    &mut out,
                    fl,
                    Ghost(part as int),
                ) {
                    Ok(_) => {},
                    Err(e) => { return Err(e); },
                }
                buffered = i;
                if new_partition {
                    states = new_states(&self.plan.aggregates);
                    part = i;
                }
            }
            if new_order {
                peers = i;
            }
            prev_partition = partition_key;
            prev_order = order_key;
            i += 1;
        }
        if buffered < rows.len() {
            proof {
                lemma_group_bounds(w, part as int, peers as int, buffered as int, i as int);
            }
            match self.flush_peer_group(
                rows,
                buffered,
                i,
                &mut states,
                peers - part + 1,
                &mut out,
                fl,
                Ghost(part as int),
            ) {
                Ok(_) => {},
                Err(e) => { return Err(e); },
            }
        }
        Ok(out)
    }

    pub fn open<F: Fn(FloatOp, u32, u32) -> u32>(&mut self, fl: &F) -> (res: Result<
        (),
        ExecutorError,
    >)
        requires
            computes(*fl),
            old(self).plan.schema@.wf(),
        ensures
            final(self).plan == old(self).plan,
            res is Ok ==> (final(self).output matches Some(s) && s@.error is None),
            window_answers(
                *old(self).plan,
                old(self).child_schema@,
                results(*fl),
                old(self).child@,
                match res {
                    Ok(_) => final(self).output->0@,
                    Err(e) => fails(e.0@),
                },
            ),
    {
        let rows = match drained(take_stream(&mut self.child)) {
            Ok(rows) => rows,
            Err(e) => { return Err(e); },
        };
        let mut exprs = clause_of(&self.plan.partition_by_exprs);
        let mut order_by = clause_of(&self.plan.order_by_exprs);
        exprs.append(&mut order_by);
        let sorted = sort_rows(rows, &exprs, self.child_schema, fl);
        proof {
            assert(in_order(
                *old(self).plan,
                old(self).child_schema@,
                results(*fl),
                old(self).child@.rows,
                row_views(sorted@),
            ));
            assert(self.window(results(*fl), row_views(sorted@)) == old(self).window(
                results(*fl),
                row_views(sorted@),
            ));
        }
        match self.compute(&sorted, fl) {
            Ok(out) => {
                self.output = Some(out);
                Ok(())
            },
            Err(e) => Err(e),
        }
    }
}

impl<'a> Executor for WindowFunctionExecutor<'a> {
    open spec fn output(&self) -> Option<StreamView> {
        stream_view(self.output)
    }

    open spec fn out_schema(&self) -> SchemaView {
        self.plan.schema@
    }

    open spec fn unopened(&self) -> Seq<char> {
        "WindowFunctionExecutor::next called before open"@
    }

    fn next(&mut self) -> (res: Result<Option<(Tuple, RecordId)>, ExecutorError>) {
        pull(&mut self.output, "WindowFunctionExecutor::next called before open")
    }

    fn schema(&self) -> (res: &Schema) {
        &self.plan.schema
    }

    fn close(&mut self) -> (res: Result<(), ExecutorError>) {
        Ok(())
    }
}

/// Without an order, only a new partition starts new peers.
proof fn lemma_no_order(w: WindowView, i: int)
    requires
        w.order_by.len() == 0,
        0 < i,
    ensures
        w.new_order(i) == w.new_partition(i),
{
    reveal(WindowView::new_order);
    assert(w.order_key(i) == Ok::<Seq<Option<Value>>, Seq<char>>(Seq::empty()));
    assert(w.order_key(i - 1) == Ok::<Seq<Option<Value>>, Seq<char>>(Seq::empty()));
}

/// Where the rows that are flushed together begin and end.
proof fn lemma_group_bounds(w: WindowView, part: int, peers: int, buffered: int, i: int)
    requires
        0 <= part <= buffered < i <= w.rows.len(),
        part <= peers < i,
        part == 0 || w.new_partition(part),
        forall|k: int| part < k < i ==> !#[trigger] w.new_partition(k),
        peers == 0 || w.new_order(peers),
        forall|k: int| peers < k < i ==> !#[trigger] w.new_order(k),
        buffered == if w.running { peers } else { part },
        !w.running ==> peers == part,
        i == w.rows.len() || w.boundary(i),
    ensures
        forall|k: int|
            buffered <= k < i ==> #[trigger] w.placed(k, part, i, peers - part + 1),
{
    assert forall|k: int| buffered <= k < i implies #[trigger] w.placed(
        k,
        part,
        i,
        peers - part + 1,
    ) by {
        lemma_partition_start(w, part, k);
        lemma_peers_start(w, peers, k);
        assert forall|x: int| k < x < i implies !#[trigger] w.boundary(x) by {
            if w.running {
                assert(!w.new_order(x));
            } else {
                assert(!w.new_partition(x));
            }
        }
        lemma_frame_end(w, k, i);
        reveal(WindowView::placed);
    }
}

/// Two keys agree where neither comes before the other.
pub(crate) proof fn lemma_agree_from(a: Seq<Option<Value>>, b: Seq<Option<Value>>, i: int)
    requires
        a.len() == b.len(),
        0 <= i <= a.len(),
    ensures
        (forall|k: int| i <= k < a.len() ==> option_eq(#[trigger] a[k], b[k])) <==> (!keys_lt_from(
            a,
            b,
            i,
        ) && !keys_lt_from(b, a, i)),
    decreases a.len() - i,
{
    if i < a.len() {
        lemma_agree_from(a, b, i + 1);
        if !keys_lt_from(a, b, i) && !keys_lt_from(b, a, i) {
            assert(option_eq(a[i], b[i]));
            assert forall|k: int| i <= k < a.len() implies option_eq(#[trigger] a[k], b[k]) by {}
        }
    }
}

pub(crate) proof fn lemma_agree(a: Seq<Option<Value>>, b: Seq<Option<Value>>)
    requires
        a.len() == b.len(),
    ensures
        same_key(a, b) <==> !keys_lt(a, b) && !keys_lt(b, a),
        same_key(a, b) <==> same_key(b, a),
{
    lemma_agree_from(a, b, 0);
    lemma_agree_from(b, a, 0);
}

/// The order of keys with two parts is that of the first parts, then that of the second ones.
pub(crate) proof fn lemma_parts_lt(
    a: Seq<Option<Value>>,
    b: Seq<Option<Value>>,
    c: Seq<Option<Value>>,
    d: Seq<Option<Value>>,
    i: int,
)
    requires
        a.len() == b.len(),
        c.len() == d.len(),
        0 <= i <= a.len(),
    ensures
        keys_lt_from(a + c, b + d, i) <==> keys_lt_from(a, b, i) || (!keys_lt_from(b, a, i)
            && keys_lt(c, d)),
    decreases a.len() - i,
{
    if i < a.len() {
        lemma_parts_lt(a, b, c, d, i + 1);
        assert((a + c)[i] == a[i]);
        assert((b + d)[i] == b[i]);
        lemma_keys_weak_from(a, b, a, i);
    } else {
        lemma_tail_lt(a, b, c, d, 0);
    }
}

proof fn lemma_tail_lt(
    a: Seq<Option<Value>>,
    b: Seq<Option<Value>>,
    c: Seq<Option<Value>>,
    d: Seq<Option<Value>>,
    i: int,
)
    requires
        a.len() == b.len(),
        c.len() == d.len(),
        0 <= i <= c.len(),
    ensures
        keys_lt_from(a + c, b + d, a.len() + i) == keys_lt_from(c, d, i),
    decreases c.len() - i,
{
    if i < c.len() {
        lemma_tail_lt(a, b, c, d, i + 1);
        assert((a + c)[a.len() + i] == c[i]);
        assert((b + d)[a.len() + i] == d[i]);
    }
}

/// The keys ascend, and each has `len` values.
pub(crate) open spec fn keys_ascend(keys: Seq<Seq<Option<Value>>>, len: nat) -> bool {
    &&& forall|x: int| 0 <= x < keys.len() ==> (#[trigger] keys[x]).len() == len
    &&& forall|x: int, y: int|
        0 <= x < y < keys.len() ==> !keys_lt(#[trigger] keys[y], #[trigger] keys[x])
}

/// `start` is where the keys begin that agree with key `i`.
pub(crate) open spec fn run_starts(keys: Seq<Seq<Option<Value>>>, start: int, i: int) -> bool {
    &&& 0 <= start <= i
    &&& start > 0 ==> !same_key(keys[start], keys[start - 1])
    &&& forall|k: int|
        start < k <= i ==> same_key(#[trigger] keys[k], keys[k - 1])
}

pub(crate) proof fn lemma_run_agrees(
    keys: Seq<Seq<Option<Value>>>,
    len: nat,
    start: int,
    j: int,
    i: int,
)
    requires
        keys_ascend(keys, len),
        run_starts(keys, start, i),
        start <= j <= i < keys.len(),
    ensures
        same_key(keys[j], keys[i]),
    decreases i - j,
{
    if j < i {
        lemma_run_agrees(keys, len, start, j + 1, i);
        assert(same_key(keys[j + 1], keys[j + 1 - 1]));
        lemma_agree(keys[j + 1], keys[j]);
        lemma_agree(keys[j + 1], keys[i]);
        lemma_agree(keys[j], keys[i]);
        lemma_keys_weak_from(keys[j], keys[j + 1], keys[i], 0);
        lemma_keys_weak_from(keys[i], keys[j + 1], keys[j], 0);
    } else {
        lemma_agree_self(keys[i]);
    }
}

pub(crate) proof fn lemma_agree_self(a: Seq<Option<Value>>)
    ensures
        same_key(a, a),
{
    assert forall|i: int| 0 <= i < a.len() implies option_eq(#[trigger] a[i], a[i]) by {
        match a[i] {
            Some(v) => {
                assert(value_eq(v, v));
            },
            None => {},
        }
    }
}

/// Keys before the run of key `i` come before it.
pub(crate) proof fn lemma_before_run(
    keys: Seq<Seq<Option<Value>>>,
    len: nat,
    start: int,
    j: int,
    i: int,
)
    requires
        keys_ascend(keys, len),
        run_starts(keys, start, i),
        0 <= j < start,
        i < keys.len(),
    ensures
        keys_lt(keys[j], keys[i]),
{
    let (p, s) = (keys[start - 1], keys[start]);
    lemma_agree(s, p);
    assert(!keys_lt(s, p));
    assert(keys_lt(p, s));
    if j < start - 1 {
        assert(!keys_lt(p, keys[j]));
        lemma_keys_weak_from(keys[j], p, s, 0);
    }
    assert(keys_lt(keys[j], s));
    lemma_run_agrees(keys, len, start, start, i);
    lemma_agree(s, keys[i]);
    lemma_keys_weak_from(keys[j], s, keys[i], 0);
}

impl WindowView {
    /// The rows of the partition of row `i` whose order key comes before its own.
    pub open spec fn rows_before(self, i: int) -> Set<int> {
        vstd::set_lib::set_int_range(0, self.rows.len() as int).filter(
            |j: int|
                same_key(self.partition_key(j)->Ok_0, self.partition_key(i)->Ok_0) && keys_lt(
                    self.order_key(j)->Ok_0,
                    self.order_key(i)->Ok_0,
                ),
        )
    }

    /// The keys of all rows can be computed, and the rows are in the order of their keys.
    pub open spec fn rows_ascend(self) -> bool {
        &&& forall|i: int| 0 <= i < self.rows.len() ==> #[trigger] self.partition_key(i) is Ok
        &&& forall|i: int| 0 <= i < self.rows.len() ==> #[trigger] self.order_key(i) is Ok
        &&& forall|x: int, y: int|
            #![trigger self.rows[x], self.rows[y]]
            0 <= x < y < self.rows.len() ==> !keys_lt(
                self.partition_key(y)->Ok_0 + self.order_key(y)->Ok_0,
                self.partition_key(x)->Ok_0 + self.order_key(x)->Ok_0,
            )
    }

    pub(crate) proof fn lemma_partition_run(self, i: int)
        requires
            0 <= i < self.rows.len(),
            self.rows_ascend(),
        ensures
            run_starts(
                Seq::new(self.rows.len(), |k: int| self.partition_key(k)->Ok_0),
                self.partition_start(i),
                i,
            ),
        decreases i,
    {
        reveal(WindowView::new_partition);
        if i > 0 {
            self.lemma_partition_run(i - 1);
            assert(self.partition_key(i) is Ok && self.partition_key(i - 1) is Ok);
        }
    }

    pub(crate) proof fn lemma_peers_run(self, i: int)
        requires
            0 <= i < self.rows.len(),
            self.rows_ascend(),
        ensures
            run_starts(
                Seq::new(
                    self.rows.len(),
                    |k: int| self.partition_key(k)->Ok_0 + self.order_key(k)->Ok_0,
                ),
                self.peers_start(i),
                i,
            ),
        decreases i,
    {
        reveal(WindowView::new_partition);
        reveal(WindowView::new_order);
        if i > 0 {
            self.lemma_peers_run(i - 1);
            assert(self.partition_key(i) is Ok && self.partition_key(i - 1) is Ok);
            assert(self.order_key(i) is Ok && self.order_key(i - 1) is Ok);
            let (a, b) = (self.partition_key(i)->Ok_0, self.partition_key(i - 1)->Ok_0);
            let (c, d) = (self.order_key(i)->Ok_0, self.order_key(i - 1)->Ok_0);
            lemma_key_len(self.fl, self.partition_by, self.rows[i].0, self.s);
            lemma_key_len(self.fl, self.partition_by, self.rows[i - 1].0, self.s);
            lemma_key_len(self.fl, self.order_by, self.rows[i].0, self.s);
            lemma_key_len(self.fl, self.order_by, self.rows[i - 1].0, self.s);
            lemma_parts_agree(a, b, c, d);
        }
    }

    /// The rank of a row is one more than the number of rows of its partition whose order key
    /// comes before its own.
    pub proof fn law_rank(self, i: int)
        requires
            0 <= i < self.rows.len(),
            self.rows_ascend(),
        ensures
            self.rows_before(i).finite(),
            self.rank(i) == 1 + self.rows_before(i).len(),
    {
        let n = self.rows.len();
        let parts = Seq::new(n, |k: int| self.partition_key(k)->Ok_0);
        let full = Seq::new(n, |k: int| self.partition_key(k)->Ok_0 + self.order_key(k)->Ok_0);
        let (np, no) = (self.partition_by.len(), self.order_by.len());
        assert forall|x: int| 0 <= x < n implies (#[trigger] parts[x]).len() == np by {
            assert(self.partition_key(x) is Ok);
            lemma_key_len(self.fl, self.partition_by, self.rows[x].0, self.s);
        }
        assert forall|x: int| 0 <= x < n implies (#[trigger] full[x]).len() == np + no by {
            assert(self.partition_key(x) is Ok && self.order_key(x) is Ok);
            lemma_key_len(self.fl, self.partition_by, self.rows[x].0, self.s);
            lemma_key_len(self.fl, self.order_by, self.rows[x].0, self.s);
        }
        assert forall|x: int, y: int| 0 <= x < y < n implies !keys_lt(
            #[trigger] full[y],
            #[trigger] full[x],
        ) by {
            assert(self.rows[x] == self.rows[x] && self.rows[y] == self.rows[y]);
        }
        assert forall|x: int, y: int| 0 <= x < n && 0 <= y < n implies (keys_lt(
            #[trigger] full[y],
            #[trigger] full[x],
        ) <==> keys_lt(parts[y], parts[x]) || (!keys_lt(parts[x], parts[y]) && keys_lt(
            self.order_key(y)->Ok_0,
            self.order_key(x)->Ok_0,
        ))) by {
            assert(parts[x].len() == np && parts[y].len() == np);
            assert(full[x].len() == np + no && full[y].len() == np + no);
            lemma_parts_lt(
                parts[y],
                parts[x],
                self.order_key(y)->Ok_0,
                self.order_key(x)->Ok_0,
                0,
            );
        }
        assert forall|x: int, y: int| 0 <= x < y < n implies !keys_lt(
            #[trigger] parts[y],
            #[trigger] parts[x],
        ) by {
            assert(!keys_lt(full[y], full[x]));
        }
        let start = self.partition_start(i);
        let peers = self.peers_start(i);
        self.lemma_partition_run(i);
        self.lemma_peers_run(i);
        let range = vstd::set_lib::set_int_range(start, peers);
        assert forall|j: int| self.rows_before(i).contains(j) <==> range.contains(j) by {
            if 0 <= j < n {
                lemma_agree(parts[j], parts[i]);
                assert(full[j].len() == full[i].len());
                assert(keys_lt(full[j], full[i]) <==> keys_lt(parts[j], parts[i]) || (!keys_lt(
                    parts[i],
                    parts[j],
                ) && keys_lt(self.order_key(j)->Ok_0, self.order_key(i)->Ok_0)));
                lemma_agree(full[j], full[i]);
                if j > i {
                    assert(!keys_lt(full[j], full[i]));
                } else {
                    if j < start {
                        lemma_before_run(parts, np, start, j, i);
                    } else {
                        lemma_run_agrees(parts, np, start, j, i);
                    }
                    if j < peers {
                        lemma_before_run(full, np + no, peers, j, i);
                    } else {
                        lemma_run_agrees(full, np + no, peers, j, i);
                    }
                }
            }
        }
        assert(self.rows_before(i) =~= range);
        if peers < start {
            lemma_run_agrees(full, np + no, peers, peers, i);
            lemma_agree(full[peers], full[i]);
            lemma_before_run(parts, np, start, peers, i);
            assert(keys_lt(full[peers], full[i]));
        }
        vstd::set_lib::lemma_int_range(start, peers);
    }
}

proof fn lemma_parts_agree(
    a: Seq<Option<Value>>,
    b: Seq<Option<Value>>,
    c: Seq<Option<Value>>,
    d: Seq<Option<Value>>,
)
    requires
        a.len() == b.len(),
        c.len() == d.len(),
    ensures
        same_key(a + c, b + d) <==> same_key(a, b) && same_key(c, d),
{
    if same_key(a + c, b + d) {
        assert forall|i: int| 0 <= i < a.len() implies option_eq(#[trigger] a[i], b[i]) by {
            assert(option_eq((a + c)[i], (b + d)[i]));
        }
        assert forall|i: int| 0 <= i < c.len() implies option_eq(#[trigger] c[i], d[i]) by {
            assert(option_eq((a + c)[a.len() + i], (b + d)[a.len() + i]));
        }
    }
}

/// Values that can all be computed are those by which a row is sorted.
pub(crate) proof fn lemma_key_len(
    fl: spec_fn(FloatOp, u32, u32) -> u32,
    exprs: Seq<Expression>,
    data: Seq<u8>,
    s: SchemaView,
)
    requires
        eval_all(fl, exprs, data, s) is Ok,
    ensures
        eval_all(fl, exprs, data, s)->Ok_0 == sort_key(fl, exprs, data, s),
        eval_all(fl, exprs, data, s)->Ok_0.len() == exprs.len(),
    decreases exprs.len(),
{
    if exprs.len() > 0 {
        let rest = exprs.drop_last();
        lemma_key_len(fl, rest, data, s);
        assert(eval_all(fl, exprs, data, s)->Ok_0 =~= sort_key(fl, exprs, data, s)) by {
            assert forall|i: int| 0 <= i < rest.len() implies sort_key(fl, rest, data, s)[i]
                == sort_key(fl, exprs, data, s)[i] by {
                assert(rest[i] == exprs[i]);
            }
        }
    } else {
        assert(eval_all(fl, exprs, data, s)->Ok_0 =~= sort_key(fl, exprs, data, s));
    }
}

/// Where a window function plan gives rows, it has put those of its child in the order of their
/// keys, and the rank of each of them is one more than the number of rows of its partition whose
/// order key comes before its own.
pub proof fn law_window_ranks(
    plan: WindowFunctionPlanNode,
    s: SchemaView,
    fl: spec_fn(FloatOp, u32, u32) -> u32,
    rows: Seq<RowView>,
    sorted: Seq<RowView>,
    out: Seq<RowView>,
)
    requires
        in_order(plan, s, fl, rows, sorted),
        window_of(plan, s, fl, sorted).gives(out),
    ensures
        window_of(plan, s, fl, sorted).rows_ascend(),
        forall|i: int|
            0 <= i < sorted.len() ==> #[trigger] window_of(plan, s, fl, sorted).rank(i) == 1
                + window_of(plan, s, fl, sorted).rows_before(i).len(),
{
    let w = window_of(plan, s, fl, sorted);
    let exprs = w.partition_by + w.order_by;
    let keys = sort_keys(fl, exprs, rows, s);
    let order = choose|order: Seq<int>| #[trigger]
        sorted_part(keys, order, 0, rows.len() as int) && sorted == arranged(rows, order);
    assert forall|x: int, y: int|
        #![trigger w.rows[x], w.rows[y]]
        0 <= x < y < w.rows.len() implies !keys_lt(
        w.partition_key(y)->Ok_0 + w.order_key(y)->Ok_0,
        w.partition_key(x)->Ok_0 + w.order_key(x)->Ok_0,
    ) by {
        lemma_full_key(w, x);
        lemma_full_key(w, y);
        assert(row_before(keys, order[x], order[y]));
        assert(keys[order[x]] == sort_key(fl, exprs, sorted[x].0, s));
        assert(keys[order[y]] == sort_key(fl, exprs, sorted[y].0, s));
        lemma_keys_weak_from(keys[order[x]], keys[order[y]], keys[order[x]], 0);
    }
    assert forall|i: int| 0 <= i < sorted.len() implies #[trigger] w.rank(i) == 1 + w.rows_before(
        i,
    ).len() by {
        w.law_rank(i);
    }
}

proof fn lemma_full_key(w: WindowView, i: int)
    requires
        0 <= i < w.rows.len(),
        w.partition_key(i) is Ok,
        w.order_key(i) is Ok,
    ensures
        w.partition_key(i)->Ok_0 + w.order_key(i)->Ok_0 == sort_key(
            w.fl,
            w.partition_by + w.order_by,
            w.rows[i].0,
            w.s,
        ),
{
    lemma_key_len(w.fl, w.partition_by, w.rows[i].0, w.s);
    lemma_key_len(w.fl, w.order_by, w.rows[i].0, w.s);
    assert(w.partition_key(i)->Ok_0 + w.order_key(i)->Ok_0 =~= sort_key(
        w.fl,
        w.partition_by + w.order_by,
        w.rows[i].0,
        w.s,
    ));
}

} // verus!
