//! What window functions give, told by the rows and values that they are computed from.
use vstd::prelude::*;

use crate::catalog::schema::{law_tuple_roundtrip, SchemaView};
use crate::catalog::value::Value;
use crate::processor::aggregate::{agg_start, same_key, start_states, state_values, AggState};
use crate::processor::aggregate_laws::{
    folded, is_aggregate, law_aggregate_value, lemma_state_stepped, lemma_state_value,
    lemma_state_values_len, values_on,
};
use crate::processor::expression::{eval, FloatOp};
use crate::processor::laws::lemma_field_values;
use crate::processor::plan::{AggType, WindowFunctionPlanNode};
use crate::processor::sorting::keys_lt;
use crate::processor::stream::{all_fields, encoded, RowView};
use crate::processor::window::{
    in_order, keys_ascend, law_window_ranks, lemma_agree, lemma_before_run, lemma_key_len,
    lemma_parts_lt, lemma_run_agrees, lemma_states_len, ranked, window_of, WindowView,
};

verus! {

impl WindowView {
    /// Row `j` is among the rows that an aggregate at row `i` covers: it is in the same partition,
    /// and where there is an order it does not come behind row `i` and its peers.
    pub open spec fn covers(self, i: int, j: int) -> bool {
        &&& same_key(self.partition_key(j)->Ok_0, self.partition_key(i)->Ok_0)
        &&& self.running ==> !keys_lt(self.order_key(i)->Ok_0, self.order_key(j)->Ok_0)
    }

    /// The rows among the first `n` that an aggregate at row `i` covers, in order.
    pub open spec fn covered(self, i: int, n: int) -> Seq<RowView>
        decreases n,
    {
        if n <= 0 {
            Seq::empty()
        } else if self.covers(i, n - 1) {
            self.covered(i, n - 1).push(self.rows[n - 1])
        } else {
            self.covered(i, n - 1)
        }
    }

    spec fn parts(self) -> Seq<Seq<Option<Value>>> {
        Seq::new(self.rows.len(), |k: int| self.partition_key(k)->Ok_0)
    }

    spec fn keys(self) -> Seq<Seq<Option<Value>>> {
        Seq::new(self.rows.len(), |k: int| self.partition_key(k)->Ok_0 + self.order_key(k)->Ok_0)
    }

    proof fn lemma_keys_ascend(self)
        requires
            self.rows_ascend(),
        ensures
            keys_ascend(self.parts(), self.partition_by.len()),
            keys_ascend(self.keys(), self.partition_by.len() + self.order_by.len()),
            forall|x: int, y: int|
                #![trigger self.keys()[x], self.keys()[y]]
                0 <= x < self.rows.len() && 0 <= y < self.rows.len() ==> (keys_lt(
                    self.keys()[y],
                    self.keys()[x],
                ) <==> keys_lt(self.parts()[y], self.parts()[x]) || (!keys_lt(
                    self.parts()[x],
                    self.parts()[y],
                ) && keys_lt(self.order_key(y)->Ok_0, self.order_key(x)->Ok_0))),
    {
        let n = self.rows.len();
        let (parts, full) = (self.parts(), self.keys());
        let (np, no) = (self.partition_by.len(), self.order_by.len());
        assert forall|x: int| 0 <= x < n implies (#[trigger] parts[x]).len() == np by {
            assert(self.partition_key(x) is Ok);
            lemma_key_len(self.fl, self.partition_by, self.rows[x].0, self.s);
        }
        assert forall|x: int| 0 <= x < n implies (#[trigger] full[x]).len() == np + no by {
            assert(self.partition_key(x) is Ok && self.order_key(x) is Ok);
            lemma_key_len(self.fl, self.partition_by, self.rows[x].0, self.s);
            lemma_key_len(self.fl, self.order_by, self.rows[x].0, self.s);
        }
        assert forall|x: int, y: int| 0 <= x < y < n implies !keys_lt(
            #[trigger] full[y],
            #[trigger] full[x],
        ) by {
            assert(self.rows[x] == self.rows[x] && self.rows[y] == self.rows[y]);
        }
        assert forall|x: int, y: int|
            #![trigger full[x], full[y]]
            0 <= x < n && 0 <= y < n implies (keys_lt(full[y], full[x]) <==> keys_lt(
            parts[y],
            parts[x],
        ) || (!keys_lt(parts[x], parts[y]) && keys_lt(
            self.order_key(y)->Ok_0,
            self.order_key(x)->Ok_0,
        ))) by {
            assert(parts[x].len() == np && parts[y].len() == np);
            assert(full[x].len() == np + no && full[y].len() == np + no);
            lemma_parts_lt(
                parts[y],
                parts[x],
                self.order_key(y)->Ok_0,
                self.order_key(x)->Ok_0,
                0,
            );
        }
        assert forall|x: int, y: int| 0 <= x < y < n implies !keys_lt(
            #[trigger] parts[y],
            #[trigger] parts[x],
        ) by {
            assert(!keys_lt(full[y], full[x]));
        }
    }

    proof fn lemma_starts_kept(self, i: int, j: int)
        requires
            0 <= i <= j,
        ensures
            (forall|k: int| i < k <= j ==> !#[trigger] self.new_partition(k))
                ==> self.partition_start(j) == self.partition_start(i),
            (forall|k: int| i < k <= j ==> !#[trigger] self.new_order(k)) ==> self.peers_start(j)
                == self.peers_start(i),
            (exists|k: int| i < k <= j && #[trigger] self.new_partition(k))
                ==> self.partition_start(j) > i,
            (exists|k: int| i < k <= j && #[trigger] self.new_order(k)) ==> self.peers_start(j) > i,
        decreases j,
    {
        if i < j {
            self.lemma_starts_kept(i, j - 1);
        }
    }

    proof fn lemma_frame_end_at(self, i: int)
        requires
            0 <= i < self.rows.len(),
        ensures
            i < self.frame_end(i) <= self.rows.len(),
            forall|k: int| i < k < self.frame_end(i) ==> !#[trigger] self.boundary(k),
            self.frame_end(i) < self.rows.len() ==> self.boundary(self.frame_end(i)),
        decreases self.rows.len() - i,
    {
        if i + 1 < self.rows.len() && !self.boundary(i + 1) {
            self.lemma_frame_end_at(i + 1);
        }
    }

    /// The rows that an aggregate covers are those from the start of the partition to the end of
    /// the frame.
    proof fn lemma_covers(self, i: int, j: int)
        requires
            0 <= i < self.rows.len(),
            0 <= j < self.rows.len(),
            self.rows_ascend(),
        ensures
            0 <= self.partition_start(i) <= i < self.frame_end(i) <= self.rows.len(),
            self.covers(i, j) <==> self.partition_start(i) <= j < self.frame_end(i),
    {
        let (parts, full) = (self.parts(), self.keys());
        let (np, no) = (self.partition_by.len(), self.order_by.len());
        self.lemma_keys_ascend();
        self.lemma_frame_end_at(i);
        self.lemma_partition_run(i);
        self.lemma_partition_run(j);
        self.lemma_peers_run(i);
        self.lemma_peers_run(j);
        let start = self.partition_start(i);
        let end = self.frame_end(i);
        assert(full[i].len() == full[j].len() && parts[i].len() == parts[j].len());
        lemma_agree(parts[j], parts[i]);
        lemma_agree(full[j], full[i]);
        assert(keys_lt(full[i], full[j]) <==> keys_lt(parts[i], parts[j]) || (!keys_lt(
            parts[j],
            parts[i],
        ) && keys_lt(self.order_key(i)->Ok_0, self.order_key(j)->Ok_0)));
        if j <= i {
            if j < start {
                lemma_before_run(parts, np, start, j, i);
            } else {
                lemma_run_agrees(parts, np, start, j, i);
                if j < i {
                    assert(!keys_lt(full[i], full[j]));
                }
            }
            if j == i {
                assert(!keys_lt(full[i], full[i])) by {
                    crate::processor::window::lemma_agree_self(full[i]);
                }
            }
        } else {
            self.lemma_starts_kept(i, j);
            if self.running {
                if j < end {
                    assert forall|k: int| i < k <= j implies !#[trigger] self.new_order(k) by {
                        assert(!self.boundary(k));
                    }
                    lemma_run_agrees(full, np + no, self.peers_start(i), i, j);
                    lemma_agree(full[i], full[j]);
                    assert(!keys_lt(parts[j], parts[i]));
                } else {
                    assert(self.boundary(end) && self.new_order(end));
                    lemma_before_run(full, np + no, self.peers_start(j), i, j);
                }
            } else {
                if j < end {
                    assert forall|k: int| i < k <= j implies !#[trigger] self.new_partition(k) by {
                        assert(!self.boundary(k));
                    }
                    lemma_run_agrees(parts, np, start, i, j);
                    lemma_agree(parts[i], parts[j]);
                } else {
                    assert(self.boundary(end) && self.new_partition(end));
                    lemma_before_run(parts, np, self.partition_start(j), i, j);
                }
            }
        }
    }

    proof fn lemma_covered(self, i: int, n: int)
        requires
            0 <= i < self.rows.len(),
            0 <= n <= self.rows.len(),
            self.rows_ascend(),
        ensures
            ({
                let (a, b) = (self.partition_start(i), self.frame_end(i));
                self.covered(i, n) == if n <= a {
                    Seq::empty()
                } else if n <= b {
                    self.rows.subrange(a, n)
                } else {
                    self.rows.subrange(a, b)
                }
            }),
        decreases n,
    {
        self.lemma_covers(i, i);
        if n > 0 {
            self.lemma_covered(i, n - 1);
            self.lemma_covers(i, n - 1);
            let (a, b) = (self.partition_start(i), self.frame_end(i));
            if a < n <= b {
                assert(self.rows.subrange(a, n) =~= self.rows.subrange(a, n - 1).push(
                    self.rows[n - 1],
                ));
                if n - 1 == a {
                    assert(self.rows.subrange(a, a) =~= Seq::empty());
                }
            }
        }
    }

    /// The aggregates over a frame are those of what their expressions give on its rows.
    proof fn lemma_frame_folded(self, from: int, to: int, a: int)
        requires
            0 <= from <= to <= self.rows.len(),
            0 <= a < self.aggs.len(),
            self.aggs[a].1 != AggType::RANK,
            self.states(from, to) is Ok,
        ensures
            self.states(from, to)->Ok_0.len() == self.aggs.len(),
            folded(
                self.fl,
                self.aggs[a].1,
                values_on(self.fl, self.aggs[a].0, self.rows.subrange(from, to), self.s),
            ) == Ok::<AggState, Seq<char>>(self.states(from, to)->Ok_0[a]),
            forall|j: int|
                from <= j < to ==> eval(self.fl, self.aggs[a].0, (#[trigger] self.rows[j]).0, self.s)
                    is Ok,
        decreases to - from,
    {
        let vs = values_on(self.fl, self.aggs[a].0, self.rows.subrange(from, to), self.s);
        if from < to {
            self.lemma_frame_folded(from, to - 1, a);
            let before = self.states(from, to - 1)->Ok_0;
            lemma_state_stepped(
                self.fl,
                self.aggs,
                before,
                self.rows[to - 1].0,
                self.s,
                true,
                self.aggs.len() as int,
                a,
            );
            assert(vs.drop_last() =~= values_on(
                self.fl,
                self.aggs[a].0,
                self.rows.subrange(from, to - 1),
                self.s,
            ));
            assert(vs.last() == eval(self.fl, self.aggs[a].0, self.rows[to - 1].0, self.s)->Ok_0);
        } else {
            assert(start_states(self.aggs)[a] == agg_start(self.aggs[a].1));
        }
    }
}

/// Row `row` is what a window function plan gives for row `i`: the columns of the row, and behind
/// them for each function its rank or what it comes to on the rows that it covers.
pub open spec fn is_window_row(w: WindowView, i: int, row: RowView) -> bool {
    let n = w.s.cols.len();
    &&& w.out.cols.len() == n + w.aggs.len()
    &&& forall|c: int|
        0 <= c < n ==> #[trigger] w.out.field(row.0, c) == w.s.field(w.rows[i].0, c) && w.s.field(
            w.rows[i].0,
            c,
        ) is Ok
    &&& forall|a: int|
        0 <= a < w.aggs.len() ==> (#[trigger] w.out.field(row.0, n + a) matches Ok(r) && if w.aggs[
            a].1 == AggType::RANK {
            r matches Some(Value::INT(k)) && k == 1 + w.rows_before(i).len()
        } else {
            is_aggregate(
                w.fl,
                w.aggs[a].1,
                values_on(w.fl, w.aggs[a].0, w.covered(i, w.rows.len() as int), w.s),
                r,
            )
        })
}

/// Where a window function plan gives rows, they are those of its child in the order of their
/// keys, each with all its columns. Behind them stand the functions: a rank is one more than the
/// number of rows of the partition whose order key comes before; COUNT, SUM, AVG, MAX and MIN are
/// those of the values on the rows of the partition, where there is an order only on those up to
/// the peers of the row.
pub proof fn law_window_columns(
    plan: WindowFunctionPlanNode,
    s: SchemaView,
    fl: spec_fn(FloatOp, u32, u32) -> u32,
    rows: Seq<RowView>,
    sorted: Seq<RowView>,
    out: Seq<RowView>,
)
    requires
        plan.schema@.wf(),
        in_order(plan, s, fl, rows, sorted),
        window_of(plan, s, fl, sorted).gives(out),
    ensures
        out.len() == sorted.len(),
        forall|i: int|
            0 <= i < out.len() ==> is_window_row(
                window_of(plan, s, fl, sorted),
                i,
                #[trigger] out[i],
            ),
{
    let w = window_of(plan, s, fl, sorted);
    law_window_ranks(plan, s, fl, rows, sorted, out);
    assert forall|i: int| 0 <= i < out.len() implies is_window_row(w, i, #[trigger] out[i]) by {
        let row = out[i];
        assert(w.emits(i, row));
        reveal(WindowView::result);
        reveal(WindowView::row_with);
        let (from, to) = (w.partition_start(i), w.frame_end(i));
        w.lemma_covers(i, i);
        w.lemma_covered(i, w.rows.len() as int);
        let states = w.states(from, to)->Ok_0;
        let rank = w.rank(i);
        assert(rank == 1 + w.rows_before(i).len());
        let shown = ranked(states, w.aggs, rank as i32);
        let vals = all_fields(w.s, w.rows[i].0)->Ok_0;
        let vs = state_values(fl, shown, shown.len() as int)->Ok_0;
        lemma_field_values(w.s, w.rows[i].0, w.s.cols.len() as int);
        lemma_states_len(w, from, to);
        lemma_state_values_len(fl, shown, shown.len() as int);
        assert(encoded(w.out, vals + vs) == Ok::<Seq<u8>, Seq<char>>(row.0));
        law_tuple_roundtrip(w.out, vals + vs);
        let n = w.s.cols.len();
        assert forall|c: int| 0 <= c < n implies #[trigger] w.out.field(row.0, c) == w.s.field(
            w.rows[i].0,
            c,
        ) && w.s.field(w.rows[i].0, c) is Ok by {
            assert((vals + vs)[c] == vals[c]);
        }
        assert forall|a: int| 0 <= a < w.aggs.len() implies (#[trigger] w.out.field(row.0, n + a)
            matches Ok(r) && if w.aggs[a].1 == AggType::RANK {
            r matches Some(Value::INT(k)) && k == 1 + w.rows_before(i).len()
        } else {
            is_aggregate(
                w.fl,
                w.aggs[a].1,
                values_on(w.fl, w.aggs[a].0, w.covered(i, w.rows.len() as int), w.s),
                r,
            )
        }) by {
            assert((vals + vs)[n + a] == vs[a]);
            lemma_state_value(fl, shown, shown.len() as int, a);
            if w.aggs[a].1 != AggType::RANK {
                w.lemma_frame_folded(from, to, a);
                assert(shown[a] == states[a]);
                law_aggregate_value(
                    fl,
                    w.aggs[a].1,
                    values_on(w.fl, w.aggs[a].0, w.rows.subrange(from, to), w.s),
                    vs[a],
                );
            }
        }
    }
}

} // verus!
