//! What aggregates come to, told by the values that they are computed from.
use vstd::prelude::*;

use crate::catalog::CatalogError;
use crate::catalog::schema::{law_tuple_roundtrip, SchemaView};
use crate::catalog::value::{value_lt, FloatBits, Value};
use crate::processor::aggregate::{
    agg_start, agg_step, agg_value, group_key, group_row, grouped, same_key, start_states,
    state_values, states_step, AggState,
};
use crate::processor::executor::{aggregation_stream, groups_part};
use crate::processor::expression::{eval, quotient, Expression, FloatOp};
use crate::processor::expression_laws::{law_quotient, rounds_to};
use crate::processor::laws::{
    groups_made_of, keys_apart, law_groups_partition_rows, lemma_group_position, rows_have_groups,
    rows_of_group, states_over,
};
use crate::processor::plan::AggType;
use crate::processor::stream::{flat, unstored, RowView, StreamView};

verus! {

/// What an expression gives on each of some rows.
pub open spec fn values_on(
    fl: spec_fn(FloatOp, u32, u32) -> u32,
    e: Expression,
    rows: Seq<RowView>,
    s: SchemaView,
) -> Seq<Option<Value>> {
    Seq::new(rows.len(), |i: int| eval(fl, e, rows[i].0, s)->Ok_0)
}

/// The values that are not NULL, in order.
pub open spec fn present(vs: Seq<Option<Value>>) -> Seq<Value>
    decreases vs.len(),
{
    if vs.len() == 0 {
        Seq::empty()
    } else {
        match vs.last() {
            Some(v) => present(vs.drop_last()).push(v),
            None => present(vs.drop_last()),
        }
    }
}

pub open spec fn all_ints(vs: Seq<Value>) -> bool {
    forall|i: int| 0 <= i < vs.len() ==> (#[trigger] vs[i]) is INT
}

pub open spec fn all_floats(vs: Seq<Value>) -> bool {
    forall|i: int| 0 <= i < vs.len() ==> (#[trigger] vs[i]) is FLOAT
}

/// The sum of integers.
pub open spec fn int_sum(vs: Seq<Value>) -> int
    decreases vs.len(),
{
    if vs.len() == 0 {
        0
    } else {
        int_sum(vs.drop_last()) + vs.last()->INT_0
    }
}

/// Floats added up from the first to the last, as their bits.
pub open spec fn float_sum(fl: spec_fn(FloatOp, u32, u32) -> u32, vs: Seq<Value>) -> u32
    decreases vs.len(),
{
    if vs.len() <= 1 {
        (vs[0]->FLOAT_0).0
    } else {
        fl(FloatOp::Add, float_sum(fl, vs.drop_last()), (vs.last()->FLOAT_0).0)
    }
}

/// `r` is the sum of these values; NULL where there are none.
pub open spec fn is_sum(
    fl: spec_fn(FloatOp, u32, u32) -> u32,
    vs: Seq<Value>,
    r: Option<Value>,
) -> bool {
    &&& vs.len() == 0 <==> r is None
    &&& vs.len() > 0 && all_ints(vs) ==> (r matches Some(Value::INT(x)) && x == int_sum(vs))
    &&& vs.len() > 0 && all_floats(vs) ==> r == Some(Value::FLOAT(FloatBits(float_sum(fl, vs))))
    &&& vs.len() > 1 ==> all_ints(vs) || all_floats(vs)
    &&& vs.len() == 1 ==> r == Some(vs[0])
}

/// `r` is the average of these integers, rounded toward zero; NULL where there are none.
pub open spec fn is_average(vs: Seq<Value>, r: Option<Value>) -> bool {
    if vs.len() == 0 {
        r is None
    } else {
        &&& all_ints(vs)
        &&& r matches Some(Value::INT(q)) && rounds_to(int_sum(vs), vs.len() as int, q as int)
    }
}

/// The value at `i` is as great as all before it and greater than all behind it.
pub open spec fn greatest_at(vs: Seq<Value>, i: int) -> bool {
    &&& 0 <= i < vs.len()
    &&& forall|j: int| 0 <= j < i ==> !value_lt(vs[i], #[trigger] vs[j])
    &&& forall|j: int| i < j < vs.len() ==> value_lt(#[trigger] vs[j], vs[i])
}

/// The value at `i` is smaller than all before it and as small as all behind it.
pub open spec fn smallest_at(vs: Seq<Value>, i: int) -> bool {
    &&& 0 <= i < vs.len()
    &&& forall|j: int| 0 <= j < i ==> value_lt(vs[i], #[trigger] vs[j])
    &&& forall|j: int| i < j < vs.len() ==> !value_lt(#[trigger] vs[j], vs[i])
}

/// `r` is what an aggregate function comes to on these values.
pub open spec fn is_aggregate(
    fl: spec_fn(FloatOp, u32, u32) -> u32,
    t: AggType,
    vs: Seq<Option<Value>>,
    r: Option<Value>,
) -> bool {
    let some = present(vs);
    match t {
        AggType::COUNT => r matches Some(Value::INT(n)) && n == vs.len(),
        AggType::SUM => is_sum(fl, some, r),
        AggType::AVG => is_average(some, r),
        AggType::MAX => if some.len() == 0 {
            r is None
        } else {
            exists|i: int| #[trigger] greatest_at(some, i) && r == Some(some[i])
        },
        AggType::MIN => if some.len() == 0 {
            r is None
        } else {
            exists|i: int| #[trigger] smallest_at(some, i) && r == Some(some[i])
        },
        AggType::RANK => true,
    }
}

/// All sums of the first of these integers fit into 32 bits.
pub open spec fn sums_fit(vs: Seq<Value>) -> bool {
    forall|n: int|
        0 <= n <= vs.len() ==> i32::MIN <= #[trigger] int_sum(vs.subrange(0, n)) <= i32::MAX
}

/// The state of an aggregate after these values.
pub open spec fn folded(
    fl: spec_fn(FloatOp, u32, u32) -> u32,
    t: AggType,
    vs: Seq<Option<Value>>,
) -> Result<AggState, Seq<char>>
    decreases vs.len(),
{
    if vs.len() == 0 {
        Ok(agg_start(t))
    } else {
        match folded(fl, t, vs.drop_last()) {
            Err(e) => Err(e),
            Ok(st) => agg_step(fl, st, vs.last()),
        }
    }
}

proof fn lemma_present_len(vs: Seq<Option<Value>>)
    ensures
        present(vs).len() <= vs.len(),
    decreases vs.len(),
{
    if vs.len() > 0 {
        lemma_present_len(vs.drop_last());
    }
}

/// One value more keeps a sum a sum.
proof fn lemma_sum_step(
    fl: spec_fn(FloatOp, u32, u32) -> u32,
    vs: Seq<Value>,
    r: Option<Value>,
    v: Value,
    r1: Option<Value>,
)
    requires
        is_sum(fl, vs, r),
        crate::processor::aggregate::added(fl, r, v) == Ok::<Option<Value>, Seq<char>>(r1),
    ensures
        is_sum(fl, vs.push(v), r1),
{
    let ws = vs.push(v);
    assert(ws.drop_last() =~= vs);
    assert(ws.last() == v);
    assert(ws[ws.len() - 1] == v);
    if vs.len() == 0 {
        assert(ws[0] == v);
        assert(int_sum(vs) == 0);
        if all_ints(ws) {
            assert(ws[0] is INT);
        }
        if all_floats(ws) {
            assert(ws[0] is FLOAT);
        }
    } else {
        assert(forall|i: int| 0 <= i < vs.len() ==> ws[i] == vs[i]);
        if vs.len() == 1 {
            assert(vs[0] == r->0);
            assert(ws[0] == vs[0]);
            if v is INT {
                assert(all_ints(ws));
                assert(all_ints(vs));
            } else {
                assert(all_floats(ws));
                assert(all_floats(vs));
            }
        } else if all_ints(vs) {
            assert(v is INT);
            assert(all_ints(ws));
            assert(!all_floats(ws)) by {
                assert(ws[0] is INT);
            }
        } else {
            assert(all_floats(vs));
            assert(v is FLOAT);
            assert(all_floats(ws));
            assert(!all_ints(ws)) by {
                assert(ws[0] is FLOAT);
            }
        }
        if all_ints(ws) {
            assert(all_ints(vs)) by {
                assert forall|i: int| 0 <= i < vs.len() implies (#[trigger] vs[i]) is INT by {
                    assert(ws[i] is INT);
                }
            }
            assert(ws[ws.len() - 1] is INT);
        }
        if all_floats(ws) {
            assert(all_floats(vs)) by {
                assert forall|i: int| 0 <= i < vs.len() implies (#[trigger] vs[i]) is FLOAT by {
                    assert(ws[i] is FLOAT);
                }
            }
            assert(ws[ws.len() - 1] is FLOAT);
        }
    }
}

/// What a state holds of the values that it was made from.
spec fn gathered(
    fl: spec_fn(FloatOp, u32, u32) -> u32,
    t: AggType,
    vs: Seq<Option<Value>>,
    st: AggState,
) -> bool {
    match t {
        AggType::COUNT => st matches AggState::Count(n) && n == vs.len(),
        AggType::SUM => st matches AggState::Sum(r) && is_sum(fl, present(vs), r),
        AggType::AVG => st matches AggState::Avg { sum, count } && is_sum(fl, present(vs), sum)
            && count == present(vs).len(),
        AggType::MAX => st matches AggState::Max(r) && is_aggregate(fl, t, vs, r),
        AggType::MIN => st matches AggState::Min(r) && is_aggregate(fl, t, vs, r),
        AggType::RANK => st is Rank,
    }
}

proof fn lemma_greatest_step(vs: Seq<Value>, i: int, v: Value)
    requires
        greatest_at(vs, i),
    ensures
        value_lt(v, vs[i]) ==> greatest_at(vs.push(v), i),
        !value_lt(v, vs[i]) ==> greatest_at(vs.push(v), vs.len() as int),
{
    let ws = vs.push(v);
    assert(forall|j: int| 0 <= j < vs.len() ==> ws[j] == vs[j]);
    if !value_lt(v, vs[i]) {
        assert forall|j: int| 0 <= j < vs.len() implies !value_lt(v, #[trigger] ws[j]) by {
            if j < i {
                assert(!value_lt(vs[i], vs[j]));
            } else if j > i {
                assert(value_lt(vs[j], vs[i]));
            }
        }
    }
}

proof fn lemma_smallest_step(vs: Seq<Value>, i: int, v: Value)
    requires
        smallest_at(vs, i),
    ensures
        !value_lt(v, vs[i]) ==> smallest_at(vs.push(v), i),
        value_lt(v, vs[i]) ==> smallest_at(vs.push(v), vs.len() as int),
{
    let ws = vs.push(v);
    assert(forall|j: int| 0 <= j < vs.len() ==> ws[j] == vs[j]);
    if value_lt(v, vs[i]) {
        assert forall|j: int| 0 <= j < vs.len() implies value_lt(v, #[trigger] ws[j]) by {
            if j < i {
                assert(value_lt(vs[i], vs[j]));
            } else if j > i {
                assert(!value_lt(vs[j], vs[i]));
            }
        }
    }
}

proof fn lemma_gathered(
    fl: spec_fn(FloatOp, u32, u32) -> u32,
    t: AggType,
    vs: Seq<Option<Value>>,
)
    requires
        folded(fl, t, vs) is Ok,
    ensures
        gathered(fl, t, vs, folded(fl, t, vs)->Ok_0),
    decreases vs.len(),
{
    if vs.len() > 0 {
        let ps = vs.drop_last();
        lemma_gathered(fl, t, ps);
        let st = folded(fl, t, ps)->Ok_0;
        let after = folded(fl, t, vs)->Ok_0;
        let had = present(ps);
        match vs.last() {
            None => {},
            Some(v) => {
                let some = present(vs);
                assert(some == had.push(v));
                match t {
                    AggType::SUM => {
                        lemma_sum_step(fl, had, st->Sum_0, v, after->Sum_0);
                    },
                    AggType::AVG => {
                        lemma_sum_step(fl, had, st->sum, v, after->sum);
                    },
                    AggType::MAX => {
                        if had.len() == 0 {
                            assert(greatest_at(some, 0));
                        } else {
                            let i = choose|i: int| #[trigger]
                                greatest_at(had, i) && st->Max_0 == Some(had[i]);
                            lemma_greatest_step(had, i, v);
                            if value_lt(v, had[i]) {
                                assert(greatest_at(some, i) && some[i] == had[i]);
                            } else {
                                assert(greatest_at(some, had.len() as int));
                            }
                        }
                    },
                    AggType::MIN => {
                        if had.len() == 0 {
                            assert(smallest_at(some, 0));
                        } else {
                            let i = choose|i: int| #[trigger]
                                smallest_at(had, i) && st->Min_0 == Some(had[i]);
                            lemma_smallest_step(had, i, v);
                            if value_lt(v, had[i]) {
                                assert(smallest_at(some, had.len() as int));
                            } else {
                                assert(smallest_at(some, i) && some[i] == had[i]);
                            }
                        }
                    },
                    _ => {},
                }
            },
        }
    }
}

/// An aggregate that does not fail comes to what its function is of the values: the number of
/// rows, the sum or the rounded average of the values that are not NULL, or the greatest or the
/// smallest of them.
pub proof fn law_aggregate_value(
    fl: spec_fn(FloatOp, u32, u32) -> u32,
    t: AggType,
    vs: Seq<Option<Value>>,
    r: Option<Value>,
)
    requires
        folded(fl, t, vs) matches Ok(st) && agg_value(fl, st) == Ok::<Option<Value>, Seq<char>>(r),
    ensures
        is_aggregate(fl, t, vs, r),
{
    lemma_gathered(fl, t, vs);
    let st = folded(fl, t, vs)->Ok_0;
    let some = present(vs);
    if t == AggType::AVG && some.len() > 0 {
        let (sum, count) = (st->sum, st->count);
        if some.len() == 1 {
            assert(sum == Some(some[0]));
            assert(some[0] is INT);
            assert(all_ints(some));
        } else if all_floats(some) {
            assert(some[0] is FLOAT);
            assert(sum is Some && sum->0 is FLOAT);
        }
        assert(all_ints(some));
        law_quotient(int_sum(some), some.len() as int);
    }
}

proof fn lemma_sums_fit_step(vs: Seq<Value>, v: Value)
    ensures
        sums_fit(vs.push(v)) <==> sums_fit(vs) && i32::MIN <= int_sum(vs.push(v)) <= i32::MAX,
{
    let ws = vs.push(v);
    assert(ws.subrange(0, ws.len() as int) =~= ws);
    assert forall|n: int| 0 <= n <= vs.len() implies ws.subrange(0, n) == #[trigger] vs.subrange(
        0,
        n,
    ) by {
        assert(ws.subrange(0, n) =~= vs.subrange(0, n));
    }
    if sums_fit(ws) {
        assert forall|n: int| 0 <= n <= vs.len() implies i32::MIN <= #[trigger] int_sum(
            vs.subrange(0, n),
        ) <= i32::MAX by {
            assert(ws.subrange(0, n) == vs.subrange(0, n));
            assert(i32::MIN <= int_sum(ws.subrange(0, n)) <= i32::MAX);
        }
        assert(i32::MIN <= int_sum(ws.subrange(0, ws.len() as int)) <= i32::MAX);
    }
    if sums_fit(vs) && i32::MIN <= int_sum(ws) <= i32::MAX {
        assert forall|n: int| 0 <= n <= ws.len() implies i32::MIN <= #[trigger] int_sum(
            ws.subrange(0, n),
        ) <= i32::MAX by {
            if n <= vs.len() {
                assert(ws.subrange(0, n) == vs.subrange(0, n));
            }
        }
    }
}

/// When an aggregate does not fail: COUNT where the number of rows fits into 32 bits, the greatest
/// and the smallest value always, a sum of floats always, and a sum or an average of integers
/// exactly where each sum on the way to it fits into 32 bits.
pub proof fn law_aggregate_succeeds(
    fl: spec_fn(FloatOp, u32, u32) -> u32,
    t: AggType,
    vs: Seq<Option<Value>>,
)
    requires
        vs.len() <= i32::MAX,
    ensures
        t == AggType::COUNT || t == AggType::MAX || t == AggType::MIN ==> folded(fl, t, vs) is Ok,
        t == AggType::SUM && all_floats(present(vs)) ==> folded(fl, t, vs) is Ok,
        (t == AggType::SUM || t == AggType::AVG) && all_ints(present(vs)) ==> (folded(fl, t, vs)
            is Ok <==> sums_fit(present(vs))),
        t != AggType::AVG || all_ints(present(vs)) ==> (folded(fl, t, vs) matches Ok(st)
            ==> agg_value(fl, st) is Ok),
    decreases vs.len(),
{
    lemma_present_len(vs);
    if folded(fl, t, vs) is Ok {
        lemma_gathered(fl, t, vs);
        let st = folded(fl, t, vs)->Ok_0;
        let some = present(vs);
        if t == AggType::AVG && all_ints(some) && some.len() > 0 {
            let (n, d) = (int_sum(some), some.len() as int);
            law_quotient(n, d);
            let q = quotient(n, d);
            assert(i32::MIN <= q <= i32::MAX) by (nonlinear_arith)
                requires
                    d >= 1,
                    i32::MIN <= n <= i32::MAX,
                    rounds_to(n, d, q),
            ;
        }
    }
    if vs.len() > 0 {
        let ps = vs.drop_last();
        law_aggregate_succeeds(fl, t, ps);
        let had = present(ps);
        let some = present(vs);
        match vs.last() {
            None => {
                if folded(fl, t, ps) is Ok {
                    lemma_gathered(fl, t, ps);
                }
            },
            Some(v) => {
                assert(some == had.push(v));
                assert(some.drop_last() =~= had);
                assert(some[some.len() - 1] == v);
                assert(forall|i: int| 0 <= i < had.len() ==> some[i] == had[i]);
                lemma_sums_fit_step(had, v);
                lemma_present_len(ps);
                if all_ints(some) {
                    assert forall|i: int| 0 <= i < had.len() implies (#[trigger] had[i]) is INT by {
                        assert(some[i] is INT);
                    }
                }
                if all_floats(some) {
                    assert forall|i: int| 0 <= i < had.len() implies (#[trigger] had[i])
                        is FLOAT by {
                        assert(some[i] is FLOAT);
                    }
                }
                if folded(fl, t, ps) is Ok {
                    lemma_gathered(fl, t, ps);
                }
            },
        }
    } else {
        assert(present(vs) =~= Seq::empty());
        assert(sums_fit(present(vs))) by {
            assert(present(vs).subrange(0, 0) =~= Seq::empty());
        }
    }
}

/// What one row does to the state of one aggregate.
pub(crate) proof fn lemma_state_stepped(
    fl: spec_fn(FloatOp, u32, u32) -> u32,
    aggs: Seq<(Expression, AggType)>,
    states: Seq<AggState>,
    data: Seq<u8>,
    s: SchemaView,
    skip_ranks: bool,
    n: int,
    a: int,
)
    requires
        states.len() == aggs.len(),
        0 <= n <= aggs.len(),
        0 <= a < aggs.len(),
        states_step(fl, aggs, states, data, s, skip_ranks, n) is Ok,
        !(skip_ranks && aggs[a].1 == AggType::RANK),
    ensures
        ({
            let after = states_step(fl, aggs, states, data, s, skip_ranks, n)->Ok_0;
            &&& after.len() == states.len()
            &&& a >= n ==> after[a] == states[a]
            &&& a < n ==> (eval(fl, aggs[a].0, data, s) matches Ok(v) && agg_step(fl, states[a], v)
                == Ok::<AggState, Seq<char>>(after[a]))
        }),
    decreases n,
{
    if n > 0 {
        lemma_state_stepped(fl, aggs, states, data, s, skip_ranks, n - 1, a);
    }
}

/// The aggregates over some rows are those of what their expressions give on the rows.
proof fn lemma_states_folded(
    fl: spec_fn(FloatOp, u32, u32) -> u32,
    aggs: Seq<(Expression, AggType)>,
    rows: Seq<RowView>,
    s: SchemaView,
    a: int,
)
    requires
        0 <= a < aggs.len(),
        states_over(fl, aggs, rows, s) is Ok,
    ensures
        states_over(fl, aggs, rows, s)->Ok_0.len() == aggs.len(),
        folded(fl, aggs[a].1, values_on(fl, aggs[a].0, rows, s)) == Ok::<AggState, Seq<char>>(
            states_over(fl, aggs, rows, s)->Ok_0[a],
        ),
        forall|i: int| 0 <= i < rows.len() ==> eval(fl, aggs[a].0, (#[trigger] rows[i]).0, s) is Ok,
    decreases rows.len(),
{
    let vs = values_on(fl, aggs[a].0, rows, s);
    if rows.len() > 0 {
        let rest = rows.drop_last();
        lemma_states_folded(fl, aggs, rest, s, a);
        let before = states_over(fl, aggs, rest, s)->Ok_0;
        lemma_state_stepped(
            fl,
            aggs,
            before,
            rows.last().0,
            s,
            false,
            aggs.len() as int,
            a,
        );
        assert(vs.drop_last() =~= values_on(fl, aggs[a].0, rest, s));
        assert(vs.last() == eval(fl, aggs[a].0, rows.last().0, s)->Ok_0);
        assert forall|i: int| 0 <= i < rows.len() implies eval(
            fl,
            aggs[a].0,
            (#[trigger] rows[i]).0,
            s,
        ) is Ok by {
            if i < rest.len() {
                assert(rest[i] == rows[i]);
            }
        }
    } else {
        assert(start_states(aggs)[a] == agg_start(aggs[a].1));
    }
}

/// The values that states come to.
pub(crate) proof fn lemma_state_value(
    fl: spec_fn(FloatOp, u32, u32) -> u32,
    states: Seq<AggState>,
    n: int,
    a: int,
)
    requires
        0 <= a < n,
        state_values(fl, states, n) is Ok,
    ensures
        state_values(fl, states, n)->Ok_0.len() == n,
        agg_value(fl, states[a]) == Ok::<Option<Value>, Seq<char>>(
            state_values(fl, states, n)->Ok_0[a],
        ),
    decreases n,
{
    if n - 1 > a {
        lemma_state_value(fl, states, n - 1, a);
    } else {
        lemma_state_values_len(fl, states, n - 1);
    }
}

pub(crate) proof fn lemma_state_values_len(
    fl: spec_fn(FloatOp, u32, u32) -> u32,
    states: Seq<AggState>,
    n: int,
)
    requires
        0 <= n,
        state_values(fl, states, n) is Ok,
    ensures
        state_values(fl, states, n)->Ok_0.len() == n,
    decreases n,
{
    if n > 0 {
        lemma_state_values_len(fl, states, n - 1);
    }
}

/// Parts of one row each, none of which failed.
pub(crate) proof fn lemma_flat_single(f: spec_fn(int) -> StreamView, n: int)
    requires
        0 <= n,
        flat(f, n).error is None,
        forall|i: int|
            0 <= i < n ==> (#[trigger] f(i)).error is None ==> f(i).rows.len() == 1,
    ensures
        flat(f, n).rows.len() == n,
        forall|i: int|
            0 <= i < n ==> (#[trigger] f(i)).error is None && f(i).rows == seq![flat(f, n).rows[i]],
    decreases n,
{
    if n > 0 {
        lemma_flat_single(f, n - 1);
        let before = flat(f, n - 1);
        assert(f(n - 1).error is None);
        assert(flat(f, n).rows =~= before.rows + f(n - 1).rows);
        assert(f(n - 1).rows =~= seq![flat(f, n).rows[n - 1]]);
        assert forall|i: int| 0 <= i < n implies (#[trigger] f(i)).error is None && f(i).rows
            == seq![flat(f, n).rows[i]] by {
            if i < n - 1 {
                assert(flat(f, n).rows[i] == before.rows[i]);
            }
        }
    }
}

/// Row `g` of an aggregation stands for the group with that key: first the key, then what each
/// aggregate function comes to on the rows of the group.
pub open spec fn is_group_row(
    fl: spec_fn(FloatOp, u32, u32) -> u32,
    group_bys: Seq<Expression>,
    aggs: Seq<(Expression, AggType)>,
    rows: Seq<RowView>,
    s: SchemaView,
    out: SchemaView,
    key: Seq<Option<Value>>,
    row: RowView,
) -> bool {
    let own = rows_of_group(fl, group_bys, rows, s, key, rows.len() as int);
    &&& own.len() > 0
    &&& key.len() == group_bys.len()
    &&& out.cols.len() == key.len() + aggs.len()
    &&& row.1 == unstored(row.0).1
    &&& forall|i: int|
        0 <= i < key.len() ==> #[trigger] out.field(row.0, i) == Ok::<Option<Value>, CatalogError>(
            key[i],
        )
    &&& forall|a: int|
        0 <= a < aggs.len() ==> (#[trigger] out.field(row.0, key.len() + a) matches Ok(r)
            && is_aggregate(fl, aggs[a].1, values_on(fl, aggs[a].0, own, s), r))
}

/// An aggregation that does not fail gives a row for each group: no two groups agree in their
/// keys, every row of the child has a group, and the columns behind the key hold the number of
/// rows, the sum, the average, the greatest or the smallest of the values on the rows of the group.
pub proof fn law_aggregation_rows(
    fl: spec_fn(FloatOp, u32, u32) -> u32,
    group_bys: Seq<Expression>,
    aggs: Seq<(Expression, AggType)>,
    child: StreamView,
    s: SchemaView,
    out: SchemaView,
) -> (keys: Seq<Seq<Option<Value>>>)
    requires
        out.wf(),
        aggregation_stream(fl, group_bys, aggs, child, s, out).error is None,
    ensures
        ({
            let given = aggregation_stream(fl, group_bys, aggs, child, s, out);
            &&& keys.len() == given.rows.len()
            &&& forall|g: int, h: int|
                0 <= g < h < keys.len() ==> !same_key(#[trigger] keys[g], #[trigger] keys[h])
            &&& forall|i: int|
                0 <= i < child.rows.len() ==> exists|g: int|
                    0 <= g < keys.len() && same_key(
                        #[trigger] keys[g],
                        group_key(fl, group_bys, (#[trigger] child.rows[i]).0, s),
                    )
            &&& forall|g: int|
                0 <= g < keys.len() ==> is_group_row(
                    fl,
                    group_bys,
                    aggs,
                    child.rows,
                    s,
                    out,
                    #[trigger] keys[g],
                    given.rows[g],
                )
        }),
{
    let n = child.rows.len() as int;
    law_groups_partition_rows(fl, group_bys, aggs, child.rows, s, n);
    let groups = grouped(fl, group_bys, aggs, child.rows, s, n)->Ok_0;
    let keys = Seq::new(groups.len(), |g: int| groups[g].key);
    let given = aggregation_stream(fl, group_bys, aggs, child, s, out);
    let f = groups_part(fl, groups, out);
    lemma_flat_single(f, groups.len() as int);
    lemma_keys_len(fl, group_bys, aggs, child.rows, s, n);
    assert(keys_apart(groups));
    assert forall|i: int| 0 <= i < child.rows.len() implies exists|g: int|
        0 <= g < keys.len() && same_key(
            #[trigger] keys[g],
            group_key(fl, group_bys, (#[trigger] child.rows[i]).0, s),
        ) by {
        assert(rows_have_groups(fl, group_bys, child.rows, s, n, groups));
        let k = group_key(fl, group_bys, child.rows[i].0, s);
        let g = choose|g: int| 0 <= g < groups.len() && same_key((#[trigger] groups[g]).key, k);
        assert(same_key(keys[g], k));
    }
    assert forall|g: int| 0 <= g < keys.len() implies is_group_row(
        fl,
        group_bys,
        aggs,
        child.rows,
        s,
        out,
        #[trigger] keys[g],
        given.rows[g],
    ) by {
        assert(groups_made_of(fl, group_bys, aggs, child.rows, s, n, groups));
        let key = groups[g].key;
        let states = groups[g].states;
        let own = rows_of_group(fl, group_bys, child.rows, s, key, n);
        let row = given.rows[g];
        assert(f(g).rows == seq![row]);
        assert(f(g).rows[0] == row);
        let vs = state_values(fl, states, states.len() as int)->Ok_0;
        law_tuple_roundtrip(out, key + vs);
        if aggs.len() > 0 {
            lemma_states_folded(fl, aggs, own, s, 0);
        } else {
            lemma_no_states(fl, aggs, own, s);
        }
        lemma_state_values_len(fl, states, states.len() as int);
        assert forall|i: int| 0 <= i < key.len() implies #[trigger] out.field(row.0, i) == Ok::<
            Option<Value>,
            CatalogError,
        >(key[i]) by {
            assert((key + vs)[i] == key[i]);
        }
        assert forall|a: int| 0 <= a < aggs.len() implies (#[trigger] out.field(
            row.0,
            key.len() + a,
        ) matches Ok(r) && is_aggregate(fl, aggs[a].1, values_on(fl, aggs[a].0, own, s), r)) by {
            lemma_states_folded(fl, aggs, own, s, a);
            lemma_state_value(fl, states, states.len() as int, a);
            assert((key + vs)[key.len() + a] == vs[a]);
            law_aggregate_value(fl, aggs[a].1, values_on(fl, aggs[a].0, own, s), vs[a]);
        }
    }
    keys
}

proof fn lemma_no_states(
    fl: spec_fn(FloatOp, u32, u32) -> u32,
    aggs: Seq<(Expression, AggType)>,
    rows: Seq<RowView>,
    s: SchemaView,
)
    requires
        aggs.len() == 0,
    ensures
        states_over(fl, aggs, rows, s) matches Ok(st) && st.len() == 0,
    decreases rows.len(),
{
    if rows.len() > 0 {
        lemma_no_states(fl, aggs, rows.drop_last(), s);
    }
}

proof fn lemma_keys_len(
    fl: spec_fn(FloatOp, u32, u32) -> u32,
    group_bys: Seq<Expression>,
    aggs: Seq<(Expression, AggType)>,
    rows: Seq<RowView>,
    s: SchemaView,
    n: int,
)
    requires
        grouped(fl, group_bys, aggs, rows, s, n) is Ok,
    ensures
        forall|g: int|
            0 <= g < grouped(fl, group_bys, aggs, rows, s, n)->Ok_0.len() ==> (
            #[trigger] grouped(fl, group_bys, aggs, rows, s, n)->Ok_0[g]).key.len()
                == group_bys.len(),
    decreases n,
{
    if n > 0 {
        lemma_keys_len(fl, group_bys, aggs, rows, s, n - 1);
        let before = grouped(fl, group_bys, aggs, rows, s, n - 1)->Ok_0;
        let after = grouped(fl, group_bys, aggs, rows, s, n)->Ok_0;
        let key = group_key(fl, group_bys, rows[n - 1].0, s);
        lemma_group_position(before, key, 0);
        assert(after == group_row(fl, aggs, before, key, rows[n - 1].0, s)->Ok_0);
        assert forall|g: int| 0 <= g < after.len() implies (#[trigger] after[g]).key.len()
            == group_bys.len() by {
            if g < before.len() {
                assert(before[g].key.len() == group_bys.len());
            }
        }
    }
}

} // verus!
