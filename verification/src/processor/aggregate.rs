//! Aggregate functions and grouping.
use vstd::prelude::*;

use crate::catalog::schema::{Schema, SchemaView};
use crate::catalog::value::{option_eq, option_same, value_lt, Value};
use crate::processor::expression::{
    arithmetic, computes, eval, failure, gives, results, Evaluated, ExecutorError, Expression,
    FloatOp,
};
use crate::processor::plan::AggType;
use crate::processor::stream::RowView;
use crate::table_heap::Tuple;

verus! {

/// What an aggregate function has gathered so far.
#[derive(Debug, Clone, Copy)]
pub enum AggState {
    Max(Option<Value>),
    Min(Option<Value>),
    Sum(Option<Value>),
    Avg { sum: Option<Value>, count: i32 },
    Count(i32),
    /// Not an aggregate, but computed beside them.
    Rank(i32),
}

pub open spec fn agg_start(t: AggType) -> AggState {
    match t {
        AggType::AVG => AggState::Avg { sum: None, count: 0 },
        AggType::MAX => AggState::Max(None),
        AggType::MIN => AggState::Min(None),
        AggType::SUM => AggState::Sum(None),
        AggType::COUNT => AggState::Count(0),
        AggType::RANK => AggState::Rank(1),
    }
}

/// A sum with one more value.
pub open spec fn added(
    fl: spec_fn(FloatOp, u32, u32) -> u32,
    sum: Option<Value>,
    v: Value,
) -> Evaluated {
    match sum {
        Some(s) => arithmetic(fl, FloatOp::Add, s, v),
        None => Ok(Some(v)),
    }
}

pub open spec fn counted(n: i32) -> Result<i32, Seq<char>> {
    if n < i32::MAX {
        Ok((n + 1) as i32)
    } else {
        Err("integer overflow"@)
    }
}

/// The state with one more value. COUNT counts every row, all others skip NULLs.
pub open spec fn agg_step(
    fl: spec_fn(FloatOp, u32, u32) -> u32,
    st: AggState,
    v: Option<Value>,
) -> Result<AggState, Seq<char>> {
    match (st, v) {
        (AggState::Count(n), _) => match counted(n) {
            Ok(m) => Ok(AggState::Count(m)),
            Err(e) => Err(e),
        },
        (_, None) => Ok(st),
        (AggState::Sum(sum), Some(x)) => match added(fl, sum, x) {
            Ok(s) => Ok(AggState::Sum(s)),
            Err(e) => Err(e),
        },
        (AggState::Avg { sum, count }, Some(x)) => match (added(fl, sum, x), counted(count)) {
            (Ok(s), Ok(n)) => Ok(AggState::Avg { sum: s, count: n }),
            (Err(e), _) => Err(e),
            (_, Err(e)) => Err(e),
        },
        (AggState::Max(best), Some(x)) => Ok(
            AggState::Max(
                match best {
                    Some(b) => Some(if value_lt(x, b) { b } else { x }),
                    None => Some(x),
                },
            ),
        ),
        (AggState::Min(best), Some(x)) => Ok(
            AggState::Min(
                match best {
                    Some(b) => Some(if value_lt(x, b) { x } else { b }),
                    None => Some(x),
                },
            ),
        ),
        (AggState::Rank(_), Some(_)) => Err("use update_rank() instead"@),
    }
}

/// What the aggregate comes to. The average of nothing is NULL.
pub open spec fn agg_value(fl: spec_fn(FloatOp, u32, u32) -> u32, st: AggState) -> Evaluated {
    match st {
        AggState::Sum(v) => Ok(v),
        AggState::Max(v) => Ok(v),
        AggState::Min(v) => Ok(v),
        AggState::Count(n) => Ok(Some(Value::INT(n))),
        AggState::Rank(r) => Ok(Some(Value::INT(r))),
        AggState::Avg { sum, count } => match sum {
            Some(s) => if count == 0 {
                Ok(None)
            } else {
                arithmetic(fl, FloatOp::Div, s, Value::INT(count))
            },
            None => Ok(None),
        },
    }
}

fn add_value<F: Fn(FloatOp, u32, u32) -> u32>(sum: &Option<Value>, v: &Value, fl: &F) -> (res: Result<
    Option<Value>,
    ExecutorError,
>)
    requires
        computes(*fl),
    ensures
        gives(res, added(results(*fl), *sum, *v)),
{
    match sum {
        Some(s) => s.compute(FloatOp::Add, v, fl),
        None => Ok(Some(*v)),
    }
}

fn count_one(n: i32) -> (res: Result<i32, ExecutorError>)
    ensures
        match res {
            Ok(m) => counted(n) == Ok::<i32, Seq<char>>(m),
            Err(e) => counted(n) == Err::<i32, Seq<char>>(e.0@),
        },
{
    if n < i32::MAX {
        Ok(n + 1)
    } else {
        Err(failure("integer overflow"))
    }
}

impl AggState {
    pub fn new(agg_type: &AggType) -> (res: Self)
        ensures
            res == agg_start(*agg_type),
    {
        match agg_type {
            AggType::AVG => AggState::Avg { sum: None, count: 0 },
            AggType::MAX => AggState::Max(None),
            AggType::MIN => AggState::Min(None),
            AggType::SUM => AggState::Sum(None),
            AggType::COUNT => AggState::Count(0),
            AggType::RANK => AggState::Rank(1),
        }
    }

    /// Where the order changed, the rank becomes the position of the row.
    pub fn update_rank(&mut self, order_changed: bool, pos: i32)
        requires
            *old(self) is Rank,
        ensures
            *final(self) == if order_changed {
                AggState::Rank(pos)
            } else {
                *old(self)
            },
    {
        if order_changed {
            *self = AggState::Rank(pos);
        }
    }

    pub fn update<F: Fn(FloatOp, u32, u32) -> u32>(&mut self, v: Option<Value>, fl: &F) -> (res:
        Result<(), ExecutorError>)
        requires
            computes(*fl),
        ensures
            match res {
                Ok(_) => agg_step(results(*fl), *old(self), v) == Ok::<AggState, Seq<char>>(
                    *final(self),
                ),
                Err(e) => {
                    &&& agg_step(results(*fl), *old(self), v) == Err::<AggState, Seq<char>>(e.0@)
                    &&& *final(self) == *old(self)
                },
            },
    {
        let st: AggState = *self;
        if let AggState::Count(n) = st {
            match count_one(n) {
                Ok(m) => *self = AggState::Count(m),
                Err(e) => { return Err(e); },
            }
            return Ok(());
        }
        let x: Value = match v {
            Some(x) => x,
            None => { return Ok(()); },
        };
        match st {
            AggState::Sum(sum) => match add_value(&sum, &x, fl) {
                Ok(s) => *self = AggState::Sum(s),
                Err(e) => { return Err(e); },
            },
            AggState::Avg { sum, count } => {
                let s = match add_value(&sum, &x, fl) {
                    Ok(s) => s,
                    Err(e) => { return Err(e); },
                };
                let n: i32 = match count_one(count) {
                    Ok(n) => n,
                    Err(e) => { return Err(e); },
                };
                *self = AggState::Avg { sum: s, count: n };
            },
            AggState::Max(best) => {
                *self = AggState::Max(
                    match best {
                        Some(b) => Some(
                            if x.is_before(&b) {
                                b
                            } else {
                                x
                            },
                        ),
                        None => Some(x),
                    },
                );
            },
            AggState::Min(best) => {
                *self = AggState::Min(
                    match best {
                        Some(b) => Some(
                            if x.is_before(&b) {
                                x
                            } else {
                                b
                            },
                        ),
                        None => Some(x),
                    },
                );
            },
            _ => { return Err(failure("use update_rank() instead")); },
        }
        Ok(())
    }

    /// The value of the aggregate, which may go on gathering.
    pub fn peek<F: Fn(FloatOp, u32, u32) -> u32>(&self, fl: &F) -> (res: Result<
        Option<Value>,
        ExecutorError,
    >)
        requires
            computes(*fl),
        ensures
            gives(res, agg_value(results(*fl), *self)),
    {
        match self {
            AggState::Sum(v) => Ok(*v),
            AggState::Max(v) => Ok(*v),
            AggState::Min(v) => Ok(*v),
            AggState::Count(n) => Ok(Some(Value::INT(*n))),
            AggState::Rank(r) => Ok(Some(Value::INT(*r))),
            AggState::Avg { sum, count } => match sum {
                Some(s) => if *count == 0 {
                    Ok(None)
                } else {
                    s.compute(FloatOp::Div, &Value::INT(*count), fl)
                },
                None => Ok(None),
            },
        }
    }

    /// The final value of the aggregate.
    pub fn consume<F: Fn(FloatOp, u32, u32) -> u32>(self, fl: &F) -> (res: Result<
        Option<Value>,
        ExecutorError,
    >)
        requires
            computes(*fl),
        ensures
            gives(res, agg_value(results(*fl), self)),
    {
        self.peek(fl)
    }
}

/// The states with which the aggregates of a group begin.
pub open spec fn start_states(aggs: Seq<(Expression, AggType)>) -> Seq<AggState> {
    Seq::new(aggs.len(), |i: int| agg_start(aggs[i].1))
}

pub fn new_states(aggs: &Vec<(Expression, AggType)>) -> (res: Vec<AggState>)
    ensures
        res@ == start_states(aggs@),
{
    let mut out: Vec<AggState> = Vec::new();
    let mut i: usize = 0;
    while i < aggs.len()
        invariant
            i <= aggs@.len(),
            out@ == start_states(aggs@).subrange(0, i as int),
        decreases aggs@.len() - i,
    {
        out.push(AggState::new(&aggs[i].1));
        i += 1;
        assert(out@ =~= start_states(aggs@).subrange(0, i as int));
    }
    assert(out@ =~= start_states(aggs@));
    out
}

/// The first `n` states after a row, or the first error. Ranks are passed over where
/// `skip_ranks` says so.
pub open spec fn states_step(
    fl: spec_fn(FloatOp, u32, u32) -> u32,
    aggs: Seq<(Expression, AggType)>,
    states: Seq<AggState>,
    data: Seq<u8>,
    s: SchemaView,
    skip_ranks: bool,
    n: int,
) -> Result<Seq<AggState>, Seq<char>>
    decreases n,
{
    if n <= 0 {
        Ok(states)
    } else {
        match states_step(fl, aggs, states, data, s, skip_ranks, n - 1) {
            Err(e) => Err(e),
            Ok(before) => if skip_ranks && aggs[n - 1].1 == AggType::RANK {
                Ok(before)
            } else {
                match eval(fl, aggs[n - 1].0, data, s) {
                    Err(e) => Err(e),
                    Ok(v) => match agg_step(fl, states[n - 1], v) {
                        Err(e) => Err(e),
                        Ok(st) => Ok(before.update(n - 1, st)),
                    },
                }
            },
        }
    }
}

proof fn lemma_states_step_fails(
    fl: spec_fn(FloatOp, u32, u32) -> u32,
    aggs: Seq<(Expression, AggType)>,
    states: Seq<AggState>,
    data: Seq<u8>,
    s: SchemaView,
    skip_ranks: bool,
    m: int,
    n: int,
)
    requires
        0 <= m <= n,
        states_step(fl, aggs, states, data, s, skip_ranks, m) is Err,
    ensures
        states_step(fl, aggs, states, data, s, skip_ranks, n) == states_step(
            fl,
            aggs,
            states,
            data,
            s,
            skip_ranks,
            m,
        ),
    decreases n,
{
    if m < n {
        lemma_states_step_fails(fl, aggs, states, data, s, skip_ranks, m, n - 1);
    }
}

/// Updates the states of the aggregates with one row. Where one of them fails, some of the
/// others may have been updated.
pub fn update_states<F: Fn(FloatOp, u32, u32) -> u32>(
    states: &mut Vec<AggState>,
    aggs: &Vec<(Expression, AggType)>,
    tuple: &Tuple,
    schema: &Schema,
    skip_ranks: bool,
    fl: &F,
) -> (res: Result<(), ExecutorError>)
    requires
        computes(*fl),
        old(states)@.len() == aggs@.len(),
    ensures
        final(states)@.len() == old(states)@.len(),
        ({
            let next = states_step(
                results(*fl),
                aggs@,
                old(states)@,
                tuple.data@,
                schema@,
                skip_ranks,
                aggs@.len() as int,
            );
            match res {
                Ok(_) => next == Ok::<Seq<AggState>, Seq<char>>(final(states)@),
                Err(e) => next == Err::<Seq<AggState>, Seq<char>>(e.0@),
            }
        }),
{
    let mut i: usize = 0;
    while i < aggs.len()
        invariant
            i <= aggs@.len(),
            computes(*fl),
            old(states)@.len() == aggs@.len(),
            states@.len() == aggs@.len(),
            states_step(
                results(*fl),
                aggs@,
                old(states)@,
                tuple.data@,
                schema@,
                skip_ranks,
                i as int,
            ) == Ok::<Seq<AggState>, Seq<char>>(states@),
            forall|k: int| i <= k < aggs@.len() ==> states@[k] == old(states)@[k],
        decreases aggs@.len() - i,
    {
        if !(skip_ranks && aggs[i].1 == AggType::RANK) {
            let v = match aggs[i].0.evaluate(tuple, schema, fl) {
                Ok(v) => v,
                Err(e) => {
                    proof {
                        lemma_states_step_fails(
                            results(*fl),
                            aggs@,
                            old(states)@,
                            tuple.data@,
                            schema@,
                            skip_ranks,
                            i as int + 1,
                            aggs@.len() as int,
                        );
                    }
                    return Err(e);
                },
            };
            let mut st: AggState = states[i];
            match st.update(v, fl) {
                Ok(_) => {},
                Err(e) => {
                    proof {
                        lemma_states_step_fails(
                            results(*fl),
                            aggs@,
                            old(states)@,
                            tuple.data@,
                            schema@,
                            skip_ranks,
                            i as int + 1,
                            aggs@.len() as int,
                        );
                    }
                    return Err(e);
                },
            }
            states.set(i, st);
        }
        i += 1;
    }
    Ok(())
}

/// The first `n` values that the states come to, or the first error.
pub open spec fn state_values(
    fl: spec_fn(FloatOp, u32, u32) -> u32,
    states: Seq<AggState>,
    n: int,
) -> Result<Seq<Option<Value>>, Seq<char>>
    decreases n,
{
    if n <= 0 {
        Ok(Seq::empty())
    } else {
        match state_values(fl, states, n - 1) {
            Err(e) => Err(e),
            Ok(vs) => match agg_value(fl, states[n - 1]) {
                Err(e) => Err(e),
                Ok(v) => Ok(vs.push(v)),
            },
        }
    }
}

proof fn lemma_state_values_fail(
    fl: spec_fn(FloatOp, u32, u32) -> u32,
    states: Seq<AggState>,
    m: int,
    n: int,
)
    requires
        0 <= m <= n,
        state_values(fl, states, m) is Err,
    ensures
        state_values(fl, states, n) == state_values(fl, states, m),
    decreases n,
{
    if m < n {
        lemma_state_values_fail(fl, states, m, n - 1);
    }
}

/// Appends the values of the aggregates to `out`.
pub fn read_states<F: Fn(FloatOp, u32, u32) -> u32>(
    states: &Vec<AggState>,
    out: &mut Vec<Option<Value>>,
    fl: &F,
) -> (res: Result<(), ExecutorError>)
    requires
        computes(*fl),
    ensures
        ({
            let vs = state_values(results(*fl), states@, states@.len() as int);
            match res {
                Ok(_) => vs matches Ok(x) && final(out)@ == old(out)@ + x,
                Err(e) => vs == Err::<Seq<Option<Value>>, Seq<char>>(e.0@),
            }
        }),
{
    let mut i: usize = 0;
    let ghost mut vs: Seq<Option<Value>> = Seq::empty();
    assert(out@ =~= old(out)@ + vs);
    while i < states.len()
        invariant
            i <= states@.len(),
            computes(*fl),
            state_values(results(*fl), states@, i as int) == Ok::<Seq<Option<Value>>, Seq<char>>(
                vs,
            ),
            out@ == old(out)@ + vs,
        decreases states@.len() - i,
    {
        match states[i].peek(fl) {
            Ok(v) => {
                out.push(v);
                proof {
                    assert(out@ =~= old(out)@ + vs.push(v));
                    vs = vs.push(v);
                }
            },
            Err(e) => {
                proof {
                    lemma_state_values_fail(
                        results(*fl),
                        states@,
                        i as int + 1,
                        states@.len() as int,
                    );
                }
                return Err(e);
            },
        }
        i += 1;
    }
    Ok(())
}

/// Two lists of values agree, NULLs with NULLs.
pub open spec fn same_key(a: Seq<Option<Value>>, b: Seq<Option<Value>>) -> bool {
    &&& a.len() == b.len()
    &&& forall|i: int| 0 <= i < a.len() ==> option_eq(#[trigger] a[i], b[i])
}

pub fn keys_agree(a: &Vec<Option<Value>>, b: &Vec<Option<Value>>) -> (res: bool)
    ensures
        res == same_key(a@, b@),
{
    if a.len() != b.len() {
        return false;
    }
    let mut i: usize = 0;
    while i < a.len()
        invariant
            i <= a@.len(),
            a@.len() == b@.len(),
            forall|k: int| 0 <= k < i ==> option_eq(#[trigger] a@[k], b@[k]),
        decreases a@.len() - i,
    {
        if !option_same(&a[i], &b[i]) {
            assert(!option_eq(a@[i as int], b@[i as int]));
            return false;
        }
        i += 1;
    }
    true
}

/// A group of rows: the values they agree in and the aggregates over them.
pub struct Group {
    pub key: Vec<Option<Value>>,
    pub states: Vec<AggState>,
}

#[verifier::ext_equal]
pub struct GroupView {
    pub key: Seq<Option<Value>>,
    pub states: Seq<AggState>,
}

impl View for Group {
    type V = GroupView;

    open spec fn view(&self) -> GroupView {
        GroupView { key: self.key@, states: self.states@ }
    }
}

pub open spec fn group_views(groups: Seq<Group>) -> Seq<GroupView> {
    Seq::new(groups.len(), |i: int| groups[i]@)
}

/// The position of the group with that key; the end where there is none.
pub open spec fn group_position(groups: Seq<GroupView>, key: Seq<Option<Value>>, i: int) -> int
    decreases groups.len() - i,
{
    if i < 0 || i >= groups.len() {
        groups.len() as int
    } else if same_key(groups[i].key, key) {
        i
    } else {
        group_position(groups, key, i + 1)
    }
}

/// The groups after a row: the row joins the group with its key, or starts one.
pub open spec fn group_row(
    fl: spec_fn(FloatOp, u32, u32) -> u32,
    aggs: Seq<(Expression, AggType)>,
    groups: Seq<GroupView>,
    key: Seq<Option<Value>>,
    data: Seq<u8>,
    s: SchemaView,
) -> Result<Seq<GroupView>, Seq<char>> {
    let i = group_position(groups, key, 0);
    let present = if i < groups.len() {
        groups
    } else {
        groups.push(GroupView { key, states: start_states(aggs) })
    };
    match states_step(fl, aggs, present[i].states, data, s, false, aggs.len() as int) {
        Err(e) => Err(e),
        Ok(states) => Ok(present.update(i, GroupView { key: present[i].key, states })),
    }
}

/// The values by which a row is grouped. An expression that fails counts as NULL.
pub open spec fn group_key(
    fl: spec_fn(FloatOp, u32, u32) -> u32,
    exprs: Seq<Expression>,
    data: Seq<u8>,
    s: SchemaView,
) -> Seq<Option<Value>> {
    crate::processor::sorting::sort_key(fl, exprs, data, s)
}

/// The groups of the first `n` rows, in the order in which they began.
pub open spec fn grouped(
    fl: spec_fn(FloatOp, u32, u32) -> u32,
    group_bys: Seq<Expression>,
    aggs: Seq<(Expression, AggType)>,
    rows: Seq<RowView>,
    s: SchemaView,
    n: int,
) -> Result<Seq<GroupView>, Seq<char>>
    decreases n,
{
    if n <= 0 {
        Ok(Seq::empty())
    } else {
        match grouped(fl, group_bys, aggs, rows, s, n - 1) {
            Err(e) => Err(e),
            Ok(groups) => group_row(
                fl,
                aggs,
                groups,
                group_key(fl, group_bys, rows[n - 1].0, s),
                rows[n - 1].0,
                s,
            ),
        }
    }
}

pub proof fn lemma_grouped_fails(
    fl: spec_fn(FloatOp, u32, u32) -> u32,
    group_bys: Seq<Expression>,
    aggs: Seq<(Expression, AggType)>,
    rows: Seq<RowView>,
    s: SchemaView,
    m: int,
    n: int,
)
    requires
        0 <= m <= n,
        grouped(fl, group_bys, aggs, rows, s, m) is Err,
    ensures
        grouped(fl, group_bys, aggs, rows, s, n) == grouped(fl, group_bys, aggs, rows, s, m),
    decreases n,
{
    if m < n {
        lemma_grouped_fails(fl, group_bys, aggs, rows, s, m, n - 1);
    }
}

/// Evaluates the expressions by which a row is grouped.
pub fn evaluate_key<F: Fn(FloatOp, u32, u32) -> u32>(
    exprs: &Vec<Expression>,
    tuple: &Tuple,
    schema: &Schema,
    fl: &F,
) -> (res: Vec<Option<Value>>)
    requires
        computes(*fl),
    ensures
        res@ == group_key(results(*fl), exprs@, tuple.data@, schema@),
{
    let mut out: Vec<Option<Value>> = Vec::new();
    let ghost key = group_key(results(*fl), exprs@, tuple.data@, schema@);
    let mut i: usize = 0;
    while i < exprs.len()
        invariant
            i <= exprs@.len(),
            computes(*fl),
            key == group_key(results(*fl), exprs@, tuple.data@, schema@),
            out@ == key.subrange(0, i as int),
        decreases exprs@.len() - i,
    {
        let v = match exprs[i].evaluate(tuple, schema, fl) {
            Ok(v) => v,
            Err(_) => None,
        };
        out.push(v);
        i += 1;
        assert(out@ =~= key.subrange(0, i as int));
    }
    assert(out@ =~= key);
    out
}

fn find_group(groups: &Vec<Group>, key: &Vec<Option<Value>>) -> (res: usize)
    ensures
        res == group_position(group_views(groups@), key@, 0),
        res <= groups@.len(),
{
    let mut i: usize = 0;
    while i < groups.len()
        invariant
            i <= groups@.len(),
            group_position(group_views(groups@), key@, 0) == group_position(
                group_views(groups@),
                key@,
                i as int,
            ),
        decreases groups@.len() - i,
    {
        assert(group_views(groups@)[i as int] == groups@[i as int]@);
        if keys_agree(&groups[i].key, key) {
            return i;
        }
        i += 1;
    }
    i
}

/// Puts a row into its group. Where that fails, the groups are of no further use.
pub fn add_to_group<F: Fn(FloatOp, u32, u32) -> u32>(
    groups: &mut Vec<Group>,
    key: Vec<Option<Value>>,
    aggs: &Vec<(Expression, AggType)>,
    tuple: &Tuple,
    schema: &Schema,
    fl: &F,
) -> (res: Result<(), ExecutorError>)
    requires
        computes(*fl),
        forall|i: int| 0 <= i < old(groups)@.len() ==> (#[trigger] old(groups)@[i]).states@.len() == aggs@.len(),
    ensures
        ({
            let next = group_row(
                results(*fl),
                aggs@,
                group_views(old(groups)@),
                key@,
                tuple.data@,
                schema@,
            );
            match res {
                Ok(_) => {
                    &&& next == Ok::<Seq<GroupView>, Seq<char>>(group_views(final(groups)@))
                    &&& forall|i: int|
                        0 <= i < final(groups)@.len() ==> (#[trigger] final(groups)@[i]).states@.len() == aggs@.len()
                },
                Err(e) => next == Err::<Seq<GroupView>, Seq<char>>(e.0@),
            }
        }),
{
    let i: usize = find_group(groups, &key);
    let ghost given = key@;
    let ghost before = group_views(groups@);
    if i == groups.len() {
        groups.push(Group { key, states: new_states(aggs) });
        proof {
            assert(group_views(groups@) =~= before.push(
                GroupView { key: given, states: start_states(aggs@) },
            ));
        }
    }
    let ghost present = group_views(groups@);
    assert(present[i as int] == groups@[i as int]@);
    let mut g = groups.remove(i);
    let outcome = update_states(&mut g.states, aggs, tuple, schema, false, fl);
    groups.insert(i, g);
    match outcome {
        Ok(_) => {
            assert(group_views(groups@) =~= present.update(i as int, g@));
            Ok(())
        },
        Err(e) => Err(e),
    }
}

} // verus!
