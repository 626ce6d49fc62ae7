//! What holds of expressions, joins, filters and groups on all rows.
use vstd::prelude::*;

use crate::catalog::CatalogError;
use crate::catalog::schema::{law_tuple_roundtrip, SchemaView};
use crate::catalog::value::{option_eq, Value};
use crate::processor::aggregate::{
    agg_start, group_key, group_position, group_row, grouped, same_key, start_states, states_step,
    AggState, GroupView,
};
use crate::processor::executor::{filter_part, filter_stream};
use crate::processor::expression::{binary, boolean, eval, eval_join, Expression, FloatOp, Op};
use crate::processor::join::{joined_tuple, nulls, right_fields};
use crate::processor::plan::AggType;
use crate::processor::stream::{all_fields, fields, flat, RowView, StreamView};

verus! {

/// A truth value or NULL.
pub open spec fn is_truth(v: Option<Value>) -> bool {
    v matches Some(x) ==> x is BOOLEAN
}

/// AND and OR are those of three-valued logic. They can be told from these rows alone: TRUE AND
/// x is x, FALSE AND anything is FALSE, FALSE OR x is x, TRUE OR anything is TRUE, and NULL with
/// NULL is NULL. The order of the operands does not matter.
pub proof fn law_connectives(
    fl: spec_fn(FloatOp, u32, u32) -> u32,
    x: Option<Value>,
    any: Option<Value>,
)
    requires
        is_truth(x),
    ensures
        binary(fl, Op::And, boolean(true), x) == Ok::<Option<Value>, Seq<char>>(x),
        binary(fl, Op::And, boolean(false), any) == Ok::<Option<Value>, Seq<char>>(boolean(false)),
        binary(fl, Op::And, None, None) == Ok::<Option<Value>, Seq<char>>(None),
        binary(fl, Op::Or, boolean(false), x) == Ok::<Option<Value>, Seq<char>>(x),
        binary(fl, Op::Or, boolean(true), any) == Ok::<Option<Value>, Seq<char>>(boolean(true)),
        binary(fl, Op::Or, None, None) == Ok::<Option<Value>, Seq<char>>(None),
        binary(fl, Op::And, x, any) == binary(fl, Op::And, any, x),
        binary(fl, Op::Or, x, any) == binary(fl, Op::Or, any, x),
{
}

/// AND and OR fail on a value that is not a truth value where the other operand does not decide,
/// unless that one is NULL: then they give NULL.
pub proof fn law_connective_operands(fl: spec_fn(FloatOp, u32, u32) -> u32, v: Value)
    requires
        !(v is BOOLEAN),
    ensures
        binary(fl, Op::And, boolean(true), Some(v)) is Err,
        binary(fl, Op::And, Some(v), boolean(true)) is Err,
        binary(fl, Op::Or, boolean(false), Some(v)) is Err,
        binary(fl, Op::Or, Some(v), boolean(false)) is Err,
        binary(fl, Op::And, None, Some(v)) == Ok::<Option<Value>, Seq<char>>(None),
        binary(fl, Op::And, Some(v), None) == Ok::<Option<Value>, Seq<char>>(None),
        binary(fl, Op::Or, None, Some(v)) == Ok::<Option<Value>, Seq<char>>(None),
        binary(fl, Op::Or, Some(v), None) == Ok::<Option<Value>, Seq<char>>(None),
{
}

/// Arithmetic and comparisons give NULL where an operand is NULL.
pub proof fn law_null_propagates(
    fl: spec_fn(FloatOp, u32, u32) -> u32,
    op: Op,
    l: Option<Value>,
    r: Option<Value>,
)
    requires
        op != Op::And && op != Op::Or && op != Op::Like && op != Op::In,
        l is None || r is None,
    ensures
        binary(fl, op, l, r) == Ok::<Option<Value>, Seq<char>>(None),
{
}

/// A comparison and its negation never agree on values that are not NULL.
pub proof fn law_comparisons(fl: spec_fn(FloatOp, u32, u32) -> u32, a: Value, b: Value)
    ensures
        ({
            let eq = binary(fl, Op::Eq, Some(a), Some(b));
            let neq = binary(fl, Op::NEq, Some(a), Some(b));
            let lt = binary(fl, Op::Lt, Some(a), Some(b));
            let gt = binary(fl, Op::Gt, Some(a), Some(b));
            let lte = binary(fl, Op::Lte, Some(a), Some(b));
            let gte = binary(fl, Op::Gte, Some(a), Some(b));
            let yes = Ok::<Option<Value>, Seq<char>>(boolean(true));
            let no = Ok::<Option<Value>, Seq<char>>(boolean(false));
            // exactly one of <, = and > holds
            &&& (lt == yes && eq == no && gt == no) || (lt == no && eq == yes && gt == no) || (lt
                == no && eq == no && gt == yes)
            &&& (neq == yes <==> eq == no) && (neq == no <==> eq == yes)
            &&& (lte == yes <==> gt == no) && (lte == no <==> gt == yes)
            &&& (gte == yes <==> lt == no) && (gte == no <==> lt == yes)
        }),
{
}

/// All columns of the expression are among the `nl` columns of the left and the `nr` columns of
/// the right table.
pub open spec fn refers_within(e: Expression, nl: nat, nr: nat) -> bool
    decreases e,
{
    match e {
        Expression::Constant(_) => true,
        Expression::Column { tuple_idx, col_idx, dtype } => (tuple_idx == 0 && col_idx < nl) || (
        tuple_idx == 1 && col_idx < nr),
        Expression::Binary { left, right, op } => refers_within(*left, nl, nr) && refers_within(
            *right,
            nl,
            nr,
        ),
    }
}

pub(crate) proof fn lemma_field_values(s: SchemaView, data: Seq<u8>, n: int)
    requires
        0 <= n,
        fields(s, data, n) is Ok,
    ensures
        fields(s, data, n)->Ok_0.len() == n,
        forall|i: int|
            0 <= i < n ==> s.field(data, i) == Ok::<Option<Value>, CatalogError>(
                #[trigger] fields(s, data, n)->Ok_0[i],
            ),
    decreases n,
{
    if n > 0 {
        lemma_field_values(s, data, n - 1);
    }
}

/// What a joined row holds: the values of the left row, then those of the right row or NULLs.
pub proof fn law_joined_fields(
    out: SchemaView,
    l: SchemaView,
    ldata: Seq<u8>,
    r: SchemaView,
    rdata: Option<Seq<u8>>,
    i: int,
)
    requires
        out.wf(),
        joined_tuple(out, l, ldata, r, rdata) is Ok,
        0 <= i < l.cols.len() + r.cols.len(),
    ensures
        ({
            let data = joined_tuple(out, l, ldata, r, rdata)->Ok_0;
            out.field(data, i) == if i < l.cols.len() {
                l.field(ldata, i)
            } else {
                match rdata {
                    Some(d) => r.field(d, i - l.cols.len()),
                    None => Ok(None),
                }
            }
        }),
{
    let a = all_fields(l, ldata)->Ok_0;
    let b = right_fields(r, rdata)->Ok_0;
    law_tuple_roundtrip(out, a + b);
    lemma_field_values(l, ldata, l.cols.len() as int);
    match rdata {
        Some(d) => {
            lemma_field_values(r, d, r.cols.len() as int);
        },
        None => {
            assert(b == nulls(r.cols.len()));
        },
    }
    let data = joined_tuple(out, l, ldata, r, rdata)->Ok_0;
    assert(out.field(data, i) == Ok::<Option<Value>, CatalogError>((a + b)[i]));
}

/// An expression has on a joined row the value that it has on the two rows.
pub proof fn law_join_values(
    fl: spec_fn(FloatOp, u32, u32) -> u32,
    e: Expression,
    out: SchemaView,
    l: SchemaView,
    ldata: Seq<u8>,
    r: SchemaView,
    rdata: Seq<u8>,
)
    requires
        out.wf(),
        out.join_offset == Some(l.cols.len() as usize),
        l.cols.len() <= usize::MAX,
        joined_tuple(out, l, ldata, r, Some(rdata)) is Ok,
        refers_within(e, l.cols.len(), r.cols.len()),
    ensures
        eval(fl, e, joined_tuple(out, l, ldata, r, Some(rdata))->Ok_0, out) == eval_join(
            fl,
            e,
            ldata,
            l,
            rdata,
            r,
        ),
    decreases e,
{
    match e {
        Expression::Constant(_) => {},
        Expression::Column { tuple_idx, col_idx, dtype } => {
            let i = if tuple_idx == 1 {
                l.cols.len() + col_idx
            } else {
                col_idx as int
            };
            law_joined_fields(out, l, ldata, r, Some(rdata), i);
        },
        Expression::Binary { left, right, op } => {
            law_join_values(fl, *left, out, l, ldata, r, rdata);
            law_join_values(fl, *right, out, l, ldata, r, rdata);
        },
    }
}

/// The predicate is true on the row.
pub open spec fn holds_on(
    fl: spec_fn(FloatOp, u32, u32) -> u32,
    predicate: Expression,
    s: SchemaView,
) -> spec_fn(RowView) -> bool {
    |row: RowView| eval(fl, predicate, row.0, s) == Ok::<Option<Value>, Seq<char>>(boolean(true))
}

proof fn lemma_filter_rows(
    fl: spec_fn(FloatOp, u32, u32) -> u32,
    predicate: Expression,
    rows: Seq<RowView>,
    s: SchemaView,
    n: int,
)
    requires
        0 <= n <= rows.len(),
        flat(filter_part(fl, predicate, rows, s), n).error is None,
    ensures
        flat(filter_part(fl, predicate, rows, s), n).rows == rows.subrange(0, n).filter(
            holds_on(fl, predicate, s),
        ),
    decreases n,
{
    let p = holds_on(fl, predicate, s);
    let f = filter_part(fl, predicate, rows, s);
    reveal(Seq::filter);
    if n > 0 {
        lemma_filter_rows(fl, predicate, rows, s, n - 1);
        assert(rows.subrange(0, n).drop_last() =~= rows.subrange(0, n - 1));
        assert(rows.subrange(0, n).last() == rows[n - 1]);
        assert(flat(f, n).rows =~= rows.subrange(0, n).filter(p));
    } else {
        assert(rows.subrange(0, n) =~= Seq::<RowView>::empty());
        assert(flat(f, n).rows =~= rows.subrange(0, n).filter(p));
    }
}

/// A filter that does not fail keeps, in order, the rows on which its predicate is true, and no
/// others: neither those on which it is false nor those on which it is NULL.
pub proof fn law_filter_rows(
    fl: spec_fn(FloatOp, u32, u32) -> u32,
    predicate: Expression,
    child: StreamView,
    s: SchemaView,
)
    requires
        filter_stream(fl, predicate, child, s).error is None,
    ensures
        filter_stream(fl, predicate, child, s).rows == child.rows.filter(
            holds_on(fl, predicate, s),
        ),
{
    lemma_filter_rows(fl, predicate, child.rows, s, child.rows.len() as int);
    assert(child.rows.subrange(0, child.rows.len() as int) =~= child.rows);
}

/// The rows of a group: those whose key agrees with its key, in order.
pub open spec fn rows_of_group(
    fl: spec_fn(FloatOp, u32, u32) -> u32,
    group_bys: Seq<Expression>,
    rows: Seq<RowView>,
    s: SchemaView,
    key: Seq<Option<Value>>,
    n: int,
) -> Seq<RowView>
    decreases n,
{
    if n <= 0 {
        Seq::empty()
    } else {
        let before = rows_of_group(fl, group_bys, rows, s, key, n - 1);
        if same_key(key, group_key(fl, group_bys, rows[n - 1].0, s)) {
            before.push(rows[n - 1])
        } else {
            before
        }
    }
}

/// The aggregates over some rows, one after the other.
pub open spec fn states_over(
    fl: spec_fn(FloatOp, u32, u32) -> u32,
    aggs: Seq<(Expression, AggType)>,
    rows: Seq<RowView>,
    s: SchemaView,
) -> Result<Seq<AggState>, Seq<char>>
    decreases rows.len(),
{
    if rows.len() == 0 {
        Ok(start_states(aggs))
    } else {
        match states_over(fl, aggs, rows.drop_last(), s) {
            Err(e) => Err(e),
            Ok(before) => states_step(
                fl,
                aggs,
                before,
                rows.last().0,
                s,
                false,
                aggs.len() as int,
            ),
        }
    }
}

pub(crate) proof fn lemma_same_key(a: Seq<Option<Value>>, b: Seq<Option<Value>>, c: Seq<Option<Value>>)
    ensures
        same_key(a, a),
        same_key(a, b) ==> same_key(b, a),
        same_key(a, b) && same_key(b, c) ==> same_key(a, c),
{
    if same_key(a, b) {
        assert forall|i: int| 0 <= i < b.len() implies option_eq(#[trigger] b[i], a[i]) by {
            assert(option_eq(a[i], b[i]));
        }
        if same_key(b, c) {
            assert forall|i: int| 0 <= i < a.len() implies option_eq(#[trigger] a[i], c[i]) by {
                assert(option_eq(a[i], b[i]));
                assert(option_eq(b[i], c[i]));
            }
        }
    }
}

pub(crate) proof fn lemma_group_position(groups: Seq<GroupView>, key: Seq<Option<Value>>, i: int)
    requires
        0 <= i <= groups.len(),
    ensures
        ({
            let p = group_position(groups, key, i);
            &&& i <= p <= groups.len()
            &&& p < groups.len() ==> same_key(groups[p].key, key)
            &&& forall|k: int| i <= k < p ==> !same_key((#[trigger] groups[k]).key, key)
        }),
    decreases groups.len() - i,
{
    if i < groups.len() {
        lemma_group_position(groups, key, i + 1);
    }
}

/// No two groups agree in their keys.
pub open spec fn keys_apart(groups: Seq<GroupView>) -> bool {
    forall|i: int, k: int|
        0 <= i < groups.len() && 0 <= k < groups.len() && i != k ==> !same_key(
            (#[trigger] groups[i]).key,
            (#[trigger] groups[k]).key,
        )
}

/// Each group is made of all the rows with its key, and there is at least one.
pub open spec fn groups_made_of(
    fl: spec_fn(FloatOp, u32, u32) -> u32,
    group_bys: Seq<Expression>,
    aggs: Seq<(Expression, AggType)>,
    rows: Seq<RowView>,
    s: SchemaView,
    n: int,
    groups: Seq<GroupView>,
) -> bool {
    forall|g: int|
        0 <= g < groups.len() ==> {
            let own = rows_of_group(fl, group_bys, rows, s, (#[trigger] groups[g]).key, n);
            &&& own.len() > 0
            &&& states_over(fl, aggs, own, s) == Ok::<Seq<AggState>, Seq<char>>(groups[g].states)
        }
}

/// There is a group with that key.
pub open spec fn has_group(groups: Seq<GroupView>, key: Seq<Option<Value>>) -> bool {
    exists|g: int| 0 <= g < groups.len() && same_key((#[trigger] groups[g]).key, key)
}

/// Each row has a group.
pub open spec fn rows_have_groups(
    fl: spec_fn(FloatOp, u32, u32) -> u32,
    group_bys: Seq<Expression>,
    rows: Seq<RowView>,
    s: SchemaView,
    n: int,
    groups: Seq<GroupView>,
) -> bool {
    forall|i: int|
        0 <= i < n ==> has_group(groups, group_key(fl, group_bys, (#[trigger] rows[i]).0, s))
}

proof fn lemma_no_rows(
    fl: spec_fn(FloatOp, u32, u32) -> u32,
    group_bys: Seq<Expression>,
    rows: Seq<RowView>,
    s: SchemaView,
    key: Seq<Option<Value>>,
    n: int,
)
    requires
        n <= rows.len(),
        forall|i: int|
            0 <= i < n ==> !same_key(key, group_key(fl, group_bys, (#[trigger] rows[i]).0, s)),
    ensures
        rows_of_group(fl, group_bys, rows, s, key, n).len() == 0,
    decreases n,
{
    if n > 0 {
        lemma_no_rows(fl, group_bys, rows, s, key, n - 1);
    }
}

/// The groups of some rows partition them: every row has a group with its key, no two groups
/// agree in their keys, and the aggregates of a group are those over all the rows with its key.
pub proof fn law_groups_partition_rows(
    fl: spec_fn(FloatOp, u32, u32) -> u32,
    group_bys: Seq<Expression>,
    aggs: Seq<(Expression, AggType)>,
    rows: Seq<RowView>,
    s: SchemaView,
    n: int,
)
    requires
        0 <= n <= rows.len(),
        grouped(fl, group_bys, aggs, rows, s, n) is Ok,
    ensures
        ({
            let groups = grouped(fl, group_bys, aggs, rows, s, n)->Ok_0;
            &&& keys_apart(groups)
            &&& groups_made_of(fl, group_bys, aggs, rows, s, n, groups)
            &&& rows_have_groups(fl, group_bys, rows, s, n, groups)
        }),
    decreases n,
{
    if n > 0 {
        law_groups_partition_rows(fl, group_bys, aggs, rows, s, n - 1);
        let before = grouped(fl, group_bys, aggs, rows, s, n - 1)->Ok_0;
        let after = grouped(fl, group_bys, aggs, rows, s, n)->Ok_0;
        let key = group_key(fl, group_bys, rows[n - 1].0, s);
        let p = group_position(before, key, 0);
        lemma_group_position(before, key, 0);
        lemma_same_key(key, key, key);
        assert(after == group_row(fl, aggs, before, key, rows[n - 1].0, s)->Ok_0);
        let present = if p < before.len() {
            before
        } else {
            before.push(GroupView { key, states: start_states(aggs) })
        };
        assert(after.len() == present.len());
        assert(forall|g: int| 0 <= g < after.len() ==> (#[trigger] after[g]).key == present[g].key);
        assert(same_key(after[p].key, key));
        lemma_grouped_apart(before, after, key, p);
        lemma_grouped_made_of(fl, group_bys, aggs, rows, s, n, before, after, key, p);
        assert forall|i: int| 0 <= i < n implies has_group(
            after,
            group_key(fl, group_bys, (#[trigger] rows[i]).0, s),
        ) by {
            let rk = group_key(fl, group_bys, rows[i].0, s);
            if i == n - 1 {
                assert(same_key(after[p].key, rk));
            } else {
                assert(has_group(before, rk));
                let g = choose|g: int| 0 <= g < before.len() && same_key((#[trigger] before[g]).key, rk);
                assert(same_key(after[g].key, rk));
            }
        }
    }
}

proof fn lemma_grouped_apart(
    before: Seq<GroupView>,
    after: Seq<GroupView>,
    key: Seq<Option<Value>>,
    p: int,
)
    requires
        keys_apart(before),
        0 <= p <= before.len(),
        forall|k: int| 0 <= k < p ==> !same_key((#[trigger] before[k]).key, key),
        after.len() == if p < before.len() {
            before.len()
        } else {
            before.len() + 1
        },
        forall|g: int| 0 <= g < before.len() ==> (#[trigger] after[g]).key == before[g].key,
        p == before.len() ==> after[p].key == key,
    ensures
        keys_apart(after),
{
    assert forall|i: int, k: int|
        0 <= i < after.len() && 0 <= k < after.len() && i != k implies !same_key(
        (#[trigger] after[i]).key,
        (#[trigger] after[k]).key,
    ) by {
        lemma_same_key(after[i].key, after[k].key, after[i].key);
        lemma_same_key(after[k].key, after[i].key, after[k].key);
        if i < before.len() && k < before.len() {
            assert(!same_key(before[i].key, before[k].key));
        } else if i < before.len() {
            assert(!same_key(before[i].key, key));
        } else {
            assert(!same_key(before[k].key, key));
        }
    }
}

proof fn lemma_grouped_made_of(
    fl: spec_fn(FloatOp, u32, u32) -> u32,
    group_bys: Seq<Expression>,
    aggs: Seq<(Expression, AggType)>,
    rows: Seq<RowView>,
    s: SchemaView,
    n: int,
    before: Seq<GroupView>,
    after: Seq<GroupView>,
    key: Seq<Option<Value>>,
    p: int,
)
    requires
        0 < n <= rows.len(),
        key == group_key(fl, group_bys, rows[n - 1].0, s),
        p == group_position(before, key, 0),
        keys_apart(before),
        groups_made_of(fl, group_bys, aggs, rows, s, n - 1, before),
        rows_have_groups(fl, group_bys, rows, s, n - 1, before),
        group_row(fl, aggs, before, key, rows[n - 1].0, s) == Ok::<Seq<GroupView>, Seq<char>>(
            after,
        ),
    ensures
        groups_made_of(fl, group_bys, aggs, rows, s, n, after),
{
    lemma_group_position(before, key, 0);
    let row = rows[n - 1];
    assert forall|g: int| 0 <= g < after.len() implies ({
        let own = rows_of_group(fl, group_bys, rows, s, (#[trigger] after[g]).key, n);
        &&& own.len() > 0
        &&& states_over(fl, aggs, own, s) == Ok::<Seq<AggState>, Seq<char>>(after[g].states)
    }) by {
        let k = after[g].key;
        let had = rows_of_group(fl, group_bys, rows, s, k, n - 1);
        let own = rows_of_group(fl, group_bys, rows, s, k, n);
        if g == p {
            if p == before.len() {
                lemma_same_key(key, key, key);
                assert forall|i: int| 0 <= i < n - 1 implies !same_key(
                    key,
                    group_key(fl, group_bys, (#[trigger] rows[i]).0, s),
                ) by {
                    let rk = group_key(fl, group_bys, rows[i].0, s);
                    assert(has_group(before, rk));
                    let h = choose|h: int|
                        0 <= h < before.len() && same_key((#[trigger] before[h]).key, rk);
                    lemma_same_key(key, rk, before[h].key);
                    lemma_same_key(before[h].key, rk, key);
                    lemma_same_key(rk, key, key);
                }
                lemma_no_rows(fl, group_bys, rows, s, key, n - 1);
                assert(had =~= Seq::empty());
            } else {
                assert(before[p].key == k);
            }
            assert(own == had.push(row));
            assert(own.drop_last() =~= had);
            assert(own.last() == row);
        } else {
            assert(before[g].key == k && before[g].states == after[g].states);
            if p < before.len() {
                lemma_same_key(k, key, before[p].key);
                lemma_same_key(before[p].key, key, k);
                lemma_same_key(key, before[p].key, k);
            } else {
                assert(!same_key(before[g].key, key));
            }
            assert(!same_key(k, key));
            assert(own == had);
        }
    }
}

proof fn lemma_state_kept(
    fl: spec_fn(FloatOp, u32, u32) -> u32,
    aggs: Seq<(Expression, AggType)>,
    states: Seq<AggState>,
    data: Seq<u8>,
    s: SchemaView,
    n: int,
    a: int,
)
    requires
        states.len() == aggs.len(),
        0 <= n <= aggs.len(),
        0 <= a < aggs.len(),
        states_step(fl, aggs, states, data, s, false, n) is Ok,
        states[a] matches AggState::Count(_),
    ensures
        ({
            let after = states_step(fl, aggs, states, data, s, false, n)->Ok_0;
            &&& after.len() == states.len()
            &&& if a < n {
                states[a]->Count_0 < i32::MAX && after[a] == AggState::Count(
                    (states[a]->Count_0 + 1) as i32,
                )
            } else {
                after[a] == states[a]
            }
        }),
    decreases n,
{
    if n > 0 {
        lemma_state_kept(fl, aggs, states, data, s, n - 1, a);
    }
}

proof fn lemma_states_len(
    fl: spec_fn(FloatOp, u32, u32) -> u32,
    aggs: Seq<(Expression, AggType)>,
    states: Seq<AggState>,
    data: Seq<u8>,
    s: SchemaView,
    n: int,
)
    requires
        states.len() == aggs.len(),
        0 <= n <= aggs.len(),
        states_step(fl, aggs, states, data, s, false, n) is Ok,
    ensures
        states_step(fl, aggs, states, data, s, false, n)->Ok_0.len() == aggs.len(),
    decreases n,
{
    if n > 0 {
        lemma_states_len(fl, aggs, states, data, s, n - 1);
    }
}

/// COUNT counts the rows, those with NULLs among them.
pub proof fn law_count(
    fl: spec_fn(FloatOp, u32, u32) -> u32,
    aggs: Seq<(Expression, AggType)>,
    rows: Seq<RowView>,
    s: SchemaView,
    a: int,
)
    requires
        0 <= a < aggs.len(),
        aggs[a].1 == AggType::COUNT,
        states_over(fl, aggs, rows, s) is Ok,
    ensures
        states_over(fl, aggs, rows, s)->Ok_0.len() == aggs.len(),
        rows.len() <= i32::MAX,
        states_over(fl, aggs, rows, s)->Ok_0[a] == AggState::Count(rows.len() as i32),
    decreases rows.len(),
{
    if rows.len() > 0 {
        law_count(fl, aggs, rows.drop_last(), s, a);
        let before = states_over(fl, aggs, rows.drop_last(), s)->Ok_0;
        lemma_state_kept(fl, aggs, before, rows.last().0, s, aggs.len() as int, a);
        lemma_states_len(fl, aggs, before, rows.last().0, s, aggs.len() as int);
    } else {
        assert(start_states(aggs)[a] == agg_start(aggs[a].1));
    }
}

} // verus!
