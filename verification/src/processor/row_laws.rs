//! What the rows of a projection, a VALUES clause and a join hold.
use vstd::prelude::*;

use crate::catalog::CatalogError;
use crate::catalog::schema::{law_tuple_roundtrip, SchemaView};
use crate::catalog::value::Value;
use crate::processor::executor::{
    projection_part, projection_stream, shaped, values_part, values_stream,
};
use crate::processor::expression::{eval, Expression, FloatOp};
use crate::processor::stream::{eval_all, flat, unstored, RowView, StreamView};

verus! {

/// The tuple holds, column for column, what the expressions come to on another tuple.
pub open spec fn holds_results(
    fl: spec_fn(FloatOp, u32, u32) -> u32,
    exprs: Seq<Expression>,
    data: Seq<u8>,
    s: SchemaView,
    out: SchemaView,
    row: RowView,
) -> bool {
    &&& row.1 == unstored(row.0).1
    &&& out.cols.len() == exprs.len()
    &&& forall|k: int|
        0 <= k < exprs.len() ==> (eval(fl, #[trigger] exprs[k], data, s) matches Ok(v)
            && out.field(row.0, k) == Ok::<Option<Value>, CatalogError>(v))
}

/// Each expression has a value, and it is NULL or of the type of its column.
pub open spec fn results_fit(
    fl: spec_fn(FloatOp, u32, u32) -> u32,
    exprs: Seq<Expression>,
    data: Seq<u8>,
    s: SchemaView,
    out: SchemaView,
) -> bool {
    &&& out.cols.len() == exprs.len()
    &&& forall|k: int|
        0 <= k < exprs.len() ==> (eval(fl, #[trigger] exprs[k], data, s) matches Ok(v) && (
        v matches Some(x) ==> x.dtype() == out.cols[k].dtype))
}

pub(crate) proof fn lemma_eval_all(
    fl: spec_fn(FloatOp, u32, u32) -> u32,
    exprs: Seq<Expression>,
    data: Seq<u8>,
    s: SchemaView,
)
    ensures
        eval_all(fl, exprs, data, s) is Ok <==> forall|k: int|
            0 <= k < exprs.len() ==> eval(fl, #[trigger] exprs[k], data, s) is Ok,
        eval_all(fl, exprs, data, s) matches Ok(vs) ==> vs.len() == exprs.len() && forall|k: int|
            0 <= k < exprs.len() ==> eval(fl, #[trigger] exprs[k], data, s) == Ok::<
                Option<Value>,
                Seq<char>,
            >(vs[k]),
    decreases exprs.len(),
{
    if exprs.len() > 0 {
        let rest = exprs.drop_last();
        lemma_eval_all(fl, rest, data, s);
        assert(exprs.last() == exprs[exprs.len() - 1]);
        assert forall|k: int| 0 <= k < rest.len() implies rest[k] == #[trigger] exprs[k] by {}
        if eval_all(fl, exprs, data, s) is Ok {
            assert forall|k: int| 0 <= k < exprs.len() implies eval(
                fl,
                #[trigger] exprs[k],
                data,
                s,
            ) == Ok::<Option<Value>, Seq<char>>(eval_all(fl, exprs, data, s)->Ok_0[k]) by {
                if k < rest.len() {
                    assert(rest[k] == exprs[k]);
                }
            }
        } else if forall|k: int|
            0 <= k < exprs.len() ==> eval(fl, #[trigger] exprs[k], data, s) is Ok {
            assert forall|k: int| 0 <= k < rest.len() implies eval(
                fl,
                #[trigger] rest[k],
                data,
                s,
            ) is Ok by {
                assert(rest[k] == exprs[k]);
            }
        }
    }
}

proof fn lemma_shaped(
    fl: spec_fn(FloatOp, u32, u32) -> u32,
    exprs: Seq<Expression>,
    data: Seq<u8>,
    s: SchemaView,
    out: SchemaView,
)
    requires
        out.wf(),
    ensures
        shaped(fl, exprs, data, s, out) is Ok <==> results_fit(fl, exprs, data, s, out),
        shaped(fl, exprs, data, s, out) matches Ok(d) ==> holds_results(
            fl,
            exprs,
            data,
            s,
            out,
            unstored(d),
        ),
{
    lemma_eval_all(fl, exprs, data, s);
    match eval_all(fl, exprs, data, s) {
        Ok(vs) => {
            if out.accepts(vs) {
                law_tuple_roundtrip(out, vs);
                assert forall|k: int| 0 <= k < exprs.len() implies (eval(
                    fl,
                    #[trigger] exprs[k],
                    data,
                    s,
                ) matches Ok(v) && (v matches Some(x) ==> x.dtype() == out.cols[k].dtype)) by {
                    assert(vs[k] matches Some(v) ==> v.dtype() == out.cols[k].dtype);
                }
            } else if results_fit(fl, exprs, data, s, out) {
                assert forall|i: int| 0 <= i < vs.len() implies ((#[trigger] vs[i]) matches Some(v)
                    ==> v.dtype() == out.cols[i].dtype) by {
                    assert(eval(fl, exprs[i], data, s) is Ok);
                }
            }
        },
        Err(_) => {},
    }
}

/// Parts of one row each, up to the first that failed.
proof fn lemma_flat_ones(f: spec_fn(int) -> StreamView, n: int)
    requires
        0 <= n,
        forall|i: int|
            0 <= i < n ==> ((#[trigger] f(i)).rows.len() == if f(i).error is None {
                1nat
            } else {
                0nat
            }),
    ensures
        flat(f, n).rows.len() <= n,
        flat(f, n).error is None ==> flat(f, n).rows.len() == n,
        flat(f, n).error is Some ==> flat(f, n).rows.len() < n && flat(f, n).error == f(
            flat(f, n).rows.len() as int,
        ).error,
        forall|i: int|
            0 <= i < flat(f, n).rows.len() ==> (#[trigger] f(i)).error is None && f(i).rows
                == seq![flat(f, n).rows[i]],
    decreases n,
{
    if n > 0 {
        lemma_flat_ones(f, n - 1);
        let before = flat(f, n - 1);
        if before.error is None {
            assert(f(n - 1).error is None ==> f(n - 1).rows =~= seq![f(n - 1).rows[0]]);
            assert forall|i: int| 0 <= i < flat(f, n).rows.len() implies (#[trigger] f(
                i,
            )).error is None && f(i).rows == seq![flat(f, n).rows[i]] by {
                if i < n - 1 {
                    assert(flat(f, n).rows[i] == before.rows[i]);
                }
            }
        }
    }
}

/// A projection gives a row for each row below it, in order, up to the first on which an expression
/// fails or does not fit its column; where there is none it ends as the rows below it do. Column
/// for column a row holds what the expressions come to on the row below.
pub proof fn law_projection_rows(
    fl: spec_fn(FloatOp, u32, u32) -> u32,
    exprs: Seq<Expression>,
    child: StreamView,
    s: SchemaView,
    out: SchemaView,
)
    requires
        out.wf(),
    ensures
        ({
            let given = projection_stream(fl, exprs, child, s, out);
            let n = given.rows.len();
            &&& n <= child.rows.len()
            &&& forall|i: int|
                0 <= i < n ==> holds_results(
                    fl,
                    exprs,
                    child.rows[i].0,
                    s,
                    out,
                    #[trigger] given.rows[i],
                )
            &&& n == child.rows.len() ==> given.error == child.error
            &&& n < child.rows.len() ==> given.error is Some && !results_fit(
                fl,
                exprs,
                child.rows[n as int].0,
                s,
                out,
            )
        }),
{
    let f = projection_part(fl, exprs, child.rows, s, out);
    let given = projection_stream(fl, exprs, child, s, out);
    lemma_flat_ones(f, child.rows.len() as int);
    let n = given.rows.len() as int;
    if n < child.rows.len() {
        lemma_shaped(fl, exprs, child.rows[n].0, s, out);
    }
    assert forall|i: int| 0 <= i < n implies holds_results(
        fl,
        exprs,
        child.rows[i].0,
        s,
        out,
        #[trigger] given.rows[i],
    ) by {
        lemma_shaped(fl, exprs, child.rows[i].0, s, out);
        assert(f(i).error is None && f(i).rows == seq![given.rows[i]]);
        assert(f(i).rows[0] == given.rows[i]);
    }
}

/// A VALUES clause gives a row for each of its lists, in order, up to the first of which an
/// expression fails or does not fit its column. Column for column a row holds what the expressions
/// of its list come to.
pub proof fn law_values_rows(
    fl: spec_fn(FloatOp, u32, u32) -> u32,
    lists: Seq<Vec<Expression>>,
    s: SchemaView,
)
    requires
        s.wf(),
    ensures
        ({
            let given = values_stream(fl, lists, s);
            let n = given.rows.len();
            &&& n <= lists.len()
            &&& forall|i: int|
                0 <= i < n ==> holds_results(
                    fl,
                    lists[i]@,
                    Seq::empty(),
                    s,
                    s,
                    #[trigger] given.rows[i],
                )
            &&& n == lists.len() ==> given.error is None
            &&& n < lists.len() ==> given.error is Some && !results_fit(
                fl,
                lists[n as int]@,
                Seq::empty(),
                s,
                s,
            )
        }),
{
    let f = values_part(fl, lists, s);
    let given = values_stream(fl, lists, s);
    lemma_flat_ones(f, lists.len() as int);
    let n = given.rows.len() as int;
    if n < lists.len() {
        lemma_shaped(fl, lists[n]@, Seq::empty(), s, s);
    }
    assert forall|i: int| 0 <= i < n implies holds_results(
        fl,
        lists[i]@,
        Seq::empty(),
        s,
        s,
        #[trigger] given.rows[i],
    ) by {
        lemma_shaped(fl, lists[i]@, Seq::empty(), s, s);
        assert(f(i).error is None && f(i).rows == seq![given.rows[i]]);
        assert(f(i).rows[0] == given.rows[i]);
    }
}

} // verus!
