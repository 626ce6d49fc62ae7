//! What rows hold after they were computed or changed, told by the values of their expressions.
use vstd::prelude::*;

use crate::catalog::{Catalog, CatalogError};
use crate::catalog::schema::{law_tuple_roundtrip, SchemaView};
use crate::catalog::value::Value;
use crate::index::tree_model::Pages;
use crate::processor::change_laws::{law_update_then_scan, replaced, slots_of, stays};
use crate::processor::executor::table_stream;
use crate::processor::expression::{eval, Expression, FloatOp};
use crate::processor::laws::lemma_field_values;
use crate::processor::modify::{assigned, updated};
use crate::processor::plan::UpdatePlanNode;
use crate::processor::statement::update_ran;
use crate::processor::stream::{all_fields, fields, StreamView};

verus! {

/// Assignment `j` is the last one to its column.
pub open spec fn is_last_to(targets: Seq<(u32, Expression)>, j: int) -> bool {
    &&& 0 <= j < targets.len()
    &&& forall|k: int| j < k < targets.len() ==> (#[trigger] targets[k]).0 != targets[j].0
}

/// No assignment goes to column `c`.
pub open spec fn is_spared(targets: Seq<(u32, Expression)>, c: int) -> bool {
    forall|j: int| 0 <= j < targets.len() ==> (#[trigger] targets[j]).0 != c
}

/// The tuple `new` holds in each column what the last assignment to it gives on the tuple `old`,
/// and in all other columns what `old` holds.
pub open spec fn is_reassigned(
    fl: spec_fn(FloatOp, u32, u32) -> u32,
    targets: Seq<(u32, Expression)>,
    s: SchemaView,
    old_data: Seq<u8>,
    new_data: Seq<u8>,
) -> bool {
    &&& forall|j: int|
        0 <= j < targets.len() ==> (#[trigger] targets[j]).0 < s.cols.len() && eval(
            fl,
            targets[j].1,
            old_data,
            s,
        ) is Ok
    &&& forall|j: int| #[trigger]
        is_last_to(targets, j) ==> s.field(new_data, targets[j].0 as int) == Ok::<
            Option<Value>,
            CatalogError,
        >(eval(fl, targets[j].1, old_data, s)->Ok_0)
    &&& forall|c: int|
        0 <= c < s.cols.len() && is_spared(targets, c) ==> #[trigger] s.field(new_data, c)
            == s.field(old_data, c) && s.field(old_data, c) is Ok
}

/// The values after the first assignments.
proof fn lemma_assigned(
    fl: spec_fn(FloatOp, u32, u32) -> u32,
    targets: Seq<(u32, Expression)>,
    data: Seq<u8>,
    s: SchemaView,
    values: Seq<Option<Value>>,
    n: int,
)
    requires
        0 <= n <= targets.len(),
        assigned(fl, targets, data, s, values, n) is Ok,
    ensures
        ({
            let after = assigned(fl, targets, data, s, values, n)->Ok_0;
            let first = targets.subrange(0, n);
            &&& after.len() == values.len()
            &&& forall|j: int|
                0 <= j < n ==> (#[trigger] targets[j]).0 < values.len() && eval(
                    fl,
                    targets[j].1,
                    data,
                    s,
                ) is Ok
            &&& forall|j: int| #[trigger]
                is_last_to(first, j) ==> after[targets[j].0 as int] == eval(
                    fl,
                    targets[j].1,
                    data,
                    s,
                )->Ok_0
            &&& forall|c: int|
                0 <= c < values.len() && #[trigger] is_spared(first, c) ==> after[c] == values[c]
        }),
    decreases n,
{
    let first = targets.subrange(0, n);
    if n > 0 {
        lemma_assigned(fl, targets, data, s, values, n - 1);
        let prior = targets.subrange(0, n - 1);
        let after = assigned(fl, targets, data, s, values, n)->Ok_0;
        let before = assigned(fl, targets, data, s, values, n - 1)->Ok_0;
        assert(first[n - 1] == targets[n - 1]);
        assert forall|j: int| #[trigger] is_last_to(first, j) implies after[targets[j].0 as int]
            == eval(fl, targets[j].1, data, s)->Ok_0 by {
            if j < n - 1 {
                assert(first[n - 1].0 != first[j].0);
                assert(is_last_to(prior, j)) by {
                    assert forall|k: int| j < k < prior.len() implies (#[trigger] prior[k]).0
                        != prior[j].0 by {
                        assert(first[k].0 != first[j].0);
                    }
                }
            }
        }
        assert forall|c: int| 0 <= c < values.len() && #[trigger] is_spared(first, c) implies after[
            c] == values[c] by {
            assert(first[n - 1].0 != c);
            assert(is_spared(prior, c)) by {
                assert forall|j: int| 0 <= j < prior.len() implies (#[trigger] prior[j]).0 != c by {
                    assert(first[j].0 != c);
                }
            }
        }
    }
}

/// The assignments of an UPDATE make of a tuple the one that holds the new values in the columns
/// that they go to, whatever the types of these, and the old values in all others.
pub proof fn law_updated_tuple(
    fl: spec_fn(FloatOp, u32, u32) -> u32,
    targets: Seq<(u32, Expression)>,
    data: Seq<u8>,
    s: SchemaView,
)
    requires
        s.wf(),
        updated(fl, targets, data, s) is Ok,
    ensures
        is_reassigned(fl, targets, s, data, updated(fl, targets, data, s)->Ok_0),
{
    let n = targets.len() as int;
    let values = all_fields(s, data)->Ok_0;
    lemma_field_values(s, data, s.cols.len() as int);
    lemma_assigned(fl, targets, data, s, values, n);
    let after = assigned(fl, targets, data, s, values, n)->Ok_0;
    assert(targets.subrange(0, n) =~= targets);
    law_tuple_roundtrip(s, after);
}

/// An assignment gives a value that its column takes: NULL, or one of the type of the column.
pub open spec fn is_assignable(
    fl: spec_fn(FloatOp, u32, u32) -> u32,
    t: (u32, Expression),
    data: Seq<u8>,
    s: SchemaView,
) -> bool {
    &&& t.0 < s.cols.len()
    &&& eval(fl, t.1, data, s) matches Ok(v) && (v matches Some(x) ==> x.dtype()
        == s.cols[t.0 as int].dtype)
}

proof fn lemma_assignable(
    fl: spec_fn(FloatOp, u32, u32) -> u32,
    targets: Seq<(u32, Expression)>,
    data: Seq<u8>,
    s: SchemaView,
    values: Seq<Option<Value>>,
    n: int,
)
    requires
        0 <= n <= targets.len(),
        s.accepts(values),
        forall|j: int| 0 <= j < targets.len() ==> is_assignable(fl, #[trigger] targets[j], data, s),
    ensures
        assigned(fl, targets, data, s, values, n) matches Ok(after) && s.accepts(after),
    decreases n,
{
    if n > 0 {
        lemma_assignable(fl, targets, data, s, values, n - 1);
        assert(is_assignable(fl, targets[n - 1], data, s));
    }
}

proof fn lemma_fields_read(s: SchemaView, data: Seq<u8>, n: int)
    requires
        0 <= n <= s.cols.len(),
        s.reads(data),
    ensures
        fields(s, data, n) is Ok,
    decreases n,
{
    if n > 0 {
        lemma_fields_read(s, data, n - 1);
        assert(s.field(data, n - 1) is Ok);
    }
}

/// Where a tuple can be read and every assignment gives a value that its column takes, the
/// assignments do not fail on it.
pub proof fn law_update_succeeds(
    fl: spec_fn(FloatOp, u32, u32) -> u32,
    targets: Seq<(u32, Expression)>,
    data: Seq<u8>,
    s: SchemaView,
)
    requires
        s.reads(data),
        forall|j: int| 0 <= j < targets.len() ==> is_assignable(fl, #[trigger] targets[j], data, s),
    ensures
        updated(fl, targets, data, s) is Ok,
{
    let n = s.cols.len() as int;
    lemma_fields_read(s, data, n);
    lemma_field_values(s, data, n);
    let values = all_fields(s, data)->Ok_0;
    assert(s.accepts(values));
    lemma_assignable(fl, targets, data, s, values, targets.len() as int);
}

/// The rows `t` of a table were replaced by the rows `s`, each by one that holds the new values,
/// and a scan gives them behind the rows that stayed.
pub open spec fn is_updated(
    fl: spec_fn(FloatOp, u32, u32) -> u32,
    c: &Catalog,
    p0: Pages,
    p1: Pages,
    p: UpdatePlanNode,
    t: StreamView,
    s: StreamView,
) -> bool {
    &&& s.rows.len() == t.rows.len()
    &&& forall|k: int|
        0 <= k < t.rows.len() ==> is_reassigned(
            fl,
            p.target_exprs@,
            p.schema@,
            t.rows[k].0,
            (#[trigger] s.rows[k]).0,
        )
    &&& table_stream(c, p1, p.table_oid).rows == (table_stream(c, p0, p.table_oid).rows
        + s.rows).filter(stays(slots_of(t.rows)))
}

/// After an UPDATE that does not fail, each row that it found is replaced by one that holds in
/// every assigned column the value of the last expression assigned to it, taken on the old row,
/// and in every other column the old value. A scan gives these rows behind those that stayed.
pub proof fn law_update_values(
    fl: spec_fn(FloatOp, u32, u32) -> u32,
    c: &Catalog,
    p0: Pages,
    p1: Pages,
    p: UpdatePlanNode,
    s: StreamView,
    spent: bool,
)
    requires
        c.wf(p0),
        p.schema@.wf(),
        update_ran(fl, c, p0, p1, p, s, spent),
        s.error is None,
    ensures
        exists|t: StreamView| #[trigger]
            p.child.answers(fl, c, p0, t) && is_updated(fl, c, p0, p1, p, t, s),
{
    law_update_then_scan(fl, c, p0, p1, p, s, spent);
    let t = choose|t: StreamView| #[trigger]
        p.child.answers(fl, c, p0, t) && replaced(fl, c, p0, p1, p, t, s);
    assert forall|k: int| 0 <= k < t.rows.len() implies is_reassigned(
        fl,
        p.target_exprs@,
        p.schema@,
        t.rows[k].0,
        (#[trigger] s.rows[k]).0,
    ) by {
        assert(updated(fl, p.target_exprs@, t.rows[k].0, p.schema@) == Ok::<Seq<u8>, Seq<char>>(
            s.rows[k].0,
        ));
        law_updated_tuple(fl, p.target_exprs@, t.rows[k].0, p.schema@);
    }
    assert(is_updated(fl, c, p0, p1, p, t, s));
}

} // verus!
