//! Which rows a join row by row gives, and what they hold.
use vstd::prelude::*;

use crate::catalog::schema::SchemaView;
use crate::catalog::value::Value;
use crate::processor::expression::{eval_join, FloatOp};
use crate::processor::join::{
    joined_tuple, left_matches, lefts_part, loop_join_stream, pair_part, JoinView,
};
use crate::processor::laws::{law_joined_fields, lemma_field_values};
use crate::processor::plan::JoinType;
use crate::processor::stream::{all_fields, flat, unstored, RowView, StreamView};

verus! {

/// The row holds the columns of a left tuple, then those of a right one or NULLs.
pub open spec fn holds_both(
    out: SchemaView,
    l: SchemaView,
    ldata: Seq<u8>,
    r: SchemaView,
    rdata: Option<Seq<u8>>,
    row: RowView,
) -> bool {
    &&& row.1 == unstored(row.0).1
    &&& out.cols.len() == l.cols.len() + r.cols.len()
    &&& forall|i: int|
        0 <= i < l.cols.len() ==> #[trigger] l.field(ldata, i) is Ok && out.field(row.0, i)
            == l.field(ldata, i)
    &&& match rdata {
        Some(d) => forall|k: int|
            0 <= k < r.cols.len() ==> #[trigger] r.field(d, k) is Ok && out.field(
                row.0,
                l.cols.len() + k,
            ) == r.field(d, k),
        None => forall|k: int|
            0 <= k < r.cols.len() ==> (#[trigger] out.field(row.0, l.cols.len() + k) matches Ok(v)
                && v is None),
    }
}

/// The predicate of the join is true on the two tuples.
pub open spec fn matched(
    fl: spec_fn(FloatOp, u32, u32) -> u32,
    j: JoinView,
    l: RowView,
    r: RowView,
) -> bool {
    eval_join(fl, j.predicate, l.0, j.left, r.0, j.right) == Ok::<Option<Value>, Seq<char>>(
        Some(Value::BOOLEAN(true)),
    )
}

/// A left row by its place and the right row that is joined with it, if any.
pub type Origin = (int, Option<int>);

/// The row is the joined one of these two.
pub open spec fn joins_origin(
    j: JoinView,
    lefts: Seq<RowView>,
    rights: Seq<RowView>,
    o: Origin,
    row: RowView,
) -> bool {
    &&& 0 <= o.0 < lefts.len()
    &&& o.1 matches Some(k) ==> 0 <= k < rights.len()
    &&& holds_both(
        j.out,
        j.left,
        lefts[o.0].0,
        j.right,
        match o.1 {
            Some(k) => Some(rights[k].0),
            None => None,
        },
        row,
    )
}

/// The first origin comes before the second: by the left row, then by the right one.
pub open spec fn origin_before(a: Origin, b: Origin) -> bool {
    a.0 < b.0 || (a.0 == b.0 && (a.1 matches Some(x) && b.1 matches Some(y) && x < y))
}

/// The origins are the pairs on which the predicate is true, and for a left join the left rows
/// among the first `n` that no right row matches.
pub open spec fn are_origins(
    fl: spec_fn(FloatOp, u32, u32) -> u32,
    j: JoinView,
    lefts: Seq<RowView>,
    rights: Seq<RowView>,
    origins: Seq<Origin>,
    n: int,
) -> bool {
    &&& forall|a: int, b: int|
        0 <= a < b < origins.len() ==> origin_before(#[trigger] origins[a], #[trigger] origins[b])
    &&& forall|i: int, k: int|
        0 <= i < n && 0 <= k < rights.len() ==> (#[trigger] origins.contains((i, Some(k)))
            <==> matched(fl, j, lefts[i], rights[k]))
    &&& forall|i: int|
        0 <= i < n ==> (#[trigger] origins.contains((i, None)) <==> j.join_type == JoinType::Left
            && forall|k: int|
            0 <= k < rights.len() ==> !matched(fl, j, lefts[i], #[trigger] rights[k]))
}

pub(crate) proof fn lemma_joined(
    out: SchemaView,
    l: SchemaView,
    ldata: Seq<u8>,
    r: SchemaView,
    rdata: Option<Seq<u8>>,
)
    requires
        out.wf(),
        joined_tuple(out, l, ldata, r, rdata) is Ok,
    ensures
        holds_both(out, l, ldata, r, rdata, unstored(joined_tuple(out, l, ldata, r, rdata)->Ok_0)),
{
    let data = joined_tuple(out, l, ldata, r, rdata)->Ok_0;
    lemma_field_values(l, ldata, l.cols.len() as int);
    assert forall|i: int| 0 <= i < l.cols.len() implies #[trigger] l.field(ldata, i) is Ok
        && out.field(data, i) == l.field(ldata, i) by {
        law_joined_fields(out, l, ldata, r, rdata, i);
        assert(all_fields(l, ldata)->Ok_0[i] == all_fields(l, ldata)->Ok_0[i]);
    }
    match rdata {
        Some(d) => {
            lemma_field_values(r, d, r.cols.len() as int);
            assert forall|k: int| 0 <= k < r.cols.len() implies #[trigger] r.field(d, k) is Ok
                && out.field(data, l.cols.len() + k) == r.field(d, k) by {
                law_joined_fields(out, l, ldata, r, rdata, l.cols.len() + k);
                assert(all_fields(r, d)->Ok_0[k] == all_fields(r, d)->Ok_0[k]);
            }
        },
        None => {
            assert forall|k: int| 0 <= k < r.cols.len() implies (#[trigger] out.field(
                data,
                l.cols.len() + k,
            ) matches Ok(v) && v is None) by {
                law_joined_fields(out, l, ldata, r, rdata, l.cols.len() + k);
            }
        },
    }
}

/// The right rows among the first `n` that match a left one.
proof fn lemma_pairs(
    fl: spec_fn(FloatOp, u32, u32) -> u32,
    j: JoinView,
    l: RowView,
    rights: Seq<RowView>,
    n: int,
) -> (ks: Seq<int>)
    requires
        j.out.wf(),
        0 <= n <= rights.len(),
        flat(pair_part(fl, j, l.0, rights), n).error is None,
    ensures
        ks.len() == flat(pair_part(fl, j, l.0, rights), n).rows.len(),
        forall|a: int|
            0 <= a < ks.len() ==> 0 <= #[trigger] ks[a] < n && matched(fl, j, l, rights[ks[a]])
                && holds_both(
                j.out,
                j.left,
                l.0,
                j.right,
                Some(rights[ks[a]].0),
                flat(pair_part(fl, j, l.0, rights), n).rows[a],
            ),
        forall|a: int, b: int| 0 <= a < b < ks.len() ==> #[trigger] ks[a] < #[trigger] ks[b],
        forall|k: int|
            0 <= k < n ==> (#[trigger] ks.contains(k) <==> matched(fl, j, l, rights[k])),
    decreases n,
{
    if n == 0 {
        Seq::empty()
    } else {
        let before = lemma_pairs(fl, j, l, rights, n - 1);
        let f = pair_part(fl, j, l.0, rights);
        let (was, now) = (flat(f, n - 1).rows, flat(f, n).rows);
        if matched(fl, j, l, rights[n - 1]) {
            lemma_joined(j.out, j.left, l.0, j.right, Some(rights[n - 1].0));
            let ks = before.push(n - 1);
            assert(now.len() == was.len() + 1);
            assert forall|a: int| 0 <= a < ks.len() implies 0 <= #[trigger] ks[a] < n && matched(
                fl,
                j,
                l,
                rights[ks[a]],
            ) && holds_both(j.out, j.left, l.0, j.right, Some(rights[ks[a]].0), now[a]) by {
                if a < before.len() {
                    assert(now[a] == was[a]);
                    assert(ks[a] == before[a]);
                }
            }
            assert forall|k: int| 0 <= k < n implies (#[trigger] ks.contains(k) <==> matched(
                fl,
                j,
                l,
                rights[k],
            )) by {
                if k == n - 1 {
                    assert(ks[before.len() as int] == k);
                } else if before.contains(k) {
                    let a = choose|a: int| 0 <= a < before.len() && before[a] == k;
                    assert(ks[a] == k);
                } else if ks.contains(k) {
                    let a = choose|a: int| 0 <= a < ks.len() && ks[a] == k;
                    assert(before[a] == k);
                }
            }
            ks
        } else {
            assert(now =~= was);
            assert(!before.contains(n - 1)) by {
                if before.contains(n - 1) {
                    let a = choose|a: int| 0 <= a < before.len() && before[a] == n - 1;
                    assert(0 <= before[a] < n - 1);
                }
            }
            before
        }
    }
}

/// The origins of the rows that one left row gives.
proof fn lemma_left_origins(
    fl: spec_fn(FloatOp, u32, u32) -> u32,
    j: JoinView,
    lefts: Seq<RowView>,
    rights: Seq<RowView>,
    i: int,
) -> (os: Seq<Origin>)
    requires
        j.out.wf(),
        0 <= i < lefts.len(),
        left_matches(fl, j, lefts[i].0, rights).error is None,
    ensures
        os.len() == left_matches(fl, j, lefts[i].0, rights).rows.len(),
        forall|a: int| 0 <= a < os.len() ==> (#[trigger] os[a]).0 == i,
        forall|a: int|
            0 <= a < os.len() ==> joins_origin(
                j,
                lefts,
                rights,
                #[trigger] os[a],
                left_matches(fl, j, lefts[i].0, rights).rows[a],
            ),
        forall|a: int, b: int|
            0 <= a < b < os.len() ==> origin_before(#[trigger] os[a], #[trigger] os[b]),
        forall|k: int|
            0 <= k < rights.len() ==> (#[trigger] os.contains((i, Some(k))) <==> matched(
                fl,
                j,
                lefts[i],
                rights[k],
            )),
        os.contains((i, None)) <==> j.join_type == JoinType::Left && forall|k: int|
            0 <= k < rights.len() ==> !matched(fl, j, lefts[i], #[trigger] rights[k]),
{
    let l = lefts[i];
    let f = pair_part(fl, j, l.0, rights);
    let pairs = flat(f, rights.len() as int);
    let ks = lemma_pairs(fl, j, l, rights, rights.len() as int);
    if j.join_type == JoinType::Left && pairs.rows.len() == 0 {
        assert(pairs.rows =~= Seq::empty());
        lemma_joined(j.out, j.left, l.0, j.right, None);
        let os: Seq<Origin> = seq![(i, None)];
        assert forall|k: int| 0 <= k < rights.len() implies !matched(
            fl,
            j,
            l,
            #[trigger] rights[k],
        ) by {
            assert(!ks.contains(k));
        }
        assert(os[0] == (i, None::<int>));
        assert(os.contains((i, None)));
        os
    } else {
        let os: Seq<Origin> = Seq::new(ks.len(), |a: int| (i, Some(ks[a])));
        assert forall|k: int| 0 <= k < rights.len() implies (#[trigger] os.contains((i, Some(k)))
            <==> matched(fl, j, l, rights[k])) by {
            if ks.contains(k) {
                let a = choose|a: int| 0 <= a < ks.len() && ks[a] == k;
                assert(os[a] == (i, Some(k)));
            } else if os.contains((i, Some(k))) {
                let a = choose|a: int| 0 <= a < os.len() && os[a] == (i, Some(k));
                assert(ks[a] == k);
            }
        }
        if j.join_type == JoinType::Left {
            assert(matched(fl, j, l, rights[ks[0]]));
        }
        os
    }
}

proof fn lemma_lefts_origins(
    fl: spec_fn(FloatOp, u32, u32) -> u32,
    j: JoinView,
    lefts: Seq<RowView>,
    rights: Seq<RowView>,
    n: int,
) -> (os: Seq<Origin>)
    requires
        j.out.wf(),
        0 <= n <= lefts.len(),
        flat(lefts_part(fl, j, lefts, rights), n).error is None,
    ensures
        os.len() == flat(lefts_part(fl, j, lefts, rights), n).rows.len(),
        forall|a: int| 0 <= a < os.len() ==> (#[trigger] os[a]).0 < n,
        forall|a: int|
            0 <= a < os.len() ==> joins_origin(
                j,
                lefts,
                rights,
                #[trigger] os[a],
                flat(lefts_part(fl, j, lefts, rights), n).rows[a],
            ),
        are_origins(fl, j, lefts, rights, os, n),
    decreases n,
{
    if n == 0 {
        Seq::empty()
    } else {
        let f = lefts_part(fl, j, lefts, rights);
        let before = lemma_lefts_origins(fl, j, lefts, rights, n - 1);
        let own = lemma_left_origins(fl, j, lefts, rights, n - 1);
        let os = before + own;
        let (was, now) = (flat(f, n - 1).rows, flat(f, n).rows);
        assert(now == was + f(n - 1).rows);
        assert forall|a: int| 0 <= a < os.len() implies (#[trigger] os[a]).0 < n && joins_origin(
            j,
            lefts,
            rights,
            os[a],
            now[a],
        ) by {
            if a < before.len() {
                assert(os[a] == before[a] && now[a] == was[a]);
            } else {
                assert(os[a] == own[a - before.len()]);
            }
        }
        assert forall|o: Origin| #[trigger] os.contains(o) <==> if o.0 < n - 1 {
            before.contains(o)
        } else {
            own.contains(o)
        } by {
            if os.contains(o) {
                let a = choose|a: int| 0 <= a < os.len() && os[a] == o;
                if a < before.len() {
                    assert(before[a] == o);
                } else {
                    assert(own[a - before.len()] == o);
                }
            }
            if o.0 < n - 1 && before.contains(o) {
                let a = choose|a: int| 0 <= a < before.len() && before[a] == o;
                assert(os[a] == o);
            }
            if o.0 >= n - 1 && own.contains(o) {
                let a = choose|a: int| 0 <= a < own.len() && own[a] == o;
                assert(os[before.len() + a] == o);
            }
        }
        assert forall|a: int, b: int| 0 <= a < b < os.len() implies origin_before(
            #[trigger] os[a],
            #[trigger] os[b],
        ) by {
            if b < before.len() {
                assert(os[a] == before[a] && os[b] == before[b]);
            } else if a < before.len() {
                assert(os[a] == before[a] && os[b] == own[b - before.len()]);
            } else {
                assert(os[a] == own[a - before.len()] && os[b] == own[b - before.len()]);
            }
        }
        os
    }
}

/// A join row by row that does not fail gives one row for each pair on which its predicate is
/// true, and for a left join one row with NULLs for each left row that no right row matches. The
/// rows are ordered by the left row, then by the right one, and each holds the columns of the left
/// row, then those of the right one. The origins of the rows are returned.
pub proof fn law_loop_join_rows(
    fl: spec_fn(FloatOp, u32, u32) -> u32,
    j: JoinView,
    left: StreamView,
    right: StreamView,
) -> (origins: Seq<Origin>)
    requires
        j.out.wf(),
        loop_join_stream(fl, j, left, right).error is None,
    ensures
        origins.len() == loop_join_stream(fl, j, left, right).rows.len(),
        forall|a: int|
            0 <= a < origins.len() ==> joins_origin(
                j,
                left.rows,
                right.rows,
                #[trigger] origins[a],
                loop_join_stream(fl, j, left, right).rows[a],
            ),
        are_origins(fl, j, left.rows, right.rows, origins, left.rows.len() as int),
{
    lemma_lefts_origins(fl, j, left.rows, right.rows, left.rows.len() as int)
}

} // verus!
