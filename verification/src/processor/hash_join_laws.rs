//! Which rows a hash join gives, each once, and what they hold.
use vstd::prelude::*;

use crate::catalog::schema::SchemaView;
use crate::catalog::value::{option_eq, Value};
use crate::processor::expression::{eval, Expression, FloatOp};
use crate::processor::hash_join::{
    bucket, bucket_rows, from_the_back, hash_join_stream, law_hash_agrees, lemma_filed_keys,
    HashJoinView, PARTITIONS,
};
use crate::processor::loop_join_laws::{holds_both, lemma_joined, Origin};
use crate::processor::plan::JoinType;
use crate::processor::row_laws::lemma_eval_all;
use crate::processor::stream::{eval_all, flat, RowView, StreamView};

verus! {

/// The row is the joined one of these two.
pub open spec fn joins_both(
    j: HashJoinView,
    lefts: Seq<RowView>,
    rights: Seq<RowView>,
    o: Origin,
    row: RowView,
) -> bool {
    &&& 0 <= o.0 < lefts.len()
    &&& o.1 matches Some(k) ==> 0 <= k < rights.len()
    &&& holds_both(
        j.out,
        j.left,
        lefts[o.0].0,
        j.right,
        match o.1 {
            Some(k) => Some(rights[k].0),
            None => None,
        },
        row,
    )
}

/// The rows among the first `n` that belong to a partition, by their places.
proof fn lemma_bucket_places(
    fl: spec_fn(FloatOp, u32, u32) -> u32,
    exprs: Seq<Expression>,
    s: SchemaView,
    rows: Seq<RowView>,
    p: int,
    n: int,
) -> (places: Seq<int>)
    requires
        0 <= n <= rows.len(),
    ensures
        places.len() == bucket_rows(fl, exprs, s, rows, p, n).len(),
        forall|a: int|
            0 <= a < places.len() ==> 0 <= #[trigger] places[a] < n && bucket_rows(
                fl,
                exprs,
                s,
                rows,
                p,
                n,
            )[a].0 == rows[places[a]].0 && bucket(fl, exprs, s, rows[places[a]].0) == p,
        forall|a: int, b: int|
            0 <= a < b < places.len() ==> #[trigger] places[a] < #[trigger] places[b],
        forall|i: int|
            0 <= i < n && bucket(fl, exprs, s, (#[trigger] rows[i]).0) == p ==> places.contains(i),
    decreases n,
{
    if n == 0 {
        Seq::empty()
    } else {
        let before = lemma_bucket_places(fl, exprs, s, rows, p, n - 1);
        if bucket(fl, exprs, s, rows[n - 1].0) == p {
            let places = before.push(n - 1);
            let (now, was) = (
                bucket_rows(fl, exprs, s, rows, p, n),
                bucket_rows(fl, exprs, s, rows, p, n - 1),
            );
            assert forall|a: int| 0 <= a < places.len() implies 0 <= #[trigger] places[a] < n
                && now[a].0 == rows[places[a]].0 && bucket(fl, exprs, s, rows[places[a]].0)
                == p by {
                if a < before.len() {
                    assert(places[a] == before[a] && now[a] == was[a]);
                }
            }
            assert forall|i: int|
                0 <= i < n && bucket(
                    fl,
                    exprs,
                    s,
                    (#[trigger] rows[i]).0,
                ) == p implies places.contains(i) by {
                if i < n - 1 {
                    let a = choose|a: int| 0 <= a < before.len() && before[a] == i;
                    assert(places[a] == i);
                } else {
                    assert(places[before.len() as int] == i);
                }
            }
            places
        } else {
            before
        }
    }
}

/// The origins are distinct.
pub open spec fn origins_differ(os: Seq<Origin>) -> bool {
    forall|a: int, b: int| 0 <= a < b < os.len() ==> #[trigger] os[a] != #[trigger] os[b]
}

/// Each row has its origin.
pub open spec fn rows_have_origins(
    j: HashJoinView,
    lefts: Seq<RowView>,
    rights: Seq<RowView>,
    os: Seq<Origin>,
    rows: Seq<RowView>,
) -> bool {
    &&& os.len() == rows.len()
    &&& forall|a: int|
        0 <= a < os.len() ==> joins_both(j, lefts, rights, #[trigger] os[a], rows[a])
}

/// The matches of right row `k` among the first `n` left rows.
proof fn lemma_matches(
    j: HashJoinView,
    fl: spec_fn(FloatOp, u32, u32) -> u32,
    lefts: Seq<RowView>,
    rights: Seq<RowView>,
    k: int,
    n: int,
) -> (os: Seq<Origin>)
    requires
        j.out.wf(),
        0 <= k < rights.len(),
        0 <= n <= lefts.len(),
        flat(j.match_part(fl, lefts, rights[k]), n).error is None,
    ensures
        rows_have_origins(
            j,
            lefts,
            rights,
            os,
            flat(j.match_part(fl, lefts, rights[k]), n).rows,
        ),
        origins_differ(os),
        forall|o: Origin| #[trigger]
            os.contains(o) <==> o.1 == Some(k) && 0 <= o.0 < n && j.agree(
                fl,
                lefts[o.0],
                rights[k],
            ),
    decreases n,
{
    let f = j.match_part(fl, lefts, rights[k]);
    if n == 0 {
        Seq::empty()
    } else {
        let before = lemma_matches(j, fl, lefts, rights, k, n - 1);
        let (was, now) = (flat(f, n - 1).rows, flat(f, n).rows);
        if j.agree(fl, lefts[n - 1], rights[k]) {
            lemma_joined(j.out, j.left, lefts[n - 1].0, j.right, Some(rights[k].0));
            let os = before.push((n - 1, Some(k)));
            assert(now.len() == was.len() + 1);
            assert forall|a: int| 0 <= a < os.len() implies joins_both(
                j,
                lefts,
                rights,
                #[trigger] os[a],
                now[a],
            ) by {
                if a < before.len() {
                    assert(os[a] == before[a] && now[a] == was[a]);
                }
            }
            lemma_push_contains(before, (n - 1, Some(k)));
            assert forall|a: int, b: int| 0 <= a < b < os.len() implies #[trigger] os[a]
                != #[trigger] os[b] by {
                assert(before.contains(before[a]));
                if b == before.len() {
                    assert(os[a] == before[a]);
                }
            }
            os
        } else {
            assert(now =~= was);
            before
        }
    }
}

proof fn lemma_push_contains(s: Seq<Origin>, x: Origin)
    ensures
        forall|o: Origin| #[trigger] s.push(x).contains(o) <==> o == x || s.contains(o),
{
    assert forall|o: Origin| #[trigger] s.push(x).contains(o) <==> o == x || s.contains(o) by {
        if s.push(x).contains(o) {
            let a = choose|a: int| 0 <= a < s.push(x).len() && s.push(x)[a] == o;
            if a < s.len() {
                assert(s[a] == o);
            }
        }
        if o == x {
            assert(s.push(x)[s.len() as int] == o);
        }
        if s.contains(o) {
            let a = choose|a: int| 0 <= a < s.len() && s[a] == o;
            assert(s.push(x)[a] == o);
        }
    }
}

/// From the last to the first, the rows keep their origins.
proof fn lemma_from_the_back(
    j: HashJoinView,
    lefts: Seq<RowView>,
    rights: Seq<RowView>,
    os: Seq<Origin>,
    s: StreamView,
)
    requires
        s.error is None,
        rows_have_origins(j, lefts, rights, os, s.rows),
        origins_differ(os),
    ensures
        rows_have_origins(j, lefts, rights, os.reverse(), from_the_back(s).rows),
        origins_differ(os.reverse()),
        forall|o: Origin| #[trigger] os.reverse().contains(o) <==> os.contains(o),
{
    let back = os.reverse();
    let n = os.len() as int;
    assert forall|a: int| 0 <= a < back.len() implies joins_both(
        j,
        lefts,
        rights,
        #[trigger] back[a],
        from_the_back(s).rows[a],
    ) by {
        assert(back[a] == os[n - 1 - a]);
    }
    assert forall|a: int, b: int| 0 <= a < b < back.len() implies #[trigger] back[a]
        != #[trigger] back[b] by {
        assert(os[n - 1 - b] != os[n - 1 - a]);
    }
    assert forall|o: Origin| #[trigger] back.contains(o) <==> os.contains(o) by {
        if back.contains(o) {
            let a = choose|a: int| 0 <= a < back.len() && back[a] == o;
            assert(os[n - 1 - a] == o);
        }
        if os.contains(o) {
            let a = choose|a: int| 0 <= a < os.len() && os[a] == o;
            assert(back[n - 1 - a] == o);
        }
    }
}

/// Rows with origins behind others whose origins are different.
proof fn lemma_behind(
    j: HashJoinView,
    lefts: Seq<RowView>,
    rights: Seq<RowView>,
    a: Seq<Origin>,
    arows: Seq<RowView>,
    b: Seq<Origin>,
    brows: Seq<RowView>,
)
    requires
        rows_have_origins(j, lefts, rights, a, arows),
        rows_have_origins(j, lefts, rights, b, brows),
        origins_differ(a),
        origins_differ(b),
        forall|o: Origin| #[trigger] a.contains(o) ==> !b.contains(o),
    ensures
        rows_have_origins(j, lefts, rights, a + b, arows + brows),
        origins_differ(a + b),
        forall|o: Origin| #[trigger] (a + b).contains(o) <==> a.contains(o) || b.contains(o),
{
    let both = a + b;
    assert forall|x: int| 0 <= x < both.len() implies joins_both(
        j,
        lefts,
        rights,
        #[trigger] both[x],
        (arows + brows)[x],
    ) by {
        if x < a.len() {
            assert(both[x] == a[x]);
        } else {
            assert(both[x] == b[x - a.len()]);
        }
    }
    assert forall|x: int, y: int| 0 <= x < y < both.len() implies #[trigger] both[x]
        != #[trigger] both[y] by {
        if y < a.len() {
            assert(a[x] != a[y]);
        } else if x < a.len() {
            assert(a.contains(a[x]));
            assert(b.contains(b[y - a.len()]));
        } else {
            assert(b[x - a.len()] != b[y - a.len()]);
        }
    }
    assert forall|o: Origin| #[trigger] both.contains(o) <==> a.contains(o) || b.contains(o) by {
        if both.contains(o) {
            let x = choose|x: int| 0 <= x < both.len() && both[x] == o;
            if x < a.len() {
                assert(a[x] == o);
            } else {
                assert(b[x - a.len()] == o);
            }
        }
        if a.contains(o) {
            let x = choose|x: int| 0 <= x < a.len() && a[x] == o;
            assert(both[x] == o);
        }
        if b.contains(o) {
            let x = choose|x: int| 0 <= x < b.len() && b[x] == o;
            assert(both[a.len() + x] == o);
        }
    }
}

/// The matches of the first `m` right rows.
proof fn lemma_rights(
    j: HashJoinView,
    fl: spec_fn(FloatOp, u32, u32) -> u32,
    lefts: Seq<RowView>,
    rights: Seq<RowView>,
    m: int,
) -> (os: Seq<Origin>)
    requires
        j.out.wf(),
        0 <= m <= rights.len(),
        flat(j.rights_part(fl, lefts, rights), m).error is None,
    ensures
        rows_have_origins(j, lefts, rights, os, flat(j.rights_part(fl, lefts, rights), m).rows),
        origins_differ(os),
        forall|o: Origin| #[trigger]
            os.contains(o) <==> (o.1 matches Some(k) && 0 <= k < m && 0 <= o.0 < lefts.len()
                && j.agree(fl, lefts[o.0], rights[k])),
    decreases m,
{
    let f = j.rights_part(fl, lefts, rights);
    if m == 0 {
        Seq::empty()
    } else {
        let before = lemma_rights(j, fl, lefts, rights, m - 1);
        let own = flat(j.match_part(fl, lefts, rights[m - 1]), lefts.len() as int);
        assert(f(m - 1) == from_the_back(own));
        assert(own.error is None);
        let os = lemma_matches(j, fl, lefts, rights, m - 1, lefts.len() as int);
        lemma_from_the_back(j, lefts, rights, os, own);
        lemma_behind(
            j,
            lefts,
            rights,
            before,
            flat(f, m - 1).rows,
            os.reverse(),
            f(m - 1).rows,
        );
        before + os.reverse()
    }
}

/// The first `n` left rows without a match.
proof fn lemma_alone(
    j: HashJoinView,
    fl: spec_fn(FloatOp, u32, u32) -> u32,
    lefts: Seq<RowView>,
    rights: Seq<RowView>,
    n: int,
) -> (os: Seq<Origin>)
    requires
        j.out.wf(),
        0 <= n <= lefts.len(),
        flat(j.unmatched_part(fl, lefts, rights), n).error is None,
    ensures
        rows_have_origins(j, lefts, rights, os, flat(j.unmatched_part(fl, lefts, rights), n).rows),
        origins_differ(os),
        forall|o: Origin| #[trigger]
            os.contains(o) <==> o.1 is None && 0 <= o.0 < n && j.unmatched(fl, lefts[o.0], rights),
    decreases n,
{
    let f = j.unmatched_part(fl, lefts, rights);
    if n == 0 {
        Seq::empty()
    } else {
        let before = lemma_alone(j, fl, lefts, rights, n - 1);
        let (was, now) = (flat(f, n - 1).rows, flat(f, n).rows);
        if j.unmatched(fl, lefts[n - 1], rights) {
            lemma_joined(j.out, j.left, lefts[n - 1].0, j.right, None);
            let os = before.push((n - 1, None));
            assert(now.len() == was.len() + 1);
            assert forall|a: int| 0 <= a < os.len() implies joins_both(
                j,
                lefts,
                rights,
                #[trigger] os[a],
                now[a],
            ) by {
                if a < before.len() {
                    assert(os[a] == before[a] && now[a] == was[a]);
                }
            }
            lemma_push_contains(before, (n - 1, None));
            assert forall|a: int, b: int| 0 <= a < b < os.len() implies #[trigger] os[a]
                != #[trigger] os[b] by {
                assert(before.contains(before[a]));
                if b == before.len() {
                    assert(os[a] == before[a]);
                }
            }
            os
        } else {
            assert(now =~= was);
            before
        }
    }
}

/// The pair belongs to the join: the keys agree, or for a left join the left row has no match.
pub open spec fn is_origin(
    j: HashJoinView,
    fl: spec_fn(FloatOp, u32, u32) -> u32,
    lefts: Seq<RowView>,
    rights: Seq<RowView>,
    o: Origin,
) -> bool {
    &&& 0 <= o.0 < lefts.len()
    &&& match o.1 {
        Some(k) => 0 <= k < rights.len() && j.agree(fl, lefts[o.0], rights[k]),
        None => j.join_type == JoinType::Left && j.unmatched(fl, lefts[o.0], rights),
    }
}

proof fn lemma_partition(
    j: HashJoinView,
    fl: spec_fn(FloatOp, u32, u32) -> u32,
    lefts: Seq<RowView>,
    rights: Seq<RowView>,
) -> (os: Seq<Origin>)
    requires
        j.out.wf(),
        j.partition_stream(fl, lefts, rights).error is None,
    ensures
        rows_have_origins(j, lefts, rights, os, j.partition_stream(fl, lefts, rights).rows),
        origins_differ(os),
        forall|o: Origin| #[trigger] os.contains(o) <==> is_origin(j, fl, lefts, rights, o),
{
    let matches = lemma_rights(j, fl, lefts, rights, rights.len() as int);
    if j.join_type == JoinType::Left {
        let rest = flat(j.unmatched_part(fl, lefts, rights), lefts.len() as int);
        assert(rest.error is None);
        let alone = lemma_alone(j, fl, lefts, rights, lefts.len() as int);
        lemma_from_the_back(j, lefts, rights, alone, rest);
        lemma_behind(
            j,
            lefts,
            rights,
            matches,
            flat(j.rights_part(fl, lefts, rights), rights.len() as int).rows,
            alone.reverse(),
            from_the_back(rest).rows,
        );
        matches + alone.reverse()
    } else {
        matches
    }
}

/// An origin among the rows of a partition, among all rows.
spec fn placed(lplaces: Seq<int>, rplaces: Seq<int>, o: Origin) -> Origin {
    (
        lplaces[o.0],
        match o.1 {
            Some(k) => Some(rplaces[k]),
            None => None,
        },
    )
}

/// Rows with agreeing keys are in one partition.
proof fn lemma_same_bucket(
    j: HashJoinView,
    fl: spec_fn(FloatOp, u32, u32) -> u32,
    l: RowView,
    r: RowView,
)
    requires
        j.agree(fl, l, r),
    ensures
        bucket(fl, j.left_exprs, j.left, l.0) == bucket(fl, j.right_exprs, j.right, r.0),
{
    law_hash_agrees(j.left_key(fl, l), j.right_key(fl, r));
}

/// What belongs to the join within a partition belongs to it among all rows, and the other way
/// round where the left row is in the partition.
proof fn lemma_placed_origin(
    j: HashJoinView,
    fl: spec_fn(FloatOp, u32, u32) -> u32,
    lefts: Seq<RowView>,
    rights: Seq<RowView>,
    lb: Seq<RowView>,
    rb: Seq<RowView>,
    lplaces: Seq<int>,
    rplaces: Seq<int>,
    p: int,
    o: Origin,
)
    requires
        lplaces.len() == lb.len(),
        rplaces.len() == rb.len(),
        forall|a: int|
            0 <= a < lb.len() ==> 0 <= #[trigger] lplaces[a] < lefts.len() && lb[a].0
                == lefts[lplaces[a]].0 && bucket(fl, j.left_exprs, j.left, lb[a].0) == p,
        forall|a: int|
            0 <= a < rb.len() ==> 0 <= #[trigger] rplaces[a] < rights.len() && rb[a].0
                == rights[rplaces[a]].0,
        forall|k: int|
            0 <= k < rights.len() && bucket(
                fl,
                j.right_exprs,
                j.right,
                (#[trigger] rights[k]).0,
            ) == p ==> rplaces.contains(k),
        0 <= o.0 < lb.len(),
        o.1 matches Some(k) ==> 0 <= k < rb.len(),
    ensures
        is_origin(j, fl, lb, rb, o) <==> is_origin(j, fl, lefts, rights, placed(lplaces, rplaces, o)),
{
    let l = lefts[lplaces[o.0]];
    assert(lb[o.0].0 == l.0);
    match o.1 {
        Some(k) => {
            assert(rb[k].0 == rights[rplaces[k]].0);
        },
        None => {
            if j.unmatched(fl, lb[o.0], rb) {
                assert forall|k: int| 0 <= k < rights.len() implies !j.agree(
                    fl,
                    l,
                    #[trigger] rights[k],
                ) by {
                    if j.agree(fl, l, rights[k]) {
                        lemma_same_bucket(j, fl, l, rights[k]);
                        let b = choose|b: int| 0 <= b < rplaces.len() && rplaces[b] == k;
                        assert(rb[b].0 == rights[k].0);
                        assert(!j.agree(fl, lb[o.0], rb[b]));
                    }
                }
            }
            if j.unmatched(fl, l, rights) {
                assert forall|b: int| 0 <= b < rb.len() implies !j.agree(
                    fl,
                    lb[o.0],
                    #[trigger] rb[b],
                ) by {
                    assert(0 <= rplaces[b] < rights.len());
                    assert(!j.agree(fl, l, rights[rplaces[b]]));
                }
            }
        },
    }
}

proof fn lemma_placed_partition(
    j: HashJoinView,
    fl: spec_fn(FloatOp, u32, u32) -> u32,
    lefts: Seq<RowView>,
    rights: Seq<RowView>,
    p: int,
) -> (os: Seq<Origin>)
    requires
        j.out.wf(),
        j.partitions_part(fl, lefts, rights)(p).error is None,
    ensures
        rows_have_origins(j, lefts, rights, os, j.partitions_part(fl, lefts, rights)(p).rows),
        origins_differ(os),
        forall|o: Origin| #[trigger]
            os.contains(o) <==> is_origin(j, fl, lefts, rights, o) && bucket(
                fl,
                j.left_exprs,
                j.left,
                lefts[o.0].0,
            ) == p,
{
    let lplaces = lemma_bucket_places(
        fl,
        j.left_exprs,
        j.left,
        lefts,
        p,
        lefts.len() as int,
    );
    let rplaces = lemma_bucket_places(
        fl,
        j.right_exprs,
        j.right,
        rights,
        p,
        rights.len() as int,
    );
    let lb = bucket_rows(fl, j.left_exprs, j.left, lefts, p, lefts.len() as int);
    let rb = bucket_rows(fl, j.right_exprs, j.right, rights, p, rights.len() as int);
    let inner = lemma_partition(j, fl, lb, rb);
    let os: Seq<Origin> = Seq::new(inner.len(), |a: int| placed(lplaces, rplaces, inner[a]));
    let rows = j.partitions_part(fl, lefts, rights)(p).rows;
    assert forall|a: int| 0 <= a < os.len() implies joins_both(
        j,
        lefts,
        rights,
        #[trigger] os[a],
        rows[a],
    ) by {
        assert(joins_both(j, lb, rb, inner[a], rows[a]));
        let o = inner[a];
        assert(lb[o.0].0 == lefts[lplaces[o.0]].0);
        if o.1 is Some {
            assert(rb[o.1->0].0 == rights[rplaces[o.1->0]].0);
        }
    }
    assert forall|a: int, b: int| 0 <= a < b < os.len() implies #[trigger] os[a]
        != #[trigger] os[b] by {
        let (x, y) = (inner[a], inner[b]);
        assert(joins_both(j, lb, rb, x, rows[a]) && joins_both(j, lb, rb, y, rows[b]));
        assert(x != y);
        if x.0 < y.0 {
            assert(lplaces[x.0] < lplaces[y.0]);
        } else if y.0 < x.0 {
            assert(lplaces[y.0] < lplaces[x.0]);
        } else if x.1 is Some && y.1 is Some {
            if x.1->0 < y.1->0 {
                assert(rplaces[x.1->0] < rplaces[y.1->0]);
            } else {
                assert(rplaces[y.1->0] < rplaces[x.1->0]);
            }
        }
    }
    assert forall|o: Origin| #[trigger] os.contains(o) <==> is_origin(j, fl, lefts, rights, o)
        && bucket(fl, j.left_exprs, j.left, lefts[o.0].0) == p by {
        if os.contains(o) {
            let a = choose|a: int| 0 <= a < os.len() && os[a] == o;
            assert(inner.contains(inner[a]));
            assert(is_origin(j, fl, lb, rb, inner[a]));
            lemma_placed_origin(
                j,
                fl,
                lefts,
                rights,
                lb,
                rb,
                lplaces,
                rplaces,
                p,
                inner[a],
            );
            assert(lb[inner[a].0].0 == lefts[lplaces[inner[a].0]].0);
        }
        if is_origin(j, fl, lefts, rights, o) && bucket(fl, j.left_exprs, j.left, lefts[o.0].0)
            == p {
            assert(lplaces.contains(o.0));
            let x = choose|x: int| 0 <= x < lplaces.len() && lplaces[x] == o.0;
            let y: Option<int> = match o.1 {
                Some(k) => {
                    lemma_same_bucket(j, fl, lefts[o.0], rights[k]);
                    assert(rplaces.contains(k));
                    Some(choose|y: int| 0 <= y < rplaces.len() && rplaces[y] == k)
                },
                None => None,
            };
            assert(placed(lplaces, rplaces, (x, y)) == o);
            lemma_placed_origin(j, fl, lefts, rights, lb, rb, lplaces, rplaces, p, (x, y));
            assert(inner.contains((x, y)));
            let a = choose|a: int| 0 <= a < inner.len() && inner[a] == (x, y);
            assert(os[a] == o);
        }
    }
    os
}

proof fn lemma_partitions(
    j: HashJoinView,
    fl: spec_fn(FloatOp, u32, u32) -> u32,
    lefts: Seq<RowView>,
    rights: Seq<RowView>,
    n: int,
) -> (os: Seq<Origin>)
    requires
        j.out.wf(),
        0 <= n,
        flat(j.partitions_part(fl, lefts, rights), n).error is None,
    ensures
        rows_have_origins(
            j,
            lefts,
            rights,
            os,
            flat(j.partitions_part(fl, lefts, rights), n).rows,
        ),
        origins_differ(os),
        forall|o: Origin| #[trigger]
            os.contains(o) <==> is_origin(j, fl, lefts, rights, o) && 0 <= bucket(
                fl,
                j.left_exprs,
                j.left,
                lefts[o.0].0,
            ) < n,
    decreases n,
{
    let f = j.partitions_part(fl, lefts, rights);
    if n == 0 {
        Seq::empty()
    } else {
        let before = lemma_partitions(j, fl, lefts, rights, n - 1);
        let own = lemma_placed_partition(j, fl, lefts, rights, n - 1);
        lemma_behind(
            j,
            lefts,
            rights,
            before,
            flat(f, n - 1).rows,
            own,
            f(n - 1).rows,
        );
        before + own
    }
}

/// All pairs of key expressions have values on the two rows, and they agree, NULL with NULL.
pub open spec fn keys_meet(
    j: HashJoinView,
    fl: spec_fn(FloatOp, u32, u32) -> u32,
    l: RowView,
    r: RowView,
) -> bool {
    &&& j.left_exprs.len() == j.right_exprs.len()
    &&& forall|i: int|
        0 <= i < j.left_exprs.len() ==> (eval(fl, #[trigger] j.left_exprs[i], l.0, j.left) matches Ok(
            v,
        ) && (eval(fl, j.right_exprs[i], r.0, j.right) matches Ok(w) && option_eq(v, w)))
}

/// No right row meets the left one.
pub open spec fn meets_none(
    j: HashJoinView,
    fl: spec_fn(FloatOp, u32, u32) -> u32,
    l: RowView,
    rights: Seq<RowView>,
) -> bool {
    forall|k: int| 0 <= k < rights.len() ==> !keys_meet(j, fl, l, #[trigger] rights[k])
}

proof fn lemma_keys_meet(
    j: HashJoinView,
    fl: spec_fn(FloatOp, u32, u32) -> u32,
    l: RowView,
    r: RowView,
)
    requires
        eval_all(fl, j.left_exprs, l.0, j.left) is Ok,
        eval_all(fl, j.right_exprs, r.0, j.right) is Ok,
    ensures
        j.agree(fl, l, r) <==> keys_meet(j, fl, l, r),
{
    lemma_eval_all(fl, j.left_exprs, l.0, j.left);
    lemma_eval_all(fl, j.right_exprs, r.0, j.right);
    let (a, b) = (j.left_key(fl, l), j.right_key(fl, r));
    if j.agree(fl, l, r) {
        assert forall|i: int| 0 <= i < j.left_exprs.len() implies (eval(
            fl,
            #[trigger] j.left_exprs[i],
            l.0,
            j.left,
        ) matches Ok(v) && (eval(fl, j.right_exprs[i], r.0, j.right) matches Ok(w) && option_eq(
            v,
            w,
        ))) by {
            assert(option_eq(a[i], b[i]));
            assert(eval(fl, j.right_exprs[i], r.0, j.right) == Ok::<Option<Value>, Seq<char>>(
                b[i],
            ));
        }
    }
    if keys_meet(j, fl, l, r) {
        assert forall|i: int| 0 <= i < a.len() implies option_eq(#[trigger] a[i], b[i]) by {
            assert(eval(fl, j.left_exprs[i], l.0, j.left) is Ok);
            assert(eval(fl, j.right_exprs[i], r.0, j.right) is Ok);
        }
    }
}

/// A hash join that does not fail gives one row for each pair of a left and a right row on which
/// all key expressions agree, and for a left join one row with NULLs for each left row that meets
/// no right row: each once, and no other. A row holds the columns of the left row, then those of
/// the right one. The origins of the rows are returned.
pub proof fn law_hash_join_pairs(
    j: HashJoinView,
    fl: spec_fn(FloatOp, u32, u32) -> u32,
    left: StreamView,
    right: StreamView,
    ids: int,
) -> (origins: Seq<Origin>)
    requires
        j.out.wf(),
        hash_join_stream(fl, j, left, right, ids).error is None,
    ensures
        rows_have_origins(
            j,
            left.rows,
            right.rows,
            origins,
            hash_join_stream(fl, j, left, right, ids).rows,
        ),
        origins_differ(origins),
        forall|i: int, k: int|
            0 <= i < left.rows.len() && 0 <= k < right.rows.len() ==> (#[trigger] origins.contains(
                (i, Some(k)),
            ) <==> keys_meet(j, fl, left.rows[i], right.rows[k])),
        forall|i: int|
            0 <= i < left.rows.len() ==> (#[trigger] origins.contains((i, None)) <==> j.join_type
                == JoinType::Left && meets_none(j, fl, left.rows[i], right.rows)),
{
    let (lefts, rights) = (left.rows, right.rows);
    lemma_filed_keys(fl, j.left_exprs, j.left, lefts, lefts.len() as int);
    lemma_filed_keys(fl, j.right_exprs, j.right, rights, rights.len() as int);
    let os = lemma_partitions(j, fl, lefts, rights, PARTITIONS as int);
    assert forall|o: Origin| #[trigger] os.contains(o) <==> is_origin(
        j,
        fl,
        lefts,
        rights,
        o,
    ) by {
        let b = bucket(fl, j.left_exprs, j.left, lefts[o.0].0);
        assert(0 <= b < PARTITIONS);
    }
    assert forall|i: int, k: int| 0 <= i < lefts.len() && 0 <= k < rights.len() implies (
    #[trigger] os.contains((i, Some(k))) <==> keys_meet(j, fl, lefts[i], rights[k])) by {
        lemma_keys_meet(j, fl, lefts[i], rights[k]);
    }
    assert forall|i: int| 0 <= i < lefts.len() implies (#[trigger] os.contains((i, None))
        <==> j.join_type == JoinType::Left && meets_none(j, fl, lefts[i], rights)) by {
        assert forall|k: int| 0 <= k < rights.len() implies j.agree(
            fl,
            lefts[i],
            #[trigger] rights[k],
        ) == keys_meet(j, fl, lefts[i], rights[k]) by {
            lemma_keys_meet(j, fl, lefts[i], rights[k]);
        }
    }
    os
}

} // verus!
