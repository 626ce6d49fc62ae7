//! Stable sorting of rows by expressions.
use vstd::prelude::*;

use crate::catalog::index_schema::KeyOrder;
use crate::catalog::schema::{Schema, SchemaView};
use crate::catalog::value::{option_is_before, option_lt, Value};
use crate::processor::expression::{computes, eval, results, Expression, FloatOp};
use crate::processor::stream::{clone_tuple, row_view, row_views, RowView};
use crate::table_heap::{RecordId, Tuple};

verus! {

/// The values by which a tuple is sorted. An expression that fails counts as NULL.
pub open spec fn sort_key(
    fl: spec_fn(FloatOp, u32, u32) -> u32,
    exprs: Seq<Expression>,
    data: Seq<u8>,
    s: SchemaView,
) -> Seq<Option<Value>> {
    Seq::new(
        exprs.len(),
        |i: int|
            match eval(fl, exprs[i], data, s) {
                Ok(v) => v,
                Err(_) => None,
            },
    )
}

pub open spec fn sort_keys(
    fl: spec_fn(FloatOp, u32, u32) -> u32,
    exprs: Seq<Expression>,
    rows: Seq<RowView>,
    s: SchemaView,
) -> Seq<Seq<Option<Value>>> {
    Seq::new(rows.len(), |i: int| sort_key(fl, exprs, rows[i].0, s))
}

/// From position `i` on, `a` comes before `b`.
pub open spec fn keys_lt_from(a: Seq<Option<Value>>, b: Seq<Option<Value>>, i: int) -> bool
    decreases a.len() - i,
{
    if i < 0 || i >= a.len() || i >= b.len() {
        false
    } else if option_lt(a[i], b[i]) {
        true
    } else if option_lt(b[i], a[i]) {
        false
    } else {
        keys_lt_from(a, b, i + 1)
    }
}

/// Keys are ordered by the first values in which they differ.
pub open spec fn keys_lt(a: Seq<Option<Value>>, b: Seq<Option<Value>>) -> bool {
    keys_lt_from(a, b, 0)
}

/// Row `i` comes before row `j`: its key does, or their keys do not differ and it came first.
pub open spec fn row_before(keys: Seq<Seq<Option<Value>>>, i: int, j: int) -> bool {
    keys_lt(keys[i], keys[j]) || (!keys_lt(keys[j], keys[i]) && i < j)
}

/// `order` lists the rows `lo` to `hi - 1` in the order of their keys.
pub open spec fn sorted_part(
    keys: Seq<Seq<Option<Value>>>,
    order: Seq<int>,
    lo: int,
    hi: int,
) -> bool {
    &&& order.len() == hi - lo
    &&& forall|x: int| 0 <= x < order.len() ==> lo <= #[trigger] order[x] < hi
    &&& forall|x: int, y: int|
        0 <= x < y < order.len() ==> row_before(keys, #[trigger] order[x], #[trigger] order[y])
}

/// The rows in the order that `order` lists them.
pub open spec fn arranged(rows: Seq<RowView>, order: Seq<int>) -> Seq<RowView> {
    Seq::new(order.len(), |i: int| rows[order[i]])
}

/// `out` holds the rows sorted by their keys; rows whose keys do not differ stay in order.
pub open spec fn is_stable_sort(
    keys: Seq<Seq<Option<Value>>>,
    rows: Seq<RowView>,
    out: Seq<RowView>,
) -> bool {
    exists|order: Seq<int>| #[trigger]
        sorted_part(keys, order, 0, rows.len() as int) && out == arranged(rows, order)
}

proof fn lemma_value_steps(a: Option<Value>, b: Option<Value>, c: Option<Value>)
    ensures
        option_lt(a, b) && option_lt(b, c) ==> option_lt(a, c),
        option_lt(a, b) && !option_lt(c, b) ==> option_lt(a, c),
        !option_lt(b, a) && option_lt(b, c) ==> option_lt(a, c),
        !option_lt(b, a) && !option_lt(c, b) ==> !option_lt(c, a),
        !(option_lt(a, b) && option_lt(b, a)),
{
}

/// The order of keys is strict, and keys that do not differ stand at the same place in it.
pub(crate) proof fn lemma_keys_weak_from(
    a: Seq<Option<Value>>,
    b: Seq<Option<Value>>,
    c: Seq<Option<Value>>,
    i: int,
)
    requires
        a.len() == b.len() == c.len(),
        0 <= i,
    ensures
        !(keys_lt_from(a, b, i) && keys_lt_from(b, a, i)),
        keys_lt_from(a, b, i) && keys_lt_from(b, c, i) ==> keys_lt_from(a, c, i),
        keys_lt_from(a, b, i) && !keys_lt_from(c, b, i) ==> keys_lt_from(a, c, i),
        !keys_lt_from(b, a, i) && keys_lt_from(b, c, i) ==> keys_lt_from(a, c, i),
        !keys_lt_from(b, a, i) && !keys_lt_from(c, b, i) ==> !keys_lt_from(c, a, i),
    decreases a.len() - i,
{
    if i < a.len() {
        lemma_keys_weak_from(a, b, c, i + 1);
        lemma_value_steps(a[i], b[i], c[i]);
        lemma_value_steps(c[i], b[i], a[i]);
        lemma_value_steps(b[i], a[i], c[i]);
        lemma_value_steps(a[i], c[i], b[i]);
    }
}

/// The order of rows is total and transitive.
pub proof fn lemma_row_order(keys: Seq<Seq<Option<Value>>>, i: int, j: int, k: int)
    requires
        keys[i].len() == keys[j].len() == keys[k].len(),
    ensures
        row_before(keys, i, j) && row_before(keys, j, k) ==> row_before(keys, i, k),
        !(row_before(keys, i, j) && row_before(keys, j, i)),
        i != j ==> row_before(keys, i, j) || row_before(keys, j, i),
{
    lemma_keys_weak_from(keys[i], keys[j], keys[k], 0);
    lemma_keys_weak_from(keys[j], keys[i], keys[k], 0);
}

/// A list of rows in order lists each of them once.
pub(crate) proof fn lemma_order_covers(keys: Seq<Seq<Option<Value>>>, order: Seq<int>, n: int)
    requires
        sorted_part(keys, order, 0, n),
        n <= keys.len(),
        forall|i: int, j: int|
            0 <= i < keys.len() && 0 <= j < keys.len() ==> #[trigger] keys[i].len()
                == #[trigger] keys[j].len(),
    ensures
        order.no_duplicates(),
        forall|i: int| 0 <= i < n ==> #[trigger] order.contains(i),
{
    assert forall|x: int, y: int|
        0 <= x < order.len() && 0 <= y < order.len() && x != y implies order[x] != order[y] by {
        if x < y {
            assert(row_before(keys, order[x], order[y]));
            lemma_row_order(keys, order[x], order[y], order[x]);
        } else {
            assert(row_before(keys, order[y], order[x]));
            lemma_row_order(keys, order[y], order[x], order[y]);
        }
    }
    order.unique_seq_to_set();
    let all = vstd::set_lib::set_int_range(0, n);
    vstd::set_lib::lemma_int_range(0, n);
    assert(order.to_set().subset_of(all));
    vstd::set_lib::lemma_subset_equality(order.to_set(), all);
    assert forall|i: int| 0 <= i < n implies #[trigger] order.contains(i) by {
        assert(all.contains(i));
        assert(order.to_set().contains(i));
    }
}

/// There is one way to sort rows that keeps rows with the same key in order.
pub proof fn law_stable_sort_is_unique(
    keys: Seq<Seq<Option<Value>>>,
    rows: Seq<RowView>,
    a: Seq<RowView>,
    b: Seq<RowView>,
)
    requires
        keys.len() == rows.len(),
        forall|i: int, j: int|
            0 <= i < keys.len() && 0 <= j < keys.len() ==> #[trigger] keys[i].len()
                == #[trigger] keys[j].len(),
        is_stable_sort(keys, rows, a),
        is_stable_sort(keys, rows, b),
    ensures
        a == b,
{
    let n = rows.len() as int;
    let p = choose|order: Seq<int>| #[trigger]
        sorted_part(keys, order, 0, n) && a == arranged(rows, order);
    let q = choose|order: Seq<int>| #[trigger]
        sorted_part(keys, order, 0, n) && b == arranged(rows, order);
    lemma_order_covers(keys, p, n);
    lemma_order_covers(keys, q, n);
    assert forall|m: int| 0 <= m <= n implies #[trigger] p.subrange(0, m) == q.subrange(0, m) by {
        lemma_same_prefix(keys, p, q, n, m);
    }
    assert(p.subrange(0, n) =~= p);
    assert(q.subrange(0, n) =~= q);
}

proof fn lemma_same_prefix(
    keys: Seq<Seq<Option<Value>>>,
    p: Seq<int>,
    q: Seq<int>,
    n: int,
    m: int,
)
    requires
        sorted_part(keys, p, 0, n),
        sorted_part(keys, q, 0, n),
        n <= keys.len(),
        forall|i: int, j: int|
            0 <= i < keys.len() && 0 <= j < keys.len() ==> #[trigger] keys[i].len()
                == #[trigger] keys[j].len(),
        p.no_duplicates(),
        q.no_duplicates(),
        forall|i: int| 0 <= i < n ==> #[trigger] p.contains(i),
        forall|i: int| 0 <= i < n ==> #[trigger] q.contains(i),
        0 <= m <= n,
    ensures
        p.subrange(0, m) == q.subrange(0, m),
    decreases m,
{
    if m > 0 {
        lemma_same_prefix(keys, p, q, n, m - 1);
        assert forall|i: int| 0 <= i < m - 1 implies p[i] == q[i] by {
            assert(p.subrange(0, m - 1)[i] == p[i]);
            assert(q.subrange(0, m - 1)[i] == q[i]);
        }
        let (x, y) = (p[m - 1], q[m - 1]);
        if x != y {
            assert(q.contains(x));
            let jx = choose|j: int| 0 <= j < q.len() && q[j] == x;
            assert(jx > m - 1) by {
                if jx < m - 1 {
                    assert(p[jx] == x);
                }
            }
            assert(p.contains(y));
            let jy = choose|j: int| 0 <= j < p.len() && p[j] == y;
            assert(jy > m - 1) by {
                if jy < m - 1 {
                    assert(q[jy] == y);
                }
            }
            assert(row_before(keys, q[m - 1], q[jx]));
            assert(row_before(keys, p[m - 1], p[jy]));
            lemma_row_order(keys, x, y, x);
        }
        assert(p.subrange(0, m) =~= p.subrange(0, m - 1).push(x));
        assert(q.subrange(0, m) =~= q.subrange(0, m - 1).push(y));
    } else {
        assert(p.subrange(0, 0) =~= q.subrange(0, 0));
    }
}

/// Sorting moves rows around: it neither adds nor loses one.
pub proof fn law_sort_keeps_rows(
    keys: Seq<Seq<Option<Value>>>,
    rows: Seq<RowView>,
    out: Seq<RowView>,
)
    requires
        keys.len() == rows.len(),
        forall|i: int, j: int|
            0 <= i < keys.len() && 0 <= j < keys.len() ==> #[trigger] keys[i].len()
                == #[trigger] keys[j].len(),
        is_stable_sort(keys, rows, out),
    ensures
        out.len() == rows.len(),
        forall|row: RowView| #[trigger] out.contains(row) <==> rows.contains(row),
{
    let n = rows.len() as int;
    let order = choose|order: Seq<int>| #[trigger]
        sorted_part(keys, order, 0, n) && out == arranged(rows, order);
    lemma_order_covers(keys, order, n);
    assert forall|row: RowView| #[trigger] out.contains(row) <==> rows.contains(row) by {
        if out.contains(row) {
            let x = choose|x: int| 0 <= x < out.len() && out[x] == row;
            assert(rows[order[x]] == row);
        }
        if rows.contains(row) {
            let i = choose|i: int| 0 <= i < rows.len() && rows[i] == row;
            assert(order.contains(i));
            let x = choose|x: int| 0 <= x < order.len() && order[x] == i;
            assert(out[x] == row);
        }
    }
}

/// How one tuple is ordered relative to another one.
pub fn compare_tuples<F: Fn(FloatOp, u32, u32) -> u32>(
    a: &Tuple,
    b: &Tuple,
    exprs: &Vec<Expression>,
    schema: &Schema,
    fl: &F,
) -> (res: KeyOrder)
    requires
        computes(*fl),
    ensures
        ({
            let ka = sort_key(results(*fl), exprs@, a.data@, schema@);
            let kb = sort_key(results(*fl), exprs@, b.data@, schema@);
            &&& res == KeyOrder::Less <==> keys_lt(ka, kb)
            &&& res == KeyOrder::Greater <==> keys_lt(kb, ka)
        }),
{
    let ghost ka = sort_key(results(*fl), exprs@, a.data@, schema@);
    let ghost kb = sort_key(results(*fl), exprs@, b.data@, schema@);
    let mut i: usize = 0;
    while i < exprs.len()
        invariant
            i <= exprs@.len(),
            computes(*fl),
            ka == sort_key(results(*fl), exprs@, a.data@, schema@),
            kb == sort_key(results(*fl), exprs@, b.data@, schema@),
            keys_lt(ka, kb) == keys_lt_from(ka, kb, i as int),
            keys_lt(kb, ka) == keys_lt_from(kb, ka, i as int),
        decreases exprs@.len() - i,
    {
        let va = match exprs[i].evaluate(a, schema, fl) {
            Ok(v) => v,
            Err(_) => None,
        };
        let vb = match exprs[i].evaluate(b, schema, fl) {
            Ok(v) => v,
            Err(_) => None,
        };
        proof {
            assert(va == ka[i as int]);
            assert(vb == kb[i as int]);
            lemma_value_steps(va, vb, va);
        }
        if option_is_before(&va, &vb) {
            return KeyOrder::Less;
        }
        if option_is_before(&vb, &va) {
            return KeyOrder::Greater;
        }
        i += 1;
    }
    KeyOrder::Equal
}

/// Every row of `order` from `x` on comes behind row `i`.
spec fn all_behind(keys: Seq<Seq<Option<Value>>>, i: int, order: Seq<int>, x: int) -> bool {
    forall|y: int| x <= y < order.len() ==> row_before(keys, i, #[trigger] order[y])
}

/// Merges two sorted parts. Of two rows whose keys do not differ, the one of the left part comes
/// first.
pub(crate) fn merge_rows<F: Fn(FloatOp, u32, u32) -> u32>(
    left: &Vec<(Tuple, RecordId)>,
    right: &Vec<(Tuple, RecordId)>,
    exprs: &Vec<Expression>,
    schema: &Schema,
    fl: &F,
    Ghost(rows): Ghost<Seq<RowView>>,
    Ghost(p): Ghost<Seq<int>>,
    Ghost(q): Ghost<Seq<int>>,
    Ghost(bounds): Ghost<(int, int, int)>,
) -> (res: (Vec<(Tuple, RecordId)>, Ghost<Seq<int>>))
    requires
        computes(*fl),
        0 <= bounds.0 <= bounds.1 <= bounds.2 <= rows.len(),
        sorted_part(sort_keys(results(*fl), exprs@, rows, schema@), p, bounds.0, bounds.1),
        sorted_part(sort_keys(results(*fl), exprs@, rows, schema@), q, bounds.1, bounds.2),
        row_views(left@) == arranged(rows, p),
        row_views(right@) == arranged(rows, q),
        left@.len() + right@.len() <= usize::MAX,
    ensures
        sorted_part(
            sort_keys(results(*fl), exprs@, rows, schema@),
            res.1@,
            bounds.0,
            bounds.2,
        ),
        row_views(res.0@) == arranged(rows, res.1@),
{
    let ghost keys = sort_keys(results(*fl), exprs@, rows, schema@);
    let mut out: Vec<(Tuple, RecordId)> = Vec::new();
    let ghost mut order: Seq<int> = Seq::empty();
    let mut i: usize = 0;
    let mut j: usize = 0;
    assert(row_views(out@) =~= arranged(rows, order));
    while i < left.len() || j < right.len()
        invariant
            i <= left@.len(),
            j <= right@.len(),
            left@.len() + right@.len() <= usize::MAX,
            computes(*fl),
            0 <= bounds.0 <= bounds.1 <= bounds.2 <= rows.len(),
            keys == sort_keys(results(*fl), exprs@, rows, schema@),
            sorted_part(keys, p, bounds.0, bounds.1),
            sorted_part(keys, q, bounds.1, bounds.2),
            row_views(left@) == arranged(rows, p),
            row_views(right@) == arranged(rows, q),
            row_views(out@) == arranged(rows, order),
            order.len() == i + j,
            forall|x: int| 0 <= x < order.len() ==> bounds.0 <= #[trigger] order[x] < bounds.2,
            forall|x: int, y: int|
                0 <= x < y < order.len() ==> row_before(
                    keys,
                    #[trigger] order[x],
                    #[trigger] order[y],
                ),
            forall|x: int|
                0 <= x < order.len() ==> all_behind(keys, #[trigger] order[x], p, i as int)
                    && all_behind(keys, order[x], q, j as int),
        decreases left@.len() + right@.len() - i - j,
    {
        let take_left: bool = if i >= left.len() {
            false
        } else if j >= right.len() {
            true
        } else {
            match compare_tuples(&left[i].0, &right[j].0, exprs, schema, fl) {
                KeyOrder::Greater => false,
                _ => true,
            }
        };
        proof {
            lemma_part_views(left@, rows, p);
            lemma_part_views(right@, rows, q);
            lemma_head_first(keys, p, q, bounds, i as int, j as int, take_left);
        }
        let ghost before = order;
        let ghost out_before = out@;
        let ghost taken = if take_left { p[i as int] } else { q[j as int] };
        if take_left {
            out.push((clone_tuple(&left[i].0), left[i].1));
            i += 1;
        } else {
            out.push((clone_tuple(&right[j].0), right[j].1));
            j += 1;
        }
        proof {
            order = before.push(taken);
            assert(row_views(out@) =~= row_views(out_before).push(rows[taken]));
            assert(arranged(rows, order) =~= arranged(rows, before).push(rows[taken]));
            assert forall|x: int, y: int| 0 <= x < y < order.len() implies row_before(
                keys,
                #[trigger] order[x],
                #[trigger] order[y],
            ) by {
                if y == before.len() {
                    assert(all_behind(keys, before[x], p, if take_left { i - 1 } else { i as int }));
                    assert(all_behind(keys, before[x], q, if take_left { j as int } else { j - 1 }));
                } else {
                    assert(order[x] == before[x] && order[y] == before[y]);
                }
            }
            assert forall|x: int| 0 <= x < order.len() implies all_behind(
                keys,
                #[trigger] order[x],
                p,
                i as int,
            ) && all_behind(keys, order[x], q, j as int) by {
                if x < before.len() {
                    assert(order[x] == before[x]);
                }
            }
        }
    }
    proof {
        lemma_part_views(left@, rows, p);
        lemma_part_views(right@, rows, q);
    }
    (out, Ghost(order))
}

proof fn lemma_part_views(part: Seq<(Tuple, RecordId)>, rows: Seq<RowView>, p: Seq<int>)
    requires
        row_views(part) == arranged(rows, p),
    ensures
        part.len() == p.len(),
        forall|i: int| 0 <= i < part.len() ==> row_view(#[trigger] part[i]) == rows[p[i]],
{
    assert(row_views(part).len() == part.len());
    assert(arranged(rows, p).len() == p.len());
    assert forall|i: int| 0 <= i < part.len() implies row_view(#[trigger] part[i]) == rows[p[i]] by {
        assert(row_views(part)[i] == arranged(rows, p)[i]);
    }
}

/// The smaller of the two heads comes before all other rows that are left.
proof fn lemma_head_first(
    keys: Seq<Seq<Option<Value>>>,
    p: Seq<int>,
    q: Seq<int>,
    bounds: (int, int, int),
    i: int,
    j: int,
    take_left: bool,
)
    requires
        sorted_part(keys, p, bounds.0, bounds.1),
        sorted_part(keys, q, bounds.1, bounds.2),
        0 <= bounds.0 <= bounds.1 <= bounds.2 <= keys.len(),
        forall|a: int, b: int|
            0 <= a < keys.len() && 0 <= b < keys.len() ==> #[trigger] keys[a].len()
                == #[trigger] keys[b].len(),
        0 <= i <= p.len(),
        0 <= j <= q.len(),
        take_left ==> i < p.len() && (j < q.len() ==> !keys_lt(keys[q[j]], keys[p[i]])),
        !take_left ==> j < q.len() && (i < p.len() ==> keys_lt(keys[q[j]], keys[p[i]])),
    ensures
        take_left ==> all_behind(keys, p[i], p, i + 1) && all_behind(keys, p[i], q, j),
        !take_left ==> all_behind(keys, q[j], p, i) && all_behind(keys, q[j], q, j + 1),
{
    if take_left {
        if j < q.len() {
            assert(p[i] < bounds.1 <= q[j]);
            assert(row_before(keys, p[i], q[j]));
        }
        assert forall|y: int| j <= y < q.len() implies row_before(keys, p[i], #[trigger] q[y]) by {
            assert(p[i] < bounds.1 <= q[j]);
            if y > j {
                assert(row_before(keys, q[j], q[y]));
                lemma_row_order(keys, p[i], q[j], q[y]);
            }
        }
    } else {
        assert forall|y: int| i <= y < p.len() implies row_before(keys, q[j], #[trigger] p[y]) by {
            assert(row_before(keys, q[j], p[i]));
            if y > i {
                assert(row_before(keys, p[i], p[y]));
                lemma_row_order(keys, q[j], p[i], p[y]);
            }
        }
    }
}

/// Sorts the rows that stand at `lo` and behind it in `rows`.
pub(crate) fn sort_part<F: Fn(FloatOp, u32, u32) -> u32>(
    mut part: Vec<(Tuple, RecordId)>,
    exprs: &Vec<Expression>,
    schema: &Schema,
    fl: &F,
    Ghost(rows): Ghost<Seq<RowView>>,
    Ghost(lo): Ghost<int>,
) -> (res: (Vec<(Tuple, RecordId)>, Ghost<Seq<int>>))
    requires
        computes(*fl),
        0 <= lo,
        lo + part@.len() <= rows.len(),
        row_views(part@) == rows.subrange(lo, lo + part@.len()),
    ensures
        sorted_part(
            sort_keys(results(*fl), exprs@, rows, schema@),
            res.1@,
            lo,
            lo + part@.len(),
        ),
        row_views(res.0@) == arranged(rows, res.1@),
        res.0@.len() == part@.len(),
    decreases part@.len(),
{
    let n: usize = part.len();
    if n < 2 {
        let ghost order = Seq::new(n as nat, |x: int| lo + x);
        assert(row_views(part@) =~= arranged(rows, order));
        return (part, Ghost(order));
    }
    let mid: usize = n / 2;
    let ghost whole = part@;
    let right = part.split_off(mid);
    assert(row_views(part@) =~= rows.subrange(lo, lo + mid)) by {
        assert forall|x: int| 0 <= x < mid implies row_views(part@)[x] == rows[lo + x] by {
            assert(row_views(whole)[x] == rows.subrange(lo, lo + n)[x]);
        }
    }
    assert(row_views(right@) =~= rows.subrange(lo + mid, lo + n)) by {
        assert forall|x: int| 0 <= x < n - mid implies row_views(right@)[x] == rows[lo + mid + x] by {
            assert(row_views(whole)[mid + x] == rows.subrange(lo, lo + n)[mid + x]);
        }
    }
    let (a, Ghost(p)) = sort_part(part, exprs, schema, fl, Ghost(rows), Ghost(lo));
    let (b, Ghost(q)) = sort_part(right, exprs, schema, fl, Ghost(rows), Ghost(lo + mid));
    let (out, Ghost(order)) = merge_rows(
        &a,
        &b,
        exprs,
        schema,
        fl,
        Ghost(rows),
        Ghost(p),
        Ghost(q),
        Ghost((lo, lo + mid, lo + n)),
    );
    assert(row_views(out@).len() == order.len());
    (out, Ghost(order))
}

/// Sorts rows by the values of some expressions, keeping the order of rows that agree in all of
/// them.
pub fn sort_rows<F: Fn(FloatOp, u32, u32) -> u32>(
    rows: Vec<(Tuple, RecordId)>,
    exprs: &Vec<Expression>,
    schema: &Schema,
    fl: &F,
) -> (res: Vec<(Tuple, RecordId)>)
    requires
        computes(*fl),
    ensures
        res@.len() == rows@.len(),
        is_stable_sort(
            sort_keys(results(*fl), exprs@, row_views(rows@), schema@),
            row_views(rows@),
            row_views(res@),
        ),
{
    let ghost all = row_views(rows@);
    assert(all.subrange(0, rows@.len() as int) =~= all);
    let (out, Ghost(order)) = sort_part(rows, exprs, schema, fl, Ghost(all), Ghost(0));
    assert(sorted_part(
        sort_keys(results(*fl), exprs@, all, schema@),
        order,
        0,
        all.len() as int,
    ));
    out
}

} // verus!
