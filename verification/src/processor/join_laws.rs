//! Joining through an index and joining row by row give the same.
use vstd::prelude::*;

use crate::catalog::key_encoding::{key_of_values, law_composite_key_order, same_types, values_eq};
use crate::catalog::laws::lemma_table_at;
use crate::catalog::registry::{is_index, is_table};
use crate::catalog::schema::{law_tuple_roundtrip, lemma_row_field, null_at, SchemaView};
use crate::catalog::table_index::{columns_at, law_key_of_row, TableIndex};
use crate::catalog::value::{option_eq, value_eq, Value};
use crate::catalog::{Catalog, CatalogError};
use crate::index::tree_model::Pages;
use crate::planner::join_columns;
use crate::processor::change_laws::{lemma_live_contains, lemma_live_places};
use crate::processor::executor::{live_rows, table_stream};
use crate::processor::executor_factory::lemma_flat_same;
use crate::processor::expression::{boolean, eval_join, Expression, FloatOp};
use crate::processor::index_access::{
    index_join_stream, outer_matches, outers_part, stored_row, IndexJoinView,
};
use crate::processor::index_laws::{
    finds, indexes_mirror, is_encoded, is_indexed, mirrors, rows_encoded,
};
use crate::processor::join::{
    joined_tuple, left_matches, lefts_part, loop_join_stream, pair_part, JoinView,
};
use crate::processor::stream::{flat, one_row, rows_only, StreamView};
use crate::table_heap::lemma_slots_fit;

verus! {

/// The two joins are of the same tables under the same equality of a column of the outer table
/// and the indexed column of the inner one, both of one type.
pub open spec fn same_join(
    c: &Catalog,
    index_oid: u32,
    j: IndexJoinView,
    lj: JoinView,
    outer_col: u32,
    inner_col: u32,
) -> bool {
    let info = c.index(index_oid);
    &&& c.has_index(index_oid)
    &&& j.index == info.index
    &&& j.inner == c.table(info.table_oid)
    &&& j.source == c.table(info.table_oid).heap
    &&& j.outer.wf()
    &&& j.key matches Expression::Column { tuple_idx, col_idx, dtype } && tuple_idx == 0 && col_idx
        == outer_col
    &&& lj.join_type == j.join_type
    &&& lj.out == j.out
    &&& lj.left == j.outer
    &&& lj.right == j.inner.schema@
    &&& join_columns(lj.predicate) == Some((outer_col, inner_col))
    &&& info.index.indexed_col_idxs@ == seq![inner_col as usize]
    &&& outer_col < j.outer.cols.len()
    &&& j.outer.cols[outer_col as int].dtype == j.inner.schema@.cols[inner_col as int].dtype
}

/// The value of a column of an encoded row.
spec fn value_at(s: SchemaView, d: Seq<u8>, col: int) -> Option<Value> {
    s.field(d, col)->Ok_0
}

/// On encoded rows the equality of two columns can be told.
proof fn lemma_equal_columns(
    fl: spec_fn(FloatOp, u32, u32) -> u32,
    j: JoinView,
    outer_col: u32,
    inner_col: u32,
    l: Seq<u8>,
    r: Seq<u8>,
)
    requires
        j.left.wf(),
        j.right.wf(),
        is_encoded(j.left, l),
        is_encoded(j.right, r),
        join_columns(j.predicate) == Some((outer_col, inner_col)),
        outer_col < j.left.cols.len(),
        inner_col < j.right.cols.len(),
        j.left.cols[outer_col as int].dtype == j.right.cols[inner_col as int].dtype,
    ensures
        ({
            let (a, b) = (
                value_at(j.left, l, outer_col as int),
                value_at(j.right, r, inner_col as int),
            );
            &&& j.left.field(l, outer_col as int) == Ok::<Option<Value>, CatalogError>(a)
            &&& eval_join(fl, j.predicate, l, j.left, r, j.right) is Ok
            &&& (eval_join(fl, j.predicate, l, j.left, r, j.right) == Ok::<
                Option<Value>,
                Seq<char>,
            >(boolean(true))) == (a is Some && option_eq(a, b))
            &&& a matches Some(v) ==> v.dtype() == j.left.cols[outer_col as int].dtype
        }),
{
    let lv = choose|values: Seq<Option<Value>>|
        j.left.accepts(values) && l == #[trigger] j.left.row(values);
    let rv = choose|values: Seq<Option<Value>>|
        j.right.accepts(values) && r == #[trigger] j.right.row(values);
    law_tuple_roundtrip(j.left, lv);
    law_tuple_roundtrip(j.right, rv);
    let (a, b) = (lv[outer_col as int], rv[inner_col as int]);
    assert(j.left.field(l, outer_col as int) == Ok::<Option<Value>, CatalogError>(a));
    assert(j.right.field(r, inner_col as int) == Ok::<Option<Value>, CatalogError>(b));
    if a is Some && b is Some {
        assert(a->0.dtype() == b->0.dtype());
        assert(value_eq(a->0, b->0) == value_eq(b->0, a->0));
    }
    match j.predicate {
        Expression::Binary { left, right, op } => {
            assert(eval_join(fl, *left, l, j.left, r, j.right) is Ok);
            assert(eval_join(fl, *right, l, j.left, r, j.right) is Ok);
        },
        _ => {},
    }
}

/// The key of an encoded row with a value in the indexed column.
proof fn lemma_row_key(index: TableIndex, s: SchemaView, col: u32, d: Seq<u8>, v: Value)
    requires
        s.wf(),
        is_encoded(s, d),
        index.valid(),
        index.table_bitmap_len == s.bitmap_len,
        columns_at(s, index.indexed_cols@, index.indexed_col_idxs@),
        index.indexed_col_idxs@ == seq![col as usize],
        v.dtype() == s.cols[col as int].dtype,
    ensures
        option_eq(value_at(s, d, col as int), Some(v)) == (!index.null_key(d) && index.key_of(d)
            == key_of_values(seq![v])),
{
    let values = choose|values: Seq<Option<Value>>|
        s.accepts(values) && d == #[trigger] s.row(values);
    let i = col as int;
    assert(index.indexed_col_idxs@[0] == col as usize);
    law_tuple_roundtrip(s, values);
    lemma_row_field(s, values, i);
    assert(s.field(d, i) == Ok::<Option<Value>, CatalogError>(values[i]));
    match values[i] {
        None => {
            assert(null_at(d, index.indexed_col_idxs@[0] as int));
        },
        Some(x) => {
            law_key_of_row(index, s, values, seq![x]);
            assert(same_types(seq![x], seq![v]));
            law_composite_key_order(seq![x], seq![v]);
            assert(values_eq(seq![x], seq![v]) == value_eq(x, v)) by {
                assert(seq![x][0] == x && seq![v][0] == v);
            }
        },
    }
}

/// Parts of which all but one are empty.
proof fn lemma_flat_one(f: spec_fn(int) -> StreamView, n: int, at: int)
    requires
        forall|k: int| 0 <= k < n && k != at ==> (#[trigger] f(k)) == rows_only(Seq::empty()),
    ensures
        flat(f, n) == if 0 <= at < n {
            f(at)
        } else {
            rows_only(Seq::empty())
        },
    decreases n,
{
    if n > 0 {
        lemma_flat_one(f, n - 1, at);
        let before = flat(f, n - 1);
        assert(before.rows + f(n - 1).rows =~= if n - 1 == at {
            f(at).rows
        } else {
            before.rows
        });
        assert(f(n - 1) == (StreamView { rows: f(n - 1).rows, error: f(n - 1).error }));
    }
}

/// What an outer row gives is the same through the index and row by row.
proof fn lemma_same_matches(
    fl: spec_fn(FloatOp, u32, u32) -> u32,
    c: &Catalog,
    pages: Pages,
    index_oid: u32,
    j: IndexJoinView,
    lj: JoinView,
    outer_col: u32,
    inner_col: u32,
    outer: Seq<u8>,
)
    requires
        c.wf(pages),
        same_join(c, index_oid, j, lj, outer_col, inner_col),
        !j.index.idx.is_empty(pages),
        indexes_mirror(c, c.index(index_oid).table_oid, pages),
        rows_encoded(c, c.index(index_oid).table_oid, pages),
        is_encoded(j.outer, outer),
    ensures
        outer_matches(fl, pages, j, outer) == left_matches(
            fl,
            lj,
            outer,
            live_rows(j.inner.heap, pages),
        ),
{
    let at = c.index_pos(index_oid);
    assert(is_index(c.indexes@, index_oid, at));
    let index = c.indexes@[at].index;
    let oid = c.indexes@[at].table_oid;
    assert(c.index_fits(c.indexes@[at]));
    let i = c.table_pos(oid);
    assert(is_table(c.tables@, oid, i));
    let k0 = choose|k: int| #[trigger]
        is_table(c.tables@, oid, k) && c.tables@[k].indexed && {
            let s = c.tables@[k].info.schema@;
            &&& index.valid()
            &&& index.table_bitmap_len == s.bitmap_len
            &&& columns_at(s, index.indexed_cols@, index.indexed_col_idxs@)
        };
    lemma_table_at(c, oid, k0);
    let inner = lj.right;
    assert(c.tables@[i].info.schema@.wf());
    assert(index.indexed_col_idxs@[0] == inner_col as usize);
    let heap = c.tables@[i].info.heap;
    let rows = heap.rows(pages);
    assert(heap.wf(pages));
    lemma_slots_fit(pages[heap.last_page_id]);
    let rights = live_rows(heap, pages);
    let f = pair_part(fl, lj, outer, rights);
    let find = finds(index, pages);
    assert(mirrors(c.indexes@[at].index, c.table(oid).heap, c.rows(pages, i), find));
    let a = value_at(lj.left, outer, outer_col as int);
    assert forall|k: int| 0 <= k < rights.len() implies ({
        let (x, d) = (rights[k].1.slot_id as int, rights[k].0);
        &&& 0 <= x < rows.len() && !rows[x].deleted && d == rows[x].data && (
        #[trigger] rights[k]).1 == heap.rid(x)
        &&& is_encoded(inner, d)
        &&& eval_join(fl, lj.predicate, outer, lj.left, d, inner) is Ok
        &&& (eval_join(fl, lj.predicate, outer, lj.left, d, inner) == Ok::<
            Option<Value>,
            Seq<char>,
        >(boolean(true))) == (a is Some && option_eq(a, value_at(inner, d, inner_col as int)))
    }) by {
        assert(rights.contains(rights[k]));
        lemma_live_contains(heap, pages, rights[k]);
        let x = choose|x: int|
            0 <= x < rows.len() && !(#[trigger] rows[x]).deleted && rights[k] == (
                rows[x].data,
                heap.rid(x),
            );
        assert(is_encoded(inner, c.rows(pages, i)[x].data));
        lemma_equal_columns(fl, lj, outer_col, inner_col, outer, rights[k].0);
    }
    lemma_outer_value(lj.left, outer, outer_col as int);
    match a {
        None => {
            assert forall|k: int| 0 <= k < rights.len() && k != -1 implies (#[trigger] f(k))
                == rows_only(Seq::empty()) by {
                assert(rights[k] == rights[k]);
            }
            lemma_flat_one(f, rights.len() as int, -1);
        },
        Some(v) => {
            let key = key_of_values(seq![v]);
            match find(key) {
                None => {
                    assert forall|k: int| 0 <= k < rights.len() && k != -1 implies (
                    #[trigger] f(k)) == rows_only(Seq::empty()) by {
                        let x = rights[k].1.slot_id as int;
                        lemma_row_key(index, inner, inner_col, rights[k].0, v);
                        if option_eq(value_at(inner, rights[k].0, inner_col as int), Some(v)) {
                            assert(is_indexed(index, rows, x));
                            assert(find(index.key_of(rows[x].data)) == Some(heap.rid(x)));
                        }
                    }
                    lemma_flat_one(f, rights.len() as int, -1);
                },
                Some(rid) => {
                    let x = rid.slot_id as int;
                    assert(is_indexed(index, rows, x));
                    let row = (rows[x].data, heap.rid(x));
                    lemma_live_contains(heap, pages, row);
                    let k = choose|k: int| 0 <= k < rights.len() && rights[k] == row;
                    assert(rights[k] == row);
                    lemma_row_key(index, inner, inner_col, row.0, v);
                    lemma_live_places(heap, pages);
                    assert forall|m: int| 0 <= m < rights.len() && m != k implies (
                    #[trigger] f(m)) == rows_only(Seq::empty()) by {
                        let y = rights[m].1.slot_id as int;
                        lemma_row_key(index, inner, inner_col, rights[m].0, v);
                        if option_eq(value_at(inner, rights[m].0, inner_col as int), Some(v)) {
                            assert(is_indexed(index, rows, y));
                            assert(find(index.key_of(rows[y].data)) == Some(heap.rid(y)));
                            if m < k {
                                assert(rights[m].1.slot_id < rights[k].1.slot_id);
                            } else {
                                assert(rights[k].1.slot_id < rights[m].1.slot_id);
                            }
                        }
                    }
                    lemma_flat_one(f, rights.len() as int, k);
                    assert(f(k) == one_row(
                        joined_tuple(lj.out, lj.left, outer, inner, Some(row.0)),
                    ));
                    assert(stored_row(heap, pages, rid) == Ok::<Seq<u8>, Seq<char>>(row.0));
                },
            }
        },
    }
}

/// A column of an encoded row can be read and has a value of its type, or NULL.
proof fn lemma_outer_value(s: SchemaView, d: Seq<u8>, col: int)
    requires
        s.wf(),
        is_encoded(s, d),
        0 <= col < s.cols.len(),
    ensures
        s.field(d, col) == Ok::<Option<Value>, CatalogError>(value_at(s, d, col)),
        value_at(s, d, col) matches Some(v) ==> v.dtype() == s.cols[col].dtype,
{
    let values = choose|values: Seq<Option<Value>>|
        s.accepts(values) && d == #[trigger] s.row(values);
    law_tuple_roundtrip(s, values);
}

/// A join through an index that mirrors its table gives, row for row, what the join row by row
/// with all rows of that table gives.
pub proof fn law_index_join_is_loop_join(
    fl: spec_fn(FloatOp, u32, u32) -> u32,
    c: &Catalog,
    pages: Pages,
    index_oid: u32,
    j: IndexJoinView,
    lj: JoinView,
    outer_col: u32,
    inner_col: u32,
    left: StreamView,
)
    requires
        c.wf(pages),
        same_join(c, index_oid, j, lj, outer_col, inner_col),
        !j.index.idx.is_empty(pages),
        indexes_mirror(c, c.index(index_oid).table_oid, pages),
        rows_encoded(c, c.index(index_oid).table_oid, pages),
        forall|i: int| 0 <= i < left.rows.len() ==> is_encoded(j.outer, (#[trigger] left.rows[i]).0),
    ensures
        index_join_stream(fl, pages, j, left) == loop_join_stream(
            fl,
            lj,
            left,
            table_stream(c, pages, c.index(index_oid).table_oid),
        ),
{
    let at = c.index_pos(index_oid);
    assert(is_index(c.indexes@, index_oid, at));
    let oid = c.indexes@[at].table_oid;
    assert(c.index_fits(c.indexes@[at]));
    assert(c.has_table(oid));
    let rights = live_rows(j.inner.heap, pages);
    assert(table_stream(c, pages, oid) == rows_only(rights));
    let f = outers_part(fl, pages, j, left.rows);
    let g = lefts_part(fl, lj, left.rows, rights);
    assert forall|i: int| 0 <= i < left.rows.len() implies #[trigger] f(i) == g(i) by {
        assert(is_encoded(j.outer, left.rows[i].0));
        lemma_same_matches(
            fl,
            c,
            pages,
            index_oid,
            j,
            lj,
            outer_col,
            inner_col,
            left.rows[i].0,
        );
    }
    lemma_flat_same(f, g, left.rows.len() as int);
}

} // verus!
