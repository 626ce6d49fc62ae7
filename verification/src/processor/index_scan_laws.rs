//! Which rows a scan of an index gives, and in which order, told by the values of the columns.
use vstd::prelude::*;

use crate::catalog::{Catalog, CatalogError};
use crate::catalog::index_schema::{key_le, key_lt, lemma_key_order};
use crate::catalog::key_encoding::{
    key_of_values, law_composite_key_order, same_types, values_eq, values_lt,
};
use crate::catalog::registry::{is_index, is_table};
use crate::catalog::schema::{law_tuple_roundtrip, lemma_row_field, null_at, SchemaView};
use crate::catalog::table_index::{columns_at, law_key_of_row, TableIndex, ValueBound};
use crate::catalog::value::{value_eq, value_lt, Value};
use crate::index::tree_model::Pages;
use crate::processor::aggregate_laws::lemma_flat_single;
use crate::processor::change_laws::lemma_live_contains;
use crate::processor::executor::live_rows;
use crate::processor::index_access::{
    fetch_part, index_range, is_index_stream, lemma_range_exists, lies_between, rids_of,
    scan_refused,
};
use crate::processor::index_laws::{
    finds, in_range, indexes_mirror, is_encoded, is_indexed, law_mirrored_scan, mirrors,
    rows_encoded,
};
use crate::processor::stream::{rows_only, RowView, StreamView};
use crate::table_heap::lemma_slots_fit;

verus! {

/// The value of a column of a row; arbitrary where it is NULL.
pub open spec fn column_of(s: SchemaView, d: Seq<u8>, col: int) -> Value {
    s.field(d, col)->Ok_0->0
}

/// The values of some columns of a row.
pub open spec fn columns_of_row(s: SchemaView, d: Seq<u8>, cols: Seq<usize>) -> Seq<Value> {
    Seq::new(cols.len(), |i: int| column_of(s, d, cols[i] as int))
}

/// None of the columns is NULL.
pub open spec fn has_columns(s: SchemaView, d: Seq<u8>, cols: Seq<usize>) -> bool {
    forall|i: int| 0 <= i < cols.len() ==> (s.field(d, #[trigger] cols[i] as int) matches Ok(Some(_)))
}

/// At the first place where the lists differ, the first one is less.
pub open spec fn list_less(a: Seq<Value>, b: Seq<Value>) -> bool {
    exists|p: int|
        0 <= p < a.len() && p < b.len() && value_lt(#[trigger] a[p], b[p]) && forall|k: int|
            0 <= k < p ==> value_eq(#[trigger] a[k], b[k])
}

proof fn lemma_list_less(a: Seq<Value>, b: Seq<Value>)
    requires
        a.len() == b.len(),
    ensures
        values_lt(a, b) == list_less(a, b),
    decreases a.len(),
{
    if a.len() > 0 {
        let (p, q) = (a.drop_last(), b.drop_last());
        lemma_list_less(p, q);
        let n = a.len() - 1;
        if list_less(p, q) {
            let x = choose|x: int|
                0 <= x < p.len() && x < q.len() && value_lt(#[trigger] p[x], q[x]) && forall|k: int|
                    0 <= k < x ==> value_eq(#[trigger] p[k], q[k]);
            assert(value_lt(a[x], b[x]));
            assert forall|k: int| 0 <= k < x implies value_eq(#[trigger] a[k], b[k]) by {
                assert(value_eq(p[k], q[k]));
            }
        }
        if values_eq(p, q) && value_lt(a[n], b[n]) {
            assert forall|k: int| 0 <= k < n implies value_eq(#[trigger] a[k], b[k]) by {
                assert(value_eq(p[k], q[k]));
            }
        }
        if list_less(a, b) {
            let x = choose|x: int|
                0 <= x < a.len() && x < b.len() && value_lt(#[trigger] a[x], b[x]) && forall|k: int|
                    0 <= k < x ==> value_eq(#[trigger] a[k], b[k]);
            if x < n {
                assert(value_lt(p[x], q[x]));
                assert forall|k: int| 0 <= k < x implies value_eq(#[trigger] p[k], q[k]) by {
                    assert(value_eq(a[k], b[k]));
                }
            } else {
                assert forall|k: int| 0 <= k < p.len() implies value_eq(#[trigger] p[k], q[k]) by {
                    assert(value_eq(a[k], b[k]));
                }
            }
        }
    }
}

/// The values do not come before a lower bound.
pub open spec fn reaches(b: ValueBound, vals: Seq<Value>) -> bool {
    match b {
        ValueBound::Included(v) => !list_less(vals, v@),
        ValueBound::Excluded(v) => list_less(v@, vals),
        ValueBound::Unbounded => true,
    }
}

/// The values do not come behind an upper bound.
pub open spec fn stays_within(b: ValueBound, vals: Seq<Value>) -> bool {
    match b {
        ValueBound::Included(v) => !list_less(v@, vals),
        ValueBound::Excluded(v) => list_less(vals, v@),
        ValueBound::Unbounded => true,
    }
}

/// A bound has a value for each column, of its type.
pub open spec fn fits_columns(b: ValueBound, s: SchemaView, cols: Seq<usize>) -> bool {
    let fits = |v: Seq<Value>|
        v.len() == cols.len() && forall|i: int|
            0 <= i < v.len() ==> (#[trigger] v[i]).dtype() == s.cols[cols[i] as int].dtype;
    match b {
        ValueBound::Included(v) => fits(v@),
        ValueBound::Excluded(v) => fits(v@),
        ValueBound::Unbounded => true,
    }
}

/// The key of an encoded row is that of its values.
proof fn lemma_row_key(index: TableIndex, s: SchemaView, d: Seq<u8>)
    requires
        s.wf(),
        is_encoded(s, d),
        index.valid(),
        index.table_bitmap_len == s.bitmap_len,
        columns_at(s, index.indexed_cols@, index.indexed_col_idxs@),
    ensures
        !index.null_key(d) <==> has_columns(s, d, index.indexed_col_idxs@),
        !index.null_key(d) ==> index.key_of(d) == key_of_values(
            columns_of_row(s, d, index.indexed_col_idxs@),
        ) && forall|i: int|
            0 <= i < index.indexed_col_idxs@.len() ==> (#[trigger] columns_of_row(
                s,
                d,
                index.indexed_col_idxs@,
            )[i]).dtype() == s.cols[index.indexed_col_idxs@[i] as int].dtype,
{
    let values = choose|values: Seq<Option<Value>>|
        s.accepts(values) && d == #[trigger] s.row(values);
    let idxs = index.indexed_col_idxs@;
    law_tuple_roundtrip(s, values);
    assert forall|i: int| 0 <= i < idxs.len() implies null_at(d, #[trigger] idxs[i] as int) == (
    values[idxs[i] as int] is None) && s.field(d, idxs[i] as int) == Ok::<
        Option<Value>,
        CatalogError,
    >(values[idxs[i] as int]) by {
        lemma_row_field(s, values, idxs[i] as int);
        assert(idxs[i] < s.cols.len());
        assert(s.field(s.row(values), idxs[i] as int) == Ok::<Option<Value>, CatalogError>(
            values[idxs[i] as int],
        ));
    }
    if !index.null_key(d) {
        let vals = columns_of_row(s, d, idxs);
        assert forall|i: int| 0 <= i < vals.len() implies values[idxs[i] as int] == Some(
            #[trigger] vals[i],
        ) by {
            assert(!null_at(d, idxs[i] as int));
        }
        law_key_of_row(index, s, values, vals);
        assert forall|i: int| 0 <= i < idxs.len() implies (#[trigger] vals[i]).dtype()
            == s.cols[idxs[i] as int].dtype by {
            assert(values[idxs[i] as int] == Some(vals[i]));
        }
    } else {
        let i = choose|i: int| 0 <= i < idxs.len() && null_at(d, #[trigger] idxs[i] as int);
        assert(s.field(d, idxs[i] as int) == Ok::<Option<Value>, CatalogError>(None));
    }
}

proof fn lemma_lists(a: Seq<Value>, b: Seq<Value>)
    requires
        same_types(a, b),
    ensures
        key_of_values(a).len() == key_of_values(b).len(),
        key_lt(key_of_values(a), key_of_values(b)) == list_less(a, b),
        key_le(key_of_values(a), key_of_values(b)) == !list_less(b, a),
{
    assert(same_types(b, a)) by {
        assert forall|i: int| 0 <= i < b.len() implies (#[trigger] b[i]).dtype() == a[i].dtype() by {
            assert(a[i].dtype() == b[i].dtype());
        }
    }
    law_composite_key_order(a, b);
    law_composite_key_order(b, a);
    lemma_list_less(a, b);
    lemma_list_less(b, a);
    lemma_key_order();
}

proof fn lemma_in_range(
    index: TableIndex,
    s: SchemaView,
    start: ValueBound,
    end: ValueBound,
    d: Seq<u8>,
)
    requires
        s.wf(),
        is_encoded(s, d),
        index.valid(),
        index.table_bitmap_len == s.bitmap_len,
        columns_at(s, index.indexed_cols@, index.indexed_col_idxs@),
        fits_columns(start, s, index.indexed_col_idxs@),
        fits_columns(end, s, index.indexed_col_idxs@),
    ensures
        in_range(index, start, end, d) <==> has_columns(s, d, index.indexed_col_idxs@) && reaches(
            start,
            columns_of_row(s, d, index.indexed_col_idxs@),
        ) && stays_within(end, columns_of_row(s, d, index.indexed_col_idxs@)),
{
    lemma_row_key(index, s, d);
    let vals = columns_of_row(s, d, index.indexed_col_idxs@);
    if !index.null_key(d) {
        match start {
            ValueBound::Included(v) => {
                assert(same_types(v@, vals));
                lemma_lists(v@, vals);
            },
            ValueBound::Excluded(v) => {
                assert(same_types(v@, vals));
                lemma_lists(v@, vals);
            },
            ValueBound::Unbounded => {},
        }
        match end {
            ValueBound::Included(v) => {
                assert(same_types(vals, v@));
                lemma_lists(vals, v@);
            },
            ValueBound::Excluded(v) => {
                assert(same_types(vals, v@));
                lemma_lists(vals, v@);
            },
            ValueBound::Unbounded => {},
        }
    }
}

/// A scan of an index that mirrors its table gives the rows of the table that have values in the
/// indexed columns, and values that lie between the bounds.
pub proof fn law_index_scan_rows(
    c: &Catalog,
    pages: Pages,
    index_oid: u32,
    start: ValueBound,
    end: ValueBound,
    s: StreamView,
    row: RowView,
)
    requires
        c.wf(pages),
        c.has_index(index_oid),
        indexes_mirror(c, c.index(index_oid).table_oid, pages),
        rows_encoded(c, c.index(index_oid).table_oid, pages),
        !scan_refused(c.index(index_oid).index, pages, start, end),
        fits_columns(
            start,
            c.table(c.index(index_oid).table_oid).schema@,
            c.index(index_oid).index.indexed_col_idxs@,
        ),
        fits_columns(
            end,
            c.table(c.index(index_oid).table_oid).schema@,
            c.index(index_oid).index.indexed_col_idxs@,
        ),
        is_index_stream(c, pages, index_oid, start, end, s),
    ensures
        s.error is None,
        ({
            let table = c.table(c.index(index_oid).table_oid);
            let cols = c.index(index_oid).index.indexed_col_idxs@;
            s.rows.contains(row) <==> live_rows(table.heap, pages).contains(row) && has_columns(
                table.schema@,
                row.0,
                cols,
            ) && reaches(start, columns_of_row(table.schema@, row.0, cols)) && stays_within(
                end,
                columns_of_row(table.schema@, row.0, cols),
            )
        }),
{
    law_mirrored_scan(c, pages, index_oid, start, end, s, row);
    let j = c.index_pos(index_oid);
    assert(is_index(c.indexes@, index_oid, j));
    let oid = c.indexes@[j].table_oid;
    assert(c.index_fits(c.indexes@[j]));
    assert(c.has_table(oid));
    assert(is_table(c.tables@, oid, c.table_pos(oid)));
    let table = c.table(oid);
    if live_rows(table.heap, pages).contains(row) {
        lemma_live_contains(table.heap, pages, row);
        assert(is_encoded(table.schema@, row.0));
        lemma_in_range(c.indexes@[j].index, table.schema@, start, end, row.0);
    }
}

/// A scan of an index that mirrors its table gives the rows in ascending order of the values in the
/// indexed columns. No two rows have the same values there, so none comes twice.
pub proof fn law_index_scan_order(
    c: &Catalog,
    pages: Pages,
    index_oid: u32,
    start: ValueBound,
    end: ValueBound,
    s: StreamView,
    a: int,
    b: int,
)
    requires
        c.wf(pages),
        c.has_index(index_oid),
        indexes_mirror(c, c.index(index_oid).table_oid, pages),
        rows_encoded(c, c.index(index_oid).table_oid, pages),
        !scan_refused(c.index(index_oid).index, pages, start, end),
        is_index_stream(c, pages, index_oid, start, end, s),
        0 <= a < b < s.rows.len(),
    ensures
        ({
            let table = c.table(c.index(index_oid).table_oid);
            let cols = c.index(index_oid).index.indexed_col_idxs@;
            list_less(
                columns_of_row(table.schema@, s.rows[a].0, cols),
                columns_of_row(table.schema@, s.rows[b].0, cols),
            )
        }),
{
    let j = c.index_pos(index_oid);
    assert(is_index(c.indexes@, index_oid, j));
    let index = c.indexes@[j].index;
    let oid = c.indexes@[j].table_oid;
    assert(c.index_fits(c.indexes@[j]));
    let i = c.table_pos(oid);
    assert(is_table(c.tables@, oid, i));
    let table = c.table(oid);
    let heap = table.heap;
    let rows = heap.rows(pages);
    assert(heap.wf(pages));
    lemma_slots_fit(pages[heap.last_page_id]);
    assert(c.indexes@[j].index.wf(pages));
    lemma_range_exists(index, pages, start, end);
    let es = index_range(index, pages, start, end);
    let rids = rids_of(es);
    let f = fetch_part(heap, pages, rids);
    let find = finds(index, pages);
    assert(mirrors(c.indexes@[j].index, c.table(oid).heap, c.rows(pages, i), find));
    assert forall|k: int| 0 <= k < rids.len() implies (#[trigger] f(k)) == rows_only(
        seq![(rows[rids[k].slot_id as int].data, rids[k])],
    ) && index.key_of(rows[rids[k].slot_id as int].data) == es[k].0 && is_indexed(
        index,
        rows,
        rids[k].slot_id as int,
    ) by {
        assert(es.contains(es[k]));
        assert(lies_between(index, pages, start, end, es[k]));
        assert(find(es[k].0) == Some(es[k].1));
    }
    law_mirrored_scan(c, pages, index_oid, start, end, s, s.rows[a]);
    assert forall|k: int| 0 <= k < rids.len() implies (#[trigger] f(k)).error is None
        ==> f(k).rows.len() == 1 by {}
    lemma_flat_single(f, rids.len() as int);
    assert(f(a).rows == seq![s.rows[a]] && f(b).rows == seq![s.rows[b]]);
    assert(f(a).rows[0] == s.rows[a] && f(b).rows[0] == s.rows[b]);
    let (d, e) = (s.rows[a].0, s.rows[b].0);
    let (x, y) = (rids[a].slot_id as int, rids[b].slot_id as int);
    assert(d == rows[x].data && e == rows[y].data);
    assert(is_encoded(table.schema@, rows[x].data) && is_encoded(table.schema@, rows[y].data));
    lemma_row_key(index, table.schema@, d);
    lemma_row_key(index, table.schema@, e);
    let cols = index.indexed_col_idxs@;
    let (v, w) = (columns_of_row(table.schema@, d, cols), columns_of_row(table.schema@, e, cols));
    assert(same_types(v, w));
    lemma_lists(v, w);
    assert(key_lt(es[a].0, es[b].0));
}

} // verus!
