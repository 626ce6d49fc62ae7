//! What lookups give after tables and indexes were created or dropped.
use vstd::prelude::*;

use crate::catalog::registry::{
    index_created, indexes_elsewhere, is_index, is_table, is_table_named, lemma_positions,
    positions, table_created, Catalog,
};
use crate::catalog::schema::{column_at, SchemaView};
use crate::index::tree_model::Pages;
use crate::table_heap::Row;

verus! {

/// The table with that oid is the same in both catalogs, if there is one.
pub open spec fn same_table(a: &Catalog, b: &Catalog, oid: u32) -> bool {
    &&& b.has_table(oid) == a.has_table(oid)
    &&& a.has_table(oid) ==> b.table(oid) == a.table(oid)
}

/// The index with that oid is the same in both catalogs, if there is one.
pub open spec fn same_index(a: &Catalog, b: &Catalog, oid: u32) -> bool {
    &&& b.has_index(oid) == a.has_index(oid)
    &&& a.has_index(oid) ==> b.index(oid) == a.index(oid)
}

pub(crate) proof fn lemma_table_at(c: &Catalog, oid: u32, i: int)
    requires
        c.valid(),
        is_table(c.tables@, oid, i),
    ensures
        c.has_table(oid),
        c.table_pos(oid) == i,
{
    let k = c.table_pos(oid);
    assert(is_table(c.tables@, oid, k));
    if k < i {
        assert(c.tables@[k].oid != c.tables@[i].oid);
    } else if i < k {
        assert(c.tables@[i].oid != c.tables@[k].oid);
    }
}

proof fn lemma_index_at(c: &Catalog, oid: u32, j: int)
    requires
        c.valid(),
        is_index(c.indexes@, oid, j),
    ensures
        c.has_index(oid),
        c.index_pos(oid) == j,
{
    let k = c.index_pos(oid);
    assert(is_index(c.indexes@, oid, k));
    if k < j {
        assert(c.indexes@[k].oid != c.indexes@[j].oid);
    } else if j < k {
        assert(c.indexes@[j].oid != c.indexes@[k].oid);
    }
}

/// A table that was created is found by its name and its oid, and every other table is what it
/// was.
pub proof fn law_created_table(
    a: &Catalog,
    b: &Catalog,
    p0: Pages,
    p1: Pages,
    name: Seq<char>,
    schema: SchemaView,
    other: u32,
)
    requires
        a.valid(),
        b.valid(),
        table_created(a, b, p0, p1, name, schema),
        other != a.next_table_oid,
    ensures
        !a.has_table(a.next_table_oid),
        b.has_table(a.next_table_oid),
        b.table(a.next_table_oid).name@ == name,
        b.table(a.next_table_oid).schema@ == schema,
        exists|i: int| is_table_named(b.tables@, name, i),
        forall|i: int|
            is_table_named(b.tables@, name, i) ==> b.tables@[i].oid == a.next_table_oid,
        same_table(a, b, other),
{
    let n = a.tables@.len() as int;
    lemma_table_at(b, a.next_table_oid, n);
    assert(is_table_named(b.tables@, name, n));
    assert forall|i: int| is_table_named(b.tables@, name, i) implies b.tables@[i].oid
        == a.next_table_oid by {
        if i < n {
            assert(is_table_named(a.tables@, name, i));
        }
    }
    if a.has_table(other) {
        let i = a.table_pos(other);
        assert(is_table(a.tables@, other, i));
        lemma_table_at(b, other, i);
    }
    if b.has_table(other) {
        let i = b.table_pos(other);
        assert(is_table(b.tables@, other, i));
        assert(i != n);
        lemma_table_at(a, other, i);
    }
    if a.has_table(a.next_table_oid) {
        assert(is_table(a.tables@, a.next_table_oid, a.table_pos(a.next_table_oid)));
    }
}

/// A table that was dropped is gone with all its indexes, and every other table and index is
/// what it was.
pub proof fn law_dropped_table(a: &Catalog, b: &Catalog, oid: u32, other: u32, index: u32)
    requires
        a.valid(),
        b.valid(),
        a.has_table(oid),
        b.tables@ == a.tables@.remove(a.table_pos(oid)),
        b.indexes@ == indexes_elsewhere(a.indexes@, oid),
        other != oid,
    ensures
        !b.has_table(oid),
        same_table(a, b, other),
        b.has_index(index) == (a.has_index(index) && a.index(index).table_oid != oid),
        b.has_index(index) ==> b.index(index) == a.index(index),
{
    let p = a.table_pos(oid);
    assert(is_table(a.tables@, oid, p));
    if b.has_table(oid) {
        let k = b.table_pos(oid);
        assert(is_table(b.tables@, oid, k));
        let m = if k < p {
            k
        } else {
            k + 1
        };
        lemma_table_at(a, oid, m);
    }
    if a.has_table(other) {
        let i = a.table_pos(other);
        assert(is_table(a.tables@, other, i));
        lemma_table_at(
            b,
            other,
            if i < p {
                i
            } else {
                i - 1
            },
        );
    }
    if b.has_table(other) {
        let k = b.table_pos(other);
        assert(is_table(b.tables@, other, k));
        lemma_table_at(
            a,
            other,
            if k < p {
                k
            } else {
                k + 1
            },
        );
    }
    let ps = positions(a.indexes@, oid, false, a.indexes@.len() as int);
    lemma_positions(a.indexes@, oid, false, a.indexes@.len() as int);
    if a.has_index(index) && a.index(index).table_oid != oid {
        let j = a.index_pos(index);
        assert(is_index(a.indexes@, index, j));
        assert(ps.contains(j));
        let k = choose|k: int| 0 <= k < ps.len() && ps[k] == j;
        lemma_index_at(b, index, k);
    }
    if b.has_index(index) {
        let k = b.index_pos(index);
        assert(is_index(b.indexes@, index, k));
        assert(b.indexes@[k] == a.indexes@[ps[k]]);
        lemma_index_at(a, index, ps[k]);
    }
}

/// An index that was created is found by its oid and is empty, and every other index is what it
/// was.
pub proof fn law_created_index(
    a: &Catalog,
    b: &Catalog,
    p0: Pages,
    p1: Pages,
    table_oid: u32,
    name: Seq<char>,
    cols: Seq<Seq<char>>,
    other: u32,
)
    requires
        a.valid(),
        b.valid(),
        index_created(a, b, p0, p1, table_oid, name, cols),
        other != a.next_index_oid,
    ensures
        !a.has_index(a.next_index_oid),
        b.has_index(a.next_index_oid),
        b.index(a.next_index_oid).name@ == name,
        b.index(a.next_index_oid).table_oid == table_oid,
        b.index(a.next_index_oid).index.idx.is_empty(p1),
        same_index(a, b, other),
{
    let n = a.indexes@.len() as int;
    lemma_index_at(b, a.next_index_oid, n);
    if a.has_index(other) {
        let j = a.index_pos(other);
        assert(is_index(a.indexes@, other, j));
        lemma_index_at(b, other, j);
    }
    if b.has_index(other) {
        let j = b.index_pos(other);
        assert(is_index(b.indexes@, other, j));
        assert(j != n);
        lemma_index_at(a, other, j);
    }
    if a.has_index(a.next_index_oid) {
        let j = a.index_pos(a.next_index_oid);
        assert(is_index(a.indexes@, a.next_index_oid, j));
        assert(a.index_fits(a.indexes@[j]));
    }
}

/// An index that was dropped is gone, and every other index is what it was.
pub proof fn law_dropped_index(a: &Catalog, b: &Catalog, oid: u32, other: u32)
    requires
        a.valid(),
        b.valid(),
        a.has_index(oid),
        b.indexes@ == a.indexes@.remove(a.index_pos(oid)),
        other != oid,
    ensures
        !b.has_index(oid),
        same_index(a, b, other),
{
    let p = a.index_pos(oid);
    assert(is_index(a.indexes@, oid, p));
    if b.has_index(oid) {
        let k = b.index_pos(oid);
        assert(is_index(b.indexes@, oid, k));
        let m = if k < p {
            k
        } else {
            k + 1
        };
        lemma_index_at(a, oid, m);
    }
    if a.has_index(other) {
        let j = a.index_pos(other);
        assert(is_index(a.indexes@, other, j));
        lemma_index_at(
            b,
            other,
            if j < p {
                j
            } else {
                j - 1
            },
        );
    }
    if b.has_index(other) {
        let k = b.index_pos(other);
        assert(is_index(b.indexes@, other, k));
        lemma_index_at(
            a,
            other,
            if k < p {
                k
            } else {
                k + 1
            },
        );
    }
}

/// A table that was created holds no rows, and every table that was there holds the rows that it
/// held.
pub proof fn law_created_table_rows(
    a: &Catalog,
    b: &Catalog,
    p0: Pages,
    p1: Pages,
    name: Seq<char>,
    schema: SchemaView,
    i: int,
)
    requires
        a.valid(),
        b.valid(),
        table_created(a, b, p0, p1, name, schema),
        0 <= i < a.tables@.len(),
    ensures
        b.table(a.next_table_oid).heap.rows(p1).len() == 0,
        b.tables@[i] == a.tables@[i],
        a.tables@[i].info.heap.rows(p1) == a.tables@[i].info.heap.rows(p0),
{
    let n = a.tables@.len() as int;
    lemma_table_at(b, a.next_table_oid, n);
    assert(b.rows(p1, n) == Seq::<Row>::empty());
    assert(a.rows(p1, i) == a.rows(p0, i));
}

/// An index that was created is over the columns that were named, in order: for each name the
/// first column of the table that has it.
pub proof fn law_created_index_columns(
    a: &Catalog,
    b: &Catalog,
    p0: Pages,
    p1: Pages,
    table_oid: u32,
    name: Seq<char>,
    cols: Seq<Seq<char>>,
)
    requires
        a.valid(),
        b.valid(),
        index_created(a, b, p0, p1, table_oid, name, cols),
    ensures
        ({
            let index = b.index(a.next_index_oid).index;
            let all = a.table(table_oid).schema@.cols;
            &&& index.indexed_col_idxs@.len() == cols.len()
            &&& index.indexed_cols@.len() == cols.len()
            &&& forall|i: int|
                0 <= i < cols.len() ==> {
                    let at = #[trigger] index.indexed_col_idxs@[i] as int;
                    &&& at < all.len()
                    &&& all[at].name@ == cols[i]
                    &&& index.indexed_cols@[i] == all[at]
                    &&& forall|k: int| 0 <= k < at ==> (#[trigger] all[k]).name@ != cols[i]
                }
        }),
{
    lemma_index_at(b, a.next_index_oid, a.indexes@.len() as int);
    let index = b.index(a.next_index_oid).index;
    let all = a.table(table_oid).schema@.cols;
    assert forall|i: int| 0 <= i < cols.len() implies {
        let at = #[trigger] index.indexed_col_idxs@[i] as int;
        &&& at < all.len()
        &&& all[at].name@ == cols[i]
        &&& index.indexed_cols@[i] == all[at]
        &&& forall|k: int| 0 <= k < at ==> (#[trigger] all[k]).name@ != cols[i]
    } by {
        assert(column_at(all, cols[i], index.indexed_col_idxs@[i] as int));
    }
}

} // verus!
