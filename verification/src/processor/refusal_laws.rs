//! Why an INSERT is refused.
use vstd::prelude::*;

use crate::catalog::Catalog;
use crate::catalog::registry::lemma_positions;
use crate::index::tree_model::Pages;
use crate::processor::modify::{
    arrival, arrival_refused, change_stopped, filing_stopped, found_after_rows, insert_outcome,
    key_fresh, rows_filed, rows_with,
};
use crate::processor::stream::{RowView, StreamView};
use crate::processor::upkeep::{all_cover, index_positions, refused_with};
use crate::table_heap::Row;

verus! {

/// An index on the table holds the key of row `m`, or gets it from a row before.
pub open spec fn is_taken_key(
    c: &Catalog,
    oid: u32,
    p0: Pages,
    rows: Seq<RowView>,
    m: int,
    j: int,
) -> bool {
    let index = c.indexes@[j].index;
    let key = index.key_of(rows[m].0);
    &&& 0 <= j < c.indexes@.len()
    &&& c.indexes@[j].table_oid == oid
    &&& !index.null_key(rows[m].0)
    &&& index.find(p0, key) is Some || exists|x: int|
        0 <= x < m && !index.null_key((#[trigger] rows[x]).0) && index.key_of(rows[x].0) == key
}

/// An index on the table reads bytes that row `m` does not have.
pub open spec fn is_short(c: &Catalog, oid: u32, rows: Seq<RowView>, m: int, j: int) -> bool {
    &&& 0 <= j < c.indexes@.len()
    &&& c.indexes@[j].table_oid == oid
    &&& !c.indexes@[j].index.covers(rows[m].0)
}

/// Once the rows before it are stored there is no room for row `m`.
pub open spec fn has_no_room(
    c: &Catalog,
    oid: u32,
    p0: Pages,
    rows: Seq<RowView>,
    m: int,
    pm: Pages,
) -> bool {
    let i = c.table_pos(oid);
    &&& c.rows(pm, i) == rows_with(c, i, p0, rows, m)
    &&& !c.tables@[i].info.heap.fits(pm, rows[m].0.len() as int)
}

/// Row `m` cannot be stored.
pub open spec fn is_refused_row(
    c: &Catalog,
    oid: u32,
    p0: Pages,
    rows: Seq<RowView>,
    m: int,
) -> bool {
    &&& 0 <= m < rows.len()
    &&& {
        ||| exists|j: int| is_short(c, oid, rows, m, j)
        ||| exists|pm: Pages| has_no_room(c, oid, p0, rows, m, pm)
        ||| exists|j: int| is_taken_key(c, oid, p0, rows, m, j)
    }
}

proof fn lemma_found_before(
    c: &Catalog,
    i: int,
    j: int,
    p0: Pages,
    rows: Seq<RowView>,
    n: int,
    k: Seq<u8>,
)
    requires
        found_after_rows(c, i, j, p0, rows, n, k) is Some,
    ensures
        c.indexes@[j].index.find(p0, k) is Some || exists|x: int|
            0 <= x < n && !c.indexes@[j].index.null_key((#[trigger] rows[x]).0)
                && c.indexes@[j].index.key_of(rows[x].0) == k,
    decreases n,
{
    if n > 0 {
        let index = c.indexes@[j].index;
        if index.null_key(rows[n - 1].0) || index.key_of(rows[n - 1].0) != k {
            lemma_found_before(c, i, j, p0, rows, n - 1, k);
        } else {
            assert(!index.null_key(rows[n - 1].0));
        }
    }
}

proof fn lemma_refused_row(
    c: &Catalog,
    oid: u32,
    p0: Pages,
    pm: Pages,
    p1: Pages,
    rows: Seq<RowView>,
    m: int,
    e: Seq<char>,
)
    requires
        0 <= m < rows.len(),
        rows_filed(c, oid, c.table_pos(oid), p0, pm, rows, m),
        arrival_refused(c, oid, c.table_pos(oid), pm, p1, rows[m].0, e, false),
    ensures
        is_refused_row(c, oid, p0, rows, m),
{
    let i = c.table_pos(oid);
    let heap = c.tables@[i].info.heap;
    let ps = index_positions(c, oid);
    let data = rows[m].0;
    let change = arrival(data, heap.rid(c.rows(pm, i).len() as int));
    lemma_positions(c.indexes@, oid, true, c.indexes@.len() as int);
    if !all_cover(c, oid, change) {
        let a = choose|a: int|
            0 <= a < ps.len() && !change.covered_by(c.indexes@[#[trigger] ps[a]].index);
        assert(is_short(c, oid, rows, m, ps[a]));
    } else if !heap.fits(pm, data.len() as int) {
        assert(has_no_room(c, oid, p0, rows, m, pm));
    } else {
        let after = c.rows(pm, i).push(Row { deleted: false, data });
        let a = choose|a: int| #[trigger]
            change_stopped(c, oid, i, pm, p1, after, change, false, a, e);
        let j = ps[a];
        let index = c.indexes@[j].index;
        assert(refused_with(index, pm, change, false, e));
        assert(change.is_duplicate(index, pm));
        let key = index.key_of(data);
        assert(index.find(pm, key) == found_after_rows(c, i, ps[a], p0, rows, m, key));
        lemma_found_before(c, i, j, p0, rows, m, key);
        assert(is_taken_key(c, oid, p0, rows, m, j));
    }
}

/// While page numbers are left, an INSERT into a table fails only where its query does, where there
/// are more rows than can be counted, or where a row cannot be stored: it is too short for an
/// index, there is no room for it, or an index holds its key.
pub proof fn law_insert_refused(
    c: &Catalog,
    oid: u32,
    p0: Pages,
    p1: Pages,
    child: StreamView,
    out: StreamView,
)
    requires
        c.has_table(oid),
        child.error is None,
        child.rows.len() <= i32::MAX,
        insert_outcome(c, oid, p0, p1, child, out, false),
        out.error is Some,
    ensures
        exists|m: int| is_refused_row(c, oid, p0, child.rows, m),
{
    let i = c.table_pos(oid);
    let e = out.error->0;
    assert(filing_stopped(c, oid, i, p0, p1, child.rows, e, false));
    let (m, pm) = choose|m: int, pm: Pages|
        0 <= m < child.rows.len() && #[trigger] rows_filed(c, oid, i, p0, pm, child.rows, m)
            && arrival_refused(c, oid, i, pm, p1, child.rows[m].0, e, false);
    lemma_refused_row(c, oid, p0, pm, p1, child.rows, m, e);
}

/// A row whose key is taken is never inserted.
pub proof fn law_taken_key_is_refused(
    c: &Catalog,
    oid: u32,
    p0: Pages,
    p1: Pages,
    child: StreamView,
    out: StreamView,
    m: int,
    j: int,
)
    requires
        c.has_table(oid),
        insert_outcome(c, oid, p0, p1, child, out, false),
        0 <= m < child.rows.len(),
        is_taken_key(c, oid, p0, child.rows, m, j),
    ensures
        out.error is Some,
{
    if out.error is None {
        let i = c.table_pos(oid);
        let rows = child.rows;
        let ps = index_positions(c, oid);
        lemma_positions(c.indexes@, oid, true, c.indexes@.len() as int);
        assert(ps.contains(j));
        let a = choose|a: int| 0 <= a < ps.len() && ps[a] == j;
        assert(key_fresh(c, i, ps[a], p0, rows, m));
        let index = c.indexes@[j].index;
        lemma_still_found(c, i, j, p0, rows, m, index.key_of(rows[m].0));
    }
}

proof fn lemma_still_found(
    c: &Catalog,
    i: int,
    j: int,
    p0: Pages,
    rows: Seq<RowView>,
    n: int,
    k: Seq<u8>,
)
    requires
        c.indexes@[j].index.find(p0, k) is Some || exists|x: int|
            0 <= x < n && !c.indexes@[j].index.null_key((#[trigger] rows[x]).0)
                && c.indexes@[j].index.key_of(rows[x].0) == k,
    ensures
        found_after_rows(c, i, j, p0, rows, n, k) is Some,
    decreases n,
{
    if n > 0 {
        let index = c.indexes@[j].index;
        if index.null_key(rows[n - 1].0) || index.key_of(rows[n - 1].0) != k {
            if index.find(p0, k) is None {
                let x = choose|x: int|
                    0 <= x < n && !index.null_key((#[trigger] rows[x]).0) && index.key_of(rows[x].0)
                        == k;
                assert(x < n - 1);
            }
            lemma_still_found(c, i, j, p0, rows, n - 1, k);
        }
    }
}

} // verus!
