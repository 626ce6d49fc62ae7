//! The registry of tables and indexes.
use vstd::prelude::*;

use crate::buffer_pool::BufferPoolManager;
use crate::catalog::schema::{column_at, offset_of, same_text, Column, Schema, SchemaView};
use crate::catalog::table_index::{columns_at, TableIndex};
use crate::catalog::{CatalogError, IndexType};
use crate::index::b_plus_tree::{carried, unusable_key_len};
use crate::index::tree_model::{law_tree_frame, law_tree_pages_exist, Pages};
use crate::table_heap::{Row, TableHeap};

verus! {

pub struct TableInfo {
    pub name: String,
    pub schema: Schema,
    pub heap: TableHeap,
}

pub struct IndexInfo {
    pub oid: u32,
    pub name: String,
    pub table_oid: u32,
    pub index: TableIndex,
}

/// A table under its oid.
pub struct TableEntry {
    pub oid: u32,
    /// An index was created for the table at some time.
    pub indexed: bool,
    pub info: TableInfo,
}

/// Stores tables and indexes. Executors retrieve them from here so that they can do work.
pub struct Catalog {
    pub next_table_oid: u32,
    pub next_index_oid: u32,
    pub tables: Vec<TableEntry>,
    pub indexes: Vec<IndexInfo>,
}

/// Entry `i` is the table with that oid.
pub open spec fn is_table(tables: Seq<TableEntry>, oid: u32, i: int) -> bool {
    0 <= i < tables.len() && tables[i].oid == oid
}

pub open spec fn is_table_named(tables: Seq<TableEntry>, name: Seq<char>, i: int) -> bool {
    0 <= i < tables.len() && tables[i].info.name@ == name
}

pub open spec fn is_index(indexes: Seq<IndexInfo>, oid: u32, j: int) -> bool {
    0 <= j < indexes.len() && indexes[j].oid == oid
}

/// Entry `j` is the index of that name on the table with that oid.
pub open spec fn is_index_named(
    indexes: Seq<IndexInfo>,
    table_oid: u32,
    name: Seq<char>,
    j: int,
) -> bool {
    0 <= j < indexes.len() && indexes[j].table_oid == table_oid && indexes[j].name@ == name
}

/// Where the first `n` indexes lie on the table with that oid, or where they do not.
pub open spec fn positions(indexes: Seq<IndexInfo>, table_oid: u32, on: bool, n: int) -> Seq<int>
    decreases n,
{
    if n <= 0 {
        Seq::empty()
    } else if (indexes[n - 1].table_oid == table_oid) == on {
        positions(indexes, table_oid, on, n - 1).push(n - 1)
    } else {
        positions(indexes, table_oid, on, n - 1)
    }
}

pub open spec fn picked(indexes: Seq<IndexInfo>, ps: Seq<int>) -> Seq<IndexInfo> {
    Seq::new(ps.len(), |a: int| indexes[ps[a]])
}

/// The indexes on the table with that oid.
pub open spec fn indexes_on(indexes: Seq<IndexInfo>, table_oid: u32) -> Seq<IndexInfo> {
    picked(indexes, positions(indexes, table_oid, true, indexes.len() as int))
}

/// The indexes on other tables than the one with that oid.
pub open spec fn indexes_elsewhere(indexes: Seq<IndexInfo>, table_oid: u32) -> Seq<IndexInfo> {
    picked(indexes, positions(indexes, table_oid, false, indexes.len() as int))
}

pub proof fn lemma_positions(indexes: Seq<IndexInfo>, table_oid: u32, on: bool, n: int)
    requires
        0 <= n <= indexes.len(),
    ensures
        ({
            let ps = positions(indexes, table_oid, on, n);
            &&& ps.len() <= n
            &&& forall|a: int|
                0 <= a < ps.len() ==> 0 <= #[trigger] ps[a] < n && (indexes[ps[a]].table_oid
                    == table_oid) == on
            &&& forall|a: int, b: int| 0 <= a < b < ps.len() ==> #[trigger] ps[a] < #[trigger] ps[b]
            &&& forall|k: int|
                0 <= k < n && ((#[trigger] indexes[k]).table_oid == table_oid) == on
                    ==> ps.contains(k)
        }),
    decreases n,
{
    if n > 0 {
        lemma_positions(indexes, table_oid, on, n - 1);
        let rest = positions(indexes, table_oid, on, n - 1);
        let ps = positions(indexes, table_oid, on, n);
        assert forall|k: int|
            0 <= k < n && ((#[trigger] indexes[k]).table_oid == table_oid) == on implies ps.contains(
            k,
        ) by {
            if k < n - 1 {
                let a = choose|a: int| 0 <= a < rest.len() && rest[a] == k;
                assert(ps[a] == k);
            } else {
                assert(ps[ps.len() - 1] == k);
            }
        }
    }
}

/// The tables with the one at `i` marked as indexed.
pub open spec fn marked_indexed(before: Seq<TableEntry>, after: Seq<TableEntry>, i: int) -> bool {
    &&& after.len() == before.len()
    &&& forall|k: int| 0 <= k < before.len() && k != i ==> (#[trigger] after[k]) == before[k]
    &&& after[i].oid == before[i].oid
    &&& after[i].info == before[i].info
    &&& after[i].indexed
}

/// The texts that some strings hold.
pub open spec fn texts(names: Seq<&str>) -> Seq<Seq<char>> {
    Seq::new(names.len(), |i: int| names[i]@)
}

/// `idxs` are the positions of the columns that `names` name, in their order.
pub open spec fn named_columns(s: SchemaView, names: Seq<Seq<char>>, idxs: Seq<usize>) -> bool {
    &&& idxs.len() == names.len()
    &&& forall|i: int|
        0 <= i < names.len() ==> column_at(s.cols, #[trigger] names[i], idxs[i] as int)
}

pub open spec fn has_column(s: SchemaView, name: Seq<char>) -> bool {
    exists|c: int| column_at(s.cols, name, c)
}

/// Every name is that of a column.
pub open spec fn names_resolve(s: SchemaView, names: Seq<Seq<char>>) -> bool {
    forall|i: int| 0 <= i < names.len() ==> has_column(s, #[trigger] names[i])
}

/// The columns of these names and their positions; `None` where a name is not found.
fn resolve_columns(schema: &Schema, names: &[&str]) -> (res: Option<(Vec<Column>, Vec<usize>)>)
    ensures
        match res {
            Some((cols, idxs)) => {
                &&& names_resolve(schema@, texts(names@))
                &&& named_columns(schema@, texts(names@), idxs@)
                &&& columns_at(schema@, cols@, idxs@)
            },
            None => !names_resolve(schema@, texts(names@)),
        },
{
    let mut cols: Vec<Column> = Vec::new();
    let mut idxs: Vec<usize> = Vec::new();
    let ghost all = texts(names@);
    let mut c: usize = 0;
    while c < names.len()
        invariant
            c <= names@.len(),
            all == texts(names@),
            cols@.len() == c,
            idxs@.len() == c,
            forall|k: int|
                0 <= k < c ==> column_at(schema@.cols, #[trigger] all[k], idxs@[k] as int),
            forall|k: int|
                0 <= k < c ==> (#[trigger] idxs@[k]) < schema@.cols.len() && cols@[k]
                    == schema@.cols[idxs@[k] as int],
        decreases names@.len() - c,
    {
        assert(all[c as int] == names@[c as int]@);
        match schema.col_idx(names[c]) {
            Some(idx) => {
                cols.push(schema.cols[idx].clone());
                idxs.push(idx);
            },
            None => {
                assert(!has_column(schema@, all[c as int]));
                return None;
            },
        }
        c += 1;
    }
    assert forall|k: int| 0 <= k < all.len() implies has_column(schema@, #[trigger] all[k]) by {
        assert(column_at(schema@.cols, all[k], idxs@[k] as int));
    }
    Some((cols, idxs))
}

/// `b` is `a` with an empty table of that name and schema under the next oid.
pub open spec fn table_created(
    a: &Catalog,
    b: &Catalog,
    p0: Pages,
    p1: Pages,
    name: Seq<char>,
    schema: SchemaView,
) -> bool {
    let n = a.tables@.len() as int;
    let entry = b.tables@[n];
    &&& forall|i: int| !is_table_named(a.tables@, name, i)
    &&& b.next_table_oid == a.next_table_oid + 1
    &&& b.next_index_oid == a.next_index_oid
    &&& b.tables@ == a.tables@.push(entry)
    &&& entry.oid == a.next_table_oid
    &&& !entry.indexed
    &&& entry.info.name@ == name
    &&& entry.info.schema@ == schema
    &&& b.rows(p1, n) == Seq::<Row>::empty()
    &&& b.indexes@ == a.indexes@
    &&& a.other_tables_kept(p0, p1, n)
    &&& forall|j: int| 0 <= j < a.indexes@.len() ==> #[trigger] a.index_kept(p0, p1, j)
}

/// `b` is `a` with an empty index of that name on those columns of a table under the next oid.
pub open spec fn index_created(
    a: &Catalog,
    b: &Catalog,
    p0: Pages,
    p1: Pages,
    table_oid: u32,
    name: Seq<char>,
    cols: Seq<Seq<char>>,
) -> bool {
    let i = a.table_pos(table_oid);
    let s = a.table(table_oid).schema@;
    let info = b.indexes@[a.indexes@.len() as int];
    &&& a.has_table(table_oid)
    &&& forall|j: int| !is_index_named(a.indexes@, table_oid, name, j)
    &&& b.next_index_oid == a.next_index_oid + 1
    &&& b.next_table_oid == a.next_table_oid
    &&& marked_indexed(a.tables@, b.tables@, i)
    &&& b.indexes@ == a.indexes@.push(info)
    &&& info.oid == a.next_index_oid
    &&& info.name@ == name
    &&& info.table_oid == table_oid
    &&& info.index.valid()
    &&& info.index.idx.index_name@ == name
    &&& info.index.table_bitmap_len == s.bitmap_len
    &&& named_columns(s, cols, info.index.indexed_col_idxs@)
    &&& columns_at(s, info.index.indexed_cols@, info.index.indexed_col_idxs@)
    &&& info.index.idx.is_empty(p1)
    &&& a.other_tables_kept(p0, p1, -1)
    &&& forall|j: int| 0 <= j < a.indexes@.len() ==> #[trigger] a.index_kept(p0, p1, j)
}

/// The columns of a key are too wide for an index page, or the pool has no page for it.
pub open spec fn index_impossible(
    bpm: &BufferPoolManager,
    s: SchemaView,
    names: Seq<Seq<char>>,
) -> bool {
    exists|cols: Seq<Column>, idxs: Seq<usize>|
        {
            let width = offset_of(cols, cols.len() as int);
            &&& #[trigger] columns_at(s, cols, idxs)
            &&& named_columns(s, names, idxs)
            &&& width > u32::MAX || unusable_key_len(width as u32) || !(bpm.has_frame()
                && bpm.next_page_id() < usize::MAX)
        }
}

/// Why an index is not created.
pub open spec fn index_error_is(
    a: &Catalog,
    bpm: &BufferPoolManager,
    table_oid: u32,
    name: Seq<char>,
    cols: Seq<Seq<char>>,
    e: CatalogError,
) -> bool {
    if !a.has_table(table_oid) {
        e == CatalogError::TableDoesNotExist
    } else if !names_resolve(a.table(table_oid).schema@, cols) {
        e == CatalogError::ColumnNotFound
    } else if exists|j: int| is_index_named(a.indexes@, table_oid, name, j) {
        e == CatalogError::IndexExists
    } else {
        &&& e matches CatalogError::IndexCreationError(m) && m@ == "failed to create index"@
        &&& index_impossible(bpm, a.table(table_oid).schema@, cols)
    }
}

impl Catalog {
    pub open spec fn has_table(&self, oid: u32) -> bool {
        exists|i: int| is_table(self.tables@, oid, i)
    }

    pub open spec fn table_pos(&self, oid: u32) -> int {
        choose|i: int| is_table(self.tables@, oid, i)
    }

    /// The table with that oid.
    pub open spec fn table(&self, oid: u32) -> TableInfo {
        self.tables@[self.table_pos(oid)].info
    }

    pub open spec fn has_index(&self, oid: u32) -> bool {
        exists|j: int| is_index(self.indexes@, oid, j)
    }

    pub open spec fn index_pos(&self, oid: u32) -> int {
        choose|j: int| is_index(self.indexes@, oid, j)
    }

    /// The index with that oid.
    pub open spec fn index(&self, oid: u32) -> IndexInfo {
        self.indexes@[self.index_pos(oid)]
    }

    /// Oids are given out once, names are not shared, and every index belongs to a table and
    /// describes its columns.
    pub open spec fn valid(&self) -> bool {
        &&& forall|i: int, k: int|
            0 <= i < k < self.tables@.len() ==> (#[trigger] self.tables@[i]).oid != (
            #[trigger] self.tables@[k]).oid && self.tables@[i].info.name@
                != self.tables@[k].info.name@
        &&& forall|i: int|
            0 <= i < self.tables@.len() ==> (#[trigger] self.tables@[i]).oid < self.next_table_oid
                && self.tables@[i].info.schema@.wf()
        &&& forall|j: int, k: int|
            0 <= j < k < self.indexes@.len() ==> (#[trigger] self.indexes@[j]).oid != (
            #[trigger] self.indexes@[k]).oid && !(self.indexes@[j].table_oid
                == self.indexes@[k].table_oid && self.indexes@[j].name@ == self.indexes@[k].name@)
        &&& forall|j: int| 0 <= j < self.indexes@.len() ==> self.index_fits(#[trigger] self.indexes@[j])
    }

    /// The index belongs to a table and describes its columns.
    pub open spec fn index_fits(&self, info: IndexInfo) -> bool {
        &&& info.oid < self.next_index_oid
        &&& exists|i: int| #[trigger]
            is_table(self.tables@, info.table_oid, i) && self.tables@[i].indexed && {
                let s = self.tables@[i].info.schema@;
                &&& info.index.valid()
                &&& info.index.table_bitmap_len == s.bitmap_len
                &&& columns_at(s, info.index.indexed_cols@, info.index.indexed_col_idxs@)
            }
    }

    /// Tables and indexes lie on pages of their own.
    pub open spec fn laid_out(&self, pages: Pages) -> bool {
        &&& forall|i: int|
            0 <= i < self.tables@.len() ==> (#[trigger] self.tables@[i]).info.heap.wf(pages)
        &&& forall|j: int|
            0 <= j < self.indexes@.len() ==> (#[trigger] self.indexes@[j]).index.wf(pages)
        &&& forall|i: int, k: int|
            0 <= i < k < self.tables@.len() ==> (#[trigger] self.tables@[i]).info.heap.last_page_id
                != (#[trigger] self.tables@[k]).info.heap.last_page_id
        &&& forall|i: int, j: int|
            0 <= i < self.tables@.len() && 0 <= j < self.indexes@.len() ==> !(
            #[trigger] self.indexes@[j]).index.idx.owns(
                pages,
                (#[trigger] self.tables@[i]).info.heap.last_page_id,
            )
        &&& forall|j: int, k: int, p: usize|
            0 <= j < self.indexes@.len() && 0 <= k < self.indexes@.len() && j != k ==> !(
            #[trigger] self.indexes@[j].index.idx.owns(pages, p) && #[trigger] self.indexes@[
                k].index.idx.owns(pages, p))
    }

    /// What an index holds stands for slots of its table.
    pub open spec fn entries_in_table(&self, pages: Pages) -> bool {
        forall|i: int, j: int, k: Seq<u8>|
            0 <= j < self.indexes@.len() && #[trigger] is_table(
                self.tables@,
                self.indexes@[j].table_oid,
                i,
            ) ==> ((#[trigger] self.indexes@[j].index.find(pages, k)) matches Some(rid)
                ==> self.tables@[i].info.heap.has_slot(pages, rid))
    }

    /// The catalog is in order, and the pages hold its tables and indexes.
    pub open spec fn wf(&self, pages: Pages) -> bool {
        &&& self.valid()
        &&& self.laid_out(pages)
        &&& self.entries_in_table(pages)
    }

    /// The rows of table `i`.
    pub open spec fn rows(&self, pages: Pages, i: int) -> Seq<Row> {
        self.tables@[i].info.heap.rows(pages)
    }

    /// Every table but `i` has the rows it had.
    pub open spec fn other_tables_kept(&self, p0: Pages, p1: Pages, i: int) -> bool {
        forall|k: int|
            0 <= k < self.tables@.len() && k != i ==> #[trigger] self.rows(p1, k) == self.rows(
                p0,
                k,
            )
    }

    /// Index `j` finds what it found.
    pub open spec fn index_kept(&self, p0: Pages, p1: Pages, j: int) -> bool {
        forall|k: Seq<u8>| #[trigger]
            self.indexes@[j].index.find(p1, k) == self.indexes@[j].index.find(p0, k)
    }

    pub fn new() -> (res: Self)
        ensures
            res.tables@.len() == 0,
            res.indexes@.len() == 0,
            res.next_table_oid == 0,
            res.next_index_oid == 0,
            forall|pages: Pages| res.wf(pages),
    {
        Catalog { next_table_oid: 0, next_index_oid: 0, tables: Vec::new(), indexes: Vec::new() }
    }

    fn position(&self, oid: u32) -> (res: Option<usize>)
        ensures
            match res {
                Some(i) => is_table(self.tables@, oid, i as int),
                None => !self.has_table(oid),
            },
    {
        let mut i: usize = 0;
        while i < self.tables.len()
            invariant
                i <= self.tables@.len(),
                forall|k: int| 0 <= k < i ==> (#[trigger] self.tables@[k]).oid != oid,
            decreases self.tables@.len() - i,
        {
            if self.tables[i].oid == oid {
                return Some(i);
            }
            i += 1;
        }
        None
    }

    fn named(&self, name: &str) -> (res: Option<usize>)
        ensures
            match res {
                Some(i) => is_table_named(self.tables@, name@, i as int),
                None => forall|i: int| !is_table_named(self.tables@, name@, i),
            },
    {
        let mut i: usize = 0;
        while i < self.tables.len()
            invariant
                i <= self.tables@.len(),
                forall|k: int| 0 <= k < i ==> (#[trigger] self.tables@[k]).info.name@ != name@,
            decreases self.tables@.len() - i,
        {
            if same_text(self.tables[i].info.name.as_str(), name) {
                return Some(i);
            }
            i += 1;
        }
        None
    }

    fn index_position(&self, oid: u32) -> (res: Option<usize>)
        ensures
            match res {
                Some(j) => is_index(self.indexes@, oid, j as int),
                None => !self.has_index(oid),
            },
    {
        let mut j: usize = 0;
        while j < self.indexes.len()
            invariant
                j <= self.indexes@.len(),
                forall|k: int| 0 <= k < j ==> (#[trigger] self.indexes@[k]).oid != oid,
            decreases self.indexes@.len() - j,
        {
            if self.indexes[j].oid == oid {
                return Some(j);
            }
            j += 1;
        }
        None
    }

    fn index_named(&self, table_oid: u32, name: &str) -> (res: Option<usize>)
        ensures
            match res {
                Some(j) => is_index_named(self.indexes@, table_oid, name@, j as int),
                None => forall|j: int| !is_index_named(self.indexes@, table_oid, name@, j),
            },
    {
        let mut j: usize = 0;
        while j < self.indexes.len()
            invariant
                j <= self.indexes@.len(),
                forall|k: int|
                    0 <= k < j ==> !is_index_named(self.indexes@, table_oid, name@, k),
            decreases self.indexes@.len() - j,
        {
            if self.indexes[j].table_oid == table_oid && same_text(
                self.indexes[j].name.as_str(),
                name,
            ) {
                return Some(j);
            }
            j += 1;
        }
        None
    }

    /// Creates an empty table under a new oid.
    pub fn create_table(&mut self, bpm: &mut BufferPoolManager, name: String, schema: Schema) -> (
    res: Result<u32, CatalogError>)
        requires
            old(bpm).wf(),
            old(bpm).ready(),
            old(bpm).ids_fresh(),
            old(bpm).next_page_id() < u32::MAX,
            old(self).wf(old(bpm).pages()),
            old(self).next_table_oid < u32::MAX,
            schema@.wf(),
        ensures
            final(bpm).wf(),
            final(bpm).ready(),
            final(bpm).ids_fresh(),
            final(self).wf(final(bpm).pages()),
            forall|q: usize| #[trigger] final(bpm).pins(q) == old(bpm).pins(q),
            match res {
                Ok(oid) => {
                    &&& oid == old(self).next_table_oid
                    &&& final(bpm).next_page_id() == old(bpm).next_page_id() + 1
                    &&& table_created(
                        old(self),
                        final(self),
                        old(bpm).pages(),
                        final(bpm).pages(),
                        name@,
                        schema@,
                    )
                },
                Err(e) => {
                    &&& e == CatalogError::TableExists
                    &&& exists|i: int| is_table_named(old(self).tables@, name@, i)
                    &&& *final(self) == *old(self)
                    &&& *final(bpm) == *old(bpm)
                },
            },
    {
        if self.named(name.as_str()).is_some() {
            return Err(CatalogError::TableExists);
        }
        let ghost p0 = bpm.pages();
        let heap = match TableHeap::new(bpm) {
            Ok(h) => h,
            Err(_) => {
                assert(false);
                return Err(CatalogError::TableExists);
            },
        };
        let oid: u32 = self.next_table_oid;
        self.next_table_oid = oid + 1;
        self.tables.push(TableEntry { oid, indexed: false, info: TableInfo { name, schema, heap } });
        proof {
            lemma_table_added(*old(self), *self, p0, bpm.pages(), heap.last_page_id);
        }
        Ok(oid)
    }

    /// Drops a table by oid, along with any indexes associated with it.
    /// Returns `Ok(true)` if the table existed and was dropped, `Ok(false)` otherwise.
    pub fn drop_table(&mut self, oid: u32) -> (res: Result<bool, CatalogError>)
        requires
            old(self).valid(),
        ensures
            final(self).valid(),
            forall|pages: Pages| #[trigger] old(self).wf(pages) ==> final(self).wf(pages),
            final(self).next_table_oid == old(self).next_table_oid,
            final(self).next_index_oid == old(self).next_index_oid,
            res == Ok::<bool, CatalogError>(old(self).has_table(oid)),
            !old(self).has_table(oid) ==> *final(self) == *old(self),
            old(self).has_table(oid) ==> {
                &&& final(self).tables@ == old(self).tables@.remove(old(self).table_pos(oid))
                &&& final(self).indexes@ == indexes_elsewhere(old(self).indexes@, oid)
            },
    {
        let i: usize = match self.position(oid) {
            Some(i) => i,
            None => { return Ok(false); },
        };
        proof {
            assert(is_table(self.tables@, oid, self.table_pos(oid)));
            assert(i == self.table_pos(oid));
        }
        self.tables.remove(i);
        let ghost all = self.indexes@;
        let mut j: usize = 0;
        let ghost mut seen: int = 0;
        proof {
            assert(self.indexes@.subrange(0, 0) =~= picked(all, positions(all, oid, false, 0)));
        }
        while j < self.indexes.len()
            invariant
                0 <= seen <= all.len(),
                self.tables@ == old(self).tables@.remove(i as int),
                self.next_table_oid == old(self).next_table_oid,
                self.next_index_oid == old(self).next_index_oid,
                j <= self.indexes@.len(),
                self.indexes@.len() - j == all.len() - seen,
                self.indexes@.subrange(0, j as int) == picked(
                    all,
                    positions(all, oid, false, seen),
                ),
                self.indexes@.subrange(j as int, self.indexes@.len() as int) == all.subrange(
                    seen,
                    all.len() as int,
                ),
            decreases self.indexes@.len() - j,
        {
            let ghost now = self.indexes@;
            let ghost rest = now.subrange(j as int, now.len() as int);
            assert(now[j as int] == rest[0]);
            assert(all.subrange(seen, all.len() as int)[0] == all[seen]);
            let ghost kept = positions(all, oid, false, seen);
            assert(picked(all, kept.push(seen)) =~= picked(all, kept).push(all[seen]));
            if self.indexes[j].table_oid == oid {
                self.indexes.remove(j);
                proof {
                    assert(self.indexes@.subrange(0, j as int) =~= now.subrange(0, j as int));
                    assert(self.indexes@.subrange(j as int, self.indexes@.len() as int)
                        =~= rest.drop_first());
                }
            } else {
                j += 1;
                proof {
                    assert(self.indexes@.subrange(0, j as int) =~= now.subrange(0, j - 1).push(
                        now[j - 1],
                    ));
                    assert(self.indexes@.subrange(j as int, self.indexes@.len() as int)
                        =~= rest.drop_first());
                }
            }
            proof {
                assert(all.subrange(seen, all.len() as int).drop_first() =~= all.subrange(
                    seen + 1,
                    all.len() as int,
                ));
                seen = seen + 1;
            }
        }
        proof {
            assert(self.indexes@.subrange(0, j as int) =~= self.indexes@);
            lemma_table_dropped(*old(self), *self, oid, i as int);
        }
        Ok(true)
    }

    pub fn table_oid(&self, name: &str) -> (res: Result<u32, CatalogError>)
        ensures
            match res {
                Ok(oid) => exists|i: int| #[trigger]
                    is_table_named(self.tables@, name@, i) && self.tables@[i].oid == oid,
                Err(e) => e == CatalogError::TableDoesNotExist && forall|i: int|
                    !is_table_named(self.tables@, name@, i),
            },
    {
        match self.named(name) {
            Some(i) => Ok(self.tables[i].oid),
            None => Err(CatalogError::TableDoesNotExist),
        }
    }

    pub fn get_table(&self, oid: u32) -> (res: Result<&TableInfo, CatalogError>)
        requires
            self.valid(),
        ensures
            match res {
                Ok(info) => self.has_table(oid) && *info == self.table(oid),
                Err(e) => e == CatalogError::TableDoesNotExist && !self.has_table(oid),
            },
    {
        match self.position(oid) {
            Some(i) => {
                assert(is_table(self.tables@, oid, self.table_pos(oid)));
                Ok(&self.tables[i].info)
            },
            None => Err(CatalogError::TableDoesNotExist),
        }
    }

    /// Creates an empty index on columns of a table. Rows that the table already holds are not
    /// added to it.
    pub fn create_index(
        &mut self,
        bpm: &mut BufferPoolManager,
        table_oid: u32,
        name: String,
        col_names: &[&str],
        index_type: IndexType,
    ) -> (res: Result<u32, CatalogError>)
        requires
            old(bpm).wf(),
            old(bpm).ids_fresh(),
            old(self).wf(old(bpm).pages()),
            old(self).next_index_oid < u32::MAX,
            col_names@.len() <= usize::MAX / 16,
        ensures
            carried(old(bpm), final(bpm)),
            final(self).wf(final(bpm).pages()),
            match res {
                Ok(oid) => {
                    &&& oid == old(self).next_index_oid
                    &&& index_created(
                        old(self),
                        final(self),
                        old(bpm).pages(),
                        final(bpm).pages(),
                        table_oid,
                        name@,
                        texts(col_names@),
                    )
                },
                Err(e) => {
                    &&& *final(self) == *old(self)
                    &&& final(bpm).pages() == old(bpm).pages()
                    &&& index_error_is(
                        old(self),
                        old(bpm),
                        table_oid,
                        name@,
                        texts(col_names@),
                        e,
                    )
                },
            },
    {
        let i: usize = match self.position(table_oid) {
            Some(i) => i,
            None => { return Err(CatalogError::TableDoesNotExist); },
        };
        proof {
            assert(is_table(self.tables@, table_oid, self.table_pos(table_oid)));
            assert(i == self.table_pos(table_oid));
        }
        let ghost s = self.tables@[i as int].info.schema@;
        let (cols, idxs) = match resolve_columns(&self.tables[i].info.schema, col_names) {
            Some(found) => found,
            None => { return Err(CatalogError::ColumnNotFound); },
        };
        if self.index_named(table_oid, name.as_str()).is_some() {
            return Err(CatalogError::IndexExists);
        }
        let bitmap_len: usize = self.tables[i].info.schema.bitmap_len;
        let ghost p0 = bpm.pages();
        let index = match TableIndex::new(
            bpm,
            name.clone(),
            cols,
            idxs,
            bitmap_len,
            index_type,
        ) {
            Ok(index) => index,
            Err(_) => {
                return Err(
                    CatalogError::IndexCreationError("failed to create index".to_owned()),
                );
            },
        };
        let oid: u32 = self.next_index_oid;
        self.next_index_oid = oid + 1;
        self.tables[i].indexed = true;
        self.indexes.push(IndexInfo { oid, name, table_oid, index });
        proof {
            lemma_index_added(*old(self), *self, p0, bpm.pages(), i as int);
        }
        Ok(oid)
    }

    /// Drops an index by oid. Returns `Ok(true)` if the index existed and was dropped.
    pub fn drop_index(&mut self, oid: u32) -> (res: Result<bool, CatalogError>)
        requires
            old(self).valid(),
        ensures
            final(self).valid(),
            forall|pages: Pages| #[trigger] old(self).wf(pages) ==> final(self).wf(pages),
            final(self).tables@ == old(self).tables@,
            final(self).next_table_oid == old(self).next_table_oid,
            final(self).next_index_oid == old(self).next_index_oid,
            res == Ok::<bool, CatalogError>(old(self).has_index(oid)),
            !old(self).has_index(oid) ==> final(self).indexes@ == old(self).indexes@,
            old(self).has_index(oid) ==> final(self).indexes@ == old(self).indexes@.remove(
                old(self).index_pos(oid),
            ),
    {
        match self.index_position(oid) {
            Some(j) => {
                proof {
                    assert(is_index(self.indexes@, oid, self.index_pos(oid)));
                    assert(j == self.index_pos(oid));
                }
                self.indexes.remove(j);
                proof {
                    lemma_index_dropped(*old(self), *self, j as int);
                }
                Ok(true)
            },
            None => Ok(false),
        }
    }

    /// The oid of an index by the names of its table and of itself. A table for which no index
    /// was ever created counts as missing.
    pub fn index_oid(&self, table_name: &str, index_name: &str) -> (res: Result<u32, CatalogError>)
        requires
            self.valid(),
        ensures
            match res {
                Ok(oid) => exists|i: int, j: int| #[trigger]
                    is_table_named(self.tables@, table_name@, i) && #[trigger] is_index_named(
                        self.indexes@,
                        self.tables@[i].oid,
                        index_name@,
                        j,
                    ) && self.indexes@[j].oid == oid,
                Err(CatalogError::TableDoesNotExist) => forall|i: int| #[trigger]
                    is_table_named(self.tables@, table_name@, i) ==> !self.tables@[i].indexed,
                Err(e) => e == CatalogError::IndexDoesNotExist && exists|i: int| #[trigger]
                    is_table_named(self.tables@, table_name@, i) && self.tables@[i].indexed
                        && forall|j: int|
                        !is_index_named(self.indexes@, self.tables@[i].oid, index_name@, j),
            },
    {
        match self.named(table_name) {
            Some(i) => {
                if !self.tables[i].indexed {
                    return Err(CatalogError::TableDoesNotExist);
                }
                match self.index_named(self.tables[i].oid, index_name) {
                    Some(j) => Ok(self.indexes[j].oid),
                    None => Err(CatalogError::IndexDoesNotExist),
                }
            },
            None => Err(CatalogError::TableDoesNotExist),
        }
    }

    pub fn get_index(&self, oid: u32) -> (res: Result<&IndexInfo, CatalogError>)
        requires
            self.valid(),
        ensures
            match res {
                Ok(info) => self.has_index(oid) && *info == self.index(oid),
                Err(e) => e == CatalogError::IndexDoesNotExist && !self.has_index(oid),
            },
    {
        match self.index_position(oid) {
            Some(j) => {
                assert(is_index(self.indexes@, oid, self.index_pos(oid)));
                Ok(&self.indexes[j])
            },
            None => Err(CatalogError::IndexDoesNotExist),
        }
    }

    /// The indexes on a table, oldest first.
    pub fn get_table_indexes(&self, table_oid: u32) -> (res: Result<Vec<&IndexInfo>, CatalogError>)
        ensures
            match res {
                Ok(infos) => {
                    &&& self.has_table(table_oid)
                    &&& Seq::new(infos@.len(), |i: int| *infos@[i]) == self.table_indexes(table_oid)
                },
                Err(e) => e == CatalogError::TableDoesNotExist && !self.has_table(table_oid),
            },
    {
        if self.position(table_oid).is_none() {
            return Err(CatalogError::TableDoesNotExist);
        }
        let mut infos: Vec<&IndexInfo> = Vec::new();
        let mut j: usize = 0;
        assert(Seq::new(infos@.len(), |i: int| *infos@[i]) =~= picked(
            self.indexes@,
            positions(self.indexes@, table_oid, true, 0),
        ));
        while j < self.indexes.len()
            invariant
                j <= self.indexes@.len(),
                Seq::new(infos@.len(), |i: int| *infos@[i]) == picked(
                    self.indexes@,
                    positions(self.indexes@, table_oid, true, j as int),
                ),
            decreases self.indexes@.len() - j,
        {
            let ghost before = Seq::new(infos@.len(), |i: int| *infos@[i]);
            let ghost ps = positions(self.indexes@, table_oid, true, j as int);
            assert(picked(self.indexes@, ps.push(j as int)) =~= picked(self.indexes@, ps).push(
                self.indexes@[j as int],
            ));
            if self.indexes[j].table_oid == table_oid {
                infos.push(&self.indexes[j]);
                assert(Seq::new(infos@.len(), |i: int| *infos@[i]) =~= before.push(
                    self.indexes@[j as int],
                ));
            }
            j += 1;
        }
        Ok(infos)
    }

    pub open spec fn table_indexes(&self, table_oid: u32) -> Seq<IndexInfo> {
        indexes_on(self.indexes@, table_oid)
    }
}

/// Pages that keep what they held keep the catalog in order.
pub proof fn lemma_catalog_frame(c: Catalog, p0: Pages, p1: Pages)
    requires
        c.wf(p0),
        forall|p: usize| #[trigger] p0.contains_key(p) ==> p1.contains_key(p) && p1[p] == p0[p],
    ensures
        c.wf(p1),
        c.other_tables_kept(p0, p1, -1),
        forall|j: int|
            0 <= j < c.indexes@.len() ==> #[trigger] c.index_kept(p0, p1, j),
        forall|j: int, p: usize|
            0 <= j < c.indexes@.len() ==> #[trigger] c.indexes@[j].index.idx.owns(p1, p)
                == c.indexes@[j].index.idx.owns(p0, p),
{
    assert forall|j: int| 0 <= j < c.indexes@.len() implies #[trigger] c.index_kept(p0, p1, j)
        && c.indexes@[j].index.wf(p1) && (forall|p: usize| #[trigger]
        c.indexes@[j].index.idx.owns(p1, p) == c.indexes@[j].index.idx.owns(p0, p)) by {
        let idx = c.indexes@[j].index.idx;
        law_tree_pages_exist(p0, idx.shape(), idx.header_page_id);
        law_tree_frame(p0, p1, idx.shape(), idx.header_page_id);
    }
    assert forall|j: int, p: usize| 0 <= j < c.indexes@.len() implies #[trigger] c.indexes@[
        j].index.idx.owns(p1, p) == c.indexes@[j].index.idx.owns(p0, p) by {
        assert(c.index_kept(p0, p1, j));
    }
    assert forall|i: int| 0 <= i < c.tables@.len() implies (
    #[trigger] c.tables@[i]).info.heap.wf(p1) && c.rows(p1, i) == c.rows(p0, i) by {
        assert(c.tables@[i].info.heap.wf(p0));
    }
    assert forall|j: int| 0 <= j < c.indexes@.len() implies (
    #[trigger] c.indexes@[j]).index.wf(p1) by {
        assert(c.index_kept(p0, p1, j));
    }
    assert(c.laid_out(p1));
    assert forall|i: int, j: int, k: Seq<u8>|
        0 <= j < c.indexes@.len() && #[trigger] is_table(
            c.tables@,
            c.indexes@[j].table_oid,
            i,
        ) implies ((#[trigger] c.indexes@[j].index.find(p1, k)) matches Some(rid)
        ==> c.tables@[i].info.heap.has_slot(p1, rid)) by {
        assert(c.index_kept(p0, p1, j));
        assert(c.indexes@[j].index.find(p1, k) == c.indexes@[j].index.find(p0, k));
        assert(c.rows(p1, i) == c.rows(p0, i));
    }
}

proof fn lemma_table_added(a: Catalog, b: Catalog, p0: Pages, p1: Pages, page: usize)
    requires
        a.wf(p0),
        ({
            let n = a.tables@.len() as int;
            &&& b.tables@ == a.tables@.push(b.tables@[n])
            &&& b.indexes@ == a.indexes@
            &&& b.next_table_oid == a.next_table_oid + 1
            &&& b.next_index_oid == a.next_index_oid
            &&& b.tables@[n].oid == a.next_table_oid
            &&& b.tables@[n].info.schema@.wf()
            &&& b.tables@[n].info.heap.wf(p1)
            &&& b.tables@[n].info.heap.last_page_id == page
            &&& forall|i: int| !is_table_named(a.tables@, b.tables@[n].info.name@, i)
        }),
        !p0.contains_key(page),
        p1 == p0.insert(page, p1[page]),
    ensures
        b.wf(p1),
        a.other_tables_kept(p0, p1, a.tables@.len() as int),
        forall|j: int| 0 <= j < a.indexes@.len() ==> #[trigger] a.index_kept(p0, p1, j),
{
    let n = a.tables@.len() as int;
    lemma_catalog_frame(a, p0, p1);
    assert forall|i: int| 0 <= i < n implies (#[trigger] b.tables@[i]) == a.tables@[i] by {}
    assert forall|i: int, k: int| 0 <= i < k < b.tables@.len() implies (
    #[trigger] b.tables@[i]).oid != (#[trigger] b.tables@[k]).oid && b.tables@[i].info.name@
        != b.tables@[k].info.name@ by {
        assert(b.tables@[i] == a.tables@[i]);
        if k == n {
            assert(!is_table_named(a.tables@, b.tables@[n].info.name@, i));
        }
    }
    assert forall|j: int| 0 <= j < b.indexes@.len() implies b.index_fits(#[trigger] b.indexes@[j]) by {
        let info = a.indexes@[j];
        assert(a.index_fits(info));
        let i = choose|i: int| #[trigger]
            is_table(a.tables@, info.table_oid, i) && a.tables@[i].indexed && {
                let s = a.tables@[i].info.schema@;
                &&& info.index.valid()
                &&& info.index.table_bitmap_len == s.bitmap_len
                &&& columns_at(s, info.index.indexed_cols@, info.index.indexed_col_idxs@)
            };
        assert(is_table(b.tables@, info.table_oid, i));
    }
    assert(b.valid());
    assert forall|j: int| 0 <= j < b.indexes@.len() implies !(
    #[trigger] b.indexes@[j]).index.idx.owns(p1, page) by {
        let idx = a.indexes@[j].index.idx;
        assert(a.indexes@[j].index.wf(p0));
        law_tree_pages_exist(p0, idx.shape(), idx.header_page_id);
        assert(idx.owns(p1, page) == idx.owns(p0, page));
    }
    assert forall|i: int, k: int| 0 <= i < k < b.tables@.len() implies (
    #[trigger] b.tables@[i]).info.heap.last_page_id != (
    #[trigger] b.tables@[k]).info.heap.last_page_id by {
        assert(b.tables@[i] == a.tables@[i]);
        assert(a.tables@[i].info.heap.wf(p0));
    }
    assert(b.laid_out(p1));
    assert forall|i: int, j: int, k: Seq<u8>|
        0 <= j < b.indexes@.len() && #[trigger] is_table(
            b.tables@,
            b.indexes@[j].table_oid,
            i,
        ) implies ((#[trigger] b.indexes@[j].index.find(p1, k)) matches Some(rid)
        ==> b.tables@[i].info.heap.has_slot(p1, rid)) by {
        assert(a.index_fits(a.indexes@[j]));
        assert(is_table(a.tables@, a.indexes@[j].table_oid, i));
    }
}

/// What a catalog without a table and its indexes still holds.
pub open spec fn table_gone(a: Catalog, b: Catalog, oid: u32, i: int) -> bool {
    &&& is_table(a.tables@, oid, i)
    &&& b.tables@ == a.tables@.remove(i)
    &&& b.indexes@ == indexes_elsewhere(a.indexes@, oid)
    &&& b.next_table_oid == a.next_table_oid
    &&& b.next_index_oid == a.next_index_oid
}

/// Where the entries come from that are left.
proof fn lemma_table_gone(a: Catalog, b: Catalog, oid: u32, i: int)
    requires
        table_gone(a, b, oid, i),
    ensures
        ({
            let ps = positions(a.indexes@, oid, false, a.indexes@.len() as int);
            &&& ps.len() == b.indexes@.len()
            &&& forall|j: int|
                0 <= j < b.indexes@.len() ==> 0 <= ps[j] < a.indexes@.len() && (
                #[trigger] b.indexes@[j]) == a.indexes@[ps[j]] && b.indexes@[j].table_oid != oid
            &&& forall|j: int, k: int| 0 <= j < k < ps.len() ==> #[trigger] ps[j] < #[trigger] ps[k]
            &&& forall|k: int|
                0 <= k < b.tables@.len() ==> (#[trigger] b.tables@[k]) == a.tables@[if k < i {
                    k
                } else {
                    k + 1
                }]
        }),
{
    lemma_positions(a.indexes@, oid, false, a.indexes@.len() as int);
}

proof fn lemma_table_dropped(a: Catalog, b: Catalog, oid: u32, i: int)
    requires
        a.valid(),
        table_gone(a, b, oid, i),
    ensures
        b.valid(),
        forall|pages: Pages| #[trigger] a.wf(pages) ==> b.wf(pages),
{
    lemma_table_dropped_valid(a, b, oid, i);
    assert forall|pages: Pages| #[trigger] a.wf(pages) implies b.wf(pages) by {
        lemma_table_dropped_pages(a, b, oid, i, pages);
    }
}

#[verifier::rlimit(40)]
#[verifier::spinoff_prover]
proof fn lemma_table_dropped_valid(a: Catalog, b: Catalog, oid: u32, i: int)
    requires
        a.valid(),
        table_gone(a, b, oid, i),
    ensures
        b.valid(),
{
    lemma_table_gone(a, b, oid, i);
    let ps = positions(a.indexes@, oid, false, a.indexes@.len() as int);
    assert forall|j: int| 0 <= j < b.indexes@.len() implies b.index_fits(#[trigger] b.indexes@[j]) by {
        let info = a.indexes@[ps[j]];
        assert(b.indexes@[j] == info);
        assert(a.index_fits(info));
        let k = choose|k: int| #[trigger]
            is_table(a.tables@, info.table_oid, k) && a.tables@[k].indexed && {
                let s = a.tables@[k].info.schema@;
                &&& info.index.valid()
                &&& info.index.table_bitmap_len == s.bitmap_len
                &&& columns_at(s, info.index.indexed_cols@, info.index.indexed_col_idxs@)
            };
        let m = if k < i { k } else { k - 1 };
        assert(b.tables@[m] == a.tables@[k]);
        assert(is_table(b.tables@, info.table_oid, m));
    }
    assert forall|j: int, k: int| 0 <= j < k < b.indexes@.len() implies (
    #[trigger] b.indexes@[j]).oid != (#[trigger] b.indexes@[k]).oid && !(b.indexes@[j].table_oid
        == b.indexes@[k].table_oid && b.indexes@[j].name@ == b.indexes@[k].name@) by {
        assert(ps[j] < ps[k]);
    }
}

proof fn lemma_table_dropped_pages(a: Catalog, b: Catalog, oid: u32, i: int, pages: Pages)
    requires
        a.wf(pages),
        table_gone(a, b, oid, i),
    ensures
        b.laid_out(pages),
        b.entries_in_table(pages),
{
    lemma_table_gone(a, b, oid, i);
    let ps = positions(a.indexes@, oid, false, a.indexes@.len() as int);
    assert forall|j: int, k: int, p: usize|
        0 <= j < b.indexes@.len() && 0 <= k < b.indexes@.len() && j != k implies !(
    #[trigger] b.indexes@[j].index.idx.owns(pages, p) && #[trigger] b.indexes@[
        k].index.idx.owns(pages, p)) by {
        assert(ps[j] != ps[k]) by {
            if j < k {
                assert(ps[j] < ps[k]);
            } else {
                assert(ps[k] < ps[j]);
            }
        }
        assert(b.indexes@[j] == a.indexes@[ps[j]]);
        assert(b.indexes@[k] == a.indexes@[ps[k]]);
        assert(!(a.indexes@[ps[j]].index.idx.owns(pages, p) && a.indexes@[ps[k]].index.idx.owns(
            pages,
            p,
        )));
    }
    assert forall|k: int, j: int, key: Seq<u8>|
        0 <= j < b.indexes@.len() && #[trigger] is_table(
            b.tables@,
            b.indexes@[j].table_oid,
            k,
        ) implies ((#[trigger] b.indexes@[j].index.find(pages, key)) matches Some(rid)
        ==> b.tables@[k].info.heap.has_slot(pages, rid)) by {
        let m = if k < i { k } else { k + 1 };
        assert(b.indexes@[j] == a.indexes@[ps[j]]);
        assert(b.tables@[k] == a.tables@[m]);
        assert(is_table(a.tables@, a.indexes@[ps[j]].table_oid, m));
        assert(a.indexes@[ps[j]].index.find(pages, key) == b.indexes@[j].index.find(pages, key));
    }
}

proof fn lemma_index_added(a: Catalog, b: Catalog, p0: Pages, p1: Pages, i: int)
    requires
        a.wf(p0),
        0 <= i < a.tables@.len(),
        marked_indexed(a.tables@, b.tables@, i),
        ({
            let n = a.indexes@.len() as int;
            let info = b.indexes@[n];
            let s = a.tables@[i].info.schema@;
            let page = info.index.idx.header_page_id;
            &&& b.indexes@ == a.indexes@.push(info)
            &&& b.next_table_oid == a.next_table_oid
            &&& b.next_index_oid == a.next_index_oid + 1
            &&& info.oid == a.next_index_oid
            &&& info.table_oid == a.tables@[i].oid
            &&& info.index.table_bitmap_len == s.bitmap_len
            &&& columns_at(s, info.index.indexed_cols@, info.index.indexed_col_idxs@)
            &&& info.index.wf(p1)
            &&& info.index.idx.is_empty(p1)
            &&& !p0.contains_key(page)
            &&& p1 == p0.insert(page, p1[page])
            &&& forall|j: int| !is_index_named(a.indexes@, info.table_oid, info.name@, j)
        }),
    ensures
        b.wf(p1),
        a.other_tables_kept(p0, p1, -1),
        forall|j: int| 0 <= j < a.indexes@.len() ==> #[trigger] a.index_kept(p0, p1, j),
{
    let n = a.indexes@.len() as int;
    let info = b.indexes@[n];
    let page = info.index.idx.header_page_id;
    lemma_catalog_frame(a, p0, p1);
    assert forall|k: int| 0 <= k < b.tables@.len() implies (#[trigger] b.tables@[k]).oid
        == a.tables@[k].oid && b.tables@[k].info == a.tables@[k].info by {
        if k != i {
            assert(b.tables@[k] == a.tables@[k]);
        }
    }
    assert forall|j: int| 0 <= j < b.indexes@.len() implies b.index_fits(#[trigger] b.indexes@[j]) by {
        if j < n {
            let x = a.indexes@[j];
            assert(a.index_fits(x));
            let k = choose|k: int| #[trigger]
                is_table(a.tables@, x.table_oid, k) && a.tables@[k].indexed && {
                    let s = a.tables@[k].info.schema@;
                    &&& x.index.valid()
                    &&& x.index.table_bitmap_len == s.bitmap_len
                    &&& columns_at(s, x.index.indexed_cols@, x.index.indexed_col_idxs@)
                };
            assert(is_table(b.tables@, x.table_oid, k));
            if k != i {
                assert(b.tables@[k] == a.tables@[k]);
            }
        } else {
            assert(is_table(b.tables@, info.table_oid, i));
        }
    }
    assert forall|j: int, k: int| 0 <= j < k < b.indexes@.len() implies (
    #[trigger] b.indexes@[j]).oid != (#[trigger] b.indexes@[k]).oid && !(b.indexes@[j].table_oid
        == b.indexes@[k].table_oid && b.indexes@[j].name@ == b.indexes@[k].name@) by {
        assert(b.indexes@[j] == a.indexes@[j]);
        if k == n {
            assert(a.index_fits(a.indexes@[j]));
            assert(!is_index_named(a.indexes@, info.table_oid, info.name@, j));
        }
    }
    assert(b.valid());
    assert forall|j: int| 0 <= j < n implies !(#[trigger] a.indexes@[j]).index.idx.owns(p1, page) by {
        let idx = a.indexes@[j].index.idx;
        assert(a.indexes@[j].index.wf(p0));
        law_tree_pages_exist(p0, idx.shape(), idx.header_page_id);
        assert(idx.owns(p1, page) == idx.owns(p0, page));
    }
    assert forall|j: int, k: int, p: usize|
        0 <= j < b.indexes@.len() && 0 <= k < b.indexes@.len() && j != k implies !(
    #[trigger] b.indexes@[j].index.idx.owns(p1, p) && #[trigger] b.indexes@[k].index.idx.owns(
        p1,
        p,
    )) by {
        if j < n {
            assert(b.indexes@[j] == a.indexes@[j]);
        }
        if k < n {
            assert(b.indexes@[k] == a.indexes@[k]);
        }
    }
    assert forall|k: int, j: int|
        0 <= k < b.tables@.len() && 0 <= j < b.indexes@.len() implies !(
    #[trigger] b.indexes@[j]).index.idx.owns(
        p1,
        (#[trigger] b.tables@[k]).info.heap.last_page_id,
    ) by {
        assert(a.tables@[k].info.heap.wf(p0));
        if j < n {
            assert(b.indexes@[j] == a.indexes@[j]);
        }
    }
    assert(b.laid_out(p1));
    assert forall|k: int, j: int, key: Seq<u8>|
        0 <= j < b.indexes@.len() && #[trigger] is_table(
            b.tables@,
            b.indexes@[j].table_oid,
            k,
        ) implies ((#[trigger] b.indexes@[j].index.find(p1, key)) matches Some(rid)
        ==> b.tables@[k].info.heap.has_slot(p1, rid)) by {
        if j < n {
            assert(is_table(a.tables@, a.indexes@[j].table_oid, k));
            assert(a.indexes@[j].index.find(p1, key) == b.indexes@[j].index.find(p1, key));
        }
    }
}

proof fn lemma_index_dropped(a: Catalog, b: Catalog, n: int)
    requires
        a.valid(),
        0 <= n < a.indexes@.len(),
        b.tables@ == a.tables@,
        b.indexes@ == a.indexes@.remove(n),
        b.next_table_oid == a.next_table_oid,
        b.next_index_oid == a.next_index_oid,
    ensures
        b.valid(),
        forall|pages: Pages| #[trigger] a.wf(pages) ==> b.wf(pages),
{
    assert forall|j: int| 0 <= j < b.indexes@.len() implies (#[trigger] b.indexes@[j])
        == a.indexes@[if j < n { j } else { j + 1 }] && b.index_fits(b.indexes@[j]) by {
        let m = if j < n { j } else { j + 1 };
        assert(a.index_fits(a.indexes@[m]));
    }
    assert(b.valid());
    assert forall|pages: Pages| #[trigger] a.wf(pages) implies b.wf(pages) by {
        assert forall|j: int, k: int, p: usize|
            0 <= j < b.indexes@.len() && 0 <= k < b.indexes@.len() && j != k implies !(
        #[trigger] b.indexes@[j].index.idx.owns(pages, p) && #[trigger] b.indexes@[
            k].index.idx.owns(pages, p)) by {
            let jj = if j < n { j } else { j + 1 };
            let kk = if k < n { k } else { k + 1 };
            assert(!(a.indexes@[jj].index.idx.owns(pages, p) && a.indexes@[kk].index.idx.owns(
                pages,
                p,
            )));
        }
        assert(b.laid_out(pages));
        assert forall|k: int, j: int, key: Seq<u8>|
            0 <= j < b.indexes@.len() && #[trigger] is_table(
                b.tables@,
                b.indexes@[j].table_oid,
                k,
            ) implies ((#[trigger] b.indexes@[j].index.find(pages, key)) matches Some(rid)
            ==> b.tables@[k].info.heap.has_slot(pages, rid)) by {
            let jj = if j < n { j } else { j + 1 };
            assert(is_table(a.tables@, a.indexes@[jj].table_oid, k));
            assert(a.indexes@[jj].index.find(pages, key) == b.indexes@[j].index.find(pages, key));
        }
    }
}

} // verus!
