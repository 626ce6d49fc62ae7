//! An index over some columns of a table. Rows with a NULL in one of them are not indexed.
use vstd::prelude::*;

use crate::buffer_pool::{BpmError, BufferPoolManager};
use crate::catalog::index_schema::{IndexKey, IndexValue};
use crate::catalog::key_encoding::{key_bytes_at, key_of_values, law_stored_key};
use crate::catalog::schema::{
    is_null, lemma_row_field, null_at, offset_of, Column, Schema, SchemaView,
};
use crate::catalog::value::{DataType, Value};
use crate::catalog::IndexType;
use crate::disk::is_missing;
use crate::index::b_plus_tree::{carried, pool_failed, unusable_key_len};
use crate::index::page_codec::INVALID_PAGE_ID;
use crate::index::tree_insert::with_key;
use crate::index::tree_iter::BPlusTreeIter;
use crate::index::tree_model::Pages;
use crate::index::tree_scan::{is_range, KeyBound};
use crate::index::{BPlusTree, IndexError, InsertError, InsertResult, RemoveError, RemoveResult};
use crate::table_heap::{RecordId, Tuple};

verus! {

/// A bound of a scan, as the values of the indexed columns.
pub enum ValueBound {
    Included(Vec<Value>),
    Excluded(Vec<Value>),
    Unbounded,
}

/// An index that holds nothing has no first leaf to start at.
pub open spec fn no_first_leaf(e: IndexError) -> bool {
    e matches IndexError::BpmError(BpmError::Io(io)) && is_missing(io, INVALID_PAGE_ID)
}

impl ValueBound {
    /// The bound has a value for each of `n` columns.
    pub open spec fn arity_is(&self, n: nat) -> bool {
        match *self {
            ValueBound::Included(v) => v@.len() == n,
            ValueBound::Excluded(v) => v@.len() == n,
            ValueBound::Unbounded => true,
        }
    }

    /// The key that stands for this bound.
    pub open spec fn stands_for(&self, k: KeyBound) -> bool {
        match (*self, k) {
            (ValueBound::Included(v), KeyBound::Included(key)) => key@ == key_of_values(v@),
            (ValueBound::Excluded(v), KeyBound::Excluded(key)) => key@ == key_of_values(v@),
            (ValueBound::Unbounded, KeyBound::Unbounded) => true,
            _ => false,
        }
    }
}

/// Represents an index of a table. It does not support NULLs: it holds only rows without a
/// NULL in an indexed column.
pub struct TableIndex {
    /// The offsets are into the table tuple's payload region.
    pub indexed_cols: Vec<Column>,
    /// Each indexed column's position in the table schema, for its bit in the bitmap.
    pub indexed_col_idxs: Vec<usize>,
    /// Bytes of bitmap prefix on tuples of the indexed table.
    pub table_bitmap_len: usize,
    /// The schema of the index key, not of the tuple.
    pub schema: Schema,
    pub key_size: usize,
    pub idx: BPlusTree,
}

/// The key bytes of the first `n` indexed columns of a tuple.
pub open spec fn tuple_key(cols: Seq<Column>, bitmap_len: int, data: Seq<u8>, n: int) -> Seq<u8>
    decreases n,
{
    if n <= 0 {
        Seq::empty()
    } else {
        tuple_key(cols, bitmap_len, data, n - 1) + key_bytes_at(
            data,
            bitmap_len + cols[n - 1].offset,
            cols[n - 1].dtype,
        )
    }
}

/// The columns `idxs` of the schema `s`.
pub open spec fn columns_at(s: SchemaView, cols: Seq<Column>, idxs: Seq<usize>) -> bool {
    &&& cols.len() == idxs.len()
    &&& forall|i: int|
        0 <= i < idxs.len() ==> (#[trigger] idxs[i]) < s.cols.len() && cols[i] == s.cols[
            idxs[i] as int]
}

impl TableIndex {
    /// The index describes its columns consistently.
    pub open spec fn valid(&self) -> bool {
        &&& self.indexed_cols@.len() == self.indexed_col_idxs@.len()
        &&& self.schema@.wf()
        &&& self.schema@.cols.len() == self.indexed_cols@.len()
        &&& forall|i: int|
            0 <= i < self.indexed_cols@.len() ==> {
                &&& (#[trigger] self.schema@.cols[i]).dtype == self.indexed_cols@[i].dtype
                &&& self.schema@.cols[i].name@ == self.indexed_cols@[i].name@
                &&& self.schema@.cols[i].inlined
            }
        &&& self.schema@.join_offset is None
        &&& self.key_size == self.schema.data_len
        &&& self.idx.key_len == self.key_size
    }

    /// The pages hold the index.
    pub open spec fn wf(&self, pages: Pages) -> bool {
        self.valid() && self.idx.wf(pages)
    }

    /// The tuple has the bits that tell which indexed columns are NULL.
    pub open spec fn shows_nulls(&self, data: Seq<u8>) -> bool {
        forall|i: int|
            0 <= i < self.indexed_col_idxs@.len() ==> (#[trigger] self.indexed_col_idxs@[i]) / 8
                < data.len()
    }

    /// The tuple has the bytes of the indexed columns.
    pub open spec fn holds_key(&self, data: Seq<u8>) -> bool {
        forall|i: int|
            0 <= i < self.indexed_cols@.len() ==> self.table_bitmap_len + (
            #[trigger] self.indexed_cols@[i]).offset + self.indexed_cols@[i].dtype.width()
                <= data.len()
    }

    /// The tuple has all the bytes that the index reads: of one with a NULL in an indexed column
    /// these are the bits alone.
    pub open spec fn covers(&self, data: Seq<u8>) -> bool {
        self.shows_nulls(data) && (self.null_key(data) || self.holds_key(data))
    }

    /// Some indexed column of the tuple is NULL.
    pub open spec fn null_key(&self, data: Seq<u8>) -> bool {
        exists|i: int|
            0 <= i < self.indexed_col_idxs@.len() && null_at(
                data,
                #[trigger] self.indexed_col_idxs@[i] as int,
            )
    }

    /// The key of a tuple.
    pub open spec fn key_of(&self, data: Seq<u8>) -> Seq<u8> {
        tuple_key(
            self.indexed_cols@,
            self.table_bitmap_len as int,
            data,
            self.indexed_cols@.len() as int,
        )
    }

    /// The record id that the index holds for a key.
    pub open spec fn find(&self, pages: Pages, k: Seq<u8>) -> Option<RecordId> {
        self.idx.find(pages, k)
    }

    /// What the index holds for `k` once a row was added.
    pub open spec fn found_after_insert(
        &self,
        pages: Pages,
        data: Seq<u8>,
        rid: RecordId,
        k: Seq<u8>,
    ) -> Option<RecordId> {
        if self.null_key(data) {
            self.find(pages, k)
        } else {
            with_key(self.find(pages, k), self.key_of(data), Some(rid), k)
        }
    }

    /// What the index holds for `k` once a row was taken out.
    pub open spec fn found_after_remove(&self, pages: Pages, data: Seq<u8>, k: Seq<u8>) -> Option<
        RecordId,
    > {
        if self.null_key(data) {
            self.find(pages, k)
        } else {
            with_key(self.find(pages, k), self.key_of(data), None, k)
        }
    }

    pub fn new(
        bpm: &mut BufferPoolManager,
        index_name: String,
        indexed_cols: Vec<Column>,
        indexed_col_idxs: Vec<usize>,
        table_bitmap_len: usize,
        index_type: IndexType,
    ) -> (res: Result<Self, IndexError>)
        requires
            old(bpm).wf(),
            old(bpm).ids_fresh(),
            indexed_cols@.len() == indexed_col_idxs@.len(),
            indexed_cols@.len() <= usize::MAX / 16,
        ensures
            carried(old(bpm), final(bpm)),
            ({
                let width = offset_of(indexed_cols@, indexed_cols@.len() as int);
                match res {
                    Ok(index) => {
                        &&& width <= u32::MAX && !unusable_key_len(width as u32)
                        &&& index.wf(final(bpm).pages())
                        &&& index.idx.is_empty(final(bpm).pages())
                        &&& index.indexed_cols@ == indexed_cols@
                        &&& index.indexed_col_idxs@ == indexed_col_idxs@
                        &&& index.table_bitmap_len == table_bitmap_len
                        &&& index.key_size == width
                        &&& index.idx.index_name == index_name
                        &&& index.idx.header_page_id == old(bpm).next_page_id()
                        &&& final(bpm).next_page_id() == old(bpm).next_page_id() + 1
                        &&& final(bpm).pages() == old(bpm).pages().insert(
                            index.idx.header_page_id,
                            final(bpm).pages()[index.idx.header_page_id],
                        )
                    },
                    Err(e) => {
                        &&& final(bpm).pages() == old(bpm).pages()
                        &&& final(bpm).next_page_id() == old(bpm).next_page_id()
                        &&& if width > u32::MAX || unusable_key_len(width as u32) {
                            e == IndexError::Insert(InsertError::InvalidKey)
                        } else {
                            pool_failed(res) && !(old(bpm).has_frame() && old(bpm).next_page_id()
                                < usize::MAX)
                        }
                    },
                }
            }),
    {
        let mut cols_for_schema: Vec<(DataType, String)> = Vec::new();
        let mut i: usize = 0;
        while i < indexed_cols.len()
            invariant
                i <= indexed_cols@.len(),
                cols_for_schema@.len() == i,
                forall|k: int|
                    0 <= k < i ==> (#[trigger] cols_for_schema@[k]).0 == indexed_cols@[k].dtype
                        && cols_for_schema@[k].1@ == indexed_cols@[k].name@,
            decreases indexed_cols@.len() - i,
        {
            cols_for_schema.push((indexed_cols[i].dtype, indexed_cols[i].name.clone()));
            i += 1;
        }
        let schema = Schema::new(cols_for_schema);
        let key_size: usize = schema.data_len;
        proof {
            crate::catalog::schema::lemma_offset_prefix(
                schema@.cols,
                indexed_cols@,
                indexed_cols@.len() as int,
            );
        }
        if key_size > u32::MAX as usize {
            return Err(IndexError::Insert(InsertError::InvalidKey));
        }
        let tree = match index_type {
            IndexType::BPlusTree => BPlusTree::new(index_name, key_size as u32, bpm),
        };
        match tree {
            Ok(idx) => Ok(
                TableIndex {
                    indexed_cols,
                    indexed_col_idxs,
                    table_bitmap_len,
                    schema,
                    key_size,
                    idx,
                },
            ),
            Err(e) => Err(e),
        }
    }

    /// Whether the tuple has all the bytes that the index reads.
    pub fn fits(&self, tuple: &Tuple) -> (res: bool)
        ensures
            res == self.covers(tuple.data@),
    {
        let len: usize = tuple.data.len();
        let mut i: usize = 0;
        while i < self.indexed_col_idxs.len()
            invariant
                i <= self.indexed_col_idxs@.len(),
                len == tuple.data@.len(),
                forall|k: int|
                    0 <= k < i ==> (#[trigger] self.indexed_col_idxs@[k]) / 8 < tuple.data@.len(),
            decreases self.indexed_col_idxs@.len() - i,
        {
            if self.indexed_col_idxs[i] / 8 >= len {
                return false;
            }
            i += 1;
        }
        if self.key_has_null(tuple) {
            return true;
        }
        i = 0;
        while i < self.indexed_cols.len()
            invariant
                i <= self.indexed_cols@.len(),
                len == tuple.data@.len(),
                !self.null_key(tuple.data@),
                forall|k: int|
                    0 <= k < i ==> self.table_bitmap_len + (
                    #[trigger] self.indexed_cols@[k]).offset + self.indexed_cols@[k].dtype.width()
                        <= tuple.data@.len(),
            decreases self.indexed_cols@.len() - i,
        {
            let c = &self.indexed_cols[i];
            let size: usize = c.dtype.size();
            if self.table_bitmap_len > len || c.offset > len - self.table_bitmap_len || size > len
                - self.table_bitmap_len - c.offset {
                return false;
            }
            i += 1;
        }
        true
    }

    pub fn encode_key(&self, tuple: &Tuple) -> (res: IndexKey)
        requires
            self.valid(),
            self.holds_key(tuple.data@),
        ensures
            res@ == self.key_of(tuple.data@),
            res@.len() == self.key_size,
    {
        let mut data: Vec<u8> = Vec::new();
        let mut i: usize = 0;
        while i < self.indexed_cols.len()
            invariant
                i <= self.indexed_cols@.len(),
                self.holds_key(tuple.data@),
                data@ == tuple_key(
                    self.indexed_cols@,
                    self.table_bitmap_len as int,
                    tuple.data@,
                    i as int,
                ),
            decreases self.indexed_cols@.len() - i,
        {
            let c = &self.indexed_cols[i];
            c.dtype.encode_from_tuple(tuple, self.table_bitmap_len, c.offset, &mut data);
            i += 1;
        }
        proof {
            lemma_tuple_key_len(
                self.indexed_cols@,
                self.table_bitmap_len as int,
                tuple.data@,
                self.indexed_cols@.len() as int,
            );
            crate::catalog::schema::lemma_offset_prefix(
                self.schema@.cols,
                self.indexed_cols@,
                self.indexed_cols@.len() as int,
            );
        }
        IndexKey(data)
    }

    /// The key of a list of values, one for each indexed column. It matches the key of a tuple
    /// that holds them.
    pub fn encode_key_from_values(&self, vals: &[Value]) -> (res: IndexKey)
        requires
            vals@.len() == self.indexed_cols@.len(),
        ensures
            res@ == key_of_values(vals@),
    {
        let mut data: Vec<u8> = Vec::new();
        let mut i: usize = 0;
        assert(vals@.subrange(0, 0) =~= Seq::<Value>::empty());
        while i < vals.len()
            invariant
                i <= vals@.len(),
                data@ == key_of_values(vals@.subrange(0, i as int)),
            decreases vals@.len() - i,
        {
            vals[i].encode_key(&mut data);
            i += 1;
            assert(vals@.subrange(0, i as int).drop_last() =~= vals@.subrange(0, i - 1));
        }
        assert(vals@.subrange(0, i as int) =~= vals@);
        IndexKey(data)
    }

    pub fn key_has_null(&self, tuple: &Tuple) -> (res: bool)
        requires
            self.shows_nulls(tuple.data@),
        ensures
            res == self.null_key(tuple.data@),
    {
        let mut i: usize = 0;
        while i < self.indexed_col_idxs.len()
            invariant
                i <= self.indexed_col_idxs@.len(),
                self.shows_nulls(tuple.data@),
                forall|k: int|
                    0 <= k < i ==> !null_at(
                        tuple.data@,
                        #[trigger] self.indexed_col_idxs@[k] as int,
                    ),
            decreases self.indexed_col_idxs@.len() - i,
        {
            if is_null(tuple.data.as_slice(), self.indexed_col_idxs[i]) {
                return true;
            }
            i += 1;
        }
        false
    }

    /// Adds a row. A row with a NULL in an indexed column is skipped.
    pub fn insert(&self, bpm: &mut BufferPoolManager, tuple: &Tuple, rid: RecordId) -> (res:
        InsertResult)
        requires
            old(bpm).wf(),
            old(bpm).ids_fresh(),
            self.wf(old(bpm).pages()),
            self.covers(tuple.data@),
        ensures
            carried(old(bpm), final(bpm)),
            forall|p: usize| #[trigger]
                old(bpm).pages().contains_key(p) && !self.idx.owns(old(bpm).pages(), p) ==> final(
                    bpm).pages()[p] == old(bpm).pages()[p],
            pool_failed(res) ==> !self.idx.room_to_insert(old(bpm)) && !self.null_key(tuple.data@),
            match res {
                Ok(_) => {
                    &&& self.null_key(tuple.data@) || self.find(
                        old(bpm).pages(),
                        self.key_of(tuple.data@),
                    ) is None
                    &&& self.null_key(tuple.data@) ==> final(bpm).pages() == old(bpm).pages()
                    &&& self.wf(final(bpm).pages())
                    &&& self.idx.stays_apart(old(bpm).pages(), final(bpm).pages())
                    &&& forall|k: Seq<u8>| #[trigger]
                        self.find(final(bpm).pages(), k) == self.found_after_insert(
                            old(bpm).pages(),
                            tuple.data@,
                            rid,
                            k,
                        )
                },
                Err(e) => !self.null_key(tuple.data@) && (pool_failed(res) || {
                    &&& final(bpm).pages() == old(bpm).pages()
                    &&& e == IndexError::Insert(InsertError::DuplicateKey)
                    &&& self.find(old(bpm).pages(), self.key_of(tuple.data@)) is Some
                }),
            },
    {
        if self.key_has_null(tuple) {
            return Ok(());
        }
        let key = self.encode_key(tuple);
        self.idx.insert(bpm, key, IndexValue::IndexValue(rid))
    }

    /// Takes a row out. A row with a NULL in an indexed column was not in the index.
    pub fn remove(&self, bpm: &mut BufferPoolManager, tuple: &Tuple) -> (res: RemoveResult)
        requires
            old(bpm).wf(),
            self.wf(old(bpm).pages()),
            self.covers(tuple.data@),
        ensures
            carried(old(bpm), final(bpm)),
            final(bpm).next_page_id() == old(bpm).next_page_id(),
            forall|p: usize| #[trigger]
                old(bpm).pages().contains_key(p) && !self.idx.owns(old(bpm).pages(), p) ==> final(
                    bpm).pages()[p] == old(bpm).pages()[p],
            pool_failed(res) ==> !old(bpm).ready() && !self.null_key(tuple.data@),
            match res {
                Ok(_) => {
                    &&& self.null_key(tuple.data@) || self.find(
                        old(bpm).pages(),
                        self.key_of(tuple.data@),
                    ) is Some
                    &&& self.null_key(tuple.data@) ==> final(bpm).pages() == old(bpm).pages()
                    &&& self.wf(final(bpm).pages())
                    &&& self.idx.stays_apart(old(bpm).pages(), final(bpm).pages())
                    &&& forall|k: Seq<u8>| #[trigger]
                        self.find(final(bpm).pages(), k) == self.found_after_remove(
                            old(bpm).pages(),
                            tuple.data@,
                            k,
                        )
                },
                Err(e) => !self.null_key(tuple.data@) && (pool_failed(res) || {
                    &&& final(bpm).pages() == old(bpm).pages()
                    &&& e == IndexError::Remove(RemoveError::KeyNotFound)
                    &&& self.find(old(bpm).pages(), self.key_of(tuple.data@)) is None
                }),
            },
    {
        if self.key_has_null(tuple) {
            return Ok(());
        }
        let key = self.encode_key(tuple);
        self.idx.remove(bpm, key)
    }

    /// Looks up the row with these values in the indexed columns.
    pub fn search(&self, bpm: &mut BufferPoolManager, vals: &[Value]) -> (res: Result<
        Option<RecordId>,
        IndexError,
    >)
        requires
            old(bpm).wf(),
            self.wf(old(bpm).pages()),
            vals@.len() == self.indexed_cols@.len(),
        ensures
            final(bpm).wf(),
            final(bpm).same_pages(old(bpm)),
            old(bpm).ready() ==> final(bpm).ready(),
            pool_failed(res) ==> !old(bpm).ready(),
            match res {
                Ok(found) => {
                    &&& key_of_values(vals@).len() == self.key_size
                    &&& !self.idx.is_empty(old(bpm).pages())
                    &&& found == self.find(old(bpm).pages(), key_of_values(vals@))
                },
                Err(e) => pool_failed(res) || if key_of_values(vals@).len() != self.key_size {
                    e == IndexError::Insert(InsertError::InvalidKey)
                } else {
                    e == IndexError::Lookup && self.idx.is_empty(old(bpm).pages())
                },
            },
    {
        let key = self.encode_key_from_values(vals);
        match self.idx.search(bpm, &key) {
            Ok(Some(IndexValue::IndexValue(rid))) => Ok(Some(rid)),
            Ok(None) => Ok(None),
            Err(e) => Err(e),
        }
    }

    fn bound_key(&self, b: &ValueBound) -> (res: KeyBound)
        requires
            b.arity_is(self.indexed_cols@.len()),
        ensures
            b.stands_for(res),
    {
        match b {
            ValueBound::Included(v) => KeyBound::Included(
                self.encode_key_from_values(v.as_slice()),
            ),
            ValueBound::Excluded(v) => KeyBound::Excluded(
                self.encode_key_from_values(v.as_slice()),
            ),
            ValueBound::Unbounded => KeyBound::Unbounded,
        }
    }

    /// Scans the index between two bounds, in key order.
    pub fn scan(&self, bpm: &mut BufferPoolManager, start: &ValueBound, end: &ValueBound) -> (res:
        Result<BPlusTreeIter, IndexError>)
        requires
            old(bpm).wf(),
            self.wf(old(bpm).pages()),
            start.arity_is(self.indexed_cols@.len()),
            end.arity_is(self.indexed_cols@.len()),
        ensures
            final(bpm).wf(),
            final(bpm).same_pages(old(bpm)),
            old(bpm).ready() ==> final(bpm).ready(),
            old(bpm).ready() ==> (res is Ok <==> !self.idx.is_empty(old(bpm).pages())),
            match res {
                Ok(it) => {
                    &&& it.wf(old(bpm).pages())
                    &&& it.shape == self.idx.shape()
                    &&& it.header_page_id == self.idx.header_page_id
                    &&& exists|lower: KeyBound, upper: KeyBound| #[trigger]
                        start.stands_for(lower) && #[trigger] end.stands_for(upper) && is_range(
                            old(bpm).pages(),
                            self.idx.shape(),
                            self.idx.header_page_id,
                            lower,
                            upper,
                            it.remaining(old(bpm).pages()),
                        )
                },
                Err(e) => {
                    ||| pool_failed(res) && !old(bpm).ready()
                    ||| self.idx.is_empty(old(bpm).pages()) && if start !is Unbounded {
                        e is Lookup
                    } else {
                        !old(bpm).pages().contains_key(INVALID_PAGE_ID) ==> no_first_leaf(e)
                    }
                },
            },
    {
        let lower = self.bound_key(start);
        let upper = self.bound_key(end);
        self.idx.scan(bpm, &lower, upper)
    }
}

pub proof fn lemma_tuple_key_len(cols: Seq<Column>, bitmap_len: int, data: Seq<u8>, n: int)
    requires
        0 <= n <= cols.len(),
    ensures
        tuple_key(cols, bitmap_len, data, n).len() == offset_of(cols, n),
    decreases n,
{
    if n > 0 {
        lemma_tuple_key_len(cols, bitmap_len, data, n - 1);
        assert(key_bytes_at(data, bitmap_len + cols[n - 1].offset, cols[n - 1].dtype).len()
            == cols[n - 1].dtype.width());
    }
}

/// The key of a row of the table is the key of the values of its indexed columns: what a
/// search or a scan asks for lines up with what was inserted.
pub proof fn law_key_of_row(
    index: TableIndex,
    s: SchemaView,
    values: Seq<Option<Value>>,
    vals: Seq<Value>,
)
    requires
        s.wf(),
        s.accepts(values),
        index.valid(),
        index.table_bitmap_len == s.bitmap_len,
        columns_at(s, index.indexed_cols@, index.indexed_col_idxs@),
        vals.len() == index.indexed_cols@.len(),
        forall|i: int|
            0 <= i < vals.len() ==> values[index.indexed_col_idxs@[i] as int] == Some(
                #[trigger] vals[i],
            ),
    ensures
        index.covers(s.row(values)),
        !index.null_key(s.row(values)),
        index.key_of(s.row(values)) == key_of_values(vals),
{
    let data = s.row(values);
    let cols = index.indexed_cols@;
    let idxs = index.indexed_col_idxs@;
    assert forall|i: int| 0 <= i < idxs.len() implies (#[trigger] idxs[i]) / 8 < data.len()
        && !null_at(data, idxs[i] as int) by {
        lemma_row_field(s, values, idxs[i] as int);
        assert(values[idxs[i] as int] == Some(vals[i]));
    }
    assert forall|i: int| 0 <= i < cols.len() implies index.table_bitmap_len + (
    #[trigger] cols[i]).offset + cols[i].dtype.width() <= data.len() by {
        assert(idxs[i] < s.cols.len());
        lemma_row_field(s, values, idxs[i] as int);
    }
    lemma_key_of_columns(index, s, values, vals, vals.len() as int);
    assert(vals.subrange(0, vals.len() as int) =~= vals);
}

proof fn lemma_key_of_columns(
    index: TableIndex,
    s: SchemaView,
    values: Seq<Option<Value>>,
    vals: Seq<Value>,
    n: int,
)
    requires
        s.wf(),
        s.accepts(values),
        index.valid(),
        index.table_bitmap_len == s.bitmap_len,
        columns_at(s, index.indexed_cols@, index.indexed_col_idxs@),
        vals.len() == index.indexed_cols@.len(),
        forall|i: int|
            0 <= i < vals.len() ==> values[index.indexed_col_idxs@[i] as int] == Some(
                #[trigger] vals[i],
            ),
        0 <= n <= vals.len(),
    ensures
        tuple_key(index.indexed_cols@, s.bitmap_len as int, s.row(values), n) == key_of_values(
            vals.subrange(0, n),
        ),
    decreases n,
{
    if n > 0 {
        lemma_key_of_columns(index, s, values, vals, n - 1);
        let c = index.indexed_col_idxs@[n - 1] as int;
        assert(values[c] == Some(vals[n - 1]));
        lemma_row_field(s, values, c);
        assert(vals[n - 1].dtype() == s.cols[c].dtype);
        law_stored_key(s.row(values), s.bitmap_len + s.cols[c].offset, vals[n - 1]);
        assert(vals.subrange(0, n).drop_last() =~= vals.subrange(0, n - 1));
    }
}

} // verus!
