//! Tuples without NULLs and the definition of an index over some of their columns.
use vstd::prelude::*;

use crate::catalog::key_encoding::key_bytes_at;
use crate::text::{decimal, digits, joined};

verus! {

#[derive(Debug)]
pub struct Schema {
    pub cols: Vec<Column>,
    pub data_len: usize,
}

#[derive(Debug, Clone, Copy, PartialEq, Eq, Structural)]
pub struct Column {
    pub dtype: DataType,
    /// Offset for this column from the beginning of a tuple.
    pub offset: usize,
    /// Whether the data is stored in the tuple itself.
    pub inlined: bool,
}

/// Metadata for a table schema.
#[derive(Debug, Clone, Copy, PartialEq, Eq, Structural)]
pub enum DataType {
    BOOLEAN,
    /// Signed, 32 bit.
    INT,
    /// Assumed to be UTC.
    TIMESTAMP,
}

#[derive(Debug, Clone, Copy, PartialEq, Eq)]
pub enum Value {
    BOOLEAN(bool),
    INT(i32),
    TIMESTAMP(i64),
}

impl Value {
    pub fn data_type(&self) -> (res: DataType)
        ensures
            res == match *self {
                Value::BOOLEAN(_) => DataType::BOOLEAN,
                Value::INT(_) => DataType::INT,
                Value::TIMESTAMP(_) => DataType::TIMESTAMP,
            },
    {
        match self {
            Value::BOOLEAN(_) => DataType::BOOLEAN,
            Value::INT(_) => DataType::INT,
            Value::TIMESTAMP(_) => DataType::TIMESTAMP,
        }
    }
}

impl DataType {
    /// The type of the same values in a table with NULLs.
    pub open spec fn stored(&self) -> crate::catalog::value::DataType {
        match *self {
            DataType::BOOLEAN => crate::catalog::value::DataType::BOOLEAN,
            DataType::INT => crate::catalog::value::DataType::INT,
            DataType::TIMESTAMP => crate::catalog::value::DataType::TIMESTAMP,
        }
    }

    fn as_stored(&self) -> (res: crate::catalog::value::DataType)
        ensures
            res == self.stored(),
    {
        match self {
            DataType::BOOLEAN => crate::catalog::value::DataType::BOOLEAN,
            DataType::INT => crate::catalog::value::DataType::INT,
            DataType::TIMESTAMP => crate::catalog::value::DataType::TIMESTAMP,
        }
    }

    /// The number of bytes of a value of this type.
    pub open spec fn width(&self) -> nat {
        match *self {
            DataType::BOOLEAN => 1,
            DataType::INT => 4,
            DataType::TIMESTAMP => 8,
        }
    }

    /// Appends to `out` the bytes that stand in an index key for the value at `offset`:
    /// big-endian with the sign flipped, so that keys compare as the values do.
    pub fn encode_from_tuple(&self, tuple_data: &[u8], offset: usize, out: &mut Vec<u8>)
        requires
            offset + self.width() <= tuple_data@.len(),
        ensures
            final(out)@ == old(out)@ + key_bytes_at(tuple_data@, offset as int, self.stored()),
    {
        self.as_stored().encode_stored(tuple_data, offset, out);
    }

    pub fn size(&self) -> (res: usize)
        ensures
            res == self.width(),
    {
        match self {
            DataType::BOOLEAN => 1,
            DataType::INT => 4,
            DataType::TIMESTAMP => 8,
        }
    }

    /// Whether values of this type are stored in the tuple itself. All of them are.
    pub fn inline(&self) -> (res: bool)
        ensures
            res,
    {
        match self {
            DataType::BOOLEAN => true,
            DataType::INT => true,
            DataType::TIMESTAMP => true,
        }
    }
}

/// Where column `n` starts: behind the columns before it.
pub open spec fn offset_of(dtypes: Seq<DataType>, n: int) -> nat
    decreases n,
{
    if n <= 0 {
        0
    } else {
        offset_of(dtypes, n - 1) + dtypes[n - 1].width()
    }
}

/// The columns of a tuple, laid out one after the other.
pub open spec fn columns_of(dtypes: Seq<DataType>) -> Seq<Column> {
    Seq::new(
        dtypes.len(),
        |i: int|
            Column { dtype: dtypes[i], offset: offset_of(dtypes, i) as usize, inlined: true },
    )
}

proof fn lemma_offset_bound(dtypes: Seq<DataType>, n: int)
    requires
        0 <= n,
    ensures
        offset_of(dtypes, n) <= 8 * n,
    decreases n,
{
    if n > 0 {
        lemma_offset_bound(dtypes, n - 1);
    }
}

impl Schema {
    pub fn new(dtypes: Vec<DataType>) -> (res: Self)
        requires
            dtypes@.len() <= usize::MAX / 8,
        ensures
            res.cols@ == columns_of(dtypes@),
            res.data_len == offset_of(dtypes@, dtypes@.len() as int),
    {
        let mut offset: usize = 0;
        let mut cols: Vec<Column> = Vec::new();
        let mut i: usize = 0;
        while i < dtypes.len()
            invariant
                i <= dtypes@.len(),
                dtypes@.len() <= usize::MAX / 8,
                offset == offset_of(dtypes@, i as int),
                cols@ == columns_of(dtypes@).subrange(0, i as int),
            decreases dtypes@.len() - i,
        {
            let dtype = dtypes[i];
            proof {
                lemma_offset_bound(dtypes@, i + 1);
            }
            cols.push(Column { dtype, offset, inlined: dtype.inline() });
            offset = offset + dtype.size();
            i += 1;
            assert(cols@ =~= columns_of(dtypes@).subrange(0, i as int));
        }
        assert(columns_of(dtypes@).subrange(0, i as int) =~= columns_of(dtypes@));
        Schema { cols, data_len: offset }
    }
}

#[derive(Debug)]
pub enum CatalogError {
    TupleSchemaMismatch,
}

#[derive(Debug)]
pub struct Tuple<'a> {
    pub record_id: RecordId,
    pub data: &'a [u8],
}

impl<'a> Tuple<'a> {
    /// A tuple whose data is as long as the schema says.
    pub fn new(schema: &Schema, record_id: RecordId, data: &'a [u8]) -> (res: Result<
        Self,
        CatalogError,
    >)
        ensures
            data@.len() == schema.data_len ==> res == Ok::<Self, CatalogError>(
                Tuple { record_id, data },
            ),
            data@.len() != schema.data_len ==> res == Err::<Self, CatalogError>(
                CatalogError::TupleSchemaMismatch,
            ),
    {
        if data.len() != schema.data_len {
            return Err(CatalogError::TupleSchemaMismatch);
        }
        Ok(Self { record_id, data })
    }

    /// Whether the data is as long as the schema says.
    pub fn validate(&self, schema: &Schema) -> (res: Result<(), CatalogError>)
        ensures
            res == if self.data@.len() == schema.data_len {
                Ok::<(), CatalogError>(())
            } else {
                Err(CatalogError::TupleSchemaMismatch)
            },
    {
        if self.data.len() != schema.data_len {
            return Err(CatalogError::TupleSchemaMismatch);
        }
        Ok(())
    }
}

#[derive(Debug, Clone, Copy, PartialEq, Eq, Structural)]
pub struct RecordId {
    pub page_id: u32,
    pub slot_id: u32,
}

impl RecordId {
    /// The record id as text.
    pub fn describe(&self) -> (res: String)
        ensures
            res@ == "page_id: "@ + digits(self.page_id as nat) + ", slot_id: "@ + digits(
                self.slot_id as nat,
            ),
    {
        let mut s = joined("page_id: ", decimal(self.page_id as u64).as_str());
        s.append(", slot_id: ");
        s.append(decimal(self.slot_id as u64).as_str());
        s
    }
}

#[derive(Debug, PartialEq, PartialOrd, Ord, Eq, Clone)]
pub struct IndexKey(pub Vec<u8>);

#[derive(Debug)]
pub enum IndexValue {
    IndexValue(RecordId),
    PageId,
}

#[derive(Debug)]
pub struct IndexDefinition {
    /// The offsets are tuple offsets.
    pub indexed_cols: Vec<Column>,
    /// The schema of the index itself, not of the tuple.
    pub schema: Schema,
}

pub open spec fn dtypes_of(cols: Seq<Column>) -> Seq<DataType> {
    cols.map_values(|c: Column| c.dtype)
}

/// The key of a tuple: the bytes of its indexed columns, one after the other.
pub open spec fn key_of(cols: Seq<Column>, data: Seq<u8>, n: int) -> Seq<u8>
    decreases n,
{
    if n <= 0 {
        Seq::empty()
    } else {
        key_of(cols, data, n - 1) + key_bytes_at(
            data,
            cols[n - 1].offset as int,
            cols[n - 1].dtype.stored(),
        )
    }
}

impl IndexDefinition {
    pub fn new(cols: Vec<Column>) -> (res: Self)
        requires
            cols@.len() <= usize::MAX / 8,
        ensures
            res.indexed_cols@ == cols@,
            res.schema.cols@ == columns_of(dtypes_of(cols@)),
            res.schema.data_len == offset_of(dtypes_of(cols@), cols@.len() as int),
    {
        let mut dtypes: Vec<DataType> = Vec::new();
        let mut i: usize = 0;
        while i < cols.len()
            invariant
                i <= cols@.len(),
                dtypes@ == dtypes_of(cols@).subrange(0, i as int),
            decreases cols@.len() - i,
        {
            dtypes.push(cols[i].dtype);
            i += 1;
            assert(dtypes@ =~= dtypes_of(cols@).subrange(0, i as int));
        }
        assert(dtypes@ =~= dtypes_of(cols@));
        Self { indexed_cols: cols, schema: Schema::new(dtypes) }
    }

    /// The key under which the index holds a tuple.
    pub fn encode_key(&self, tuple_bytes: &[u8]) -> (res: IndexKey)
        requires
            forall|i: int|
                0 <= i < self.indexed_cols@.len() ==> (#[trigger] self.indexed_cols@[i]).offset
                    + self.indexed_cols@[i].dtype.width() <= tuple_bytes@.len(),
        ensures
            res.0@ == key_of(
                self.indexed_cols@,
                tuple_bytes@,
                self.indexed_cols@.len() as int,
            ),
    {
        let mut data: Vec<u8> = Vec::new();
        let mut i: usize = 0;
        while i < self.indexed_cols.len()
            invariant
                i <= self.indexed_cols@.len(),
                data@ == key_of(self.indexed_cols@, tuple_bytes@, i as int),
                forall|k: int|
                    0 <= k < self.indexed_cols@.len() ==> (
                    #[trigger] self.indexed_cols@[k]).offset
                        + self.indexed_cols@[k].dtype.width() <= tuple_bytes@.len(),
            decreases self.indexed_cols@.len() - i,
        {
            let c = self.indexed_cols[i];
            c.dtype.encode_from_tuple(tuple_bytes, c.offset, &mut data);
            i += 1;
        }
        IndexKey(data)
    }
}

/// A key is as long as the index schema says.
pub proof fn law_key_len(cols: Seq<Column>, data: Seq<u8>, n: int)
    requires
        0 <= n <= cols.len(),
    ensures
        key_of(cols, data, n).len() == offset_of(dtypes_of(cols), n),
    decreases n,
{
    if n > 0 {
        law_key_len(cols, data, n - 1);
        assert(key_bytes_at(data, cols[n - 1].offset as int, cols[n - 1].dtype.stored()).len()
            == cols[n - 1].dtype.width());
    }
}

} // verus!
