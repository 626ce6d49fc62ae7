//! The columns of a table and the bytes of its tuples: a bitmap of NULLs, then the values.
use vstd::prelude::*;
use vstd::slice::slice_subrange;

use crate::catalog::CatalogError;
use crate::catalog::value::{law_value_roundtrip, value_bytes, value_of, DataType, Value};
use crate::table_heap::Tuple;

verus! {

#[derive(Debug)]
pub struct Column {
    pub name: String,
    pub dtype: DataType,
    /// Offset into the payload region, after the bitmap prefix.
    pub offset: usize,
    /// Whether the data is stored in the tuple itself.
    pub inlined: bool,
}

impl Clone for Column {
    fn clone(&self) -> (res: Self)
        ensures
            res == *self,
    {
        Column {
            name: self.name.clone(),
            dtype: self.dtype,
            offset: self.offset,
            inlined: self.inlined,
        }
    }
}

#[derive(Debug)]
pub struct Schema {
    pub cols: Vec<Column>,
    /// Payload size only (sum of column sizes); does not include the bitmap prefix.
    pub data_len: usize,
    /// Bytes of the bitmap of NULLs that prefixes every encoded tuple.
    pub bitmap_len: usize,
    /// How many columns come from the left table of a two-way join. After a join the combined
    /// schema does not otherwise tell the left table's columns from the right table's.
    pub join_offset: Option<usize>,
}

#[verifier::ext_equal]
pub struct SchemaView {
    pub cols: Seq<Column>,
    pub data_len: usize,
    pub bitmap_len: usize,
    pub join_offset: Option<usize>,
}

/// Where column `n` starts: behind the columns before it.
pub open spec fn offset_of(cols: Seq<Column>, n: int) -> nat
    decreases n,
{
    if n <= 0 {
        0
    } else {
        offset_of(cols, n - 1) + cols[n - 1].dtype.width()
    }
}

/// The bits of byte `j` of the bitmap that the first `n` values set: one for each NULL.
pub open spec fn null_mask(values: Seq<Option<Value>>, j: int, n: int) -> u8
    decreases n,
{
    if n <= 0 {
        0
    } else {
        let rest = null_mask(values, j, n - 1);
        if (n - 1) / 8 == j && values[n - 1] is None {
            rest | (1u8 << (((n - 1) % 8) as u8))
        } else {
            rest
        }
    }
}

/// The bitmap that the first `n` values make.
pub open spec fn null_masks(values: Seq<Option<Value>>, len: nat, n: int) -> Seq<u8> {
    Seq::new(len, |j: int| null_mask(values, j, n))
}

pub open spec fn bit_set(b: u8, k: int) -> bool {
    (b >> (k as u8)) & 1u8 == 1u8
}

/// Column `i` of a tuple is NULL.
pub open spec fn null_at(data: Seq<u8>, i: int) -> bool {
    bit_set(data[i / 8], i % 8)
}

pub open spec fn zeros(n: nat) -> Seq<u8> {
    Seq::new(n, |i: int| 0u8)
}

/// The bytes of one column: those of the value, or zeros for a NULL.
pub open spec fn field_bytes(v: Option<Value>, dtype: DataType) -> Seq<u8> {
    match v {
        Some(x) => value_bytes(x),
        None => zeros(dtype.width()),
    }
}

/// The bytes of the first `n` columns.
pub open spec fn payload(cols: Seq<Column>, values: Seq<Option<Value>>, n: int) -> Seq<u8>
    decreases n,
{
    if n <= 0 {
        Seq::empty()
    } else {
        payload(cols, values, n - 1) + field_bytes(values[n - 1], cols[n - 1].dtype)
    }
}

impl SchemaView {
    /// The columns are laid out one after the other behind a bitmap with a bit for each.
    pub open spec fn wf(self) -> bool {
        &&& self.bitmap_len == (self.cols.len() + 7) / 8
        &&& self.data_len == offset_of(self.cols, self.cols.len() as int)
        &&& forall|i: int|
            0 <= i < self.cols.len() ==> (#[trigger] self.cols[i]).offset == offset_of(
                self.cols,
                i,
            )
        &&& self.bitmap_len + self.data_len <= usize::MAX
    }

    /// The values are as many as the columns and of their types.
    pub open spec fn accepts(self, values: Seq<Option<Value>>) -> bool {
        &&& values.len() == self.cols.len()
        &&& forall|i: int|
            0 <= i < values.len() ==> ((#[trigger] values[i]) matches Some(v) ==> v.dtype()
                == self.cols[i].dtype)
    }

    /// The bytes of the tuple that holds `values`.
    pub open spec fn row(self, values: Seq<Option<Value>>) -> Seq<u8> {
        null_masks(values, self.bitmap_len as nat, values.len() as int) + payload(self.cols, values, values.len() as int)
    }

    /// What column `i` of a tuple holds.
    pub open spec fn field(self, data: Seq<u8>, i: int) -> Result<Option<Value>, CatalogError> {
        let start = self.bitmap_len + self.cols[i].offset;
        let end = start + self.cols[i].dtype.width();
        if i >= self.cols.len() {
            Err(CatalogError::ColumnOutOfBounds)
        } else if i / 8 >= data.len() {
            Err(CatalogError::TupleSchemaMismatch)
        } else if null_at(data, i) {
            Ok(None)
        } else if end > data.len() {
            Err(CatalogError::TupleSchemaMismatch)
        } else {
            Ok(Some(value_of(data.subrange(start, end), self.cols[i].dtype)))
        }
    }

    /// Every column can be read.
    pub open spec fn reads(self, data: Seq<u8>) -> bool {
        forall|i: int| 0 <= i < self.cols.len() ==> (#[trigger] self.field(data, i)) is Ok
    }

    /// The values of a tuple whose columns can all be read.
    pub open spec fn values(self, data: Seq<u8>) -> Seq<Option<Value>> {
        Seq::new(self.cols.len(), |i: int| self.field(data, i)->Ok_0)
    }
}

impl View for Schema {
    type V = SchemaView;

    open spec fn view(&self) -> SchemaView {
        SchemaView {
            cols: self.cols@,
            data_len: self.data_len,
            bitmap_len: self.bitmap_len,
            join_offset: self.join_offset,
        }
    }
}

pub fn clone_columns(cols: &Vec<Column>) -> (res: Vec<Column>)
    ensures
        res@ == cols@,
{
    let mut out: Vec<Column> = Vec::new();
    let mut i: usize = 0;
    while i < cols.len()
        invariant
            i <= cols@.len(),
            out@ == cols@.subrange(0, i as int),
        decreases cols@.len() - i,
    {
        out.push(cols[i].clone());
        assert(cols@.subrange(0, i + 1) =~= cols@.subrange(0, i as int).push(cols@[i as int]));
        i += 1;
    }
    assert(cols@.subrange(0, i as int) =~= cols@);
    out
}

impl Clone for Schema {
    fn clone(&self) -> (res: Self)
        ensures
            res@ == self@,
    {
        Schema {
            cols: clone_columns(&self.cols),
            data_len: self.data_len,
            bitmap_len: self.bitmap_len,
            join_offset: self.join_offset,
        }
    }
}

pub proof fn lemma_offset_bound(cols: Seq<Column>, n: int)
    requires
        0 <= n,
    ensures
        offset_of(cols, n) <= 8 * n,
    decreases n,
{
    if n > 0 {
        lemma_offset_bound(cols, n - 1);
    }
}

pub proof fn lemma_offset_prefix(a: Seq<Column>, b: Seq<Column>, n: int)
    requires
        0 <= n <= a.len(),
        n <= b.len(),
        forall|i: int| 0 <= i < n ==> (#[trigger] a[i]).dtype == b[i].dtype,
    ensures
        offset_of(a, n) == offset_of(b, n),
    decreases n,
{
    if n > 0 {
        lemma_offset_prefix(a, b, n - 1);
        assert(a[n - 1].dtype == b[n - 1].dtype);
    }
}

pub proof fn lemma_offset_monotone(cols: Seq<Column>, i: int, n: int)
    requires
        0 <= i < n,
    ensures
        offset_of(cols, i) + cols[i].dtype.width() <= offset_of(cols, n),
    decreases n,
{
    if i < n - 1 {
        lemma_offset_monotone(cols, i, n - 1);
    }
}

impl Schema {
    pub fn new(columns: Vec<(DataType, String)>) -> (res: Self)
        requires
            columns@.len() <= usize::MAX / 16,
        ensures
            res@.wf(),
            res@.join_offset is None,
            res@.cols.len() == columns@.len(),
            forall|i: int|
                0 <= i < columns@.len() ==> {
                    &&& (#[trigger] res@.cols[i]).name@ == columns@[i].1@
                    &&& res@.cols[i].dtype == columns@[i].0
                    &&& res@.cols[i].inlined
                },
    {
        let bitmap_len: usize = (columns.len() + 7) / 8;
        let mut offset: usize = 0;
        let mut cols: Vec<Column> = Vec::new();
        let mut i: usize = 0;
        while i < columns.len()
            invariant
                i <= columns@.len(),
                columns@.len() <= usize::MAX / 16,
                cols@.len() == i,
                offset == offset_of(cols@, i as int),
                forall|k: int|
                    0 <= k < i ==> {
                        &&& (#[trigger] cols@[k]).name@ == columns@[k].1@
                        &&& cols@[k].dtype == columns@[k].0
                        &&& cols@[k].inlined
                        &&& cols@[k].offset == offset_of(cols@, k)
                    },
            decreases columns@.len() - i,
        {
            let dtype = columns[i].0;
            let ghost before = cols@;
            proof {
                lemma_offset_bound(cols@, i as int);
            }
            cols.push(
                Column { name: columns[i].1.clone(), dtype, offset, inlined: dtype.inline() },
            );
            offset = offset + dtype.size();
            proof {
                assert forall|k: int| 0 <= k <= i implies offset_of(cols@, k) == offset_of(
                    before,
                    k,
                ) by {
                    lemma_offset_prefix(before, cols@, k);
                }
            }
            i += 1;
        }
        proof {
            lemma_offset_bound(cols@, i as int);
        }
        Schema { cols, data_len: offset, bitmap_len, join_offset: None }
    }

    /// Returns a value given a tuple and a column index. `Ok(None)` means the slot is null per
    /// the tuple's bitmap. A tuple that ends before the column is refused.
    pub fn get_value(&self, tuple: &Tuple, col_idx: usize) -> (res: Result<
        Option<Value>,
        CatalogError,
    >)
        ensures
            res == self@.field(tuple.data@, col_idx as int),
    {
        if col_idx >= self.cols.len() {
            return Err(CatalogError::ColumnOutOfBounds);
        }
        let col = &self.cols[col_idx];
        let len: usize = tuple.data.len();
        if col_idx / 8 >= len {
            return Err(CatalogError::TupleSchemaMismatch);
        }
        if is_null(tuple.data.as_slice(), col_idx) {
            return Ok(None);
        }
        let size: usize = col.dtype.size();
        if self.bitmap_len > len || col.offset > len - self.bitmap_len || size > len
            - self.bitmap_len - col.offset {
            return Err(CatalogError::TupleSchemaMismatch);
        }
        let start: usize = self.bitmap_len + col.offset;
        let bytes = slice_subrange(tuple.data.as_slice(), start, start + size);
        Ok(Some(Value::decode(bytes, &col.dtype)))
    }

    /// The tuple that holds `values`.
    pub fn encode_tuple(&self, values: &[Option<Value>]) -> (res: Result<Tuple, CatalogError>)
        requires
            self@.wf(),
        ensures
            self@.accepts(values@) ==> (res matches Ok(t) && t.data@ == self@.row(values@)),
            !self@.accepts(values@) ==> res == Err::<Tuple, CatalogError>(
                CatalogError::TupleSchemaMismatch,
            ),
    {
        if values.len() != self.cols.len() {
            return Err(CatalogError::TupleSchemaMismatch);
        }
        let mut data: Vec<u8> = Vec::new();
        push_zeros(&mut data, self.bitmap_len);
        let mut i: usize = 0;
        let ghost cols = self.cols@;
        assert(data@ =~= null_masks(values@, self.bitmap_len as nat, 0) + payload(
            cols,
            values@,
            0,
        ));
        while i < values.len()
            invariant
                i <= values@.len(),
                self@.wf(),
                cols == self.cols@,
                values@.len() == self.cols@.len(),
                data@ == null_masks(values@, self.bitmap_len as nat, i as int) + payload(
                    cols,
                    values@,
                    i as int,
                ),
                data@.len() == self.bitmap_len + offset_of(cols, i as int),
                forall|k: int|
                    0 <= k < i ==> ((#[trigger] values@[k]) matches Some(v) ==> v.dtype()
                        == self@.cols[k].dtype),
            decreases values@.len() - i,
        {
            let dtype = self.cols[i].dtype;
            proof {
                lemma_offset_monotone(cols, i as int, cols.len() as int);
            }
            match &values[i] {
                Some(v) => {
                    if !v.data_type().same(&dtype) {
                        assert(!self@.accepts(values@)) by {
                            assert(values@[i as int] is Some);
                        }
                        return Err(CatalogError::TupleSchemaMismatch);
                    }
                    v.encode(&mut data);
                    proof {
                        law_value_roundtrip(*v);
                        lemma_value_added(cols, values@, self.bitmap_len as nat, i as int);
                    }
                },
                None => {
                    proof {
                        lemma_null_added(cols, values@, self.bitmap_len as nat, i as int);
                    }
                    let b: u8 = data[i / 8] | (1u8 << ((i % 8) as u8));
                    data.set(i / 8, b);
                    push_zeros(&mut data, dtype.size());
                },
            }
            i += 1;
        }
        Ok(Tuple { data })
    }

    /// The position of the first column of that name.
    pub fn col_idx(&self, name: &str) -> (res: Option<usize>)
        ensures
            match res {
                Some(i) => column_at(self@.cols, name@, i as int),
                None => forall|k: int|
                    0 <= k < self@.cols.len() ==> (#[trigger] self@.cols[k]).name@ != name@,
            },
    {
        let mut i: usize = 0;
        while i < self.cols.len()
            invariant
                i <= self.cols@.len(),
                forall|k: int| 0 <= k < i ==> (#[trigger] self.cols@[k]).name@ != name@,
            decreases self.cols@.len() - i,
        {
            if same_text(self.cols[i].name.as_str(), name) {
                return Some(i);
            }
            i += 1;
        }
        None
    }
}

proof fn lemma_value_added(cols: Seq<Column>, values: Seq<Option<Value>>, len: nat, i: int)
    requires
        0 <= i < values.len(),
        values[i] is Some,
    ensures
        null_masks(values, len, i) + payload(cols, values, i) + value_bytes(values[i]->0)
            == null_masks(values, len, i + 1) + payload(cols, values, i + 1),
{
    assert(null_masks(values, len, i + 1) =~= null_masks(values, len, i));
    assert(null_masks(values, len, i) + payload(cols, values, i) + value_bytes(values[i]->0)
        =~= null_masks(values, len, i) + (payload(cols, values, i) + value_bytes(values[i]->0)));
}

proof fn lemma_null_added(cols: Seq<Column>, values: Seq<Option<Value>>, len: nat, i: int)
    requires
        0 <= i < values.len(),
        i / 8 < len,
        values[i] is None,
    ensures
        ({
            let before = null_masks(values, len, i) + payload(cols, values, i);
            before.update(i / 8, before[i / 8] | (1u8 << ((i % 8) as u8))) + zeros(
                cols[i].dtype.width(),
            ) == null_masks(values, len, i + 1) + payload(cols, values, i + 1)
        }),
{
    let mask = null_masks(values, len, i);
    let p = payload(cols, values, i);
    let b = mask[i / 8] | (1u8 << ((i % 8) as u8));
    assert(mask.update(i / 8, b) =~= null_masks(values, len, i + 1));
    assert((mask + p).update(i / 8, b) =~= mask.update(i / 8, b) + p);
    assert(mask.update(i / 8, b) + p + zeros(cols[i].dtype.width()) =~= mask.update(i / 8, b) + (p
        + zeros(cols[i].dtype.width())));
}

fn push_zeros(out: &mut Vec<u8>, n: usize)
    requires
        old(out)@.len() + n <= usize::MAX,
    ensures
        final(out)@ == old(out)@ + zeros(n as nat),
{
    let len: usize = out.len();
    out.resize(len + n, 0);
    proof {
        if n > 0 {
            assert forall|i: int| 0 <= i < len implies out@[i] == old(out)@[i] by {
                assert(out@.subrange(0, len as int)[i] == out@[i]);
            }
        }
        assert(out@ =~= old(out)@ + zeros(n as nat));
    }
}

/// Column `i` is the first one of that name.
pub open spec fn column_at(cols: Seq<Column>, name: Seq<char>, i: int) -> bool {
    &&& 0 <= i < cols.len()
    &&& cols[i].name@ == name
    &&& forall|k: int| 0 <= k < i ==> (#[trigger] cols[k]).name@ != name
}

/// Reads the null bit for `col_idx` from a tuple's bitmap prefix.
pub fn is_null(data: &[u8], col_idx: usize) -> (res: bool)
    requires
        col_idx / 8 < data@.len(),
    ensures
        res == null_at(data@, col_idx as int),
{
    (data[col_idx / 8] >> ((col_idx % 8) as u8)) & 1 == 1
}

proof fn lemma_bit_or(b: u8, k: u8, m: u8)
    requires
        k < 8,
        m < 8,
    ensures
        ((b | (1u8 << k)) >> m) & 1u8 == (if k == m { 1u8 } else { (b >> m) & 1u8 }),
{
    assert(((b | (1u8 << k)) >> m) & 1u8 == (if k == m { 1u8 } else { (b >> m) & 1u8 }))
        by (bit_vector)
        requires
            k < 8,
            m < 8,
    ;
}

/// A bit of the bitmap is set exactly where its value is NULL.
pub(crate) proof fn lemma_null_mask(values: Seq<Option<Value>>, j: int, n: int, k: int)
    requires
        0 <= n <= values.len(),
        0 <= k < 8,
        0 <= j,
    ensures
        bit_set(null_mask(values, j, n), k) <==> (8 * j + k < n && values[8 * j + k] is None),
    decreases n,
{
    if n <= 0 {
        let m = k as u8;
        assert((0u8 >> m) & 1u8 == 0u8) by (bit_vector);
    } else {
        lemma_null_mask(values, j, n - 1, k);
        if (n - 1) / 8 == j && values[n - 1] is None {
            lemma_bit_or(null_mask(values, j, n - 1), ((n - 1) % 8) as u8, k as u8);
        }
    }
}

proof fn lemma_payload(cols: Seq<Column>, values: Seq<Option<Value>>, n: int, i: int)
    requires
        0 <= i < n <= values.len(),
        values.len() == cols.len(),
        forall|k: int|
            0 <= k < values.len() ==> ((#[trigger] values[k]) matches Some(v) ==> v.dtype()
                == cols[k].dtype),
    ensures
        payload(cols, values, n).len() == offset_of(cols, n),
        payload(cols, values, n).subrange(
            offset_of(cols, i) as int,
            (offset_of(cols, i) + cols[i].dtype.width()) as int,
        ) == field_bytes(values[i], cols[i].dtype),
    decreases n,
{
    if values[n - 1] is Some {
        law_value_roundtrip(values[n - 1]->0);
    }
    if i < n - 1 {
        lemma_payload(cols, values, n - 1, i);
        lemma_offset_monotone(cols, i, n - 1);
    } else if n - 1 > 0 {
        lemma_payload(cols, values, n - 1, 0);
    }
    assert(payload(cols, values, n).subrange(
        offset_of(cols, i) as int,
        (offset_of(cols, i) + cols[i].dtype.width()) as int,
    ) =~= field_bytes(values[i], cols[i].dtype));
}

/// The bytes of column `i` of an encoded tuple.
pub proof fn lemma_row_field(s: SchemaView, values: Seq<Option<Value>>, i: int)
    requires
        s.wf(),
        s.accepts(values),
        0 <= i < values.len(),
    ensures
        s.row(values).len() == s.bitmap_len + s.data_len,
        null_at(s.row(values), i) == (values[i] is None),
        i / 8 < s.bitmap_len,
        s.bitmap_len + s.cols[i].offset + s.cols[i].dtype.width() <= s.row(values).len(),
        s.row(values).subrange(
            s.bitmap_len + s.cols[i].offset,
            s.bitmap_len + s.cols[i].offset + s.cols[i].dtype.width(),
        ) == field_bytes(values[i], s.cols[i].dtype),
{
    lemma_row_null(s, values, i);
    lemma_payload(s.cols, values, values.len() as int, i);
    lemma_offset_monotone(s.cols, i, values.len() as int);
    let masks = null_masks(values, s.bitmap_len as nat, values.len() as int);
    let p = payload(s.cols, values, values.len() as int);
    let start = s.cols[i].offset as int;
    let end = start + s.cols[i].dtype.width();
    assert(s.cols[i].offset == offset_of(s.cols, i));
    lemma_behind(masks, p, start, end);
}

/// A part of the second of two sequences that are joined.
proof fn lemma_behind(a: Seq<u8>, b: Seq<u8>, start: int, end: int)
    requires
        0 <= start <= end <= b.len(),
    ensures
        (a + b).subrange(a.len() + start, a.len() + end) == b.subrange(start, end),
{
    assert((a + b).subrange(a.len() + start, a.len() + end) =~= b.subrange(start, end));
}

/// The bit of column `i` of an encoded tuple.
proof fn lemma_row_null(s: SchemaView, values: Seq<Option<Value>>, i: int)
    requires
        s.wf(),
        s.accepts(values),
        0 <= i < values.len(),
    ensures
        i / 8 < s.bitmap_len,
        null_at(s.row(values), i) == (values[i] is None),
{
    lemma_null_mask(values, i / 8, values.len() as int, i % 8);
    assert(s.row(values)[i / 8] == null_mask(values, i / 8, values.len() as int));
}

/// Every value of an encoded tuple, NULLs among them, is read back as it was.
pub proof fn law_tuple_roundtrip(s: SchemaView, values: Seq<Option<Value>>)
    requires
        s.wf(),
        s.accepts(values),
    ensures
        forall|i: int|
            0 <= i < values.len() ==> (#[trigger] s.field(s.row(values), i)) == Ok::<
                Option<Value>,
                CatalogError,
            >(values[i]),
        s.reads(s.row(values)),
        s.values(s.row(values)) == values,
{
    assert forall|i: int| 0 <= i < values.len() implies (#[trigger] s.field(s.row(values), i))
        == Ok::<Option<Value>, CatalogError>(values[i]) by {
        lemma_row_field(s, values, i);
        if values[i] is Some {
            law_value_roundtrip(values[i]->0);
        }
    }
    assert(s.values(s.row(values)) =~= values);
}

/// Whether two texts are the same.
pub fn same_text(a: &str, b: &str) -> (res: bool)
    ensures
        res == (a@ == b@),
{
    a.to_owned() == b.to_owned()
}

} // verus!
