//! How tuples are laid out, byte by byte.
use vstd::bytes::{
    lemma_auto_spec_u32_to_from_le_bytes, lemma_auto_spec_u64_to_from_le_bytes,
    spec_u32_from_le_bytes, spec_u64_from_le_bytes,
};
use vstd::prelude::*;

use crate::catalog::schema::{
    bit_set, lemma_null_mask, lemma_row_field, null_mask, offset_of, SchemaView,
};
use crate::catalog::value::{value_bytes, DataType, FloatBits, Value};

verus! {

/// The bytes that a value of a type takes.
pub open spec fn bytes_of_type(t: DataType) -> int {
    match t {
        DataType::BOOLEAN => 1,
        DataType::INT => 4,
        DataType::FLOAT => 4,
        DataType::TIMESTAMP => 8,
    }
}

/// The bytes of the columns before column `n`.
pub open spec fn bytes_before(s: SchemaView, n: int) -> int
    decreases n,
{
    if n <= 0 {
        0
    } else {
        bytes_before(s, n - 1) + bytes_of_type(s.cols[n - 1].dtype)
    }
}

proof fn lemma_bytes_before(s: SchemaView, n: int)
    requires
        0 <= n <= s.cols.len(),
    ensures
        bytes_before(s, n) == offset_of(s.cols, n),
    decreases n,
{
    if n > 0 {
        lemma_bytes_before(s, n - 1);
    }
}

/// A number in two's complement.
pub open spec fn wraps(n: int, modulus: int, bits: int) -> bool {
    bits == if n < 0 {
        n + modulus
    } else {
        n
    }
}

/// The bytes are those of the value: one byte that is 0 or 1, the two's complement of an integer
/// or of a time, or the bits of a float, the lowest byte first.
pub open spec fn writes_value(v: Value, b: Seq<u8>) -> bool {
    &&& b.len() == bytes_of_type(v.dtype())
    &&& match v {
        Value::BOOLEAN(x) => b[0] == if x {
            1u8
        } else {
            0u8
        },
        Value::INT(i) => wraps(i as int, 0x1_0000_0000, spec_u32_from_le_bytes(b) as int),
        Value::FLOAT(FloatBits(x)) => spec_u32_from_le_bytes(b) == x,
        Value::TIMESTAMP(t) => wraps(
            t as int,
            0x1_0000_0000_0000_0000,
            spec_u64_from_le_bytes(b) as int,
        ),
    }
}

/// The bytes of a value.
pub proof fn law_value_bytes(v: Value)
    ensures
        writes_value(v, value_bytes(v)),
{
    lemma_auto_spec_u32_to_from_le_bytes();
    lemma_auto_spec_u64_to_from_le_bytes();
    if let Value::BOOLEAN(x) = v {
        assert(value_bytes(v)[0] == if x { 1u8 } else { 0u8 });
    }
}

/// A tuple begins with a bit for each column, eight to a byte, the lowest bit first; a bit is set
/// where the column is NULL, and all bits behind the last column are clear. Then come the columns,
/// one behind the other: the bytes of the value, or zeros for a NULL.
pub proof fn law_tuple_layout(s: SchemaView, values: Seq<Option<Value>>, i: int)
    requires
        s.wf(),
        s.accepts(values),
        0 <= i < values.len(),
    ensures
        ({
            let n = values.len() as int;
            let row = s.row(values);
            let start = s.bitmap_len + bytes_before(s, i);
            let width = bytes_of_type(s.cols[i].dtype);
            &&& 8 * s.bitmap_len - 7 <= n <= 8 * s.bitmap_len
            &&& row.len() == s.bitmap_len + bytes_before(s, n)
            &&& start + width <= row.len()
            &&& bit_set(row[i / 8], i % 8) <==> values[i] is None
            &&& match values[i] {
                Some(v) => writes_value(v, row.subrange(start, start + width)),
                None => forall|k: int| start <= k < start + width ==> #[trigger] row[k] == 0,
            }
        }),
{
    let n = values.len() as int;
    let row = s.row(values);
    lemma_row_field(s, values, i);
    lemma_bytes_before(s, i);
    lemma_bytes_before(s, n);
    let start = s.bitmap_len + bytes_before(s, i);
    let width = bytes_of_type(s.cols[i].dtype);
    match values[i] {
        Some(v) => {
            law_value_bytes(v);
        },
        None => {
            let part = row.subrange(start, start + width);
            assert forall|k: int| start <= k < start + width implies #[trigger] row[k] == 0 by {
                assert(part[k - start] == row[k]);
            }
        },
    }
}

/// The bits of the bitmap behind the last column are clear.
pub proof fn law_spare_bits(s: SchemaView, values: Seq<Option<Value>>, j: int, k: int)
    requires
        s.wf(),
        s.accepts(values),
        0 <= j < s.bitmap_len,
        0 <= k < 8,
    ensures
        bit_set(s.row(values)[j], k) <==> 8 * j + k < values.len() && values[8 * j + k] is None,
{
    lemma_null_mask(values, j, values.len() as int, k);
    assert(s.row(values)[j] == null_mask(values, j, values.len() as int));
}

} // verus!
