//! How values are written inside index keys: big-endian, with the sign flipped, so that keys
//! compare byte by byte as the values do.
use vstd::prelude::*;
use vstd::slice::slice_subrange;

use crate::catalog::index_schema::{bytes_lt_from, key_lt, lemma_key_order};
use crate::catalog::value::{
    float_key, is_nan, law_value_roundtrip, value_bytes, value_eq, value_lt, value_of, DataType,
    Value, SIGN_BIT,
};
use crate::table_heap::Tuple;

verus! {

pub const LONG_SIGN_BIT: u64 = 0x8000_0000_0000_0000;

/// The four bytes of `v`, the most significant first.
pub open spec fn be32(v: u32) -> Seq<u8> {
    seq![
        (v / 0x100_0000) as u8,
        (v / 0x1_0000 % 0x100) as u8,
        (v / 0x100 % 0x100) as u8,
        (v % 0x100) as u8,
    ]
}

/// The eight bytes of `v`, the most significant first.
pub open spec fn be64(v: u64) -> Seq<u8> {
    be32((v / 0x1_0000_0000) as u32) + be32((v % 0x1_0000_0000) as u32)
}

/// The number that stands for a float in an index key: its place in the order of floats, with NaN
/// at the end.
pub open spec fn float_number(bits: u32) -> u32 {
    if is_nan(bits) {
        u32::MAX
    } else {
        (float_key(bits) + SIGN_BIT) as u32
    }
}

/// The bytes that stand for a value in an index key.
pub open spec fn key_bytes(v: Value) -> Seq<u8> {
    match v {
        Value::BOOLEAN(b) => seq![if b { 1u8 } else { 0u8 }],
        Value::INT(i) => be32((i + SIGN_BIT) as u32),
        Value::FLOAT(f) => be32(float_number(f.0)),
        Value::TIMESTAMP(t) => be64((t + LONG_SIGN_BIT) as u64),
    }
}

/// The bytes of several values, one after the other.
pub open spec fn key_of_values(vals: Seq<Value>) -> Seq<u8>
    decreases vals.len(),
{
    if vals.len() == 0 {
        Seq::empty()
    } else {
        key_of_values(vals.drop_last()) + key_bytes(vals.last())
    }
}

/// The bytes that stand in an index key for the value stored at `off`. A stored boolean is
/// taken over as it is.
pub open spec fn key_bytes_at(data: Seq<u8>, off: int, dtype: DataType) -> Seq<u8> {
    match dtype {
        DataType::BOOLEAN => seq![data[off]],
        _ => key_bytes(value_of(data.subrange(off, off + dtype.width()), dtype)),
    }
}

fn push_be32(out: &mut Vec<u8>, v: u32)
    ensures
        final(out)@ == old(out)@ + be32(v),
{
    out.push((v / 0x100_0000) as u8);
    out.push((v / 0x1_0000 % 0x100) as u8);
    out.push((v / 0x100 % 0x100) as u8);
    out.push((v % 0x100) as u8);
    assert(out@ =~= old(out)@ + be32(v));
}

fn push_be64(out: &mut Vec<u8>, v: u64)
    ensures
        final(out)@ == old(out)@ + be64(v),
{
    push_be32(out, (v / 0x1_0000_0000) as u32);
    push_be32(out, (v % 0x1_0000_0000) as u32);
    assert(out@ =~= old(out)@ + be64(v));
}

impl Value {
    /// Appends the bytes that stand for the value in an index key.
    pub fn encode_key(&self, out: &mut Vec<u8>)
        ensures
            final(out)@ == old(out)@ + key_bytes(*self),
    {
        match self {
            Value::BOOLEAN(b) => {
                out.push(if *b { 1u8 } else { 0u8 });
                assert(out@ =~= old(out)@ + key_bytes(*self));
            },
            Value::INT(i) => push_be32(out, (*i as i64 + SIGN_BIT as i64) as u32),
            Value::FLOAT(f) => {
                let v: u32 = if f.is_nan() {
                    u32::MAX
                } else {
                    (f.key() + SIGN_BIT as i64) as u32
                };
                push_be32(out, v);
            },
            Value::TIMESTAMP(t) => push_be64(out, (*t as i128 + LONG_SIGN_BIT as i128) as u64),
        }
    }
}

impl DataType {
    /// Appends to `out` the bytes that stand in an index key for the value of this type that
    /// a tuple stores `offset` bytes after its bitmap.
    pub fn encode_from_tuple(
        &self,
        tuple: &Tuple,
        bitmap_len: usize,
        offset: usize,
        out: &mut Vec<u8>,
    )
        requires
            bitmap_len + offset + self.width() <= tuple.data@.len(),
        ensures
            final(out)@ == old(out)@ + key_bytes_at(tuple.data@, bitmap_len + offset, *self),
    {
        let len: usize = tuple.data.len();
        assert(bitmap_len + offset + self.width() <= len);
        self.encode_stored(tuple.data.as_slice(), bitmap_len + offset, out);
    }

    /// Appends to `out` the bytes that stand in an index key for the value of this type that
    /// is stored at `off`.
    pub fn encode_stored(&self, data: &[u8], off: usize, out: &mut Vec<u8>)
        requires
            off + self.width() <= data@.len(),
        ensures
            final(out)@ == old(out)@ + key_bytes_at(data@, off as int, *self),
    {
        let len: usize = data.len();
        assert(off + self.width() <= len);
        match self {
            DataType::BOOLEAN => {
                out.push(data[off]);
                assert(out@ =~= old(out)@ + key_bytes_at(data@, off as int, *self));
            },
            _ => {
                let bytes = slice_subrange(data, off, off + self.size());
                Value::decode(bytes, self).encode_key(out);
            },
        }
    }
}

proof fn lemma_be32(v: u32)
    ensures
        be32(v).len() == 4,
        v == be32(v)[0] * 0x100_0000 + be32(v)[1] * 0x1_0000 + be32(v)[2] * 0x100 + be32(v)[3],
{
    assert(v / 0x100_0000 < 0x100);
}

/// Comparing from `i` on looks at nothing before `i`.
proof fn lemma_lt_step(a: Seq<u8>, b: Seq<u8>, i: int)
    requires
        0 <= i < a.len(),
        i < b.len(),
    ensures
        a[i] < b[i] ==> bytes_lt_from(a, b, i),
        a[i] > b[i] ==> !bytes_lt_from(a, b, i),
        a[i] == b[i] ==> bytes_lt_from(a, b, i) == bytes_lt_from(a, b, i + 1),
{
}

/// Comparing two strings behind equally long parts.
proof fn lemma_lt_behind(p: Seq<u8>, q: Seq<u8>, a: Seq<u8>, b: Seq<u8>, i: int)
    requires
        p.len() == q.len(),
        a.len() == b.len(),
        0 <= i <= a.len(),
    ensures
        bytes_lt_from(p + a, q + b, p.len() + i) == bytes_lt_from(a, b, i),
    decreases a.len() - i,
{
    if i < a.len() {
        assert((p + a)[p.len() + i] == a[i]);
        assert((q + b)[p.len() + i] == b[i]);
        lemma_lt_behind(p, q, a, b, i + 1);
    }
}

/// Comparing two strings goes by their equally long first parts where those differ.
proof fn lemma_lt_parts(p: Seq<u8>, q: Seq<u8>, a: Seq<u8>, b: Seq<u8>, i: int)
    requires
        p.len() == q.len(),
        a.len() == b.len(),
        0 <= i <= p.len(),
        forall|k: int| 0 <= k < i ==> p[k] == q[k],
    ensures
        p != q ==> bytes_lt_from(p + a, q + b, i) == bytes_lt_from(p, q, i),
        p == q ==> bytes_lt_from(p + a, q + b, i) == bytes_lt_from(a, b, 0),
    decreases p.len() - i,
{
    if i < p.len() {
        assert((p + a)[i] == p[i]);
        assert((q + b)[i] == q[i]);
        if p[i] == q[i] {
            lemma_lt_parts(p, q, a, b, i + 1);
        }
    } else {
        assert(p =~= q);
        lemma_lt_behind(p, q, a, b, 0);
    }
}

proof fn lemma_be32_order(x: u32, y: u32)
    ensures
        (x < y) == key_lt(be32(x), be32(y)),
        (x == y) == (be32(x) == be32(y)),
{
    lemma_be32(x);
    lemma_be32(y);
    let a = be32(x);
    let b = be32(y);
    lemma_lt_step(a, b, 0);
    lemma_lt_step(a, b, 1);
    lemma_lt_step(a, b, 2);
    lemma_lt_step(a, b, 3);
    assert(!bytes_lt_from(a, b, 4));
    if a[0] == b[0] && a[1] == b[1] && a[2] == b[2] && a[3] == b[3] {
        assert(a =~= b);
    }
}

proof fn lemma_be64_order(x: u64, y: u64)
    ensures
        (x < y) == key_lt(be64(x), be64(y)),
        (x == y) == (be64(x) == be64(y)),
        be64(x).len() == 8,
{
    let xh = (x / 0x1_0000_0000) as u32;
    let xl = (x % 0x1_0000_0000) as u32;
    let yh = (y / 0x1_0000_0000) as u32;
    let yl = (y % 0x1_0000_0000) as u32;
    assert(x / 0x1_0000_0000 <= u32::MAX);
    assert(y / 0x1_0000_0000 <= u32::MAX);
    assert(x == xh * 0x1_0000_0000 + xl);
    assert(y == yh * 0x1_0000_0000 + yl);
    lemma_be32_order(xh, yh);
    lemma_be32_order(xl, yl);
    lemma_lt_parts(be32(xh), be32(yh), be32(xl), be32(yl), 0);
    if be64(x) == be64(y) {
        assert(be64(x).subrange(0, 4) =~= be32(xh));
        assert(be64(y).subrange(0, 4) =~= be32(yh));
        assert(be64(x).subrange(4, 8) =~= be32(xl));
        assert(be64(y).subrange(4, 8) =~= be32(yl));
    }
}

/// Keys compare byte by byte as the values do, and only equal values have equal keys.
pub proof fn law_key_order(a: Value, b: Value)
    requires
        a.dtype() == b.dtype(),
    ensures
        key_bytes(a).len() == a.dtype().width(),
        key_lt(key_bytes(a), key_bytes(b)) == value_lt(a, b),
        (key_bytes(a) == key_bytes(b)) == value_eq(a, b),
{
    match (a, b) {
        (Value::BOOLEAN(x), Value::BOOLEAN(y)) => {
            lemma_lt_step(key_bytes(a), key_bytes(b), 0);
            assert(!bytes_lt_from(key_bytes(a), key_bytes(b), 1));
            assert(key_bytes(a)[0] == if x { 1u8 } else { 0u8 });
            assert(key_bytes(b)[0] == if y { 1u8 } else { 0u8 });
        },
        (Value::INT(x), Value::INT(y)) => {
            lemma_be32_order((x + SIGN_BIT) as u32, (y + SIGN_BIT) as u32);
        },
        (Value::FLOAT(x), Value::FLOAT(y)) => {
            lemma_be32_order(float_number(x.0), float_number(y.0));
        },
        (Value::TIMESTAMP(x), Value::TIMESTAMP(y)) => {
            lemma_be64_order((x + LONG_SIGN_BIT) as u64, (y + LONG_SIGN_BIT) as u64);
        },
        _ => {},
    }
}

/// Lists of equal values.
pub open spec fn values_eq(a: Seq<Value>, b: Seq<Value>) -> bool {
    &&& a.len() == b.len()
    &&& forall|i: int| 0 <= i < a.len() ==> value_eq(#[trigger] a[i], b[i])
}

/// Lists of values are ordered by their first difference.
pub open spec fn values_lt(a: Seq<Value>, b: Seq<Value>) -> bool
    decreases a.len(),
{
    if a.len() == 0 || b.len() == 0 {
        false
    } else {
        ||| values_lt(a.drop_last(), b.drop_last())
        ||| values_eq(a.drop_last(), b.drop_last()) && value_lt(a.last(), b.last())
    }
}

pub open spec fn same_types(a: Seq<Value>, b: Seq<Value>) -> bool {
    &&& a.len() == b.len()
    &&& forall|i: int| 0 <= i < a.len() ==> (#[trigger] a[i]).dtype() == b[i].dtype()
}

/// Keys of several columns compare byte by byte as the lists of values do, and only equal
/// lists have equal keys.
pub proof fn law_composite_key_order(a: Seq<Value>, b: Seq<Value>)
    requires
        same_types(a, b),
    ensures
        key_of_values(a).len() == key_of_values(b).len(),
        key_lt(key_of_values(a), key_of_values(b)) == values_lt(a, b),
        (key_of_values(a) == key_of_values(b)) == values_eq(a, b),
    decreases a.len(),
{
    if a.len() > 0 {
        let (p, q) = (a.drop_last(), b.drop_last());
        let (x, y) = (a.last(), b.last());
        assert(same_types(p, q)) by {
            assert forall|i: int| 0 <= i < p.len() implies (#[trigger] p[i]).dtype()
                == q[i].dtype() by {
                assert(a[i].dtype() == b[i].dtype());
            }
        }
        assert(a[a.len() - 1].dtype() == b[a.len() - 1].dtype());
        law_composite_key_order(p, q);
        lemma_key_order();
        law_key_order(x, y);
        law_key_order(y, x);
        let (kp, kq) = (key_of_values(p), key_of_values(q));
        lemma_lt_parts(kp, kq, key_bytes(x), key_bytes(y), 0);
        assert(values_eq(a, b) <==> values_eq(p, q) && value_eq(x, y)) by {
            assert(a =~= p.push(x));
            assert(b =~= q.push(y));
            if values_eq(a, b) {
                assert forall|i: int| 0 <= i < p.len() implies value_eq(#[trigger] p[i], q[i]) by {
                    assert(value_eq(a[i], b[i]));
                }
                assert(value_eq(a[a.len() - 1], b[a.len() - 1]));
            }
        }
        if key_of_values(a) == key_of_values(b) {
            assert(key_of_values(a).subrange(0, kp.len() as int) =~= kp);
            assert(key_of_values(b).subrange(0, kp.len() as int) =~= kq);
            assert(key_of_values(a).subrange(kp.len() as int, key_of_values(a).len() as int)
                =~= key_bytes(x));
            assert(key_of_values(b).subrange(kp.len() as int, key_of_values(b).len() as int)
                =~= key_bytes(y));
        }
    }
}

/// The key bytes taken from a stored value are those of the value itself.
pub proof fn law_stored_key(data: Seq<u8>, off: int, v: Value)
    requires
        0 <= off,
        off + v.dtype().width() <= data.len(),
        data.subrange(off, off + v.dtype().width()) == value_bytes(v),
    ensures
        key_bytes_at(data, off, v.dtype()) == key_bytes(v),
{
    law_value_roundtrip(v);
    if let Value::BOOLEAN(b) = v {
        assert(data[off] == data.subrange(off, off + 1)[0]);
        assert(value_bytes(v)[0] == if b { 1u8 } else { 0u8 });
        assert(key_bytes_at(data, off, v.dtype()) =~= key_bytes(v));
    }
}

} // verus!
