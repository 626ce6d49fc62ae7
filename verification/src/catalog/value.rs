//! Values, their types, and how they are written as bytes.
use vstd::bytes::{
    spec_u32_from_le_bytes, spec_u32_to_le_bytes, spec_u64_from_le_bytes, spec_u64_to_le_bytes,
    u32_from_le_bytes, u32_to_le_bytes, u64_from_le_bytes, u64_to_le_bytes,
};
use vstd::prelude::*;
use vstd::std_specs::cmp::PartialEqSpecImpl;

verus! {

/// A 32 bit floating point number, held as its IEEE 754 bits.
/// NaN is treated as greater than all other values, and equal to itself.
#[derive(Debug, Clone, Copy)]
pub struct FloatBits(pub u32);

pub const SIGN_BIT: u32 = 0x8000_0000;

/// The bits of positive infinity: the exponent is all ones, the fraction is zero.
pub const INFINITY_BITS: u32 = 0x7f80_0000;

/// The bits without the sign.
pub open spec fn float_magnitude(bits: u32) -> int {
    bits as int % SIGN_BIT as int
}

pub open spec fn is_nan(bits: u32) -> bool {
    float_magnitude(bits) > INFINITY_BITS
}

/// An integer that orders floats: both zeros give 0, and every NaN gives one number past
/// infinity.
pub open spec fn float_key(bits: u32) -> int {
    if is_nan(bits) {
        SIGN_BIT as int
    } else if bits >= SIGN_BIT {
        -float_magnitude(bits)
    } else {
        float_magnitude(bits)
    }
}

impl FloatBits {
    fn magnitude(&self) -> (res: u32)
        ensures
            res == float_magnitude(self.0),
            res < SIGN_BIT,
    {
        self.0 % SIGN_BIT
    }

    /// Whether this float is not a number.
    pub fn is_nan(&self) -> (res: bool)
        ensures
            res == is_nan(self.0),
    {
        self.magnitude() > INFINITY_BITS
    }

    /// The integer by which floats are ordered.
    pub fn key(&self) -> (res: i64)
        ensures
            res == float_key(self.0),
    {
        if self.is_nan() {
            SIGN_BIT as i64
        } else if self.0 >= SIGN_BIT {
            -(self.magnitude() as i64)
        } else {
            self.magnitude() as i64
        }
    }
}

/// Metadata for a table schema.
#[derive(Debug, Clone, Copy, PartialEq, Eq, Structural)]
pub enum DataType {
    BOOLEAN,
    /// Signed, 32 bit.
    INT,
    /// 32 bit floating point.
    FLOAT,
    /// Assumed to be UTC.
    TIMESTAMP,
}

/// The value types that are supported.
#[derive(Debug, Clone, Copy)]
pub enum Value {
    BOOLEAN(bool),
    INT(i32),
    FLOAT(FloatBits),
    TIMESTAMP(i64),
}

impl DataType {
    /// The number of bytes of a value of this type.
    pub open spec fn width(&self) -> nat {
        match *self {
            DataType::BOOLEAN => 1,
            DataType::INT => 4,
            DataType::FLOAT => 4,
            DataType::TIMESTAMP => 8,
        }
    }

    pub fn size(&self) -> (res: usize)
        ensures
            res == self.width(),
    {
        match self {
            DataType::BOOLEAN => 1,
            DataType::INT => 4,
            DataType::FLOAT => 4,
            DataType::TIMESTAMP => 8,
        }
    }

    /// Whether values of this type are stored in the tuple itself. All of them are.
    pub fn inline(&self) -> (res: bool)
        ensures
            res,
    {
        match self {
            DataType::BOOLEAN => true,
            DataType::INT => true,
            DataType::FLOAT => true,
            DataType::TIMESTAMP => true,
        }
    }

    pub fn same(&self, other: &DataType) -> (res: bool)
        ensures
            res == (*self == *other),
    {
        *self == *other
    }
}

/// The two's complement bits of a 32 bit integer.
pub open spec fn int_bits(i: i32) -> u32 {
    if i >= 0 {
        i as u32
    } else {
        (i + 0x1_0000_0000) as u32
    }
}

pub open spec fn int_of_bits(u: u32) -> i32 {
    if u < SIGN_BIT {
        u as i32
    } else {
        (u - 0x1_0000_0000) as i32
    }
}

/// The two's complement bits of a 64 bit integer.
pub open spec fn long_bits(t: i64) -> u64 {
    if t >= 0 {
        t as u64
    } else {
        (t + 0x1_0000_0000_0000_0000) as u64
    }
}

pub open spec fn long_of_bits(u: u64) -> i64 {
    if u < 0x8000_0000_0000_0000 {
        u as i64
    } else {
        (u - 0x1_0000_0000_0000_0000) as i64
    }
}

pub fn int_to_bits(i: i32) -> (res: u32)
    ensures
        res == int_bits(i),
{
    if i >= 0 {
        i as u32
    } else {
        (i as i64 + 0x1_0000_0000) as u32
    }
}

pub fn int_from_bits(u: u32) -> (res: i32)
    ensures
        res == int_of_bits(u),
{
    if u < SIGN_BIT {
        u as i32
    } else {
        (u as i64 - 0x1_0000_0000) as i32
    }
}

pub fn long_to_bits(t: i64) -> (res: u64)
    ensures
        res == long_bits(t),
{
    if t >= 0 {
        t as u64
    } else {
        (t as i128 + 0x1_0000_0000_0000_0000) as u64
    }
}

pub fn long_from_bits(u: u64) -> (res: i64)
    ensures
        res == long_of_bits(u),
{
    if u < 0x8000_0000_0000_0000 {
        u as i64
    } else {
        (u as i128 - 0x1_0000_0000_0000_0000) as i64
    }
}

/// The bytes of a value inside a tuple, little-endian.
pub open spec fn value_bytes(v: Value) -> Seq<u8> {
    match v {
        Value::BOOLEAN(b) => seq![if b { 1u8 } else { 0u8 }],
        Value::INT(i) => spec_u32_to_le_bytes(int_bits(i)),
        Value::FLOAT(f) => spec_u32_to_le_bytes(f.0),
        Value::TIMESTAMP(t) => spec_u64_to_le_bytes(long_bits(t)),
    }
}

/// The value of type `dtype` whose bytes these are.
pub open spec fn value_of(bytes: Seq<u8>, dtype: DataType) -> Value {
    match dtype {
        DataType::BOOLEAN => Value::BOOLEAN(bytes[0] != 0),
        DataType::INT => Value::INT(int_of_bits(spec_u32_from_le_bytes(bytes))),
        DataType::FLOAT => Value::FLOAT(FloatBits(spec_u32_from_le_bytes(bytes))),
        DataType::TIMESTAMP => Value::TIMESTAMP(long_of_bits(spec_u64_from_le_bytes(bytes))),
    }
}

/// The place of a value's type in the order of values.
pub open spec fn type_rank(v: Value) -> int {
    match v {
        Value::BOOLEAN(_) => 0,
        Value::INT(_) => 1,
        Value::FLOAT(_) => 2,
        Value::TIMESTAMP(_) => 3,
    }
}

/// The place of a value among those of its type.
pub open spec fn value_key(v: Value) -> int {
    match v {
        Value::BOOLEAN(b) => if b { 1 } else { 0 },
        Value::INT(i) => i as int,
        Value::FLOAT(f) => float_key(f.0),
        Value::TIMESTAMP(t) => t as int,
    }
}

/// Two values are equal: of one type, and equal as numbers of it.
pub open spec fn value_eq(a: Value, b: Value) -> bool {
    type_rank(a) == type_rank(b) && value_key(a) == value_key(b)
}

/// Values are ordered by their types first, then by their numbers.
pub open spec fn value_lt(a: Value, b: Value) -> bool {
    type_rank(a) < type_rank(b) || (type_rank(a) == type_rank(b) && value_key(a) < value_key(b))
}

pub open spec fn option_eq(a: Option<Value>, b: Option<Value>) -> bool {
    match (a, b) {
        (None, None) => true,
        (Some(x), Some(y)) => value_eq(x, y),
        _ => false,
    }
}

/// NULL comes before every value.
pub open spec fn option_lt(a: Option<Value>, b: Option<Value>) -> bool {
    match (a, b) {
        (None, Some(_)) => true,
        (Some(x), Some(y)) => value_lt(x, y),
        _ => false,
    }
}

impl PartialEq for Value {
    fn eq(&self, other: &Value) -> (res: bool) {
        self.rank() == other.rank() && self.key() == other.key()
    }
}

impl PartialEqSpecImpl for Value {
    open spec fn obeys_eq_spec() -> bool {
        true
    }

    open spec fn eq_spec(&self, other: &Value) -> bool {
        value_eq(*self, *other)
    }
}

impl Eq for Value {

}

impl Value {
    fn rank(&self) -> (res: u8)
        ensures
            res == type_rank(*self),
    {
        match self {
            Value::BOOLEAN(_) => 0,
            Value::INT(_) => 1,
            Value::FLOAT(_) => 2,
            Value::TIMESTAMP(_) => 3,
        }
    }

    fn key(&self) -> (res: i64)
        ensures
            res == value_key(*self),
    {
        match self {
            Value::BOOLEAN(b) => if *b {
                1
            } else {
                0
            },
            Value::INT(i) => *i as i64,
            Value::FLOAT(f) => f.key(),
            Value::TIMESTAMP(t) => *t,
        }
    }

    pub fn same(&self, other: &Value) -> (res: bool)
        ensures
            res == value_eq(*self, *other),
    {
        self.rank() == other.rank() && self.key() == other.key()
    }

    pub fn is_before(&self, other: &Value) -> (res: bool)
        ensures
            res == value_lt(*self, *other),
    {
        self.rank() < other.rank() || (self.rank() == other.rank() && self.key() < other.key())
    }

    pub open spec fn dtype(&self) -> DataType {
        match *self {
            Value::BOOLEAN(_) => DataType::BOOLEAN,
            Value::INT(_) => DataType::INT,
            Value::FLOAT(_) => DataType::FLOAT,
            Value::TIMESTAMP(_) => DataType::TIMESTAMP,
        }
    }

    pub fn data_type(&self) -> (res: DataType)
        ensures
            res == self.dtype(),
    {
        match self {
            Value::BOOLEAN(_) => DataType::BOOLEAN,
            Value::INT(_) => DataType::INT,
            Value::FLOAT(_) => DataType::FLOAT,
            Value::TIMESTAMP(_) => DataType::TIMESTAMP,
        }
    }

    /// Appends the value's bytes to `out`.
    pub fn encode(&self, out: &mut Vec<u8>)
        ensures
            final(out)@ == old(out)@ + value_bytes(*self),
    {
        match self {
            Value::BOOLEAN(b) => {
                out.push(if *b { 1u8 } else { 0u8 });
                assert(out@ =~= old(out)@ + value_bytes(*self));
            },
            Value::INT(i) => out.extend_from_slice(u32_to_le_bytes(int_to_bits(*i)).as_slice()),
            Value::FLOAT(f) => out.extend_from_slice(u32_to_le_bytes(f.0).as_slice()),
            Value::TIMESTAMP(t) => out.extend_from_slice(
                u64_to_le_bytes(long_to_bits(*t)).as_slice(),
            ),
        }
    }

    /// Reads a value back from its bytes.
    pub fn decode(bytes: &[u8], dtype: &DataType) -> (res: Self)
        requires
            bytes@.len() == dtype.width(),
        ensures
            res == value_of(bytes@, *dtype),
    {
        match dtype {
            DataType::BOOLEAN => Value::BOOLEAN(bytes[0] != 0),
            DataType::INT => Value::INT(int_from_bits(u32_from_le_bytes(bytes))),
            DataType::FLOAT => Value::FLOAT(FloatBits(u32_from_le_bytes(bytes))),
            DataType::TIMESTAMP => Value::TIMESTAMP(long_from_bits(u64_from_le_bytes(bytes))),
        }
    }
}

/// A value that was written is read back as it was.
pub proof fn law_value_roundtrip(v: Value)
    ensures
        value_bytes(v).len() == v.dtype().width(),
        value_of(value_bytes(v), v.dtype()) == v,
{
    vstd::bytes::lemma_auto_spec_u32_to_from_le_bytes();
    vstd::bytes::lemma_auto_spec_u64_to_from_le_bytes();
    match v {
        Value::BOOLEAN(b) => {
            assert(value_bytes(v)[0] == if b { 1u8 } else { 0u8 });
        },
        Value::INT(i) => {
            assert(int_of_bits(int_bits(i)) == i);
        },
        Value::FLOAT(f) => {},
        Value::TIMESTAMP(t) => {
            assert(long_of_bits(long_bits(t)) == t);
        },
    }
}

/// Equality of values is an equivalence, and with it their order is a total one.
pub proof fn law_value_order(a: Value, b: Value, c: Value)
    ensures
        value_eq(a, a),
        value_eq(a, b) == value_eq(b, a),
        value_eq(a, b) && value_eq(b, c) ==> value_eq(a, c),
        value_lt(a, b) && value_lt(b, c) ==> value_lt(a, c),
        !(value_lt(a, b) && value_lt(b, a)),
        value_eq(a, b) <==> !value_lt(a, b) && !value_lt(b, a),
{
}

/// NaN is equal to itself and greater than every other float.
pub proof fn law_nan_is_greatest(nan: u32, other: u32)
    requires
        is_nan(nan),
    ensures
        value_eq(Value::FLOAT(FloatBits(nan)), Value::FLOAT(FloatBits(nan))),
        is_nan(other) ==> value_eq(Value::FLOAT(FloatBits(nan)), Value::FLOAT(FloatBits(other))),
        !is_nan(other) ==> value_lt(Value::FLOAT(FloatBits(other)), Value::FLOAT(FloatBits(nan))),
{
}

pub fn option_same(a: &Option<Value>, b: &Option<Value>) -> (res: bool)
    ensures
        res == option_eq(*a, *b),
{
    match (a, b) {
        (None, None) => true,
        (Some(x), Some(y)) => x.same(y),
        _ => false,
    }
}

pub fn option_is_before(a: &Option<Value>, b: &Option<Value>) -> (res: bool)
    ensures
        res == option_lt(*a, *b),
{
    match (a, b) {
        (None, Some(_)) => true,
        (Some(x), Some(y)) => x.is_before(y),
        _ => false,
    }
}

} // verus!
