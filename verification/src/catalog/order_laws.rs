//! How values are ordered, by what they stand for.
use vstd::arithmetic::power2::{lemma2_to64, lemma_pow2_pos, lemma_pow2_unfold, pow2};
use vstd::prelude::*;

use crate::catalog::value::{
    float_magnitude, is_nan, option_eq, option_lt, value_eq, value_lt, FloatBits, Value,
};

verus! {

/// The exponent field of a float.
pub open spec fn exponent_field(bits: u32) -> int {
    (bits as int / 0x80_0000) % 0x100
}

/// The fraction field of a float.
pub open spec fn fraction_field(bits: u32) -> int {
    bits as int % 0x80_0000
}

/// The size of a float that is not NaN, counted in the smallest positive float: its fraction where
/// the exponent field is zero, else the fraction with a leading one, doubled for each step of the
/// exponent above the first. Infinity is what the next step after the largest float would be.
pub open spec fn float_size(bits: u32) -> int {
    let e = exponent_field(bits);
    if e == 0 {
        fraction_field(bits)
    } else {
        (0x80_0000 + fraction_field(bits)) * pow2((e - 1) as nat)
    }
}

/// The number that a float stands for, counted in the smallest positive float.
pub open spec fn float_number(bits: u32) -> int {
    if bits >= 0x8000_0000 {
        -float_size(bits)
    } else {
        float_size(bits)
    }
}

/// A float is not a number where the exponent field is all ones and the fraction is not zero.
pub open spec fn not_a_number(bits: u32) -> bool {
    exponent_field(bits) == 0xff && fraction_field(bits) != 0
}

/// The size of the float with the magnitude `m`.
spec fn size_at(m: int) -> int {
    if m / 0x80_0000 == 0 {
        m % 0x80_0000
    } else {
        (0x80_0000 + m % 0x80_0000) * pow2((m / 0x80_0000 - 1) as nat)
    }
}

proof fn lemma_size_steps(m: int)
    requires
        0 <= m,
    ensures
        size_at(m) < size_at(m + 1),
        0 <= size_at(m),
{
    let e = m / 0x80_0000;
    let f = m % 0x80_0000;
    if e > 0 {
        lemma_pow2_pos((e - 1) as nat);
        let p = pow2((e - 1) as nat) as int;
        assert((0x80_0000 + f) * p >= 0) by (nonlinear_arith)
            requires
                p > 0,
                f >= 0,
        ;
        if f + 1 < 0x80_0000 {
            assert((m + 1) / 0x80_0000 == e && (m + 1) % 0x80_0000 == f + 1);
            assert((0x80_0000 + f) * p < (0x80_0000 + f + 1) * p) by (nonlinear_arith)
                requires
                    p > 0,
            ;
        } else {
            assert((m + 1) / 0x80_0000 == e + 1 && (m + 1) % 0x80_0000 == 0);
            lemma_pow2_unfold(e as nat);
            assert((0x80_0000 + f) * p < 0x80_0000 * (2 * p)) by (nonlinear_arith)
                requires
                    p > 0,
                    f == 0x7f_ffff,
            ;
        }
    } else {
        lemma2_to64();
        if f + 1 < 0x80_0000 {
            assert((m + 1) / 0x80_0000 == 0 && (m + 1) % 0x80_0000 == f + 1);
        } else {
            assert((m + 1) / 0x80_0000 == 1 && (m + 1) % 0x80_0000 == 0);
        }
    }
}

proof fn lemma_size_ascends(a: int, b: int)
    requires
        0 <= a < b,
    ensures
        0 <= size_at(a) < size_at(b),
    decreases b - a,
{
    lemma_size_steps(a);
    if a + 1 < b {
        lemma_size_ascends(a + 1, b);
    }
}

proof fn lemma_size_at(bits: u32)
    ensures
        float_size(bits) == size_at(float_magnitude(bits)),
        not_a_number(bits) == is_nan(bits),
        size_at(0) == 0,
{
    let m = float_magnitude(bits);
    assert(m % 0x80_0000 == fraction_field(bits) && m / 0x80_0000 == exponent_field(bits));
}

/// Floats are ordered and told apart by the numbers that they stand for.
pub proof fn law_float_order(a: u32, b: u32)
    ensures
        ({
            let x = Value::FLOAT(FloatBits(a));
            let y = Value::FLOAT(FloatBits(b));
            &&& value_lt(x, y) == (!not_a_number(a) && (not_a_number(b) || float_number(a)
                < float_number(b)))
            &&& value_eq(x, y) == ((not_a_number(a) && not_a_number(b)) || (!not_a_number(a)
                && !not_a_number(b) && float_number(a) == float_number(b)))
        }),
{
    lemma_size_at(a);
    lemma_size_at(b);
    let m = float_magnitude(a);
    let n = float_magnitude(b);
    if m < n {
        lemma_size_ascends(m, n);
    }
    if n < m {
        lemma_size_ascends(n, m);
    }
    if 0 < m {
        lemma_size_ascends(0, m);
    }
    if 0 < n {
        lemma_size_ascends(0, n);
    }
}

/// Values of one type are ordered and told apart as the integers, truth values and times that they
/// hold, FALSE before TRUE. A value of one type is never equal to one of another, and BOOLEAN
/// comes before INT, INT before FLOAT and FLOAT before TIMESTAMP.
pub proof fn law_order_by_type(p: bool, q: bool, i: i32, j: i32, f: FloatBits, t: i64, u: i64)
    ensures
        value_lt(Value::BOOLEAN(p), Value::BOOLEAN(q)) == (!p && q),
        value_eq(Value::BOOLEAN(p), Value::BOOLEAN(q)) == (p == q),
        value_lt(Value::INT(i), Value::INT(j)) == (i < j),
        value_eq(Value::INT(i), Value::INT(j)) == (i == j),
        value_lt(Value::TIMESTAMP(t), Value::TIMESTAMP(u)) == (t < u),
        value_eq(Value::TIMESTAMP(t), Value::TIMESTAMP(u)) == (t == u),
        value_lt(Value::BOOLEAN(p), Value::INT(i)),
        value_lt(Value::INT(i), Value::FLOAT(f)),
        value_lt(Value::FLOAT(f), Value::TIMESTAMP(t)),
{
}

/// NULL comes before every value and is equal to NULL alone; else values are ordered as they are.
pub proof fn law_null_is_least(v: Value, w: Value)
    ensures
        option_lt(None, Some(v)),
        !option_lt(Some(v), None),
        !option_lt(None, None),
        option_eq(None, None),
        !option_eq(None, Some(v)),
        !option_eq(Some(v), None),
        option_lt(Some(v), Some(w)) == value_lt(v, w),
        option_eq(Some(v), Some(w)) == value_eq(v, w),
{
}

} // verus!
