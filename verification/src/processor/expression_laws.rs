//! What expressions come to, by the numbers and truth values of their operands.
use vstd::prelude::*;

use crate::catalog::order_laws::{float_number, law_float_order, law_order_by_type, not_a_number};
use crate::catalog::schema::SchemaView;
use crate::catalog::value::{FloatBits, Value};
use crate::processor::expression::{
    binary, eval, eval_join, quotient, result_type, Evaluated, Expression, FloatOp, Op,
};

verus! {

pub open spec fn size(n: int) -> int {
    if n < 0 {
        -n
    } else {
        n
    }
}

/// `n` divided by `d`, rounded toward zero, is `q`: what is left over is smaller than `d` and has
/// the sign of `n`.
pub open spec fn rounds_to(n: int, d: int, q: int) -> bool {
    let left = n - q * d;
    &&& n >= 0 ==> 0 <= left < size(d)
    &&& n <= 0 ==> -size(d) < left <= 0
}

/// The quotient is the rounded one.
pub proof fn law_quotient(n: int, d: int)
    requires
        d != 0,
    ensures
        rounds_to(n, d, quotient(n, d)),
{
    let (m, e) = (size(n), size(d));
    let q = m / e;
    assert(0 <= m - q * e < e) by (nonlinear_arith)
        requires
            e > 0,
            m >= 0,
            q == m / e,
    ;
    assert((-q) * d == -(q * d)) by (nonlinear_arith);
    assert(q * (-d) == -(q * d)) by (nonlinear_arith);
}

/// The integer, where 32 bits can hold it.
pub open spec fn is_integer_or_overflow(r: Evaluated, n: int) -> bool {
    if i32::MIN <= n <= i32::MAX {
        r matches Ok(Some(Value::INT(k))) && k == n
    } else {
        r is Err
    }
}

/// On integers the operations are those of mathematics: sum, difference, product and the quotient
/// rounded toward zero. They fail where 32 bits cannot hold the result and where the divisor is
/// zero, and nowhere else.
pub proof fn law_integer_arithmetic(fl: spec_fn(FloatOp, u32, u32) -> u32, x: i32, y: i32)
    ensures
        ({
            let (a, b) = (Some(Value::INT(x)), Some(Value::INT(y)));
            let ratio = binary(fl, Op::Div, a, b);
            &&& is_integer_or_overflow(binary(fl, Op::Add, a, b), x + y)
            &&& is_integer_or_overflow(binary(fl, Op::Sub, a, b), x - y)
            &&& is_integer_or_overflow(binary(fl, Op::Mul, a, b), x * y)
            &&& ratio is Err <==> y == 0 || (x == i32::MIN && y == -1)
            &&& ratio is Ok ==> (ratio matches Ok(Some(Value::INT(q))) && rounds_to(
                x as int,
                y as int,
                q as int,
            ))
        }),
{
    if y != 0 {
        law_quotient(x as int, y as int);
        let q = quotient(x as int, y as int);
        let (n, d) = (x as int, y as int);
        assert(-0x8000_0000 <= q <= 0x8000_0000 && (q == 0x8000_0000 <==> n == -0x8000_0000 && d
            == -1)) by (nonlinear_arith)
            requires
                rounds_to(n, d, q),
                d != 0,
                -0x8000_0000 <= n <= 0x7fff_ffff,
        ;
    }
}

pub open spec fn float_of(bits: u32) -> Evaluated {
    Ok(Some(Value::FLOAT(FloatBits(bits))))
}

/// On floats the operations are those that the caller computes, each with its operands in their
/// order, and never fail.
pub proof fn law_float_arithmetic(fl: spec_fn(FloatOp, u32, u32) -> u32, x: u32, y: u32)
    ensures
        ({
            let (a, b) = (Some(Value::FLOAT(FloatBits(x))), Some(Value::FLOAT(FloatBits(y))));
            &&& binary(fl, Op::Add, a, b) == float_of(fl(FloatOp::Add, x, y))
            &&& binary(fl, Op::Sub, a, b) == float_of(fl(FloatOp::Sub, x, y))
            &&& binary(fl, Op::Mul, a, b) == float_of(fl(FloatOp::Mul, x, y))
            &&& binary(fl, Op::Div, a, b) == float_of(fl(FloatOp::Div, x, y))
        }),
{
}

/// Arithmetic fails on values that are not two integers or two floats.
pub proof fn law_arithmetic_operands(
    fl: spec_fn(FloatOp, u32, u32) -> u32,
    op: Op,
    a: Value,
    b: Value,
)
    requires
        op == Op::Add || op == Op::Sub || op == Op::Mul || op == Op::Div,
        !(a is INT && b is INT),
        !(a is FLOAT && b is FLOAT),
    ensures
        binary(fl, op, Some(a), Some(b)) is Err,
{
}

/// The six comparisons of two numbers, as they are written.
pub open spec fn compared(op: Op, x: int, y: int) -> bool {
    match op {
        Op::Eq => x == y,
        Op::NEq => x != y,
        Op::Lt => x < y,
        Op::Gt => x > y,
        Op::Lte => x <= y,
        _ => x >= y,
    }
}

pub open spec fn is_comparison(op: Op) -> bool {
    op == Op::Eq || op == Op::NEq || op == Op::Lt || op == Op::Gt || op == Op::Lte || op == Op::Gte
}

/// A truth value as a number.
pub open spec fn truth(b: bool) -> int {
    if b {
        1
    } else {
        0
    }
}

/// Comparisons of two values of one type compare what they stand for: integers, times, truth
/// values with FALSE below TRUE, and the numbers of floats.
pub proof fn law_comparison_values(
    fl: spec_fn(FloatOp, u32, u32) -> u32,
    op: Op,
    i: i32,
    j: i32,
    t: i64,
    u: i64,
    p: bool,
    q: bool,
    x: u32,
    y: u32,
)
    requires
        is_comparison(op),
    ensures
        binary(fl, op, Some(Value::INT(i)), Some(Value::INT(j))) == Ok::<Option<Value>, Seq<char>>(
            Some(Value::BOOLEAN(compared(op, i as int, j as int))),
        ),
        binary(fl, op, Some(Value::TIMESTAMP(t)), Some(Value::TIMESTAMP(u))) == Ok::<
            Option<Value>,
            Seq<char>,
        >(Some(Value::BOOLEAN(compared(op, t as int, u as int)))),
        binary(fl, op, Some(Value::BOOLEAN(p)), Some(Value::BOOLEAN(q))) == Ok::<
            Option<Value>,
            Seq<char>,
        >(Some(Value::BOOLEAN(compared(op, truth(p), truth(q))))),
        !not_a_number(x) && !not_a_number(y) ==> binary(
            fl,
            op,
            Some(Value::FLOAT(FloatBits(x))),
            Some(Value::FLOAT(FloatBits(y))),
        ) == Ok::<Option<Value>, Seq<char>>(
            Some(Value::BOOLEAN(compared(op, float_number(x), float_number(y)))),
        ),
{
    law_float_order(x, y);
    law_float_order(y, x);
    law_order_by_type(p, q, i, j, FloatBits(x), t, u);
    law_order_by_type(q, p, j, i, FloatBits(y), u, t);
}

/// A NaN is compared as a number above all others, and as equal to a NaN.
pub proof fn law_nan_comparisons(
    fl: spec_fn(FloatOp, u32, u32) -> u32,
    op: Op,
    x: u32,
    y: u32,
)
    requires
        is_comparison(op),
        not_a_number(x) || not_a_number(y),
    ensures
        binary(fl, op, Some(Value::FLOAT(FloatBits(x))), Some(Value::FLOAT(FloatBits(y)))) == Ok::<
            Option<Value>,
            Seq<char>,
        >(
            Some(
                Value::BOOLEAN(compared(op, truth(not_a_number(x)), truth(not_a_number(y)))),
            ),
        ),
{
    law_float_order(x, y);
    law_float_order(y, x);
}

/// What an expression comes to on a row: a constant to itself, a column to the field that it names,
/// and an operation to its result on the values of its operands, or to the error of the first that
/// fails.
pub proof fn law_evaluation(
    fl: spec_fn(FloatOp, u32, u32) -> u32,
    e: Expression,
    data: Seq<u8>,
    s: SchemaView,
)
    ensures
        e matches Expression::Constant(v) ==> eval(fl, e, data, s) == Ok::<
            Option<Value>,
            Seq<char>,
        >(v),
        e matches Expression::Column { tuple_idx, col_idx, dtype } ==> {
            let field = match s.join_offset {
                Some(n) if tuple_idx == 1 => s.field(data, n + col_idx),
                _ => s.field(data, col_idx as int),
            };
            match field {
                Ok(v) => eval(fl, e, data, s) == Ok::<Option<Value>, Seq<char>>(v),
                Err(_) => eval(fl, e, data, s) is Err,
            }
        },
        e matches Expression::Binary { left, right, op } ==> {
            let (l, r) = (eval(fl, *left, data, s), eval(fl, *right, data, s));
            &&& l is Err ==> eval(fl, e, data, s) == l
            &&& l is Ok && r is Err ==> eval(fl, e, data, s) == r
            &&& l is Ok && r is Ok ==> eval(fl, e, data, s) == binary(fl, op, l->Ok_0, r->Ok_0)
        },
{
}

/// What an expression comes to on two rows: a constant to itself, a column to the field that it
/// names of the left or of the right row, and an operation to its result on the values of its
/// operands, or to the error of the first that fails.
pub proof fn law_join_evaluation(
    fl: spec_fn(FloatOp, u32, u32) -> u32,
    e: Expression,
    ldata: Seq<u8>,
    l: SchemaView,
    rdata: Seq<u8>,
    r: SchemaView,
)
    ensures
        e matches Expression::Constant(v) ==> eval_join(fl, e, ldata, l, rdata, r) == Ok::<
            Option<Value>,
            Seq<char>,
        >(v),
        e matches Expression::Column { tuple_idx, col_idx, dtype } ==> {
            let res = eval_join(fl, e, ldata, l, rdata, r);
            if tuple_idx > 1 {
                res is Err
            } else {
                let field = if tuple_idx == 0 {
                    l.field(ldata, col_idx as int)
                } else {
                    r.field(rdata, col_idx as int)
                };
                match field {
                    Ok(v) => res == Ok::<Option<Value>, Seq<char>>(v),
                    Err(_) => res is Err,
                }
            }
        },
        e matches Expression::Binary { left, right, op } ==> {
            let a = eval_join(fl, *left, ldata, l, rdata, r);
            let b = eval_join(fl, *right, ldata, l, rdata, r);
            let res = eval_join(fl, e, ldata, l, rdata, r);
            &&& a is Err ==> res == a
            &&& a is Ok && b is Err ==> res == b
            &&& a is Ok && b is Ok ==> res == binary(fl, op, a->Ok_0, b->Ok_0)
        },
{
}

/// The columns of the expression have the types that the schema says.
pub open spec fn columns_typed(e: Expression, s: SchemaView) -> bool
    decreases e,
{
    match e {
        Expression::Constant(_) => true,
        Expression::Column { tuple_idx, col_idx, dtype } => {
            let at = match s.join_offset {
                Some(n) if tuple_idx == 1 => n + col_idx,
                _ => col_idx as int,
            };
            at < s.cols.len() ==> s.cols[at].dtype == dtype
        },
        Expression::Binary { left, right, op } => columns_typed(*left, s) && columns_typed(
            *right,
            s,
        ),
    }
}

/// An expression that comes to a value has a type, and it is the type of that value.
pub proof fn law_result_type(
    fl: spec_fn(FloatOp, u32, u32) -> u32,
    e: Expression,
    data: Seq<u8>,
    s: SchemaView,
)
    requires
        columns_typed(e, s),
    ensures
        eval(fl, e, data, s) matches Ok(Some(v)) ==> result_type(e) == Some(v.dtype()),
    decreases e,
{
    match e {
        Expression::Binary { left, right, op } => {
            law_result_type(fl, *left, data, s);
            law_result_type(fl, *right, data, s);
        },
        _ => {},
    }
}

} // verus!
