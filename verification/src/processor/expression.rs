//! Expressions over the columns of a tuple, or of the two tuples of a join.
use vstd::prelude::*;

use crate::catalog::schema::{Schema, SchemaView};
use crate::catalog::value::{value_eq, value_lt, DataType, FloatBits, Value};
use crate::table_heap::Tuple;

verus! {

#[derive(Debug)]
pub struct ExecutorError(pub String);

/// The arithmetic operations on floats.
#[derive(Debug, Clone, Copy, PartialEq, Eq, Structural)]
pub enum FloatOp {
    Add,
    Sub,
    Mul,
    Div,
}

/// A function that computes on floats, given and returned as their bits, can be called on all
/// floats and has one result for each operation.
pub open spec fn computes<F: Fn(FloatOp, u32, u32) -> u32>(f: F) -> bool {
    &&& forall|op: FloatOp, a: u32, b: u32| #[trigger] call_requires(f, (op, a, b))
    &&& forall|op: FloatOp, a: u32, b: u32, x: u32, y: u32| #[trigger]
        call_ensures(f, (op, a, b), x) && #[trigger] call_ensures(f, (op, a, b), y) ==> x == y
}

/// The results of a function that computes on floats.
pub open spec fn results<F: Fn(FloatOp, u32, u32) -> u32>(f: F) -> spec_fn(FloatOp, u32, u32) -> u32 {
    |op: FloatOp, a: u32, b: u32| choose|x: u32| call_ensures(f, (op, a, b), x)
}

#[derive(Debug, Clone, Copy, PartialEq, Eq, Structural)]
pub enum Op {
    Add,
    Sub,
    Mul,
    Div,
    Eq,
    NEq,
    Lt,
    Gt,
    Lte,
    Gte,
    And,
    Or,
    Like,
    In,
}

#[derive(Debug)]
pub enum Expression {
    Constant(Option<Value>),
    Column {
        /// 0 or 1: the left or the right table of a join.
        tuple_idx: u8,
        col_idx: u32,
        dtype: DataType,
    },
    Binary { left: Box<Expression>, right: Box<Expression>, op: Op },
}

/// What an expression gives: a value or NULL, or the text of an error.
pub type Evaluated = Result<Option<Value>, Seq<char>>;

/// Integer division that rounds toward zero.
pub open spec fn quotient(a: int, b: int) -> int {
    let q = (if a < 0 { -a } else { a }) / (if b < 0 { -b } else { b });
    if (a < 0) == (b < 0) {
        q
    } else {
        -q
    }
}

pub open spec fn int_value(n: int) -> Evaluated {
    if i32::MIN <= n <= i32::MAX {
        Ok(Some(Value::INT(n as i32)))
    } else {
        Err("integer overflow"@)
    }
}

pub open spec fn float_value(bits: u32) -> Evaluated {
    Ok(Some(Value::FLOAT(FloatBits(bits))))
}

/// What an arithmetic operation gives on two values.
pub open spec fn arithmetic(
    fl: spec_fn(FloatOp, u32, u32) -> u32,
    op: FloatOp,
    a: Value,
    b: Value,
) -> Evaluated {
    match (a, b) {
        (Value::INT(x), Value::INT(y)) => match op {
            FloatOp::Add => int_value(x + y),
            FloatOp::Sub => int_value(x - y),
            FloatOp::Mul => int_value(x * y),
            FloatOp::Div => if y == 0 {
                Err("division by zero"@)
            } else {
                int_value(quotient(x as int, y as int))
            },
        },
        (Value::FLOAT(x), Value::FLOAT(y)) => float_value(fl(op, x.0, y.0)),
        _ => Err("type-checked at plan time"@),
    }
}

/// NULL where one of the operands is.
pub open spec fn arithmetic_or_null(
    fl: spec_fn(FloatOp, u32, u32) -> u32,
    op: FloatOp,
    l: Option<Value>,
    r: Option<Value>,
) -> Evaluated {
    match (l, r) {
        (Some(a), Some(b)) => arithmetic(fl, op, a, b),
        _ => Ok(None),
    }
}

pub open spec fn boolean(b: bool) -> Option<Value> {
    Some(Value::BOOLEAN(b))
}

/// What a comparison gives on two values.
pub open spec fn comparison(op: Op, a: Value, b: Value) -> bool {
    match op {
        Op::Eq => value_eq(a, b),
        Op::NEq => !value_eq(a, b),
        Op::Lt => value_lt(a, b),
        Op::Gt => value_lt(b, a),
        Op::Lte => !value_lt(b, a),
        _ => !value_lt(a, b),
    }
}

pub open spec fn comparison_or_null(op: Op, l: Option<Value>, r: Option<Value>) -> Evaluated {
    match (l, r) {
        (Some(a), Some(b)) => Ok(boolean(comparison(op, a, b))),
        _ => Ok(None),
    }
}

/// AND (`decisive` is false) and OR (`decisive` is true) of three-valued logic: one operand with
/// the decisive value decides, NULL leaves it open.
pub open spec fn connective(decisive: bool, l: Option<Value>, r: Option<Value>) -> Evaluated {
    if l == boolean(decisive) || r == boolean(decisive) {
        Ok(boolean(decisive))
    } else if l is None || r is None {
        Ok(None)
    } else if l == boolean(!decisive) && r == boolean(!decisive) {
        Ok(boolean(!decisive))
    } else {
        Err("type-checked at plan time"@)
    }
}

pub open spec fn binary(
    fl: spec_fn(FloatOp, u32, u32) -> u32,
    op: Op,
    l: Option<Value>,
    r: Option<Value>,
) -> Evaluated {
    match op {
        Op::Add => arithmetic_or_null(fl, FloatOp::Add, l, r),
        Op::Sub => arithmetic_or_null(fl, FloatOp::Sub, l, r),
        Op::Mul => arithmetic_or_null(fl, FloatOp::Mul, l, r),
        Op::Div => arithmetic_or_null(fl, FloatOp::Div, l, r),
        Op::And => connective(false, l, r),
        Op::Or => connective(true, l, r),
        Op::Like => Err("operator not supported"@),
        Op::In => Err("operator not supported"@),
        _ => comparison_or_null(op, l, r),
    }
}

/// A binary expression fails where its left operand does, else where its right one does.
pub open spec fn combine(
    fl: spec_fn(FloatOp, u32, u32) -> u32,
    op: Op,
    l: Evaluated,
    r: Evaluated,
) -> Evaluated {
    match (l, r) {
        (Err(e), _) => Err(e),
        (_, Err(e)) => Err(e),
        (Ok(a), Ok(b)) => binary(fl, op, a, b),
    }
}

pub open spec fn column_value(s: SchemaView, data: Seq<u8>, i: int) -> Evaluated {
    match s.field(data, i) {
        Ok(v) => Ok(v),
        Err(_) => Err("error when evaluating"@),
    }
}

/// Where a column of the left or the right table stands in a schema that may be that of a join.
pub open spec fn column_position(s: SchemaView, tuple_idx: u8, col_idx: u32) -> int {
    match s.join_offset {
        Some(n) => if tuple_idx == 1 {
            n + col_idx
        } else {
            col_idx as int
        },
        None => col_idx as int,
    }
}

/// The value of an expression on a tuple.
pub open spec fn eval(
    fl: spec_fn(FloatOp, u32, u32) -> u32,
    e: Expression,
    data: Seq<u8>,
    s: SchemaView,
) -> Evaluated
    decreases e,
{
    match e {
        Expression::Constant(v) => Ok(v),
        Expression::Column { tuple_idx, col_idx, dtype } => column_value(
            s,
            data,
            column_position(s, tuple_idx, col_idx),
        ),
        Expression::Binary { left, right, op } => combine(
            fl,
            op,
            eval(fl, *left, data, s),
            eval(fl, *right, data, s),
        ),
    }
}

/// The value of an expression on two tuples.
pub open spec fn eval_join(
    fl: spec_fn(FloatOp, u32, u32) -> u32,
    e: Expression,
    left_data: Seq<u8>,
    left_schema: SchemaView,
    right_data: Seq<u8>,
    right_schema: SchemaView,
) -> Evaluated
    decreases e,
{
    match e {
        Expression::Constant(v) => Ok(v),
        Expression::Column { tuple_idx, col_idx, dtype } => if tuple_idx == 0 {
            column_value(left_schema, left_data, col_idx as int)
        } else if tuple_idx == 1 {
            column_value(right_schema, right_data, col_idx as int)
        } else {
            Err("tuple_idx must be 0 or 1"@)
        },
        Expression::Binary { left, right, op } => combine(
            fl,
            op,
            eval_join(fl, *left, left_data, left_schema, right_data, right_schema),
            eval_join(fl, *right, left_data, left_schema, right_data, right_schema),
        ),
    }
}

/// A result stands for what the expression gives.
pub open spec fn gives(res: Result<Option<Value>, ExecutorError>, e: Evaluated) -> bool {
    match res {
        Ok(v) => e == Ok::<Option<Value>, Seq<char>>(v),
        Err(x) => e == Err::<Option<Value>, Seq<char>>(x.0@),
    }
}

pub fn failure(message: &str) -> (res: ExecutorError)
    ensures
        res.0@ == message@,
{
    ExecutorError(message.to_owned())
}

proof fn lemma_quotient_bound(a: int, b: int)
    requires
        b != 0,
        -0x8000_0000 <= a <= 0x7fff_ffff,
    ensures
        -0x8000_0000 <= quotient(a, b) <= 0x8000_0000,
{
    let x = if a < 0 { -a } else { a };
    let y = if b < 0 { -b } else { b };
    assert(0 <= x / y <= x) by (nonlinear_arith)
        requires
            0 <= x,
            0 < y,
    ;
}

/// A product of two 32 bit integers fits into 64 bits.
proof fn lemma_product_fits(x: i32, y: i32)
    ensures
        i64::MIN <= x * y <= i64::MAX,
{
    assert(-0x4000_0000_0000_0000 <= x * y <= 0x4000_0000_0000_0000) by (nonlinear_arith)
        requires
            -0x8000_0000 <= x <= 0x7fff_ffff,
            -0x8000_0000 <= y <= 0x7fff_ffff,
    ;
}

fn int_result(n: i64) -> (res: Result<Option<Value>, ExecutorError>)
    ensures
        gives(res, int_value(n as int)),
{
    if n < i32::MIN as i64 || n > i32::MAX as i64 {
        Err(failure("integer overflow"))
    } else {
        Ok(Some(Value::INT(n as i32)))
    }
}

fn divide(x: i32, y: i32) -> (res: Result<Option<Value>, ExecutorError>)
    requires
        y != 0,
    ensures
        gives(res, int_value(quotient(x as int, y as int))),
{
    let a: u64 = if x < 0 {
        (-(x as i64)) as u64
    } else {
        x as u64
    };
    let b: u64 = if y < 0 {
        (-(y as i64)) as u64
    } else {
        y as u64
    };
    let q: u64 = a / b;
    proof {
        lemma_quotient_bound(x as int, y as int);
    }
    if (x < 0) == (y < 0) {
        int_result(q as i64)
    } else {
        int_result(-(q as i64))
    }
}

impl Value {
    /// What an arithmetic operation gives on this value and another one.
    pub fn compute<F: Fn(FloatOp, u32, u32) -> u32>(&self, op: FloatOp, rhs: &Value, fl: &F) -> (res:
        Result<Option<Value>, ExecutorError>)
        requires
            computes(*fl),
        ensures
            gives(res, arithmetic(results(*fl), op, *self, *rhs)),
    {
        match (self, rhs) {
            (Value::INT(x), Value::INT(y)) => match op {
                FloatOp::Add => int_result(*x as i64 + *y as i64),
                FloatOp::Sub => int_result(*x as i64 - *y as i64),
                FloatOp::Mul => {
                    proof {
                        lemma_product_fits(*x, *y);
                    }
                    int_result(*x as i64 * *y as i64)
                },
                FloatOp::Div => if *y == 0 {
                    Err(failure("division by zero"))
                } else {
                    divide(*x, *y)
                },
            },
            (Value::FLOAT(x), Value::FLOAT(y)) => {
                let bits: u32 = fl(op, x.0, y.0);
                Ok(Some(Value::FLOAT(FloatBits(bits))))
            },
            _ => Err(failure("type-checked at plan time")),
        }
    }
}

fn compute_or_null<F: Fn(FloatOp, u32, u32) -> u32>(
    op: FloatOp,
    l: &Option<Value>,
    r: &Option<Value>,
    fl: &F,
) -> (res: Result<Option<Value>, ExecutorError>)
    requires
        computes(*fl),
    ensures
        gives(res, arithmetic_or_null(results(*fl), op, *l, *r)),
{
    match (l, r) {
        (Some(a), Some(b)) => a.compute(op, b, fl),
        _ => Ok(None),
    }
}

fn compare_or_null(op: Op, l: &Option<Value>, r: &Option<Value>) -> (res: Result<
    Option<Value>,
    ExecutorError,
>)
    ensures
        gives(res, comparison_or_null(op, *l, *r)),
{
    match (l, r) {
        (Some(a), Some(b)) => {
            let answer: bool = match op {
                Op::Eq => a.same(b),
                Op::NEq => !a.same(b),
                Op::Lt => a.is_before(b),
                Op::Gt => b.is_before(a),
                Op::Lte => !b.is_before(a),
                _ => !a.is_before(b),
            };
            Ok(Some(Value::BOOLEAN(answer)))
        },
        _ => Ok(None),
    }
}

fn is_boolean(v: &Option<Value>, b: bool) -> (res: bool)
    ensures
        res == (*v == boolean(b)),
{
    match v {
        Some(Value::BOOLEAN(x)) => *x == b,
        _ => false,
    }
}

fn connect(decisive: bool, l: &Option<Value>, r: &Option<Value>) -> (res: Result<
    Option<Value>,
    ExecutorError,
>)
    ensures
        gives(res, connective(decisive, *l, *r)),
{
    if is_boolean(l, decisive) || is_boolean(r, decisive) {
        Ok(Some(Value::BOOLEAN(decisive)))
    } else if l.is_none() || r.is_none() {
        Ok(None)
    } else if is_boolean(l, !decisive) && is_boolean(r, !decisive) {
        Ok(Some(Value::BOOLEAN(!decisive)))
    } else {
        Err(failure("type-checked at plan time"))
    }
}

/// Applies an operator. NULL propagates through arithmetic and comparisons; AND and OR follow
/// three-valued logic.
pub fn eval_binary<F: Fn(FloatOp, u32, u32) -> u32>(
    op: &Op,
    l: Option<Value>,
    r: Option<Value>,
    fl: &F,
) -> (res: Result<Option<Value>, ExecutorError>)
    requires
        computes(*fl),
    ensures
        gives(res, binary(results(*fl), *op, l, r)),
{
    match op {
        Op::Add => compute_or_null(FloatOp::Add, &l, &r, fl),
        Op::Sub => compute_or_null(FloatOp::Sub, &l, &r, fl),
        Op::Mul => compute_or_null(FloatOp::Mul, &l, &r, fl),
        Op::Div => compute_or_null(FloatOp::Div, &l, &r, fl),
        Op::And => connect(false, &l, &r),
        Op::Or => connect(true, &l, &r),
        Op::Like => Err(failure("operator not supported")),
        Op::In => Err(failure("operator not supported")),
        _ => compare_or_null(*op, &l, &r),
    }
}

fn read_column(schema: &Schema, tuple: &Tuple, i: usize) -> (res: Result<
    Option<Value>,
    ExecutorError,
>)
    ensures
        gives(res, column_value(schema@, tuple.data@, i as int)),
{
    match schema.get_value(tuple, i) {
        Ok(v) => Ok(v),
        Err(_) => Err(failure("error when evaluating")),
    }
}

/// The type that both operands of an operator agree on, or that one of them has.
pub open spec fn result_type(e: Expression) -> Option<DataType>
    decreases e,
{
    match e {
        Expression::Constant(Some(v)) => Some(v.dtype()),
        Expression::Constant(None) => None,
        Expression::Column { tuple_idx, col_idx, dtype } => Some(dtype),
        Expression::Binary { left, right, op } => match op {
            Op::Add | Op::Sub | Op::Mul | Op::Div => match result_type(*left) {
                Some(t) => Some(t),
                None => result_type(*right),
            },
            _ => Some(DataType::BOOLEAN),
        },
    }
}

impl Clone for Expression {
    fn clone(&self) -> (res: Self)
        ensures
            res == *self,
        decreases self,
    {
        match self {
            Expression::Constant(v) => Expression::Constant(*v),
            Expression::Column { tuple_idx, col_idx, dtype } => Expression::Column {
                tuple_idx: *tuple_idx,
                col_idx: *col_idx,
                dtype: *dtype,
            },
            Expression::Binary { left, right, op } => {
                let l: Expression = (**left).clone();
                let r: Expression = (**right).clone();
                Expression::Binary { left: Box::new(l), right: Box::new(r), op: *op }
            },
        }
    }
}

impl Expression {
    /// The type of the values that the expression gives; `None` where nothing in it has one.
    pub fn dtype(&self) -> (res: Option<DataType>)
        ensures
            res == result_type(*self),
        decreases self,
    {
        match self {
            Expression::Constant(Some(v)) => Some(v.data_type()),
            Expression::Constant(None) => None,
            Expression::Column { tuple_idx: _, col_idx: _, dtype } => Some(*dtype),
            Expression::Binary { left, right, op } => match op {
                Op::Add | Op::Sub | Op::Mul | Op::Div => match left.dtype() {
                    Some(t) => Some(t),
                    None => right.dtype(),
                },
                _ => Some(DataType::BOOLEAN),
            },
        }
    }

    /// Evaluates an expression against a single tuple.
    pub fn evaluate<F: Fn(FloatOp, u32, u32) -> u32>(
        &self,
        tuple: &Tuple,
        schema: &Schema,
        fl: &F,
    ) -> (res: Result<Option<Value>, ExecutorError>)
        requires
            computes(*fl),
        ensures
            gives(res, eval(results(*fl), *self, tuple.data@, schema@)),
        decreases self,
    {
        match self {
            Expression::Constant(v) => Ok(*v),
            Expression::Column { tuple_idx, col_idx, dtype: _ } => {
                let base: usize = match schema.join_offset {
                    Some(n) => if *tuple_idx == 1 {
                        n
                    } else {
                        0
                    },
                    None => 0,
                };
                match base.checked_add(*col_idx as usize) {
                    Some(i) => read_column(schema, tuple, i),
                    None => {
                        let _count: usize = schema.cols.len();
                        Err(failure("error when evaluating"))
                    },
                }
            },
            Expression::Binary { left, right, op } => {
                let l = match left.evaluate(tuple, schema, fl) {
                    Ok(v) => v,
                    Err(e) => { return Err(e); },
                };
                let r = match right.evaluate(tuple, schema, fl) {
                    Ok(v) => v,
                    Err(e) => { return Err(e); },
                };
                eval_binary(op, l, r, fl)
            },
        }
    }

    /// Evaluates an expression against two tuples.
    pub fn evaluate_join<F: Fn(FloatOp, u32, u32) -> u32>(
        &self,
        left_tuple: &Tuple,
        left_schema: &Schema,
        right_tuple: &Tuple,
        right_schema: &Schema,
        fl: &F,
    ) -> (res: Result<Option<Value>, ExecutorError>)
        requires
            computes(*fl),
        ensures
            gives(
                res,
                eval_join(
                    results(*fl),
                    *self,
                    left_tuple.data@,
                    left_schema@,
                    right_tuple.data@,
                    right_schema@,
                ),
            ),
        decreases self,
    {
        match self {
            Expression::Constant(v) => Ok(*v),
            Expression::Column { tuple_idx, col_idx, dtype: _ } => if *tuple_idx == 0 {
                read_column(left_schema, left_tuple, *col_idx as usize)
            } else if *tuple_idx == 1 {
                read_column(right_schema, right_tuple, *col_idx as usize)
            } else {
                Err(failure("tuple_idx must be 0 or 1"))
            },
            Expression::Binary { left, right, op } => {
                let l = match left.evaluate_join(
                    left_tuple,
                    left_schema,
                    right_tuple,
                    right_schema,
                    fl,
                ) {
                    Ok(v) => v,
                    Err(e) => { return Err(e); },
                };
                let r = match right.evaluate_join(
                    left_tuple,
                    left_schema,
                    right_tuple,
                    right_schema,
                    fl,
                ) {
                    Ok(v) => v,
                    Err(e) => { return Err(e); },
                };
                eval_binary(op, l, r, fl)
            },
        }
    }
}

} // verus!
