//! What the parts of a statement mean once they are bound, told by names, digits and values.
use vstd::prelude::*;

use crate::ast::{
    expr_eq, operator_eq, BinaryOperator, Expr, Ident, Literal, NamePart, ObjectName, SqlDataType,
};
use crate::catalog::schema::{column_at, SchemaView};
use crate::catalog::value::{DataType, FloatBits, Value};
use crate::parser::laws::columns_countable;
use crate::parser::scope::{
    aggregate_named, alias_at, column_ref, found_name, has_name, name_pos, operator_of, resolved,
    type_of, ScopeView,
};
use crate::processor::expression::{binary, eval, Evaluated, Expression, FloatOp, Op};
use crate::processor::expression_laws::{
    is_integer_or_overflow, law_comparison_values, law_integer_arithmetic, rounds_to,
};
use crate::processor::plan::AggType;
use crate::text::{digits, is_word, law_digits_are_read_back, lemma_dot_is_no_digit};

verus! {

/// Column `c` of the table, the first of that name.
pub open spec fn names_column(t: ScopeView, name: Seq<char>, c: int) -> bool {
    &&& 0 <= c < t.schema.cols.len()
    &&& t.schema.cols[c].name@ == name
    &&& forall|k: int| 0 <= k < c ==> (#[trigger] t.schema.cols[k]).name@ != name
}

/// The table has no column of that name.
pub open spec fn lacks_column(t: ScopeView, name: Seq<char>) -> bool {
    forall|k: int| 0 <= k < t.schema.cols.len() ==> (#[trigger] t.schema.cols[k]).name@ != name
}

/// The expression refers to column `c` of the table.
pub open spec fn refers_to(x: Expression, t: ScopeView, c: int) -> bool {
    x matches Expression::Column { tuple_idx, col_idx, dtype } && tuple_idx == t.idx && col_idx == c
        && dtype == t.schema.cols[c].dtype
}

/// The table at `i` is the only one in scope that has a column of that name.
pub open spec fn only_table_with(scope: Seq<ScopeView>, name: Seq<char>, i: int) -> bool {
    &&& 0 <= i < scope.len()
    &&& !lacks_column(scope[i], name)
    &&& forall|k: int| 0 <= k < scope.len() && k != i ==> lacks_column(#[trigger] scope[k], name)
}

proof fn lemma_first_of_name(t: ScopeView, name: Seq<char>, n: int)
    requires
        0 <= n <= t.schema.cols.len(),
    ensures
        (exists|k: int| 0 <= k < n && (#[trigger] t.schema.cols[k]).name@ == name) ==> has_name(
            t,
            name,
        ),
    decreases n,
{
    if n > 0 {
        lemma_first_of_name(t, name, n - 1);
        if t.schema.cols[n - 1].name@ == name && !(exists|k: int|
            0 <= k < n - 1 && (#[trigger] t.schema.cols[k]).name@ == name) {
            assert(column_at(t.schema.cols, name, n - 1));
        }
    }
}

/// A table has a column of a name, or it lacks it; the reference is then to the first.
pub(crate) proof fn lemma_named(t: ScopeView, name: Seq<char>)
    ensures
        has_name(t, name) == !lacks_column(t, name),
        has_name(t, name) ==> names_column(t, name, name_pos(t, name)),
        has_name(t, name) && t.schema.cols.len() <= u32::MAX ==> refers_to(
            column_ref(t, name_pos(t, name)),
            t,
            name_pos(t, name),
        ),
{
    lemma_first_of_name(t, name, t.schema.cols.len() as int);
    if has_name(t, name) {
        let c = name_pos(t, name);
        assert(column_at(t.schema.cols, name, c));
    }
}

proof fn lemma_found(scope: Seq<ScopeView>, name: Seq<char>, n: int)
    requires
        0 <= n <= scope.len(),
        columns_countable(scope),
    ensures
        found_name(scope, name, n) matches Ok(None) <==> forall|k: int|
            0 <= k < n ==> lacks_column(#[trigger] scope[k], name),
        found_name(scope, name, n) matches Ok(Some(x)) ==> exists|i: int|
            0 <= i < n && !lacks_column(scope[i], name) && refers_to(
                x,
                #[trigger] scope[i],
                name_pos(scope[i], name),
            ) && forall|k: int|
                0 <= k < n && k != i ==> lacks_column(#[trigger] scope[k], name),
        found_name(scope, name, n) is Err ==> exists|i: int, k: int|
            0 <= i < k < n && !lacks_column(#[trigger] scope[i], name) && !lacks_column(
                #[trigger] scope[k],
                name,
            ),
    decreases n,
{
    if n > 0 {
        lemma_found(scope, name, n - 1);
        lemma_named(scope[n - 1], name);
        let before = found_name(scope, name, n - 1);
        if has_name(scope[n - 1], name) && before matches Ok(Some(x)) {
            let i = choose|i: int|
                0 <= i < n - 1 && !lacks_column(scope[i], name) && refers_to(
                    before->Ok_0->0,
                    #[trigger] scope[i],
                    name_pos(scope[i], name),
                );
            assert(!lacks_column(scope[i], name) && !lacks_column(scope[n - 1], name));
        }
    }
}

/// A bare name refers to the column of that name in the only table in scope that has one. It can
/// be resolved where there is one such table, and nowhere else.
pub proof fn law_bare_name(scope: Seq<ScopeView>, id: Ident, inside: bool)
    requires
        columns_countable(scope),
    ensures
        resolved(scope, Expr::Identifier(id), inside) is Ok <==> exists|i: int|
            only_table_with(scope, id.value@, i),
        resolved(scope, Expr::Identifier(id), inside) matches Ok(x) ==> exists|i: int, c: int|
            only_table_with(scope, id.value@, i) && #[trigger] names_column(
                scope[i],
                id.value@,
                c,
            ) && refers_to(x, scope[i], c),
{
    let name = id.value@;
    let n = scope.len() as int;
    lemma_found(scope, name, n);
    match found_name(scope, name, n) {
        Ok(Some(x)) => {
            let i = choose|i: int|
                0 <= i < n && !lacks_column(scope[i], name) && refers_to(
                    x,
                    #[trigger] scope[i],
                    name_pos(scope[i], name),
                ) && forall|k: int|
                    0 <= k < n && k != i ==> lacks_column(#[trigger] scope[k], name);
            lemma_named(scope[i], name);
            assert(only_table_with(scope, name, i));
            assert(names_column(scope[i], name, name_pos(scope[i], name)));
        },
        _ => {},
    }
}

/// A name with the name of a table refers to the column of that name in the first table in scope
/// that goes by the other. It can be resolved where there is such a column, and nowhere else.
pub proof fn law_qualified_name(scope: Seq<ScopeView>, e: Expr, inside: bool)
    requires
        columns_countable(scope),
        e matches Expr::CompoundIdentifier(parts) && parts@.len() == 2,
    ensures
        ({
            let (table, name) = (
                e->CompoundIdentifier_0@[0].value@,
                e->CompoundIdentifier_0@[1].value@,
            );
            &&& resolved(scope, e, inside) is Ok <==> exists|i: int|
                alias_at(scope, table, i) && !lacks_column(scope[i], name)
            &&& resolved(scope, e, inside) matches Ok(x) ==> exists|i: int, c: int|
                0 <= i < scope.len() && scope[i].alias == table && #[trigger] names_column(
                    scope[i],
                    name,
                    c,
                ) && refers_to(x, scope[i], c)
        }),
{
    let (table, name) = (e->CompoundIdentifier_0@[0].value@, e->CompoundIdentifier_0@[1].value@);
    if exists|i: int| alias_at(scope, table, i) {
        let i = choose|i: int| alias_at(scope, table, i);
        lemma_named(scope[i], name);
        assert forall|k: int| alias_at(scope, table, k) implies k == i by {
            assert(scope[k].alias == table && scope[i].alias == table);
        }
        if has_name(scope[i], name) {
            assert(names_column(scope[i], name, name_pos(scope[i], name)));
        }
    }
}

/// What a literal comes to: NULL, TRUE and FALSE to themselves, the digits of a number that 32 bits
/// can hold to that integer, and those of a larger one to the float that is written.
pub proof fn law_literals(
    fl: spec_fn(FloatOp, u32, u32) -> u32,
    scope: Seq<ScopeView>,
    v: Literal,
    inside: bool,
    data: Seq<u8>,
    s: SchemaView,
    n: nat,
)
    ensures
        v is Null ==> (resolved(scope, Expr::Value(v), inside) matches Ok(x) && eval(fl, x, data, s)
            == Ok::<Option<Value>, Seq<char>>(None)),
        v matches Literal::Boolean(b) ==> (resolved(scope, Expr::Value(v), inside) matches Ok(x)
            && eval(fl, x, data, s) == Ok::<Option<Value>, Seq<char>>(Some(Value::BOOLEAN(b)))),
        (v matches Literal::Number { text, long, float } && text@ == digits(n) && n <= i32::MAX)
            ==> (resolved(scope, Expr::Value(v), inside) matches Ok(x) && eval(fl, x, data, s)
            == Ok::<Option<Value>, Seq<char>>(Some(Value::INT(n as i32)))),
        (v matches Literal::Number { text, long, float } && text@ == digits(n) && n > i32::MAX
            && float is Some) ==> (resolved(scope, Expr::Value(v), inside) matches Ok(x) && eval(
            fl,
            x,
            data,
            s,
        ) == Ok::<Option<Value>, Seq<char>>(Some(Value::FLOAT(FloatBits(v->float->0))))),
        v is Other ==> resolved(scope, Expr::Value(v), inside) is Err,
{
    law_digits_are_read_back(n);
}

/// A number whose text is not that of an integer is the float that is written.
pub proof fn law_float_literal(
    fl: spec_fn(FloatOp, u32, u32) -> u32,
    scope: Seq<ScopeView>,
    v: Literal,
    inside: bool,
    data: Seq<u8>,
    s: SchemaView,
)
    requires
        v matches Literal::Number { text, long, float } && text@.contains('.'),
    ensures
        v->float matches Some(bits) ==> (resolved(scope, Expr::Value(v), inside) matches Ok(x)
            && eval(fl, x, data, s) == Ok::<Option<Value>, Seq<char>>(
            Some(Value::FLOAT(FloatBits(bits))),
        )),
        v->float is None ==> resolved(scope, Expr::Value(v), inside) is Err,
{
    lemma_dot_is_no_digit(v->text@);
}

/// What an operator gives on two integers, as it is written.
pub open spec fn on_integers(op: BinaryOperator, a: int, b: int, r: Evaluated) -> bool {
    match op {
        BinaryOperator::Plus => is_integer_or_overflow(r, a + b),
        BinaryOperator::Minus => is_integer_or_overflow(r, a - b),
        BinaryOperator::Multiply => is_integer_or_overflow(r, a * b),
        BinaryOperator::Divide => match r {
            Ok(Some(Value::INT(q))) => b != 0 && rounds_to(a, b, q as int),
            Ok(_) => false,
            Err(_) => b == 0 || (a == i32::MIN && b == -1),
        },
        BinaryOperator::Eq => r == truth_is(a == b),
        BinaryOperator::NotEq => r == truth_is(a != b),
        BinaryOperator::Lt => r == truth_is(a < b),
        BinaryOperator::Gt => r == truth_is(a > b),
        BinaryOperator::LtEq => r == truth_is(a <= b),
        BinaryOperator::GtEq => r == truth_is(a >= b),
        _ => r is Err,
    }
}

pub open spec fn truth_is(b: bool) -> Evaluated {
    Ok(Some(Value::BOOLEAN(b)))
}

/// An operation on two expressions that come to integers comes to what is written: the sum, the
/// difference, the product, the quotient, or whether they stand in that relation.
pub proof fn law_operators_on_integers(
    fl: spec_fn(FloatOp, u32, u32) -> u32,
    scope: Seq<ScopeView>,
    e: Expr,
    inside: bool,
    data: Seq<u8>,
    s: SchemaView,
    a: i32,
    b: i32,
)
    requires
        e is BinaryOp,
        !(e->op is Other),
        resolved(scope, *e->left, inside) matches Ok(x) && eval(fl, x, data, s) == Ok::<
            Option<Value>,
            Seq<char>,
        >(Some(Value::INT(a))),
        resolved(scope, *e->right, inside) matches Ok(x) && eval(fl, x, data, s) == Ok::<
            Option<Value>,
            Seq<char>,
        >(Some(Value::INT(b))),
    ensures
        resolved(scope, e, inside) matches Ok(x) && on_integers(
            e->op,
            a as int,
            b as int,
            eval(fl, x, data, s),
        ),
{
    law_integer_arithmetic(fl, a, b);
    law_comparison_values(fl, Op::Eq, a, b, 0, 0, false, false, 0, 0);
    law_comparison_values(fl, Op::NEq, a, b, 0, 0, false, false, 0, 0);
    law_comparison_values(fl, Op::Lt, a, b, 0, 0, false, false, 0, 0);
    law_comparison_values(fl, Op::Gt, a, b, 0, 0, false, false, 0, 0);
    law_comparison_values(fl, Op::Lte, a, b, 0, 0, false, false, 0, 0);
    law_comparison_values(fl, Op::Gte, a, b, 0, 0, false, false, 0, 0);
}

/// The operation by which an operator goes.
pub open spec fn stands_for(op: BinaryOperator, o: Op) -> bool {
    &&& op is Plus <==> o == Op::Add
    &&& op is Minus <==> o == Op::Sub
    &&& op is Multiply <==> o == Op::Mul
    &&& op is Divide <==> o == Op::Div
    &&& op is Eq <==> o == Op::Eq
    &&& op is NotEq <==> o == Op::NEq
    &&& op is Lt <==> o == Op::Lt
    &&& op is Gt <==> o == Op::Gt
    &&& op is LtEq <==> o == Op::Lte
    &&& op is GtEq <==> o == Op::Gte
    &&& op is And <==> o == Op::And
    &&& op is Or <==> o == Op::Or
}

/// An operation comes, on every row on which its operands have values, to the result of the
/// operation by which its operator goes, on the left value and the right one. It can be resolved
/// where its operator is known and its operands can be.
pub proof fn law_operators(
    fl: spec_fn(FloatOp, u32, u32) -> u32,
    scope: Seq<ScopeView>,
    e: Expr,
    inside: bool,
    data: Seq<u8>,
    s: SchemaView,
    o: Op,
)
    requires
        e is BinaryOp,
        !(e->op is Other) ==> stands_for(e->op, o),
    ensures
        resolved(scope, e, inside) is Ok <==> !(e->op is Other) && resolved(
            scope,
            *e->left,
            inside,
        ) is Ok && resolved(scope, *e->right, inside) is Ok,
        resolved(scope, e, inside) matches Ok(x) ==> {
            let l = eval(fl, resolved(scope, *e->left, inside)->Ok_0, data, s);
            let r = eval(fl, resolved(scope, *e->right, inside)->Ok_0, data, s);
            &&& l is Ok && r is Ok ==> eval(fl, x, data, s) == binary(fl, o, l->Ok_0, r->Ok_0)
            &&& l is Err || r is Err ==> eval(fl, x, data, s) is Err
        },
{
}

/// The brackets round an expression do not matter.
pub proof fn law_brackets(scope: Seq<ScopeView>, e: Expr, inside: bool)
    requires
        e is Nested,
    ensures
        resolved(scope, e, inside) == resolved(scope, *e->Nested_0, inside),
{
}

/// A letter or the same letter as a capital.
pub open spec fn is_letter(c: char, small: char, capital: char) -> bool {
    c == small || c == capital
}

/// The name of an aggregate, whatever the case of its letters.
pub open spec fn is_aggregate_name(s: Seq<char>, t: AggType) -> bool {
    match t {
        AggType::COUNT => s.len() == 5 && is_letter(s[0], 'c', 'C') && is_letter(s[1], 'o', 'O')
            && is_letter(s[2], 'u', 'U') && is_letter(s[3], 'n', 'N') && is_letter(s[4], 't', 'T'),
        AggType::SUM => s.len() == 3 && is_letter(s[0], 's', 'S') && is_letter(s[1], 'u', 'U')
            && is_letter(s[2], 'm', 'M'),
        AggType::AVG => s.len() == 3 && is_letter(s[0], 'a', 'A') && is_letter(s[1], 'v', 'V')
            && is_letter(s[2], 'g', 'G'),
        AggType::MIN => s.len() == 3 && is_letter(s[0], 'm', 'M') && is_letter(s[1], 'i', 'I')
            && is_letter(s[2], 'n', 'N'),
        AggType::MAX => s.len() == 3 && is_letter(s[0], 'm', 'M') && is_letter(s[1], 'a', 'A')
            && is_letter(s[2], 'x', 'X'),
        AggType::RANK => false,
    }
}

/// A function is the aggregate by whose name it is called, letter for letter in either case, and
/// none where it is called by another name.
pub proof fn law_aggregate_names(name: ObjectName, id: Ident, t: AggType)
    requires
        name.parts@.len() > 0,
        name.parts@[0] == NamePart::Identifier(id),
    ensures
        aggregate_named(name) == Some(t) <==> is_aggregate_name(id.value@, t),
{
    reveal_strlit("COUNT");
    reveal_strlit("count");
    reveal_strlit("SUM");
    reveal_strlit("sum");
    reveal_strlit("AVG");
    reveal_strlit("avg");
    reveal_strlit("MIN");
    reveal_strlit("min");
    reveal_strlit("MAX");
    reveal_strlit("max");
    let s = id.value@;
    assert(is_word(s, "COUNT"@, "count"@) == is_aggregate_name(s, AggType::COUNT)) by {
        if is_word(s, "COUNT"@, "count"@) {
            assert(s[0] == s[0] && s[1] == s[1] && s[2] == s[2] && s[3] == s[3] && s[4] == s[4]);
        }
    }
    assert(is_word(s, "SUM"@, "sum"@) == is_aggregate_name(s, AggType::SUM));
    assert(is_word(s, "AVG"@, "avg"@) == is_aggregate_name(s, AggType::AVG));
    assert(is_word(s, "MIN"@, "min"@) == is_aggregate_name(s, AggType::MIN));
    assert(is_word(s, "MAX"@, "max"@) == is_aggregate_name(s, AggType::MAX));
}

/// The types by their names.
pub proof fn law_type_names(t: SqlDataType, d: DataType)
    ensures
        type_of(t) == Ok::<DataType, Seq<char>>(d) <==> match d {
            DataType::INT => t is Int || t is Integer || t is Int4,
            DataType::FLOAT => t is Float || t is Float4 || t is Real,
            DataType::BOOLEAN => t is Bool || t is Boolean,
            DataType::TIMESTAMP => t is Timestamp,
        },
        type_of(t) is Err <==> t is Other,
{
}

/// Expressions are written alike where they are of one shape, with the same names, quotes,
/// operators and literals. Each is written like itself, and brackets count.
pub proof fn law_written_alike(a: Expr, b: Expr)
    ensures
        expr_eq(a, a),
        expr_eq(a, b) == expr_eq(b, a),
        a matches Expr::Identifier(x) ==> (b matches Expr::Identifier(y) ==> (expr_eq(a, b)
            <==> x.value@ == y.value@ && x.quote_style == y.quote_style)),
        a matches Expr::Nested(x) ==> (b matches Expr::Nested(y) ==> expr_eq(a, b) == expr_eq(
            *x,
            *y,
        )),
        a is BinaryOp && b is BinaryOp && !(a->op is Other) && !(b->op is Other) ==> (expr_eq(a, b)
            <==> expr_eq(*a->left, *b->left) && expr_eq(*a->right, *b->right) && same_operation(
            a->op,
            b->op,
        )),
        a is Value && b is Value && a->Value_0 is Boolean && b->Value_0 is Boolean ==> (expr_eq(a, b)
            <==> a->Value_0->Boolean_0 == b->Value_0->Boolean_0),
        a is Value && b is Value && a->Value_0 is Number && b->Value_0 is Number ==> (expr_eq(a, b)
            <==> a->Value_0->text@ == b->Value_0->text@ && a->Value_0->long == b->Value_0->long),
        a is Identifier != b is Identifier ==> !expr_eq(a, b),
        a is CompoundIdentifier != b is CompoundIdentifier ==> !expr_eq(a, b),
        a is Nested != b is Nested ==> !expr_eq(a, b),
        a is BinaryOp != b is BinaryOp ==> !expr_eq(a, b),
        a is Value != b is Value ==> !expr_eq(a, b),
        a is Function != b is Function ==> !expr_eq(a, b),
    decreases a,
{
    match (a, b) {
        (Expr::Nested(x), Expr::Nested(y)) => law_written_alike(*x, *y),
        (
            Expr::BinaryOp { left: l, op: o, right: r },
            Expr::BinaryOp { left: m, op: p, right: s },
        ) => {
            law_written_alike(*l, *m);
            law_written_alike(*r, *s);
            if !(o is Other) && !(p is Other) {
                lemma_same_operation(o, p);
            }
        },
        _ => {},
    }
    match a {
        Expr::Nested(x) => law_written_alike(*x, *x),
        Expr::BinaryOp { left: l, op: o, right: r } => {
            law_written_alike(*l, *l);
            law_written_alike(*r, *r);
        },
        _ => {},
    }
}

/// The operators go by one operation.
pub open spec fn same_operation(a: BinaryOperator, b: BinaryOperator) -> bool {
    exists|o: Op| #[trigger] stands_for(a, o) && stands_for(b, o)
}

proof fn lemma_same_operation(a: BinaryOperator, b: BinaryOperator)
    requires
        !(a is Other),
        !(b is Other),
    ensures
        operator_eq(a, b) <==> same_operation(a, b),
{
    let o = operator_of(a)->0;
    assert(stands_for(a, o));
    if operator_eq(a, b) {
        assert(stands_for(b, o));
    }
}

} // verus!
