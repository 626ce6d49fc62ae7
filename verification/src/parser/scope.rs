//! Names in scope, and the expressions and clauses that use them.
use vstd::prelude::*;

use crate::ast::{
    expr_eq, BinaryOperator, Expr, Function, FunctionArg, FunctionArguments, Ident, JoinConstraint,
    JoinOperator, LimitClause, Literal, NamePart, ObjectName, SelectItem, SqlDataType, TableFactor,
    TableWithJoins,
};
use crate::catalog::registry::is_table_named;
use crate::catalog::schema::{column_at, same_text, Column, Schema, SchemaView};
use crate::catalog::value::{DataType, FloatBits, Value};
use crate::catalog::Catalog;
use crate::processor::expression::{result_type, Expression, Op};
use crate::processor::plan::{AggType, JoinType};
use crate::text::{
    is_word, joined, parse_signed, parse_unsigned, same_word, signed_of, unsigned_of,
};

verus! {

#[derive(Debug)]
pub struct BinderError(pub String);

pub type TableAlias = String;

pub type TableOid = u32;

pub type TupleIndex = u8;

/// A table that a statement speaks of.
pub struct TableScope {
    pub oid: TableOid,
    pub idx: TupleIndex,
    pub schema: Schema,
}

/// A table under the name that the statement gives it.
pub struct ScopeEntry {
    pub alias: TableAlias,
    pub table: TableScope,
}

/// Keeps track of the tables in scope and the aliases that the statement uses.
pub type Scope = Vec<ScopeEntry>;

#[verifier::ext_equal]
pub struct ScopeView {
    pub alias: Seq<char>,
    pub oid: u32,
    pub idx: u8,
    pub schema: SchemaView,
}

impl View for ScopeEntry {
    type V = ScopeView;

    open spec fn view(&self) -> ScopeView {
        ScopeView {
            alias: self.alias@,
            oid: self.table.oid,
            idx: self.table.idx,
            schema: self.table.schema@,
        }
    }
}

pub open spec fn scope_view(scope: Seq<ScopeEntry>) -> Seq<ScopeView> {
    Seq::new(scope.len(), |i: int| scope[i]@)
}

/// What resolving an expression gives, or the text of the error.
pub type Resolved = Result<Expression, Seq<char>>;

/// A result stands for what resolving gives.
pub open spec fn is_resolved(res: Result<Expression, BinderError>, r: Resolved) -> bool {
    match res {
        Ok(e) => r == Ok::<Expression, Seq<char>>(e),
        Err(x) => r == Err::<Expression, Seq<char>>(x.0@),
    }
}

pub(crate) fn refuse(message: &str) -> (res: BinderError)
    ensures
        res.0@ == message@,
{
    BinderError(message.to_owned())
}

pub(crate) fn refuse_with(message: &str, what: &str) -> (res: BinderError)
    ensures
        res.0@ == message@ + what@,
{
    BinderError(joined(message, what))
}

/// A message with a text in the middle.
fn refuse_about(before: &str, what: &str, after: &str) -> (res: BinderError)
    ensures
        res.0@ == before@ + what@ + after@,
{
    let mut s = joined(before, what);
    s.append(after);
    BinderError(s)
}

/// The reference to column `c` of a table in scope.
pub open spec fn column_ref(t: ScopeView, c: int) -> Expression {
    Expression::Column {
        tuple_idx: t.idx,
        col_idx: c as u32,
        dtype: t.schema.cols[c].dtype,
    }
}

pub open spec fn has_name(t: ScopeView, name: Seq<char>) -> bool {
    exists|c: int| column_at(t.schema.cols, name, c)
}

pub open spec fn name_pos(t: ScopeView, name: Seq<char>) -> int {
    choose|c: int| column_at(t.schema.cols, name, c)
}

/// What the first `n` tables in scope say of a column name: at most one of them may have it.
pub open spec fn found_name(scope: Seq<ScopeView>, name: Seq<char>, n: int) -> Result<
    Option<Expression>,
    Seq<char>,
>
    decreases n,
{
    if n <= 0 {
        Ok(None)
    } else {
        match found_name(scope, name, n - 1) {
            Err(e) => Err(e),
            Ok(found) => if !has_name(scope[n - 1], name) {
                Ok(found)
            } else if found is Some {
                Err("ambiguous column: "@ + name)
            } else {
                Ok(Some(column_ref(scope[n - 1], name_pos(scope[n - 1], name))))
            },
        }
    }
}

/// A column by its name alone.
pub open spec fn bare_column(scope: Seq<ScopeView>, name: Seq<char>) -> Resolved {
    match found_name(scope, name, scope.len() as int) {
        Err(e) => Err(e),
        Ok(Some(e)) => Ok(e),
        Ok(None) => Err("column not found: "@ + name),
    }
}

/// The table of an alias.
pub open spec fn alias_at(scope: Seq<ScopeView>, alias: Seq<char>, i: int) -> bool {
    &&& 0 <= i < scope.len()
    &&& scope[i].alias == alias
    &&& forall|k: int| 0 <= k < i ==> (#[trigger] scope[k]).alias != alias
}

/// A column by the names of its table and of itself.
pub open spec fn table_column(
    scope: Seq<ScopeView>,
    table: Seq<char>,
    name: Seq<char>,
) -> Resolved {
    if exists|i: int| alias_at(scope, table, i) {
        let t = scope[choose|i: int| alias_at(scope, table, i)];
        if has_name(t, name) {
            Ok(column_ref(t, name_pos(t, name)))
        } else {
            Err("column not found: "@ + name)
        }
    } else {
        Err("table not in scope: "@ + table)
    }
}

pub open spec fn compound_column(scope: Seq<ScopeView>, parts: Seq<Ident>) -> Resolved {
    if parts.len() == 2 {
        table_column(scope, parts[0].value@, parts[1].value@)
    } else {
        Err("only `table.column` references are supported"@)
    }
}

/// The operator of an expression; `None` for one that is not supported.
pub open spec fn operator_of(op: BinaryOperator) -> Option<Op> {
    match op {
        BinaryOperator::Plus => Some(Op::Add),
        BinaryOperator::Minus => Some(Op::Sub),
        BinaryOperator::Multiply => Some(Op::Mul),
        BinaryOperator::Divide => Some(Op::Div),
        BinaryOperator::Eq => Some(Op::Eq),
        BinaryOperator::NotEq => Some(Op::NEq),
        BinaryOperator::Lt => Some(Op::Lt),
        BinaryOperator::Gt => Some(Op::Gt),
        BinaryOperator::LtEq => Some(Op::Lte),
        BinaryOperator::GtEq => Some(Op::Gte),
        BinaryOperator::And => Some(Op::And),
        BinaryOperator::Or => Some(Op::Or),
        BinaryOperator::Other(_) => None,
    }
}

pub open spec fn unsupported_operator(op: BinaryOperator) -> Seq<char> {
    match op {
        BinaryOperator::Other(t) => "unsupported binary operator: "@ + t@,
        _ => Seq::empty(),
    }
}

/// A constant: an integer where the literal is one, else a float.
pub open spec fn constant_of(v: Literal) -> Resolved {
    match v {
        Literal::Null => Ok(Expression::Constant(None)),
        Literal::Boolean(b) => Ok(Expression::Constant(Some(Value::BOOLEAN(b)))),
        Literal::Number { text, long, float } => match signed_of(text@) {
            Some(i) => Ok(Expression::Constant(Some(Value::INT(i)))),
            None => match float {
                Some(bits) => Ok(Expression::Constant(Some(Value::FLOAT(FloatBits(bits))))),
                None => Err("invalid numeric literal: "@ + text@),
            },
        },
        Literal::Other(t) => Err("unsupported literal: "@ + t@),
    }
}

/// The aggregate that a name stands for, whatever the case of its letters.
pub open spec fn aggregate_named(name: ObjectName) -> Option<AggType> {
    if name.parts@.len() == 0 {
        None
    } else {
        match name.parts@[0] {
            NamePart::Identifier(id) => if is_word(id.value@, "COUNT"@, "count"@) {
                Some(AggType::COUNT)
            } else if is_word(id.value@, "SUM"@, "sum"@) {
                Some(AggType::SUM)
            } else if is_word(id.value@, "AVG"@, "avg"@) {
                Some(AggType::AVG)
            } else if is_word(id.value@, "MIN"@, "min"@) {
                Some(AggType::MIN)
            } else if is_word(id.value@, "MAX"@, "max"@) {
                Some(AggType::MAX)
            } else {
                None
            },
            NamePart::Function => None,
        }
    }
}

pub open spec fn binary_of(op: BinaryOperator, l: Resolved, r: Resolved) -> Resolved {
    match operator_of(op) {
        None => Err(unsupported_operator(op)),
        Some(o) => match (l, r) {
            (Err(e), _) => Err(e),
            (_, Err(e)) => Err(e),
            (Ok(a), Ok(b)) => Ok(
                Expression::Binary { left: Box::new(a), right: Box::new(b), op: o },
            ),
        },
    }
}

/// An expression outside of the projection of an aggregating SELECT. No aggregate may stand in
/// it; inside the argument of one, the error says so.
pub open spec fn resolved(scope: Seq<ScopeView>, e: Expr, inside: bool) -> Resolved
    decreases e,
{
    match e {
        Expr::Nested(inner) => resolved(scope, *inner, inside),
        Expr::Identifier(id) => bare_column(scope, id.value@),
        Expr::CompoundIdentifier(parts) => compound_column(scope, parts@),
        Expr::BinaryOp { left, op, right } => binary_of(
            op,
            resolved(scope, *left, inside),
            resolved(scope, *right, inside),
        ),
        Expr::Value(v) => constant_of(v),
        Expr::Function(f) => if aggregate_named(f.name) is Some {
            if inside {
                Err("nested aggregate functions are not allowed"@)
            } else {
                Err("aggregate functions are only allowed in a SELECT projection"@)
            }
        } else {
            Err("unsupported expression: "@ + f.text@)
        },
        Expr::Other(t) => Err("unsupported expression: "@ + t@),
    }
}

/// Bookkeeping accumulated while resolving an aggregating SELECT. Aggregates discovered inside
/// projection and ORDER BY expressions are appended here, and the expressions are rewritten to
/// refer to the aggregation's output columns: the group-bys, then the aggregates.
pub struct AggCtx<'a> {
    /// The GROUP BY expressions as they are written.
    pub group_by_exprs: &'a Vec<Expr>,
    /// The resolved GROUP BY expressions, evaluated against the child's schema.
    pub group_bys: Vec<Expression>,
    /// The aggregate function calls discovered so far.
    pub aggregates: Vec<(Expression, AggType)>,
}

#[verifier::ext_equal]
pub struct AggView {
    pub group_by_exprs: Seq<Expr>,
    pub group_bys: Seq<Expression>,
    pub aggregates: Seq<(Expression, AggType)>,
}

impl<'a> View for AggCtx<'a> {
    type V = AggView;

    open spec fn view(&self) -> AggView {
        AggView {
            group_by_exprs: self.group_by_exprs@,
            group_bys: self.group_bys@,
            aggregates: self.aggregates@,
        }
    }
}

/// The first GROUP BY expression, from `i` on, that is written like `e`.
pub open spec fn group_match(exprs: Seq<Expr>, e: Expr, i: int) -> Option<int>
    decreases exprs.len() - i,
{
    if i < 0 || i >= exprs.len() {
        None
    } else if expr_eq(exprs[i], e) {
        Some(i)
    } else {
        group_match(exprs, e, i + 1)
    }
}

/// What resolving gives together with the bookkeeping after it.
pub type Counted = Result<(Expression, AggView), Seq<char>>;

/// The resolved argument of an aggregate call.
pub open spec fn aggregate_argument(
    scope: Seq<ScopeView>,
    f: Function,
    agg: AggType,
) -> Resolved {
    match f.args {
        FunctionArguments::Other => Err(
            "aggregate `"@ + f.name.text@ + "` must be called with arguments"@,
        ),
        FunctionArguments::List(list) => if list.duplicate_treatment {
            Err("DISTINCT inside aggregate functions is not supported"@)
        } else if list.clauses {
            Err(
                "aggregate function clauses (ORDER BY / WITHIN GROUP / ...) are not supported"@,
            )
        } else if list.args@.len() != 1 {
            Err("aggregate `"@ + f.name.text@ + "` expects exactly one argument"@)
        } else {
            match list.args@[0] {
                FunctionArg::Named => Err(
                    "named arguments to aggregate functions are not supported"@,
                ),
                FunctionArg::QualifiedWildcard => Err(
                    "qualified wildcards in aggregates are not supported"@,
                ),
                FunctionArg::Wildcard => if agg == AggType::COUNT {
                    Ok(Expression::Constant(Some(Value::INT(1))))
                } else {
                    Err("`*` is only valid as an argument to COUNT, not "@ + f.name.text@)
                },
                FunctionArg::Expr(e) => resolved(scope, e, true),
            }
        },
    }
}

/// An aggregate call: a reference to the column that the aggregation adds for it. A COUNT is an
/// integer, all others have the type of their argument.
pub open spec fn counted_aggregate(
    scope: Seq<ScopeView>,
    ctx: AggView,
    f: Function,
    agg: AggType,
) -> Counted {
    match aggregate_argument(scope, f, agg) {
        Err(e) => Err(e),
        Ok(arg) => {
            let dtype = if agg == AggType::COUNT {
                Some(DataType::INT)
            } else {
                result_type(arg)
            };
            match dtype {
                None => Err(
                    "argument to aggregate `"@ + f.name.text@ + "` has no inferable type"@,
                ),
                Some(t) => Ok(
                    (
                        Expression::Column {
                            tuple_idx: 0,
                            col_idx: (ctx.group_bys.len() + ctx.aggregates.len()) as u32,
                            dtype: t,
                        },
                        AggView {
                            group_by_exprs: ctx.group_by_exprs,
                            group_bys: ctx.group_bys,
                            aggregates: ctx.aggregates.push((arg, agg)),
                        },
                    ),
                ),
            }
        },
    }
}

pub open spec fn must_be_grouped(name: Seq<char>) -> Seq<char> {
    "column `"@ + name
        + "` must appear in GROUP BY or be used inside an aggregate function"@
}

/// The parts of a name with dots between them.
pub open spec fn dotted(parts: Seq<Ident>, n: int) -> Seq<char>
    decreases n,
{
    if n <= 0 {
        Seq::empty()
    } else if n == 1 {
        parts[0].value@
    } else {
        dotted(parts, n - 1) + "."@ + parts[n - 1].value@
    }
}

/// The group-by rewrite: a reference to the column of a GROUP BY expression.
pub open spec fn group_ref(ctx: AggView, i: int) -> Counted {
    match result_type(ctx.group_bys[i]) {
        None => Err("GROUP BY expression has no inferable type"@),
        Some(t) => Ok(
            (Expression::Column { tuple_idx: 0, col_idx: i as u32, dtype: t }, ctx),
        ),
    }
}

/// An expression in the projection or the ORDER BY of an aggregating SELECT: what is written
/// like a GROUP BY expression refers to its column, aggregate calls refer to theirs, and no
/// other column may stand there.
pub open spec fn counted(scope: Seq<ScopeView>, ctx: AggView, e: Expr) -> Counted
    decreases e,
{
    match group_match(ctx.group_by_exprs, e, 0) {
        Some(i) => group_ref(ctx, i),
        None => match e {
            Expr::Nested(inner) => counted(scope, ctx, *inner),
            Expr::Identifier(id) => Err(must_be_grouped(id.value@)),
            Expr::CompoundIdentifier(parts) => Err(
                must_be_grouped(dotted(parts@, parts@.len() as int)),
            ),
            Expr::BinaryOp { left, op, right } => match operator_of(op) {
                None => Err(unsupported_operator(op)),
                Some(o) => match counted(scope, ctx, *left) {
                    Err(m) => Err(m),
                    Ok((l, after)) => match counted(scope, after, *right) {
                        Err(m) => Err(m),
                        Ok((r, last)) => Ok(
                            (
                                Expression::Binary {
                                    left: Box::new(l),
                                    right: Box::new(r),
                                    op: o,
                                },
                                last,
                            ),
                        ),
                    },
                },
            },
            Expr::Value(v) => match constant_of(v) {
                Ok(c) => Ok((c, ctx)),
                Err(m) => Err(m),
            },
            Expr::Function(f) => match aggregate_named(f.name) {
                Some(agg) => counted_aggregate(scope, ctx, *f, agg),
                None => Err("unsupported expression: "@ + f.text@),
            },
            Expr::Other(t) => Err("unsupported expression: "@ + t@),
        },
    }
}

fn find_name(t: &TableScope, name: &str) -> (res: Option<usize>)
    ensures
        match res {
            Some(c) => column_at(t.schema@.cols, name@, c as int),
            None => !exists|c: int| column_at(t.schema@.cols, name@, c),
        },
{
    t.schema.col_idx(name)
}

/// The first column of a name is the one that is meant.
pub proof fn lemma_first_column(cols: Seq<Column>, name: Seq<char>, a: int, b: int)
    requires
        column_at(cols, name, a),
        column_at(cols, name, b),
    ensures
        a == b,
{
    if a < b {
        assert(cols[a].name@ == name);
    } else if b < a {
        assert(cols[b].name@ == name);
    }
}

fn reference(t: &TableScope, c: usize, Ghost(v): Ghost<ScopeView>) -> (res: Expression)
    requires
        c < t.schema@.cols.len(),
        v.idx == t.idx,
        v.schema == t.schema@,
    ensures
        res == column_ref(v, c as int),
{
    Expression::Column { tuple_idx: t.idx, col_idx: c as u32, dtype: t.schema.cols[c].dtype }
}

proof fn lemma_found_fails(scope: Seq<ScopeView>, name: Seq<char>, m: int, n: int)
    requires
        0 <= m <= n,
        found_name(scope, name, m) is Err,
    ensures
        found_name(scope, name, n) == found_name(scope, name, m),
    decreases n,
{
    if m < n {
        lemma_found_fails(scope, name, m, n - 1);
    }
}

/// Resolves a column by its name alone.
fn resolve_identifier(scope: &Scope, name: &str) -> (res: Result<Expression, BinderError>)
    ensures
        is_resolved(res, bare_column(scope_view(scope@), name@)),
{
    let ghost view = scope_view(scope@);
    let mut found: Option<Expression> = None;
    let mut i: usize = 0;
    while i < scope.len()
        invariant
            i <= scope@.len(),
            view == scope_view(scope@),
            found_name(view, name@, i as int) == Ok::<Option<Expression>, Seq<char>>(found),
        decreases scope@.len() - i,
    {
        assert(view[i as int] == scope@[i as int]@);
        match find_name(&scope[i].table, name) {
            Some(c) => {
                proof {
                    assert(column_at(view[i as int].schema.cols, name@, c as int));
                    assert(has_name(view[i as int], name@));
                    lemma_first_column(
                        view[i as int].schema.cols,
                        name@,
                        c as int,
                        name_pos(view[i as int], name@),
                    );
                }
                if found.is_some() {
                    proof {
                        lemma_found_fails(view, name@, i as int + 1, view.len() as int);
                    }
                    return Err(refuse_with("ambiguous column: ", name));
                }
                found = Some(reference(&scope[i].table, c, Ghost(view[i as int])));
            },
            None => {
                assert(!has_name(view[i as int], name@));
            },
        }
        i += 1;
    }
    match found {
        Some(e) => Ok(e),
        None => Err(refuse_with("column not found: ", name)),
    }
}

/// Resolves a column by the names of its table and of itself.
fn resolve_compound(scope: &Scope, parts: &Vec<Ident>) -> (res: Result<Expression, BinderError>)
    ensures
        is_resolved(res, compound_column(scope_view(scope@), parts@)),
{
    if parts.len() != 2 {
        return Err(refuse("only `table.column` references are supported"));
    }
    let ghost view = scope_view(scope@);
    let table = parts[0].value.as_str();
    let name = parts[1].value.as_str();
    let mut i: usize = 0;
    while i < scope.len()
        invariant
            i <= scope@.len(),
            view == scope_view(scope@),
            parts@.len() == 2,
            table@ == parts@[0].value@,
            name@ == parts@[1].value@,
            forall|k: int| 0 <= k < i ==> (#[trigger] view[k]).alias != table@,
        decreases scope@.len() - i,
    {
        assert(view[i as int] == scope@[i as int]@);
        if same_text(scope[i].alias.as_str(), table) {
            let ghost v = view[i as int];
            proof {
                assert(alias_at(view, table@, i as int));
                let k = choose|k: int| alias_at(view, table@, k);
                assert(k == i) by {
                    if k < i {
                        assert(view[k].alias != table@);
                    } else if i < k {
                        assert(view[i as int].alias != table@);
                    }
                }
            }
            return match find_name(&scope[i].table, name) {
                Some(c) => {
                    proof {
                        assert(column_at(v.schema.cols, name@, c as int));
                        lemma_first_column(v.schema.cols, name@, c as int, name_pos(v, name@));
                    }
                    Ok(reference(&scope[i].table, c, Ghost(v)))
                },
                None => {
                    assert(!has_name(v, name@));
                    Err(refuse_with("column not found: ", name))
                },
            };
        }
        i += 1;
    }
    assert(!exists|k: int| alias_at(view, table@, k));
    Err(refuse_with("table not in scope: ", table))
}

fn resolve_operator(op: &BinaryOperator) -> (res: Result<Op, BinderError>)
    ensures
        match res {
            Ok(o) => operator_of(*op) == Some(o),
            Err(e) => operator_of(*op) is None && e.0@ == unsupported_operator(*op),
        },
{
    match op {
        BinaryOperator::Plus => Ok(Op::Add),
        BinaryOperator::Minus => Ok(Op::Sub),
        BinaryOperator::Multiply => Ok(Op::Mul),
        BinaryOperator::Divide => Ok(Op::Div),
        BinaryOperator::Eq => Ok(Op::Eq),
        BinaryOperator::NotEq => Ok(Op::NEq),
        BinaryOperator::Lt => Ok(Op::Lt),
        BinaryOperator::Gt => Ok(Op::Gt),
        BinaryOperator::LtEq => Ok(Op::Lte),
        BinaryOperator::GtEq => Ok(Op::Gte),
        BinaryOperator::And => Ok(Op::And),
        BinaryOperator::Or => Ok(Op::Or),
        BinaryOperator::Other(t) => Err(
            refuse_with("unsupported binary operator: ", t.as_str()),
        ),
    }
}

fn resolve_literal(v: &Literal) -> (res: Result<Expression, BinderError>)
    ensures
        is_resolved(res, constant_of(*v)),
{
    match v {
        Literal::Null => Ok(Expression::Constant(None)),
        Literal::Boolean(b) => Ok(Expression::Constant(Some(Value::BOOLEAN(*b)))),
        Literal::Number { text, long: _, float } => match parse_signed(text.as_str()) {
            Some(i) => Ok(Expression::Constant(Some(Value::INT(i)))),
            None => match float {
                Some(bits) => Ok(Expression::Constant(Some(Value::FLOAT(FloatBits(*bits))))),
                None => Err(refuse_with("invalid numeric literal: ", text.as_str())),
            },
        },
        Literal::Other(t) => Err(refuse_with("unsupported literal: ", t.as_str())),
    }
}

/// Maps a function name to an aggregate kind, case-insensitively.
/// Returns `None` for any non-aggregate function call.
fn parse_agg_type(name: &ObjectName) -> (res: Option<AggType>)
    ensures
        res == aggregate_named(*name),
{
    if name.parts.len() == 0 {
        return None;
    }
    match &name.parts[0] {
        NamePart::Identifier(id) => {
            let s = id.value.as_str();
            if same_word(s, "COUNT", "count") {
                Some(AggType::COUNT)
            } else if same_word(s, "SUM", "sum") {
                Some(AggType::SUM)
            } else if same_word(s, "AVG", "avg") {
                Some(AggType::AVG)
            } else if same_word(s, "MIN", "min") {
                Some(AggType::MIN)
            } else if same_word(s, "MAX", "max") {
                Some(AggType::MAX)
            } else {
                None
            }
        },
        NamePart::Function => None,
    }
}

/// Resolves an expression outside of the projection of an aggregating SELECT.
pub fn resolve_expr(expr: &Expr, scope: &Scope, inside_agg_arg: bool) -> (res: Result<
    Expression,
    BinderError,
>)
    ensures
        is_resolved(res, resolved(scope_view(scope@), *expr, inside_agg_arg)),
    decreases expr,
{
    match expr {
        Expr::Nested(inner) => resolve_expr(inner, scope, inside_agg_arg),
        Expr::Identifier(id) => resolve_identifier(scope, id.value.as_str()),
        Expr::CompoundIdentifier(parts) => resolve_compound(scope, parts),
        Expr::BinaryOp { left, op, right } => {
            let o = match resolve_operator(op) {
                Ok(o) => o,
                Err(e) => { return Err(e); },
            };
            let l = match resolve_expr(left, scope, inside_agg_arg) {
                Ok(l) => l,
                Err(e) => { return Err(e); },
            };
            let r = match resolve_expr(right, scope, inside_agg_arg) {
                Ok(r) => r,
                Err(e) => { return Err(e); },
            };
            Ok(Expression::Binary { left: Box::new(l), right: Box::new(r), op: o })
        },
        Expr::Value(v) => resolve_literal(v),
        Expr::Function(f) => if parse_agg_type(&f.name).is_some() {
            if inside_agg_arg {
                Err(refuse("nested aggregate functions are not allowed"))
            } else {
                Err(refuse("aggregate functions are only allowed in a SELECT projection"))
            }
        } else {
            Err(refuse_with("unsupported expression: ", f.text.as_str()))
        },
        Expr::Other(t) => Err(refuse_with("unsupported expression: ", t.as_str())),
    }
}

/// A result stands for what resolving gives, and the bookkeeping for what it left.
pub open spec fn is_counted(
    res: Result<Expression, BinderError>,
    after: AggView,
    r: Counted,
) -> bool {
    match res {
        Ok(e) => r == Ok::<(Expression, AggView), Seq<char>>((e, after)),
        Err(x) => r == Err::<(Expression, AggView), Seq<char>>(x.0@),
    }
}

fn find_group(exprs: &Vec<Expr>, e: &Expr) -> (res: Option<usize>)
    ensures
        match res {
            Some(i) => group_match(exprs@, *e, 0) == Some(i as int) && i < exprs@.len(),
            None => group_match(exprs@, *e, 0) is None,
        },
{
    let mut i: usize = 0;
    while i < exprs.len()
        invariant
            i <= exprs@.len(),
            group_match(exprs@, *e, 0) == group_match(exprs@, *e, i as int),
        decreases exprs@.len() - i,
    {
        if exprs[i].same(e) {
            return Some(i);
        }
        i += 1;
    }
    None
}

/// Resolves the argument of an aggregate call.
fn resolve_argument(f: &Function, scope: &Scope, agg_type: AggType) -> (res: Result<
    Expression,
    BinderError,
>)
    ensures
        is_resolved(res, aggregate_argument(scope_view(scope@), *f, agg_type)),
{
    let list = match &f.args {
        FunctionArguments::List(list) => list,
        FunctionArguments::Other => {
            return Err(
                refuse_about("aggregate `", f.name.text.as_str(), "` must be called with arguments"),
            );
        },
    };
    if list.duplicate_treatment {
        return Err(refuse("DISTINCT inside aggregate functions is not supported"));
    }
    if list.clauses {
        return Err(
            refuse(
                "aggregate function clauses (ORDER BY / WITHIN GROUP / ...) are not supported",
            ),
        );
    }
    if list.args.len() != 1 {
        return Err(
            refuse_about("aggregate `", f.name.text.as_str(), "` expects exactly one argument"),
        );
    }
    match &list.args[0] {
        FunctionArg::Named => Err(
            refuse("named arguments to aggregate functions are not supported"),
        ),
        FunctionArg::QualifiedWildcard => Err(
            refuse("qualified wildcards in aggregates are not supported"),
        ),
        FunctionArg::Wildcard => if agg_type == AggType::COUNT {
            Ok(Expression::Constant(Some(Value::INT(1))))
        } else {
            Err(
                refuse_with(
                    "`*` is only valid as an argument to COUNT, not ",
                    f.name.text.as_str(),
                ),
            )
        },
        FunctionArg::Expr(e) => resolve_expr(e, scope, true),
    }
}

/// Registers an aggregate function call discovered inside a projection or ORDER BY expression.
/// Returns a column reference into the aggregation's output.
fn register_aggregate(f: &Function, scope: &Scope, agg_type: AggType, ctx: &mut AggCtx) -> (res:
    Result<Expression, BinderError>)
    ensures
        is_counted(
            res,
            final(ctx)@,
            counted_aggregate(scope_view(scope@), old(ctx)@, *f, agg_type),
        ),
        final(ctx).group_by_exprs == old(ctx).group_by_exprs,
        final(ctx).group_bys@ == old(ctx).group_bys@,
{
    let arg = match resolve_argument(f, scope, agg_type) {
        Ok(a) => a,
        Err(e) => { return Err(e); },
    };
    let dtype = if agg_type == AggType::COUNT {
        Some(DataType::INT)
    } else {
        arg.dtype()
    };
    match dtype {
        None => Err(
            refuse_about(
                "argument to aggregate `",
                f.name.text.as_str(),
                "` has no inferable type",
            ),
        ),
        Some(t) => {
            let a: usize = ctx.group_bys.len();
            let b: usize = ctx.aggregates.len();
            let col_idx: u128 = a as u128 + b as u128;
            ctx.aggregates.push((arg, agg_type));
            Ok(Expression::Column { tuple_idx: 0, col_idx: col_idx as u32, dtype: t })
        },
    }
}

fn dotted_name(parts: &Vec<Ident>) -> (res: String)
    ensures
        res@ == dotted(parts@, parts@.len() as int),
{
    let mut s = String::new();
    let mut i: usize = 0;
    while i < parts.len()
        invariant
            i <= parts@.len(),
            s@ == dotted(parts@, i as int),
        decreases parts@.len() - i,
    {
        if i > 0 {
            s.append(".");
        }
        let ghost before = s@;
        s.append(parts[i].value.as_str());
        proof {
            if i == 0 {
                assert(s@ =~= parts@[0].value@);
            }
        }
        i += 1;
    }
    s
}

/// Resolves an expression in the projection or the ORDER BY of an aggregating SELECT.
fn resolve_counted(expr: &Expr, scope: &Scope, ctx: &mut AggCtx) -> (res: Result<
    Expression,
    BinderError,
>)
    requires
        old(ctx).group_by_exprs@.len() == old(ctx).group_bys@.len(),
    ensures
        is_counted(res, final(ctx)@, counted(scope_view(scope@), old(ctx)@, *expr)),
        final(ctx).group_by_exprs == old(ctx).group_by_exprs,
        final(ctx).group_bys@ == old(ctx).group_bys@,
    decreases expr,
{
    if let Some(i) = find_group(ctx.group_by_exprs, expr) {
        return match ctx.group_bys[i].dtype() {
            Some(t) => Ok(Expression::Column { tuple_idx: 0, col_idx: i as u32, dtype: t }),
            None => Err(refuse("GROUP BY expression has no inferable type")),
        };
    }
    match expr {
        Expr::Nested(inner) => resolve_counted(inner, scope, ctx),
        Expr::Identifier(id) => Err(
            refuse_about(
                "column `",
                id.value.as_str(),
                "` must appear in GROUP BY or be used inside an aggregate function",
            ),
        ),
        Expr::CompoundIdentifier(parts) => {
            let path = dotted_name(parts);
            Err(
                refuse_about(
                    "column `",
                    path.as_str(),
                    "` must appear in GROUP BY or be used inside an aggregate function",
                ),
            )
        },
        Expr::BinaryOp { left, op, right } => {
            let o = match resolve_operator(op) {
                Ok(o) => o,
                Err(e) => { return Err(e); },
            };
            let l = match resolve_counted(left, scope, ctx) {
                Ok(l) => l,
                Err(e) => { return Err(e); },
            };
            let r = match resolve_counted(right, scope, ctx) {
                Ok(r) => r,
                Err(e) => { return Err(e); },
            };
            Ok(Expression::Binary { left: Box::new(l), right: Box::new(r), op: o })
        },
        Expr::Value(v) => resolve_literal(v),
        Expr::Function(f) => match parse_agg_type(&f.name) {
            Some(agg_type) => register_aggregate(f, scope, agg_type, ctx),
            None => Err(refuse_with("unsupported expression: ", f.text.as_str())),
        },
        Expr::Other(t) => Err(refuse_with("unsupported expression: ", t.as_str())),
    }
}

/// The only part of a name.
pub open spec fn ident_of(name: ObjectName) -> Result<Seq<char>, Seq<char>> {
    if name.parts@.len() == 1 {
        match name.parts@[0] {
            NamePart::Identifier(id) => Ok(id.value@),
            NamePart::Function => Err("qualified name not supported: "@ + name.text@),
        }
    } else {
        Err("qualified name not supported: "@ + name.text@)
    }
}

pub(crate) fn ident_name(name: &ObjectName) -> (res: Result<String, BinderError>)
    ensures
        match res {
            Ok(s) => ident_of(*name) == Ok::<Seq<char>, Seq<char>>(s@),
            Err(e) => ident_of(*name) == Err::<Seq<char>, Seq<char>>(e.0@),
        },
{
    if name.parts.len() == 1 {
        if let NamePart::Identifier(id) = &name.parts[0] {
            return Ok(id.value.clone());
        }
    }
    Err(refuse_with("qualified name not supported: ", name.text.as_str()))
}

/// The table of a name, under an alias.
pub open spec fn table_under(
    c: &Catalog,
    name: Seq<char>,
    alias: Seq<char>,
    idx: u8,
) -> Result<ScopeView, Seq<char>> {
    if exists|i: int| is_table_named(c.tables@, name, i) {
        let entry = c.tables@[choose|i: int| is_table_named(c.tables@, name, i)];
        Ok(ScopeView { alias, oid: entry.oid, idx, schema: entry.info.schema@ })
    } else {
        Err("table not found: "@ + name)
    }
}

/// An entry stands for what binding a table gives.
pub open spec fn is_bound(
    res: Result<ScopeEntry, BinderError>,
    r: Result<ScopeView, Seq<char>>,
) -> bool {
    match res {
        Ok(t) => r == Ok::<ScopeView, Seq<char>>(t@),
        Err(e) => r == Err::<ScopeView, Seq<char>>(e.0@),
    }
}

/// A table of the FROM clause.
pub open spec fn table_of(c: &Catalog, tf: TableFactor, idx: u8) -> Result<ScopeView, Seq<char>> {
    match tf {
        TableFactor::Other => Err("FROM target must be a plain table"@),
        TableFactor::Table { name, alias } => match ident_of(name) {
            Err(e) => Err(e),
            Ok(n) => table_under(
                c,
                n,
                match alias {
                    Some(a) => a@,
                    None => n,
                },
                idx,
            ),
        },
    }
}

/// What a FROM clause brings into scope.
pub type FromView = (Seq<ScopeView>, Option<(JoinType, Expression)>);

/// The tables in scope once the right table of a join was added under its alias.
pub open spec fn both_tables(left: ScopeView, right: ScopeView) -> Seq<ScopeView> {
    if left.alias == right.alias {
        seq![right]
    } else {
        seq![left, right]
    }
}

pub open spec fn join_kind(op: JoinOperator) -> Option<(JoinType, JoinConstraint)> {
    match op {
        JoinOperator::Inner(c) => Some((JoinType::Inner, c)),
        JoinOperator::Join(c) => Some((JoinType::Inner, c)),
        JoinOperator::Left(c) => Some((JoinType::Left, c)),
        JoinOperator::LeftOuter(c) => Some((JoinType::Left, c)),
        JoinOperator::Other => None,
    }
}

pub open spec fn from_clause(c: &Catalog, from: Seq<TableWithJoins>) -> Result<
    FromView,
    Seq<char>,
> {
    if from.len() == 0 {
        Ok((Seq::empty(), None))
    } else if from.len() != 1 {
        Err("comma-separated FROM tables not supported"@)
    } else {
        match table_of(c, from[0].relation, 0) {
            Err(e) => Err(e),
            Ok(left) => if from[0].joins@.len() == 0 {
                Ok((seq![left], None))
            } else if from[0].joins@.len() != 1 {
                Err("only 2-way joins supported"@)
            } else {
                let j = from[0].joins@[0];
                match table_of(c, j.relation, 1) {
                    Err(e) => Err(e),
                    Ok(right) => {
                        let scope = both_tables(left, right);
                        match join_kind(j.join_operator) {
                            None => Err("unsupported join type"@),
                            Some((kind, JoinConstraint::Other)) => Err(
                                "only ON <expr> join constraints supported"@,
                            ),
                            Some((kind, JoinConstraint::On(e))) => match resolved(
                                scope,
                                e,
                                false,
                            ) {
                                Err(m) => Err(m),
                                Ok(predicate) => Ok((scope, Some((kind, predicate)))),
                            },
                        }
                    },
                }
            },
        }
    }
}

/// The first `n` expressions, resolved.
pub open spec fn resolved_list(scope: Seq<ScopeView>, exprs: Seq<Expr>, n: int) -> Result<
    Seq<Expression>,
    Seq<char>,
>
    decreases n,
{
    if n <= 0 {
        Ok(Seq::empty())
    } else {
        match resolved_list(scope, exprs, n - 1) {
            Err(e) => Err(e),
            Ok(before) => match resolved(scope, exprs[n - 1], false) {
                Err(e) => Err(e),
                Ok(x) => Ok(before.push(x)),
            },
        }
    }
}

pub open spec fn resolved_all(scope: Seq<ScopeView>, exprs: Seq<Expr>) -> Result<
    Seq<Expression>,
    Seq<char>,
> {
    resolved_list(scope, exprs, exprs.len() as int)
}

proof fn lemma_list_fails(scope: Seq<ScopeView>, exprs: Seq<Expr>, m: int, n: int)
    requires
        0 <= m <= n,
        resolved_list(scope, exprs, m) is Err,
    ensures
        resolved_list(scope, exprs, n) == resolved_list(scope, exprs, m),
    decreases n,
{
    if m < n {
        lemma_list_fails(scope, exprs, m, n - 1);
    }
}

/// A vector stands for a list of resolved expressions.
pub open spec fn is_list(
    res: Result<Vec<Expression>, BinderError>,
    r: Result<Seq<Expression>, Seq<char>>,
) -> bool {
    match res {
        Ok(v) => r == Ok::<Seq<Expression>, Seq<char>>(v@),
        Err(e) => r == Err::<Seq<Expression>, Seq<char>>(e.0@),
    }
}

pub(crate) fn resolve_list(exprs: &Vec<Expr>, scope: &Scope) -> (res: Result<Vec<Expression>, BinderError>)
    ensures
        is_list(res, resolved_all(scope_view(scope@), exprs@)),
{
    let ghost view = scope_view(scope@);
    let mut out: Vec<Expression> = Vec::new();
    let mut i: usize = 0;
    while i < exprs.len()
        invariant
            i <= exprs@.len(),
            view == scope_view(scope@),
            resolved_list(view, exprs@, i as int) == Ok::<Seq<Expression>, Seq<char>>(out@),
        decreases exprs@.len() - i,
    {
        match resolve_expr(&exprs[i], scope, false) {
            Ok(e) => out.push(e),
            Err(e) => {
                proof {
                    lemma_list_fails(view, exprs@, i as int + 1, exprs@.len() as int);
                }
                return Err(e);
            },
        }
        i += 1;
    }
    Ok(out)
}

/// The resolved rows of a VALUES clause.
pub open spec fn resolved_rows(scope: Seq<ScopeView>, rows: Seq<Vec<Expr>>, n: int) -> Result<
    Seq<Seq<Expression>>,
    Seq<char>,
>
    decreases n,
{
    if n <= 0 {
        Ok(Seq::empty())
    } else {
        match resolved_rows(scope, rows, n - 1) {
            Err(e) => Err(e),
            Ok(before) => match resolved_all(scope, rows[n - 1]@) {
                Err(e) => Err(e),
                Ok(row) => Ok(before.push(row)),
            },
        }
    }
}

proof fn lemma_rows_fail(scope: Seq<ScopeView>, rows: Seq<Vec<Expr>>, m: int, n: int)
    requires
        0 <= m <= n,
        resolved_rows(scope, rows, m) is Err,
    ensures
        resolved_rows(scope, rows, n) == resolved_rows(scope, rows, m),
    decreases n,
{
    if m < n {
        lemma_rows_fail(scope, rows, m, n - 1);
    }
}

pub open spec fn row_views(rows: Seq<Vec<Expression>>) -> Seq<Seq<Expression>> {
    Seq::new(rows.len(), |i: int| rows[i]@)
}

pub(crate) fn resolve_rows(rows: &Vec<Vec<Expr>>, scope: &Scope) -> (res: Result<
    Vec<Vec<Expression>>,
    BinderError,
>)
    ensures
        ({
            let r = resolved_rows(scope_view(scope@), rows@, rows@.len() as int);
            match res {
                Ok(v) => r == Ok::<Seq<Seq<Expression>>, Seq<char>>(row_views(v@)),
                Err(e) => r == Err::<Seq<Seq<Expression>>, Seq<char>>(e.0@),
            }
        }),
{
    let ghost view = scope_view(scope@);
    let mut out: Vec<Vec<Expression>> = Vec::new();
    let mut i: usize = 0;
    assert(row_views(out@) =~= Seq::empty());
    while i < rows.len()
        invariant
            i <= rows@.len(),
            view == scope_view(scope@),
            resolved_rows(view, rows@, i as int) == Ok::<Seq<Seq<Expression>>, Seq<char>>(
                row_views(out@),
            ),
        decreases rows@.len() - i,
    {
        match resolve_list(&rows[i], scope) {
            Ok(row) => {
                let ghost before = row_views(out@);
                let ghost r = row@;
                out.push(row);
                assert(row_views(out@) =~= before.push(r));
            },
            Err(e) => {
                proof {
                    lemma_rows_fail(view, rows@, i as int + 1, rows@.len() as int);
                }
                return Err(e);
            },
        }
        i += 1;
    }
    Ok(out)
}

/// An expression where the SELECT may or may not aggregate.
pub open spec fn in_select(scope: Seq<ScopeView>, ctx: Option<AggView>, e: Expr) -> Result<
    (Expression, Option<AggView>),
    Seq<char>,
> {
    match ctx {
        Some(v) => match counted(scope, v, e) {
            Ok((x, after)) => Ok((x, Some(after))),
            Err(m) => Err(m),
        },
        None => match resolved(scope, e, false) {
            Ok(x) => Ok((x, None)),
            Err(m) => Err(m),
        },
    }
}

/// The columns of a table, as a wildcard names them.
pub open spec fn table_columns(t: ScopeView) -> Seq<Expression> {
    Seq::new(t.schema.cols.len(), |c: int| column_ref(t, c))
}

/// The columns of the first `n` tables in scope.
pub open spec fn all_columns(scope: Seq<ScopeView>, n: int) -> Seq<Expression>
    decreases n,
{
    if n <= 0 {
        Seq::empty()
    } else {
        all_columns(scope, n - 1) + table_columns(scope[n - 1])
    }
}

/// What an item of the projection gives.
pub open spec fn projected_item(
    scope: Seq<ScopeView>,
    ctx: Option<AggView>,
    item: SelectItem,
) -> Result<(Seq<Expression>, Option<AggView>), Seq<char>> {
    match item {
        SelectItem::UnnamedExpr(e) => match in_select(scope, ctx, e) {
            Err(m) => Err(m),
            Ok((x, after)) => if result_type(x) is None {
                Err("bare NULL not allowed in SELECT projection"@)
            } else {
                Ok((seq![x], after))
            },
        },
        SelectItem::Wildcard => Ok((all_columns(scope, scope.len() as int), ctx)),
        _ => Err("unsupported select item"@),
    }
}

/// What the first `n` items of the projection give.
pub open spec fn projected(
    scope: Seq<ScopeView>,
    ctx: Option<AggView>,
    items: Seq<SelectItem>,
    n: int,
) -> Result<(Seq<Expression>, Option<AggView>), Seq<char>>
    decreases n,
{
    if n <= 0 {
        Ok((Seq::empty(), ctx))
    } else {
        match projected(scope, ctx, items, n - 1) {
            Err(m) => Err(m),
            Ok((before, mid)) => match projected_item(scope, mid, items[n - 1]) {
                Err(m) => Err(m),
                Ok((xs, after)) => Ok((before + xs, after)),
            },
        }
    }
}

proof fn lemma_projected_fails(
    scope: Seq<ScopeView>,
    ctx: Option<AggView>,
    items: Seq<SelectItem>,
    m: int,
    n: int,
)
    requires
        0 <= m <= n,
        projected(scope, ctx, items, m) is Err,
    ensures
        projected(scope, ctx, items, n) == projected(scope, ctx, items, m),
    decreases n,
{
    if m < n {
        lemma_projected_fails(scope, ctx, items, m, n - 1);
    }
}

/// What the first `n` ORDER BY expressions give.
pub open spec fn ordered(
    scope: Seq<ScopeView>,
    ctx: Option<AggView>,
    exprs: Seq<Expr>,
    n: int,
) -> Result<(Seq<Expression>, Option<AggView>), Seq<char>>
    decreases n,
{
    if n <= 0 {
        Ok((Seq::empty(), ctx))
    } else {
        match ordered(scope, ctx, exprs, n - 1) {
            Err(m) => Err(m),
            Ok((before, mid)) => match in_select(scope, mid, exprs[n - 1]) {
                Err(m) => Err(m),
                Ok((x, after)) => Ok((before.push(x), after)),
            },
        }
    }
}

proof fn lemma_ordered_fails(
    scope: Seq<ScopeView>,
    ctx: Option<AggView>,
    exprs: Seq<Expr>,
    m: int,
    n: int,
)
    requires
        0 <= m <= n,
        ordered(scope, ctx, exprs, m) is Err,
    ensures
        ordered(scope, ctx, exprs, n) == ordered(scope, ctx, exprs, m),
    decreases n,
{
    if m < n {
        lemma_ordered_fails(scope, ctx, exprs, m, n - 1);
    }
}

pub open spec fn ctx_view<'a>(ctx: Option<AggCtx<'a>>) -> Option<AggView> {
    match ctx {
        Some(c) => Some(c@),
        None => None,
    }
}

/// The bookkeeping has a resolved expression for each GROUP BY expression.
pub open spec fn ctx_ok<'a>(ctx: Option<AggCtx<'a>>) -> bool {
    ctx matches Some(c) ==> c.group_by_exprs@.len() == c.group_bys@.len()
}

/// What stays as it is while expressions are resolved.
pub open spec fn same_groups<'a>(a: Option<AggCtx<'a>>, b: Option<AggCtx<'a>>) -> bool {
    match (a, b) {
        (Some(x), Some(y)) => x.group_by_exprs == y.group_by_exprs && x.group_bys@ == y.group_bys@,
        (None, None) => true,
        _ => false,
    }
}

fn resolve_in_select<'a>(expr: &Expr, scope: &Scope, ctx: &mut Option<AggCtx<'a>>) -> (res: Result<
    Expression,
    BinderError,
>)
    requires
        ctx_ok(*old(ctx)),
    ensures
        ctx_ok(*final(ctx)),
        same_groups(*old(ctx), *final(ctx)),
        ({
            let r = in_select(scope_view(scope@), ctx_view(*old(ctx)), *expr);
            match res {
                Ok(e) => r == Ok::<(Expression, Option<AggView>), Seq<char>>(
                    (e, ctx_view(*final(ctx))),
                ),
                Err(x) => r == Err::<(Expression, Option<AggView>), Seq<char>>(x.0@),
            }
        }),
{
    match ctx.take() {
        Some(mut c) => {
            let res = resolve_counted(expr, scope, &mut c);
            *ctx = Some(c);
            res
        },
        None => resolve_expr(expr, scope, false),
    }
}

/// Appends the columns of all tables in scope.
fn push_columns(scope: &Scope, out: &mut Vec<Expression>)
    ensures
        final(out)@ == old(out)@ + all_columns(scope_view(scope@), scope@.len() as int),
{
    let ghost view = scope_view(scope@);
    let mut i: usize = 0;
    assert(out@ =~= old(out)@ + all_columns(view, 0));
    while i < scope.len()
        invariant
            i <= scope@.len(),
            view == scope_view(scope@),
            out@ == old(out)@ + all_columns(view, i as int),
        decreases scope@.len() - i,
    {
        let ghost t = view[i as int];
        let ghost before = out@;
        let mut c: usize = 0;
        assert(t == scope@[i as int]@);
        assert(out@ =~= before + table_columns(t).subrange(0, 0));
        while c < scope[i].table.schema.cols.len()
            invariant
                i < scope@.len(),
                t == scope@[i as int]@,
                c <= t.schema.cols.len(),
                out@ == before + table_columns(t).subrange(0, c as int),
            decreases t.schema.cols.len() - c,
        {
            out.push(reference(&scope[i].table, c, Ghost(t)));
            c += 1;
            assert(out@ =~= before + table_columns(t).subrange(0, c as int));
        }
        proof {
            assert(table_columns(t).subrange(0, c as int) =~= table_columns(t));
            assert(out@ =~= old(out)@ + all_columns(view, i + 1));
        }
        i += 1;
    }
}

pub(crate) fn resolve_projections<'a>(
    items: &Vec<SelectItem>,
    scope: &Scope,
    ctx: &mut Option<AggCtx<'a>>,
) -> (res: Result<Vec<Expression>, BinderError>)
    requires
        ctx_ok(*old(ctx)),
    ensures
        ctx_ok(*final(ctx)),
        same_groups(*old(ctx), *final(ctx)),
        ({
            let r = projected(
                scope_view(scope@),
                ctx_view(*old(ctx)),
                items@,
                items@.len() as int,
            );
            match res {
                Ok(v) => r == Ok::<(Seq<Expression>, Option<AggView>), Seq<char>>(
                    (v@, ctx_view(*final(ctx))),
                ),
                Err(e) => r == Err::<(Seq<Expression>, Option<AggView>), Seq<char>>(e.0@),
            }
        }),
{
    let ghost view = scope_view(scope@);
    let ghost start = ctx_view(*ctx);
    let mut out: Vec<Expression> = Vec::new();
    let mut i: usize = 0;
    while i < items.len()
        invariant
            i <= items@.len(),
            view == scope_view(scope@),
            start == ctx_view(*old(ctx)),
            ctx_ok(*ctx),
            same_groups(*old(ctx), *ctx),
            projected(view, start, items@, i as int) == Ok::<
                (Seq<Expression>, Option<AggView>),
                Seq<char>,
            >((out@, ctx_view(*ctx))),
        decreases items@.len() - i,
    {
        let ghost before = out@;
        match &items[i] {
            SelectItem::UnnamedExpr(e) => match resolve_in_select(e, scope, ctx) {
                Ok(x) => {
                    if x.dtype().is_none() {
                        proof {
                            lemma_projected_fails(
                                view,
                                start,
                                items@,
                                i as int + 1,
                                items@.len() as int,
                            );
                        }
                        return Err(refuse("bare NULL not allowed in SELECT projection"));
                    }
                    let ghost given = x;
                    out.push(x);
                    assert(out@ =~= before + seq![given]);
                },
                Err(e) => {
                    proof {
                        lemma_projected_fails(
                            view,
                            start,
                            items@,
                            i as int + 1,
                            items@.len() as int,
                        );
                    }
                    return Err(e);
                },
            },
            SelectItem::Wildcard => {
                push_columns(scope, &mut out);
            },
            _ => {
                proof {
                    lemma_projected_fails(
                        view,
                        start,
                        items@,
                        i as int + 1,
                        items@.len() as int,
                    );
                }
                return Err(refuse("unsupported select item"));
            },
        }
        i += 1;
    }
    Ok(out)
}

pub(crate) fn resolve_order<'a>(exprs: &Vec<Expr>, scope: &Scope, ctx: &mut Option<AggCtx<'a>>) -> (res:
    Result<Vec<Expression>, BinderError>)
    requires
        ctx_ok(*old(ctx)),
    ensures
        ctx_ok(*final(ctx)),
        same_groups(*old(ctx), *final(ctx)),
        ({
            let r = ordered(
                scope_view(scope@),
                ctx_view(*old(ctx)),
                exprs@,
                exprs@.len() as int,
            );
            match res {
                Ok(v) => r == Ok::<(Seq<Expression>, Option<AggView>), Seq<char>>(
                    (v@, ctx_view(*final(ctx))),
                ),
                Err(e) => r == Err::<(Seq<Expression>, Option<AggView>), Seq<char>>(e.0@),
            }
        }),
{
    let ghost view = scope_view(scope@);
    let ghost start = ctx_view(*ctx);
    let mut out: Vec<Expression> = Vec::new();
    let mut i: usize = 0;
    while i < exprs.len()
        invariant
            i <= exprs@.len(),
            view == scope_view(scope@),
            start == ctx_view(*old(ctx)),
            ctx_ok(*ctx),
            same_groups(*old(ctx), *ctx),
            ordered(view, start, exprs@, i as int) == Ok::<
                (Seq<Expression>, Option<AggView>),
                Seq<char>,
            >((out@, ctx_view(*ctx))),
        decreases exprs@.len() - i,
    {
        match resolve_in_select(&exprs[i], scope, ctx) {
            Ok(x) => out.push(x),
            Err(e) => {
                proof {
                    lemma_ordered_fails(
                        view,
                        start,
                        exprs@,
                        i as int + 1,
                        exprs@.len() as int,
                    );
                }
                return Err(e);
            },
        }
        i += 1;
    }
    Ok(out)
}

/// An aggregate call stands somewhere in the expression.
pub open spec fn holds_aggregate(e: Expr) -> bool
    decreases e,
{
    match e {
        Expr::Function(f) => aggregate_named(f.name) is Some,
        Expr::Nested(inner) => holds_aggregate(*inner),
        Expr::BinaryOp { left, op, right } => holds_aggregate(*left) || holds_aggregate(*right),
        _ => false,
    }
}

fn expr_has_aggregate(e: &Expr) -> (res: bool)
    ensures
        res == holds_aggregate(*e),
    decreases e,
{
    match e {
        Expr::Function(f) => parse_agg_type(&f.name).is_some(),
        Expr::Nested(inner) => expr_has_aggregate(inner),
        Expr::BinaryOp { left, op: _, right } => expr_has_aggregate(left) || expr_has_aggregate(
            right,
        ),
        _ => false,
    }
}

pub open spec fn item_aggregates(item: SelectItem) -> bool {
    match item {
        SelectItem::UnnamedExpr(e) => holds_aggregate(e),
        SelectItem::ExprWithAlias(e) => holds_aggregate(e),
        _ => false,
    }
}

/// True iff any projection item contains an aggregate function call. Used to decide whether a
/// SELECT aggregates even without GROUP BY (`SELECT COUNT(*) FROM t`).
pub(crate) fn projection_has_aggregate(items: &Vec<SelectItem>) -> (res: bool)
    ensures
        res == exists|i: int| 0 <= i < items@.len() && item_aggregates(#[trigger] items@[i]),
{
    let mut i: usize = 0;
    while i < items.len()
        invariant
            i <= items@.len(),
            forall|k: int| 0 <= k < i ==> !item_aggregates(#[trigger] items@[k]),
        decreases items@.len() - i,
    {
        let found: bool = match &items[i] {
            SelectItem::UnnamedExpr(e) => expr_has_aggregate(e),
            SelectItem::ExprWithAlias(e) => expr_has_aggregate(e),
            _ => false,
        };
        if found {
            assert(item_aggregates(items@[i as int]));
            return true;
        }
        i += 1;
    }
    false
}

/// The number of rows that a LIMIT clause lets through.
pub open spec fn limit_of(clause: Option<LimitClause>) -> Result<Option<u32>, Seq<char>> {
    match clause {
        None => Ok(None),
        Some(LimitClause::OffsetCommaLimit) => Err("unsupported LIMIT clause"@),
        Some(LimitClause::LimitOffset { limit, offset, limit_by }) => if offset || limit_by {
            Err("unsupported LIMIT clause"@)
        } else {
            match limit {
                None => Ok(None),
                Some(Expr::Value(Literal::Number { text, long, float })) => match unsigned_of(
                    text@,
                ) {
                    Some(n) => Ok(Some(n)),
                    None => Err("invalid LIMIT: "@ + text@),
                },
                Some(Expr::Value(_)) => Err("LIMIT must be a numeric literal"@),
                Some(_) => Err("unsupported LIMIT clause"@),
            }
        },
    }
}

pub(crate) fn resolve_limit(clause: &Option<LimitClause>) -> (res: Result<Option<u32>, BinderError>)
    ensures
        match res {
            Ok(n) => limit_of(*clause) == Ok::<Option<u32>, Seq<char>>(n),
            Err(e) => limit_of(*clause) == Err::<Option<u32>, Seq<char>>(e.0@),
        },
{
    match clause {
        None => Ok(None),
        Some(LimitClause::OffsetCommaLimit) => Err(refuse("unsupported LIMIT clause")),
        Some(LimitClause::LimitOffset { limit, offset, limit_by }) => {
            if *offset || *limit_by {
                return Err(refuse("unsupported LIMIT clause"));
            }
            match limit {
                None => Ok(None),
                Some(Expr::Value(Literal::Number { text, long: _, float: _ })) => {
                    match parse_unsigned(text.as_str()) {
                        Some(n) => Ok(Some(n)),
                        None => Err(refuse_with("invalid LIMIT: ", text.as_str())),
                    }
                },
                Some(Expr::Value(_)) => Err(refuse("LIMIT must be a numeric literal")),
                Some(_) => Err(refuse("unsupported LIMIT clause")),
            }
        },
    }
}

/// The type of a column; `None` for one that is not supported.
pub open spec fn type_of(t: SqlDataType) -> Result<DataType, Seq<char>> {
    match t {
        SqlDataType::Int => Ok(DataType::INT),
        SqlDataType::Integer => Ok(DataType::INT),
        SqlDataType::Int4 => Ok(DataType::INT),
        SqlDataType::Float => Ok(DataType::FLOAT),
        SqlDataType::Float4 => Ok(DataType::FLOAT),
        SqlDataType::Real => Ok(DataType::FLOAT),
        SqlDataType::Bool => Ok(DataType::BOOLEAN),
        SqlDataType::Boolean => Ok(DataType::BOOLEAN),
        SqlDataType::Timestamp => Ok(DataType::TIMESTAMP),
        SqlDataType::Other(text) => Err("unsupported type: "@ + text@),
    }
}

pub(crate) fn sql_to_dtype(t: &SqlDataType) -> (res: Result<DataType, BinderError>)
    ensures
        match res {
            Ok(d) => type_of(*t) == Ok::<DataType, Seq<char>>(d),
            Err(e) => type_of(*t) == Err::<DataType, Seq<char>>(e.0@),
        },
{
    match t {
        SqlDataType::Int => Ok(DataType::INT),
        SqlDataType::Integer => Ok(DataType::INT),
        SqlDataType::Int4 => Ok(DataType::INT),
        SqlDataType::Float => Ok(DataType::FLOAT),
        SqlDataType::Float4 => Ok(DataType::FLOAT),
        SqlDataType::Real => Ok(DataType::FLOAT),
        SqlDataType::Bool => Ok(DataType::BOOLEAN),
        SqlDataType::Boolean => Ok(DataType::BOOLEAN),
        SqlDataType::Timestamp => Ok(DataType::TIMESTAMP),
        SqlDataType::Other(text) => Err(refuse_with("unsupported type: ", text.as_str())),
    }
}

} // verus!
