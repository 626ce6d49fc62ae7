//! Parsed SQL statements, as far as they are understood here. What is not understood is kept as
//! its text.
use vstd::prelude::*;

use crate::catalog::schema::same_text;

verus! {

#[derive(Debug)]
pub struct Ident {
    pub value: String,
    pub quote_style: Option<char>,
}

/// A name that may have several parts.
#[derive(Debug)]
pub struct ObjectName {
    pub parts: Vec<NamePart>,
    /// The name as it is written.
    pub text: String,
}

#[derive(Debug)]
pub enum NamePart {
    Identifier(Ident),
    /// A call that gives a name.
    Function,
}

#[derive(Debug)]
pub enum BinaryOperator {
    Plus,
    Minus,
    Multiply,
    Divide,
    Eq,
    NotEq,
    Lt,
    Gt,
    LtEq,
    GtEq,
    And,
    Or,
    Other(String),
}

#[derive(Debug)]
pub enum Literal {
    Null,
    Boolean(bool),
    /// A number as it is written, whether it ends in an `L`, and the bits of the float that the
    /// text stands for, if it stands for one.
    Number { text: String, long: bool, float: Option<u32> },
    Other(String),
}

#[derive(Debug)]
pub enum Expr {
    Nested(Box<Expr>),
    Identifier(Ident),
    CompoundIdentifier(Vec<Ident>),
    BinaryOp { left: Box<Expr>, op: BinaryOperator, right: Box<Expr> },
    Value(Literal),
    Function(Box<Function>),
    Other(String),
}

#[derive(Debug)]
pub struct Function {
    pub name: ObjectName,
    pub args: FunctionArguments,
    /// The call as it is written.
    pub text: String,
}

#[derive(Debug)]
pub enum FunctionArguments {
    List(FunctionArgumentList),
    /// No list: nothing at all, or a query.
    Other,
}

#[derive(Debug)]
pub struct FunctionArgumentList {
    /// ALL or DISTINCT was written.
    pub duplicate_treatment: bool,
    /// Clauses such as ORDER BY were written.
    pub clauses: bool,
    pub args: Vec<FunctionArg>,
}

#[derive(Debug)]
pub enum FunctionArg {
    Expr(Expr),
    Wildcard,
    QualifiedWildcard,
    Named,
}

#[derive(Debug)]
pub struct Query {
    pub body: SetExpr,
    pub order_by: Option<OrderBy>,
    pub limit_clause: Option<LimitClause>,
}

#[derive(Debug)]
pub enum SetExpr {
    Query(Box<Query>),
    Values(Vec<Vec<Expr>>),
    Select(Select),
    Other,
}

#[derive(Debug)]
pub enum OrderBy {
    Expressions(Vec<Expr>),
    All,
}

#[derive(Debug)]
pub enum LimitClause {
    LimitOffset { limit: Option<Expr>, offset: bool, limit_by: bool },
    OffsetCommaLimit,
}

#[derive(Debug)]
pub struct Select {
    pub projection: Vec<SelectItem>,
    pub from: Vec<TableWithJoins>,
    pub selection: Option<Expr>,
    pub group_by: GroupBy,
}

#[derive(Debug)]
pub enum GroupBy {
    Expressions { exprs: Vec<Expr>, modifiers: bool },
    All,
}

#[derive(Debug)]
pub enum SelectItem {
    UnnamedExpr(Expr),
    ExprWithAlias(Expr),
    Wildcard,
    Other,
}

#[derive(Debug)]
pub struct TableWithJoins {
    pub relation: TableFactor,
    pub joins: Vec<Join>,
}

#[derive(Debug)]
pub enum TableFactor {
    Table { name: ObjectName, alias: Option<String> },
    Other,
}

#[derive(Debug)]
pub struct Join {
    pub relation: TableFactor,
    pub join_operator: JoinOperator,
}

#[derive(Debug)]
pub enum JoinOperator {
    Join(JoinConstraint),
    Inner(JoinConstraint),
    Left(JoinConstraint),
    LeftOuter(JoinConstraint),
    Other,
}

#[derive(Debug)]
pub enum JoinConstraint {
    On(Expr),
    Other,
}

#[derive(Debug)]
pub struct Insert {
    /// `None` for a target that is not a table.
    pub table: Option<ObjectName>,
    pub source: Option<Query>,
}

#[derive(Debug)]
pub struct Delete {
    pub from: Vec<TableWithJoins>,
    pub selection: Option<Expr>,
}

#[derive(Debug)]
pub struct Update {
    pub table: TableWithJoins,
    pub assignments: Vec<Assignment>,
    pub selection: Option<Expr>,
}

#[derive(Debug)]
pub struct Assignment {
    /// `None` for a target of several columns.
    pub target: Option<ObjectName>,
    pub value: Expr,
}

#[derive(Debug)]
pub struct CreateTable {
    pub name: ObjectName,
    pub columns: Vec<ColumnDef>,
}

#[derive(Debug)]
pub struct ColumnDef {
    pub name: String,
    pub data_type: SqlDataType,
}

#[derive(Debug)]
pub enum SqlDataType {
    Int,
    Integer,
    Int4,
    Float,
    Float4,
    Real,
    Bool,
    Boolean,
    Timestamp,
    Other(String),
}

#[derive(Debug)]
pub struct CreateIndex {
    pub name: Option<ObjectName>,
    pub table_name: ObjectName,
    pub columns: Vec<Expr>,
}

#[derive(Debug)]
pub enum Statement {
    Query(Query),
    Insert(Insert),
    Delete(Delete),
    Update(Update),
    CreateTable(CreateTable),
    CreateIndex(CreateIndex),
    Other,
}

pub open spec fn ident_eq(a: Ident, b: Ident) -> bool {
    a.value@ == b.value@ && a.quote_style == b.quote_style
}

pub open spec fn operator_eq(a: BinaryOperator, b: BinaryOperator) -> bool {
    match (a, b) {
        (BinaryOperator::Other(x), BinaryOperator::Other(y)) => x@ == y@,
        (BinaryOperator::Other(_), _) => false,
        (_, BinaryOperator::Other(_)) => false,
        _ => operator_rank(a) == operator_rank(b),
    }
}

pub open spec fn operator_rank(a: BinaryOperator) -> int {
    match a {
        BinaryOperator::Plus => 0,
        BinaryOperator::Minus => 1,
        BinaryOperator::Multiply => 2,
        BinaryOperator::Divide => 3,
        BinaryOperator::Eq => 4,
        BinaryOperator::NotEq => 5,
        BinaryOperator::Lt => 6,
        BinaryOperator::Gt => 7,
        BinaryOperator::LtEq => 8,
        BinaryOperator::GtEq => 9,
        BinaryOperator::And => 10,
        BinaryOperator::Or => 11,
        BinaryOperator::Other(_) => 12,
    }
}

pub open spec fn literal_eq(a: Literal, b: Literal) -> bool {
    match (a, b) {
        (Literal::Null, Literal::Null) => true,
        (Literal::Boolean(x), Literal::Boolean(y)) => x == y,
        (
            Literal::Number { text: x, long: lx, float: fx },
            Literal::Number { text: y, long: ly, float: fy },
        ) => x@ == y@ && lx == ly,
        (Literal::Other(x), Literal::Other(y)) => x@ == y@,
        _ => false,
    }
}

pub open spec fn idents_eq(a: Seq<Ident>, b: Seq<Ident>) -> bool {
    a.len() == b.len() && forall|i: int| 0 <= i < a.len() ==> ident_eq(#[trigger] a[i], b[i])
}

/// Two expressions are written alike: of the same shape, with the same names and literals.
pub open spec fn expr_eq(a: Expr, b: Expr) -> bool
    decreases a,
{
    match (a, b) {
        (Expr::Nested(x), Expr::Nested(y)) => expr_eq(*x, *y),
        (Expr::Identifier(x), Expr::Identifier(y)) => ident_eq(x, y),
        (Expr::CompoundIdentifier(x), Expr::CompoundIdentifier(y)) => idents_eq(x@, y@),
        (
            Expr::BinaryOp { left: l, op: o, right: r },
            Expr::BinaryOp { left: m, op: p, right: s },
        ) => expr_eq(*l, *m) && operator_eq(o, p) && expr_eq(*r, *s),
        (Expr::Value(x), Expr::Value(y)) => literal_eq(x, y),
        (Expr::Function(x), Expr::Function(y)) => x.text@ == y.text@,
        (Expr::Other(x), Expr::Other(y)) => x@ == y@,
        _ => false,
    }
}

impl Ident {
    pub fn same(&self, other: &Ident) -> (res: bool)
        ensures
            res == ident_eq(*self, *other),
    {
        let quotes: bool = match (self.quote_style, other.quote_style) {
            (None, None) => true,
            (Some(a), Some(b)) => a == b,
            _ => false,
        };
        quotes && same_text(self.value.as_str(), other.value.as_str())
    }
}

impl BinaryOperator {
    fn rank(&self) -> (res: u8)
        ensures
            res == operator_rank(*self),
    {
        match self {
            BinaryOperator::Plus => 0,
            BinaryOperator::Minus => 1,
            BinaryOperator::Multiply => 2,
            BinaryOperator::Divide => 3,
            BinaryOperator::Eq => 4,
            BinaryOperator::NotEq => 5,
            BinaryOperator::Lt => 6,
            BinaryOperator::Gt => 7,
            BinaryOperator::LtEq => 8,
            BinaryOperator::GtEq => 9,
            BinaryOperator::And => 10,
            BinaryOperator::Or => 11,
            BinaryOperator::Other(_) => 12,
        }
    }

    pub fn same(&self, other: &BinaryOperator) -> (res: bool)
        ensures
            res == operator_eq(*self, *other),
    {
        match (self, other) {
            (BinaryOperator::Other(x), BinaryOperator::Other(y)) => same_text(
                x.as_str(),
                y.as_str(),
            ),
            (BinaryOperator::Other(_), _) => false,
            (_, BinaryOperator::Other(_)) => false,
            _ => self.rank() == other.rank(),
        }
    }
}

impl Literal {
    pub fn same(&self, other: &Literal) -> (res: bool)
        ensures
            res == literal_eq(*self, *other),
    {
        match (self, other) {
            (Literal::Null, Literal::Null) => true,
            (Literal::Boolean(x), Literal::Boolean(y)) => *x == *y,
            (
                Literal::Number { text: x, long: lx, float: _ },
                Literal::Number { text: y, long: ly, float: _ },
            ) => *lx == *ly && same_text(x.as_str(), y.as_str()),
            (Literal::Other(x), Literal::Other(y)) => same_text(x.as_str(), y.as_str()),
            _ => false,
        }
    }
}

fn same_idents(a: &Vec<Ident>, b: &Vec<Ident>) -> (res: bool)
    ensures
        res == idents_eq(a@, b@),
{
    if a.len() != b.len() {
        return false;
    }
    let mut i: usize = 0;
    while i < a.len()
        invariant
            i <= a@.len(),
            a@.len() == b@.len(),
            forall|k: int| 0 <= k < i ==> ident_eq(#[trigger] a@[k], b@[k]),
        decreases a@.len() - i,
    {
        if !a[i].same(&b[i]) {
            assert(!ident_eq(a@[i as int], b@[i as int]));
            return false;
        }
        i += 1;
    }
    true
}

impl Expr {
    /// Whether two expressions are written alike.
    pub fn same(&self, other: &Expr) -> (res: bool)
        ensures
            res == expr_eq(*self, *other),
        decreases self,
    {
        match (self, other) {
            (Expr::Nested(x), Expr::Nested(y)) => x.same(y),
            (Expr::Identifier(x), Expr::Identifier(y)) => x.same(y),
            (Expr::CompoundIdentifier(x), Expr::CompoundIdentifier(y)) => same_idents(x, y),
            (
                Expr::BinaryOp { left: l, op: o, right: r },
                Expr::BinaryOp { left: m, op: p, right: s },
            ) => l.same(m) && o.same(p) && r.same(s),
            (Expr::Value(x), Expr::Value(y)) => x.same(y),
            (Expr::Function(x), Expr::Function(y)) => same_text(
                x.text.as_str(),
                y.text.as_str(),
            ),
            (Expr::Other(x), Expr::Other(y)) => same_text(x.as_str(), y.as_str()),
            _ => false,
        }
    }
}

} // verus!
