//! Plans: trees of the steps that answer a statement.
use vstd::prelude::*;

use crate::catalog::schema::Schema;
use crate::catalog::table_index::ValueBound;

pub use crate::processor::expression::{eval_binary, Expression, Op};

verus! {

pub enum Plan {
    SeqScan(SeqScanPlanNode),
    Insert(InsertPlanNode),
    Values(ValuesPlanNode),
    Update(UpdatePlanNode),
    Delete(DeletePlanNode),
    IndexScan(IndexScanPlanNode),
    Filter(FilterPlanNode),
    Projection(ProjectionPlanNode),
    Aggregation(AggregationPlanNode),
    NestedLoopJoin(NestedLoopJoinPlanNode),
    NestedIndexJoin(NestedIndexJoinPlanNode),
    HashJoin(HashJoinPlanNode),
    ExternalMergeSort(ExternalMergeSortPlanNode),
    Sort(SortPlanNode),
    WindowFunction(WindowFunctionPlanNode),
    Limit(LimitPlanNode),
    CreateTable(CreateTablePlanNode),
    CreateIndex(CreateIndexPlanNode),
    DropTable(DropTablePlanNode),
    DropIndex(DropIndexPlanNode),
}

pub struct SeqScanPlanNode {
    pub table_oid: u32,
    pub schema: Schema,
}

pub struct InsertPlanNode {
    pub schema: Schema,
    pub child: Box<Plan>,
    pub table_oid: u32,
}

pub struct ValuesPlanNode {
    pub schema: Schema,
    pub rows: Vec<Vec<Expression>>,
}

pub struct UpdatePlanNode {
    pub schema: Schema,
    /// The first element is the index of the column in the tuple that is updated.
    pub target_exprs: Vec<(u32, Expression)>,
    pub child: Box<Plan>,
    pub table_oid: u32,
}

pub struct DeletePlanNode {
    pub schema: Schema,
    pub child: Box<Plan>,
    pub table_oid: u32,
}

pub struct IndexScanPlanNode {
    pub schema: Schema,
    pub start: ValueBound,
    pub end: ValueBound,
    pub index_oid: u32,
}

pub struct FilterPlanNode {
    pub schema: Schema,
    pub predicate: Expression,
    pub child: Box<Plan>,
}

pub struct ProjectionPlanNode {
    pub schema: Schema,
    pub expressions: Vec<Expression>,
    pub child: Box<Plan>,
}

/// Example: SUM(a+b), MIN(c) GROUP BY c;
/// `group_bys` holds c, and `aggregates` holds (a+b, SUM) and (c, MIN). All of them are
/// evaluated on the tuples of the child.
pub struct AggregationPlanNode {
    pub schema: Schema,
    pub child: Box<Plan>,
    pub group_bys: Vec<Expression>,
    pub aggregates: Vec<(Expression, AggType)>,
}

#[derive(Debug, Clone, Copy, PartialEq, Eq, Structural)]
pub enum AggType {
    MAX,
    MIN,
    SUM,
    AVG,
    COUNT,
    /// Not an aggregate, but computed beside them.
    RANK,
}

pub struct NestedLoopJoinPlanNode {
    pub schema: Schema,
    pub left: Box<Plan>,
    pub right: Box<Plan>,
    pub predicate: Expression,
    pub join_type: JoinType,
}

#[derive(Debug, Clone, Copy, PartialEq, Eq, Structural)]
pub enum JoinType {
    Inner,
    Left,
}

pub struct NestedIndexJoinPlanNode {
    pub schema: Schema,
    pub child: Box<Plan>,
    pub key_predicate: Expression,
    pub table_oid: u32,
    /// The schema of the table that is joined.
    pub table_schema: Schema,
    pub index_oid: u32,
    pub join_type: JoinType,
}

pub struct HashJoinPlanNode {
    pub schema: Schema,
    pub left: Box<Plan>,
    pub right: Box<Plan>,
    pub left_exprs: Vec<Expression>,
    pub right_exprs: Vec<Expression>,
    pub join_type: JoinType,
}

pub struct ExternalMergeSortPlanNode {
    pub schema: Schema,
    pub child: Box<Plan>,
    pub order_by_exprs: Vec<Expression>,
}

pub struct SortPlanNode {
    pub schema: Schema,
    pub child: Box<Plan>,
    pub order_by_exprs: Vec<Expression>,
}

/// Unlike aggregate functions, window functions keep every row: they add a column for each of
/// the aggregates, computed over the rows of the same partition.
pub struct WindowFunctionPlanNode {
    pub schema: Schema,
    pub child: Box<Plan>,
    pub order_by_exprs: Option<Vec<Expression>>,
    pub partition_by_exprs: Option<Vec<Expression>>,
    pub aggregates: Vec<(Expression, AggType)>,
    pub columns: Vec<Expression>,
}

pub struct LimitPlanNode {
    pub schema: Schema,
    pub child: Box<Plan>,
    pub limit: u32,
}

pub struct CreateTablePlanNode {
    pub table_name: String,
    pub schema: Schema,
    pub if_not_exists: bool,
}

pub struct CreateIndexPlanNode {
    pub schema: Schema,
    pub index_name: String,
    pub table_oid: u32,
    /// The positions of the indexed columns in the table.
    pub key_columns: Vec<u32>,
}

pub struct DropTablePlanNode {
    pub schema: Schema,
    pub table_oid: u32,
}

pub struct DropIndexPlanNode {
    pub schema: Schema,
    pub index_oid: u32,
}

} // verus!
