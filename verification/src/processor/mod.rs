//! Query processing: expressions, plans and their execution.
pub mod aggregate;
pub mod aggregate_laws;
pub mod change_laws;
pub mod executor;
pub mod executor_factory;
pub mod expression;
pub mod expression_laws;
pub mod hash_join;
pub mod hash_join_laws;
pub mod index_access;
pub mod index_laws;
pub mod index_scan_laws;
pub mod join;
pub mod join_laws;
pub mod laws;
pub mod limit_laws;
pub mod loop_join_laws;
pub mod modify;
pub mod order_laws;
pub mod plan;
pub mod plan_laws;
pub mod query_laws;
pub mod read_laws;
pub mod refusal_laws;
pub mod row_laws;
pub mod scan_laws;
pub mod select_laws;
pub mod sorting;
pub mod spill;
pub mod statement;
pub mod statement_laws;
pub mod stream;
pub mod upkeep;
pub mod value_laws;
pub mod where_laws;
pub mod window;
pub mod window_laws;
pub mod window_plan_laws;
