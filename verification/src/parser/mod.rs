//! Binding of parsed statements.
pub mod binder;
pub mod clause_laws;
pub mod laws;
pub mod meaning_laws;
pub mod scope;
pub mod select_laws;
pub mod success_laws;

pub use binder::{
    Binder, BoundCreateIndex, BoundCreateTable, BoundDelete, BoundInsert, BoundJoin, BoundSelect,
    BoundStatement, BoundUpdate, BoundValues,
};
pub use scope::{BinderError, Scope, ScopeEntry, TableAlias, TableOid, TableScope, TupleIndex};
