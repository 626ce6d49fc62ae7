//! Schemas, values, tables and indexes.
use vstd::prelude::*;

pub mod catalog;
pub mod index_schema;
pub mod key_encoding;
pub mod laws;
pub mod layout_laws;
pub mod order_laws;
pub mod registry;
pub mod schema;
pub mod table_index;
pub mod value;

pub use registry::{Catalog, IndexInfo, TableInfo};
pub use schema::{is_null, Column, Schema};
pub use value::{DataType, FloatBits, Value};

verus! {

#[derive(Debug)]
pub enum CatalogError {
    TupleSchemaMismatch,
    ColumnOutOfBounds,
    ColumnNotFound,
    TableExists,
    TableDoesNotExist,
    IndexExists,
    IndexDoesNotExist,
    IndexCreationError(String),
}

#[derive(Debug, Clone, Copy, PartialEq, Eq)]
pub enum IndexType {
    BPlusTree,
}

} // verus!
