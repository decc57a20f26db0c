//! Table definitions: columns, secondary index definitions and table schemas.
pub mod column;
pub mod index_def;
pub mod table_schema;

pub use column::Column;
pub use index_def::IndexDef;
pub use table_schema::TableSchema;
