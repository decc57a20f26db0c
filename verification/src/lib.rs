//! A small embedded database engine: typed rows stored in B+ trees over
//! fixed-size pages, with secondary indexes, joins and a query builder.

pub mod error;
pub mod data_type;
pub mod codec;
pub mod value;
pub mod storage;
pub mod btree;
pub mod schema;
pub mod row;
pub mod table_builder;
pub mod database;
pub mod query_builder;

pub use data_type::DataType;
pub use value::Value;
pub use row::Row;
pub use error::DbError;
pub use database::{Database, JoinedRow, JoinType};
pub use schema::{Column, TableSchema, IndexDef};
pub use table_builder::TableBuilder;
pub use query_builder::{QueryBuilder, QueryResult, CompareOp, OrderDirection, WhereClause};
