use vstd::prelude::*;
use crate::data_type::DataType;
use crate::schema::column::{Column, ColumnV};
use crate::schema::table_schema::{TableSchema, TableSchemaV};
use crate::value::Value;

verus! {

/// A builder of table schemas, one column at a time.
pub struct TableBuilder {
    schema: TableSchema,
}

impl View for TableBuilder {
    type V = TableSchemaV;

    closed spec fn view(&self) -> TableSchemaV {
        self.schema@
    }
}

impl TableBuilder {
    /// A builder for a table with no columns yet.
    pub fn new(name: &str) -> (b: Self)
        ensures
            b@ == (TableSchemaV {
                name: name@,
                columns: Seq::empty(),
                primary_key: Seq::empty(),
                indexes: Seq::empty(),
                root_page: 0,
                row_count: 0,
                auto_increment: 1,
            }),
    {
        TableBuilder { schema: TableSchema::new(name) }
    }

    /// Adds a nullable column without a default.
    pub fn column(self, name: &str, dtype: DataType) -> (b: Self)
        ensures
            b@ == (TableSchemaV {
                columns: self@.columns.push(
                    ColumnV { name: name@, data_type: dtype, nullable: true, default: None, auto_increment: false },
                ),
                ..self@
            }),
    {
        TableBuilder { schema: self.schema.column(Column::new(name, dtype)) }
    }

    /// Adds a column that is not nullable.
    pub fn column_not_null(self, name: &str, dtype: DataType) -> (b: Self)
        ensures
            b@ == (TableSchemaV {
                columns: self@.columns.push(
                    ColumnV { name: name@, data_type: dtype, nullable: false, default: None, auto_increment: false },
                ),
                ..self@
            }),
    {
        TableBuilder { schema: self.schema.column(Column::new(name, dtype).not_null()) }
    }

    /// Adds a nullable column with a default value.
    pub fn column_with_default(self, name: &str, dtype: DataType, default: Value) -> (b: Self)
        ensures
            b@ == (TableSchemaV {
                columns: self@.columns.push(
                    ColumnV {
                        name: name@,
                        data_type: dtype,
                        nullable: true,
                        default: Some(default@),
                        auto_increment: false,
                    },
                ),
                ..self@
            }),
    {
        TableBuilder { schema: self.schema.column(Column::new(name, dtype).default(default)) }
    }

    /// Sets the primary key columns.
    pub fn primary_key(self, columns: &[&str]) -> (b: Self)
        ensures
            b@ == (TableSchemaV { primary_key: Seq::new(columns@.len(), |i: int| columns@[i]@), ..self@ }),
    {
        TableBuilder { schema: self.schema.primary_key(columns) }
    }

    /// The schema built.
    pub fn build(self) -> (s: TableSchema)
        ensures
            s@ == self@,
    {
        self.schema
    }
}

} // verus!
