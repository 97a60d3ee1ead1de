//! A relational catalog (databases, tables, columns) stored as records in
//! the key-value store.

mod catalog;
mod datatype;
mod error;
mod key;
mod meta;
mod names;

pub use catalog::{catalog_read, catalog_space, holds_record, meta_read, serve_error, serves, Catalog};
pub use datatype::DataType;
pub use error::Error;
pub use key::{column_key, database_key, table_key, Key, KeySpace};
pub use meta::{ColumnMeta, Database, DatabaseMeta, IndexMeta, SystemMeta, TableMeta};
pub use names::{bytes_lt, name_lt, names_sorted, DatabaseNameSet};
