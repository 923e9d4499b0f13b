pub mod btree;
pub mod database;
pub mod error;
pub mod header;
pub mod page;
pub mod parser;
pub mod record;
pub mod schema_table;
pub mod table;
pub mod traversal;
pub mod varint;
