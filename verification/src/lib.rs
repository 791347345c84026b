//! Verified core of a small relational database: query operators (joins and aggregation) and a
//! heap-file storage manager.

pub mod bytecode_expr;
pub mod error;
pub mod expression_laws;
pub mod field;
pub mod field_laws;
pub mod heapfile;
pub mod heapfileiter;
pub mod ids;
pub mod key_table;
pub mod opiterator;
pub mod page;
pub mod storage_laws;
pub mod storage_manager;
pub mod text;
pub mod tuple;

