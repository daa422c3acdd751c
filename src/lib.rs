//! An embedded, file-backed database engine: schemas, row validation, the
//! planning of the files that hold them, and a B+Tree index.
//!
//! File and directory access is left to the caller: the library decides what
//! is to be read, written or removed, and works on what was read.

pub mod btree;
pub mod database;
pub mod ddl;
pub mod error;
pub mod persistence;
pub mod schema;
pub mod storage;
pub mod text;

pub use btree::{BPlusTree, BtreeNode, InternalNode, LeafNode, NodeType};
pub use database::{Database, DatabaseTrait, RootDatabase};
pub use ddl::TableOp;
pub use error::DbError;
pub use persistence::DataHandler;
pub use schema::{Column, DataType, Query, Record, ResultSet, Table};
pub use storage::{
    data_file_name, descriptor_file_name, get_file_type_and_extension, FileExtension, FileStorage,
    TABLE_FILE_DATA_EXTENSION, TABLE_FILE_DESCRIPTOR_EXTENSION,
};
