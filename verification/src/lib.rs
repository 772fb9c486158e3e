pub mod crc32;
pub mod bytes_util;
pub mod db_errors;
pub mod page;
pub mod slotted_page;
pub mod lru_cache;
pub mod b_plus_tree;
pub mod wal;
pub mod table_wal;
pub mod parser;
pub mod tables;
pub mod database;
pub mod redo;
pub mod index;
pub mod tree_file;
pub mod table_set;
