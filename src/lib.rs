//! A sorted static table: an immutable sorted key/value format with a
//! streaming builder, a reader with point lookups, and a two-level iterator.
pub mod cmp;
pub mod block_spec;
pub mod block;
pub mod blockhandle;
pub mod cache;
pub mod coding;
pub mod error;
pub mod filter;
pub mod filter_block;
pub mod footer;
pub mod options;
pub mod table_builder;
pub mod table_reader;
pub mod types;

pub use crate::cmp::{Cmp, DefaultCmp};
pub use crate::error::{Result, Status, StatusCode};
pub use crate::filter::{BloomPolicy, FilterPolicy, NoFilterPolicy};
pub use crate::options::{int_to_compressiontype, CompressionType, Options};
pub use crate::table_builder::TableBuilder;
pub use crate::table_reader::{current_key_val, Table, TableIterator};
pub use crate::types::{mask_crc, unmask_crc};
