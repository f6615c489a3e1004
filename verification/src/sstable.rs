//! Immutable sorted-string tables: a sorted payload file and a
//! fixed-stride index file, with build and point lookup.

pub mod error;
pub mod table;

pub use error::SSTableError;
pub use table::SSTable;
pub use table::TableImage;
