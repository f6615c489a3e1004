//! The in-memory side of the store: the ordered table of recent writes,
//! the write-ahead log it is backed by, and the replay of that log.

pub mod log;
pub mod log_reader;
pub mod operation;
pub mod table;

pub use log::MemTableLog;
pub use log_reader::MemTableLogReader;
pub use operation::LogOperation;
pub use operation::LogOperationV;
pub use table::MemTable;
