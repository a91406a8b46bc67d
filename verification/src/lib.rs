//! An in-memory index of filesystem entries with ranked fuzzy search.
//!
//! The index holds one record per file that a crawl has found. A crawl hands
//! its finds to the index in bounded batches, and a query scores every record
//! by its file name, drops the records that do not match and returns the rest,
//! best match first.

pub mod crawl;
pub mod entry;
pub mod index;
pub mod matcher;
pub mod ranking;
pub mod store;

pub use entry::IndexEntry;
pub use index::SystemIndex;
