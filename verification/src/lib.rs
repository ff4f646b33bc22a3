//! A minimal persistent table-storage engine: fixed-schema rows are packed
//! into fixed-size pages, pages are cached in memory, loaded lazily and
//! flushed to a backing file at close.
//!
//! The crate holds the storage core: the row codec (`db::Row`), the page
//! cache (`pager::Pager`), the table built on both (`db::Table`), and the
//! statement parser (`cli`). All file handling stays with the caller, who
//! hands in the file length at open, serves page loads, and writes out the
//! flush plan that `close` returns.

pub mod cli;
pub mod db;
pub mod laws;
pub mod pager;
