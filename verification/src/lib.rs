//! A small embedded key-value store backed by a single append-only log file.
//!
//! The storage engine keeps an in-memory index from each live key to the byte
//! offset of its most recent record in the log, and rebuilds that index by
//! replaying the log from the start.  All engine logic operates on the log's
//! byte image; the surrounding application performs the actual file reads and
//! writes and keeps the file identical to the image.

pub mod bytemap;
pub mod bytes;
pub mod command;
pub mod log_format;
pub mod storage;
pub mod store;
