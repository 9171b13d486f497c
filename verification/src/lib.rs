//! A minimal single-file-per-table storage engine core: fixed-size disk
//! blocks with typed page accessors, a write-ahead log with reverse-order
//! iteration, and a bounded buffer pool with pin/unpin admission control.
//!
//! Disk contents are modelled by [`filemanager::FileMgr`], which tracks the
//! intended bytes of every file and records each block write it performs as a
//! [`filemanager::DiskOp`]; an unverified I/O layer replays those operations
//! against a real directory.

pub mod blockid;
pub mod buffer;
pub mod buffermanager;
pub mod filemanager;
pub mod logiterator;
pub mod logmanager;
pub mod logrecord;
pub mod page;
pub mod setintrecord;
pub mod setstringrecord;
