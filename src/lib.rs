//! Packs a directory tree into a deflate-compressed zip archive, and tracks
//! the progress of a streamed download.
//!
//! The library holds the decisions: the archive name rule, the pre-flight
//! gate over the source and destination directories, the naming of each
//! walked entry relative to the traversal root, and the writing of entries
//! into the archive. Reading the disk, walking it and the network stay with
//! the caller, which hands plain values in.
//!
//! The archive is assembled in memory and handed back whole by
//! `ArchiveBuilder::finish`, so memory grows with the archive rather than
//! with one entry, and a caller that creates the destination file first and
//! fails before writing leaves it empty rather than partly written.

pub mod archive;
pub mod compression;
pub mod download;
