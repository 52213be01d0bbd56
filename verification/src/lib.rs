//! A verified capture store: timestamped "capture" records are kept inline in
//! plain text files, each introduced by a one-line delimited header.  The
//! crate provides the header codec, the section splitter that partitions a
//! file's lines into (header, body) sections, the file-name conventions, and
//! the pure read/append/replace/delete planning that the surrounding
//! application drives with its own file I/O.

pub mod codec;
pub mod error;
pub mod files;
pub mod laws;
pub mod lines;
pub mod panes;
pub mod splitter;
pub mod store;
pub mod tool;
