//! Finding and removing byte-order marks.
//!
//! The crate holds the decisions of a scanner that walks a directory tree,
//! looks at the first bytes of every file and, on request, rewrites the files
//! that start with a byte-order mark without it. Nothing here touches the file
//! system: the caller lists directories, reads and writes files, and hands the
//! library what it saw.
//!
//! * [`signature`]: the encodings, their signatures and the matching of a
//!   file's first bytes against a table of them.
//! * [`dir_walker`]: the traversal of a directory tree as a state machine.
//! * [`dir_tree`]: directory trees, and the laws of the traversal over them.
//! * [`engine`]: what to report and what to rewrite for each visited file.
//! * [`report`]: the lines that a run shows for its results.

pub mod dir_tree;
pub mod dir_walker;
pub mod engine;
pub mod report;
pub mod signature;
