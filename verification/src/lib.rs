//! Compares two directory trees and lays out every difference as a
//! self-contained artifact: new files, deleted files and subtrees, and
//! modified files rendered as annotated line diffs or flagged raw copies.
//!
//! The library works on plain values: the entries that a walk of a tree
//! met, with the bytes of each file. It decides what is ignored, what
//! changed and what to write where, and returns the artifacts to write.

pub mod cli;
pub mod comment;
pub mod diff;
pub mod guarantees;
pub mod scanner;
pub mod text;
pub mod tree;
pub mod utils;

pub use cli::{build_options, Args, Options};
pub use diff::{run_bigdiff, Counters};
pub use scanner::{scan_dir, ScanResult};
