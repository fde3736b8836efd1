//! A lazy, cursor-style traversal engine over a directory tree.
//!
//! The engine never touches the filesystem itself: it asks its driver to
//! list one directory at a time and decides, from those listings alone,
//! which directories to descend into and which entries to produce.

pub mod matching;
pub mod traverser;
