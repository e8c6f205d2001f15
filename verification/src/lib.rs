//! Disk usage estimation: an entry tree with on-disk sizes and its report.
//!
//! - `matcher` decides whether a path is hidden: by the pattern rules of the
//!   root first, by the host's hidden-file convention where no rule speaks.
//! - `builder` turns what the filesystem answered for each path into the
//!   entry tree of `entry`: files with their on-disk sizes, directories with
//!   the children that could be read.
//! - `report` visits a tree down to a depth limit, children before their
//!   parent, hidden entries left out, siblings in order of size where that is
//!   asked for (`sort`), and writes one line per visited entry (`format`).
//!
//! Reading the filesystem and printing are left to the caller.

pub mod builder;
pub mod entry;
pub mod format;
pub mod matcher;
pub mod options;
pub mod path;
pub mod report;
pub mod sort;
pub mod text;
