//! What a run was asked to do.

use vstd::prelude::*;

verus! {

/// The choices of one run.
#[derive(Clone, Copy, Debug)]
pub struct Options {
    /// The deepest level that is reported; the root is at depth 0.
    pub max_depth: usize,
    /// Whether sizes are written as plain byte counts.
    pub bytes: bool,
    /// Whether the children of a directory are put in order of size.
    pub sort: bool,
    /// Whether ignore rules and the hidden-file convention hide entries.
    pub ignore: bool,
}

} // verus!
