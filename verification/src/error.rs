//! The ways in which laying out a tree can fail.

use vstd::prelude::*;

verus! {

/// Why a tree could not be laid out.
#[derive(Clone, Copy, Debug, PartialEq, Eq, Structural)]
pub enum LayouterError {
    /// The tree has more than one node without a parent.
    MultipleRoots,
    /// A node names a parent that was not visited before it, or its depth
    /// is not one more than the depth of its parent.
    InconsistentTree,
    /// The width of the whole tree does not fit in a `usize`.
    TooWide,
}

impl LayouterError {
    /// A sentence that describes the error.
    pub fn description(&self) -> (text: String)
        ensures
            *self == LayouterError::MultipleRoots ==> text@ == "only one root is supported"@,
            *self == LayouterError::InconsistentTree ==> text@
                == "a node was not found one level below its parent"@,
            *self == LayouterError::TooWide ==> text@ == "the tree is too wide to be laid out"@,
    {
        match self {
            LayouterError::MultipleRoots => "only one root is supported".to_owned(),
            LayouterError::InconsistentTree => {
                "a node was not found one level below its parent".to_owned()
            },
            LayouterError::TooWide => "the tree is too wide to be laid out".to_owned(),
        }
    }
}

} // verus!
