//! Laying out trees whose values say themselves how they are displayed.

use crate::embedder::{describes, Embedder};
use crate::error::LayouterError;
use crate::node::{Embedding, SourceNode};
use crate::source::{SourceTree, Visit};
use crate::table::is_layout_of;
use vstd::prelude::*;

verus! {

/// A value that says how it is displayed in a layout.
pub trait Visualize {
    /// The label to display.
    fn visualize(&self) -> String;

    /// Whether the label is to stand out.
    fn emphasize(&self) -> bool;
}

/// Lays out trees of values that say themselves how they are displayed.
pub struct VisualizeEmbedder;

impl VisualizeEmbedder {
    /// Lays out `tree` with the labels and the emphasis that its values
    /// give. A tree with more than one node at its top is refused before it
    /// is walked. Otherwise the result is what [`Embedder::embed_nodes`]
    /// gives for the nodes that the walk of the tree has yielded.
    pub fn embed<'a, T: Visualize>(tree: &SourceTree<'a, T>) -> (result: Result<
        Embedding,
        LayouterError,
    >)
        ensures
            result == Err::<Embedding, LayouterError>(LayouterError::MultipleRoots) || exists|
                nodes: Seq<SourceNode>,
            |
                is_layout_of(nodes, result),
    {
        let stringify = |value: &T| -> (text: String) { value.visualize() };
        let emphasize = |value: &T| -> (flag: bool) { value.emphasize() };
        let result = Embedder::embed(tree, stringify, emphasize);
        proof {
            if result != Err::<Embedding, LayouterError>(LayouterError::MultipleRoots) {
                let (walk, nodes) = choose|walk: Seq<Visit<'a, T>>, nodes: Seq<SourceNode>|
                    {
                        &&& describes(stringify, emphasize, walk, nodes)
                        &&& is_layout_of(nodes, result)
                    };
                assert(is_layout_of(nodes, result));
            }
        }
        result
    }
}

} // verus!
