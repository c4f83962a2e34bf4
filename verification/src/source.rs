//! The `syntree` tree that is laid out, and what is read from it.

use syntree::Tree;
use vstd::prelude::*;

verus! {

/// A borrowed `syntree::Tree` with the default index and pointer width.
/// Nothing of the tree is known to the verifier.
#[verifier::external_body]
#[verifier::reject_recursive_types(T)]
pub struct SourceTree<'a, T> {
    pub tree: &'a Tree<T, u32, usize>,
}

/// What the walk of a tree tells of one node.
pub struct Visit<'a, T> {
    /// The number of ancestors of the node.
    pub depth: usize,
    /// The identity of the node in its tree.
    pub node_id: usize,
    /// The identity of the node's parent, if it has one.
    pub parent_id: Option<usize>,
    /// The value that the tree holds for the node.
    pub value: &'a T,
}

/// Calls `Tree::children` and counts the nodes that the iterator yields:
/// the nodes at the top of the tree. Nothing is claimed of the count.
#[verifier::external_body]
pub(crate) fn top_level_count<'a, T>(tree: &SourceTree<'a, T>) -> usize {
    tree.tree.children().count()
}

/// Calls `Tree::walk` and `Walk::with_depths` and collects what the
/// iterator yields; of each node it keeps the depth, the index of
/// `Node::id`, the index of the `Node::id` of `Node::parent`, and
/// `Node::value`. Nothing is claimed of what is collected.
#[verifier::external_body]
pub(crate) fn walk_with_depths<'a, T>(tree: &SourceTree<'a, T>) -> Vec<Visit<'a, T>> {
    tree.tree
        .walk()
        .with_depths()
        .map(|(depth, node)| Visit {
            depth,
            node_id: node.id().get(),
            parent_id: node.parent().map(|parent| parent.id().get()),
            value: node.value(),
        })
        .collect()
}

} // verus!
