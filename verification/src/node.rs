//! The records that enter, pass through and leave the layout.

use vstd::prelude::*;

verus! {

/// One node of the tree to lay out, as the pre-order walk of the tree meets it.
#[derive(Clone, Debug, PartialEq, Eq)]
pub struct SourceNode {
    /// The identity of the node in its tree.
    pub node_id: usize,
    /// The identity of the node's parent; `None` for a root.
    pub parent_id: Option<usize>,
    /// The number of ancestors of the node.
    pub depth: usize,
    /// The label to display.
    pub text: String,
    /// Whether the label is to stand out.
    pub is_emphasized: bool,
}

/// The layout state of one node while the passes run.
#[derive(Clone, Debug, PartialEq, Eq)]
pub struct InternalNode {
    /// The depth of the node; the root has depth 0.
    pub y_order: usize,
    /// The horizontal centre of the node, once pass three has set it.
    pub x_center: usize,
    /// The width that the node's own label needs.
    pub x_extent: usize,
    /// The width that the subtrees of the node's children have together,
    /// once pass two has set it.
    pub x_extent_of_children: usize,
    /// The width reserved for the node and everything below it, once pass
    /// two has set it.
    pub x_extent_children: usize,
    /// The label to display.
    pub text: String,
    /// Whether the label is to stand out.
    pub is_emphasized: bool,
    /// The position of the node's parent in the table; `None` for the root.
    pub parent: Option<usize>,
    /// The position of the node in the table.
    pub ord: usize,
    /// The identity of the node in its tree.
    pub node_id: usize,
}

/// One positioned, labeled node of a finished layout.
#[derive(Clone, Debug, PartialEq, Eq)]
pub struct EmbeddedNode {
    /// The depth of the node; the root has depth 0.
    pub y_order: usize,
    /// The horizontal centre of the node.
    pub x_center: usize,
    /// The width that the node's own label needs.
    pub x_extent: usize,
    /// The width reserved for the node and everything below it.
    pub x_extent_children: usize,
    /// The label to display.
    pub text: String,
    /// Whether the label is to stand out.
    pub is_emphasized: bool,
    /// The position of the node's parent in the layout; `None` for the root.
    pub parent: Option<usize>,
    /// The position of the node in the layout.
    pub ord: usize,
    /// The identity of the node in its tree.
    pub node_id: usize,
}

/// A finished layout: its nodes in pre-order.
pub type Embedding = Vec<EmbeddedNode>;

impl InternalNode {
    /// The finished record of this node.
    pub open spec fn embedded(self) -> EmbeddedNode {
        EmbeddedNode {
            y_order: self.y_order,
            x_center: self.x_center,
            x_extent: self.x_extent,
            x_extent_children: self.x_extent_children,
            text: self.text,
            is_emphasized: self.is_emphasized,
            parent: self.parent,
            ord: self.ord,
            node_id: self.node_id,
        }
    }
}

impl vstd::std_specs::convert::FromSpecImpl<InternalNode> for EmbeddedNode {
    open spec fn obeys_from_spec() -> bool {
        true
    }

    open spec fn from_spec(node: InternalNode) -> EmbeddedNode {
        node.embedded()
    }
}

impl From<InternalNode> for EmbeddedNode {
    /// Drops what only the passes need.
    fn from(node: InternalNode) -> (embedded: EmbeddedNode) {
        EmbeddedNode {
            y_order: node.y_order,
            x_center: node.x_center,
            x_extent: node.x_extent,
            x_extent_children: node.x_extent_children,
            text: node.text,
            is_emphasized: node.is_emphasized,
            parent: node.parent,
            ord: node.ord,
            node_id: node.node_id,
        }
    }
}

} // verus!
