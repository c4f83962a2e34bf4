//! What a layout is of: the relation between the nodes of a tree, the table
//! that the passes work on, and the finished layout.

use crate::error::LayouterError;
use crate::node::{EmbeddedNode, Embedding, InternalNode, SourceNode};
use crate::shape::Shape;
use vstd::prelude::*;
use vstd::utf8::encode_utf8;

verus! {

/// The width that a label needs: one more than the number of bytes that the
/// label has in UTF-8, as `str::len` reports it.
pub open spec fn label_extent(text: Seq<char>) -> int {
    (encode_utf8(text).len() as usize) + 1
}

/// The number of nodes without a parent.
pub open spec fn root_count(nodes: Seq<SourceNode>) -> nat
    decreases nodes.len(),
{
    if nodes.len() == 0 {
        0
    } else {
        root_count(nodes.drop_last()) + if nodes.last().parent_id is None {
            1nat
        } else {
            0nat
        }
    }
}

/// The position of the last node with the identity `id`, if there is one.
pub open spec fn last_with_id(nodes: Seq<SourceNode>, id: usize) -> Option<int>
    decreases nodes.len(),
{
    if nodes.len() == 0 {
        None
    } else if nodes.last().node_id == id {
        Some(nodes.len() - 1)
    } else {
        last_with_id(nodes.drop_last(), id)
    }
}

/// The position of the parent of node `i`: that of the last node before `i`
/// whose identity node `i` names as its parent's.
pub open spec fn resolve(nodes: Seq<SourceNode>, i: int) -> Option<int> {
    match nodes[i].parent_id {
        Some(id) => last_with_id(nodes.take(i), id),
        None => None,
    }
}

/// A node without a parent has depth 0; the parent of any other node was
/// visited before it and is one level above it.
pub open spec fn linked_at(nodes: Seq<SourceNode>, i: int) -> bool {
    match nodes[i].parent_id {
        Some(_) => resolve(nodes, i) matches Some(p) && nodes[i].depth == nodes[p].depth + 1,
        None => nodes[i].depth == 0,
    }
}

/// Every node is linked to its parent.
pub open spec fn linked(nodes: Seq<SourceNode>) -> bool {
    forall|i: int| 0 <= i < nodes.len() ==> linked_at(nodes, i)
}

/// The parent links and label widths of the nodes.
pub open spec fn shape_of(nodes: Seq<SourceNode>) -> Shape {
    Shape {
        parents: Seq::new(nodes.len(), |i: int| resolve(nodes, i)),
        extents: Seq::new(nodes.len(), |i: int| label_extent(nodes[i].text@)),
    }
}

/// The width of the whole layout fits in a `usize`.
pub open spec fn fits(nodes: Seq<SourceNode>) -> bool {
    nodes.len() > 0 ==> shape_of(nodes).width() <= usize::MAX
}

/// A position in a table, as the model counts it.
pub open spec fn as_index(position: Option<usize>) -> Option<int> {
    match position {
        Some(p) => Some(p as int),
        None => None,
    }
}

/// `placed` is the finished record of node `i`.
pub open spec fn places(nodes: Seq<SourceNode>, i: int, placed: EmbeddedNode) -> bool {
    let shape = shape_of(nodes);
    &&& placed.ord == i
    &&& placed.node_id == nodes[i].node_id
    &&& placed.y_order == nodes[i].depth
    &&& placed.text == nodes[i].text
    &&& placed.is_emphasized == nodes[i].is_emphasized
    &&& as_index(placed.parent) == shape.parents[i]
    &&& placed.x_extent == shape.extents[i]
    &&& placed.x_extent_children == shape.subtree_extent(i)
    &&& placed.x_center == shape.x_center(i)
}

/// `embedding` holds the finished record of every node, in the nodes' order.
pub open spec fn is_embedding_of(nodes: Seq<SourceNode>, embedding: Seq<EmbeddedNode>) -> bool {
    &&& embedding.len() == nodes.len()
    &&& forall|i: int| 0 <= i < nodes.len() ==> places(nodes, i, #[trigger] embedding[i])
}

/// `nodes` are the nodes of a tree that can be laid out, and `embedding` is
/// its layout.
pub open spec fn lays_out(nodes: Seq<SourceNode>, embedding: Seq<EmbeddedNode>) -> bool {
    &&& root_count(nodes) <= 1
    &&& linked(nodes)
    &&& fits(nodes)
    &&& is_embedding_of(nodes, embedding)
}

/// `result` is what laying out `nodes` gives. More than one root is an
/// error. Otherwise a node that is not linked to its parent is an error.
/// Otherwise a layout too wide for a `usize` is an error. Otherwise the
/// result is the layout.
pub open spec fn is_layout_of(nodes: Seq<SourceNode>, result: Result<Embedding, LayouterError>) -> bool {
    match result {
        Ok(embedding) => lays_out(nodes, embedding@),
        Err(LayouterError::MultipleRoots) => root_count(nodes) > 1,
        Err(LayouterError::InconsistentTree) => root_count(nodes) <= 1 && !linked(nodes),
        Err(LayouterError::TooWide) => root_count(nodes) <= 1 && linked(nodes) && !fits(nodes),
    }
}

/// The parent links and label widths that a table holds.
pub open spec fn skeleton(items: Seq<InternalNode>) -> Shape {
    Shape {
        parents: Seq::new(items.len(), |i: int| as_index(items[i].parent)),
        extents: Seq::new(items.len(), |i: int| items[i].x_extent as int),
    }
}

/// `item` is the record of node `i` before any width or position is known.
pub open spec fn starts(nodes: Seq<SourceNode>, i: int, item: InternalNode) -> bool {
    &&& item.ord == i
    &&& item.node_id == nodes[i].node_id
    &&& item.y_order == nodes[i].depth
    &&& item.text == nodes[i].text
    &&& item.is_emphasized == nodes[i].is_emphasized
    &&& as_index(item.parent) == resolve(nodes, i)
    &&& item.x_extent == label_extent(nodes[i].text@)
    &&& item.x_extent_of_children == item.x_extent
    &&& item.x_extent_children == item.x_extent
    &&& item.x_center == 0
}

/// The table holds the nodes of a tree in pre-order: each record knows its
/// position, node 0 is the only root, and every other node comes after its
/// parent and one level below it.
pub open spec fn is_table(items: Seq<InternalNode>) -> bool {
    &&& skeleton(items).wf()
    &&& forall|i: int| 0 <= i < items.len() ==> #[trigger] level_at(items, i)
}

/// Record `i` knows its position, and lies one level below its parent, or
/// at level 0 if it has none.
pub open spec fn level_at(items: Seq<InternalNode>, i: int) -> bool {
    &&& items[i].ord == i
    &&& match items[i].parent {
        Some(p) => items[i].y_order == items[p as int].y_order + 1,
        None => items[i].y_order == 0,
    }
}

/// `item`, the record of node `i`, holds the width of the node's children
/// together and the width of its subtree.
pub open spec fn measured_in(shape: Shape, item: InternalNode, i: int) -> bool {
    &&& item.x_extent_of_children == shape.children_extent(i)
    &&& item.x_extent_children == shape.subtree_extent(i)
}

/// `item`, the record of node `i`, holds the node's centre.
pub open spec fn centered_in(shape: Shape, item: InternalNode, i: int) -> bool {
    item.x_center == shape.x_center(i)
}

/// Every record holds the width of its children together and of its subtree.
pub open spec fn measured(items: Seq<InternalNode>) -> bool {
    forall|i: int| 0 <= i < items.len() ==> #[trigger] measured_in(skeleton(items), items[i], i)
}

/// Every record above the layer `layer` holds its centre.
pub open spec fn centered_above(items: Seq<InternalNode>, layer: int) -> bool {
    forall|i: int|
        0 <= i < items.len() && items[i].y_order < layer ==> #[trigger] centered_in(
            skeleton(items),
            items[i],
            i,
        )
}

/// `after` differs from `before` in its centre at most.
pub open spec fn moved(before: InternalNode, after: InternalNode) -> bool {
    after == (InternalNode { x_center: after.x_center, ..before })
}

/// `after` differs from `before` in the two widths of pass two at most.
pub open spec fn widened(before: InternalNode, after: InternalNode) -> bool {
    after == (InternalNode {
        x_extent_of_children: after.x_extent_of_children,
        x_extent_children: after.x_extent_children,
        ..before
    })
}

/// The last node with a given identity is a node with that identity.
pub proof fn lemma_last_with_id(nodes: Seq<SourceNode>, id: usize)
    ensures
        last_with_id(nodes, id) matches Some(j) ==> 0 <= j < nodes.len() && nodes[j].node_id == id,
    decreases nodes.len(),
{
    if nodes.len() > 0 && nodes.last().node_id != id {
        lemma_last_with_id(nodes.drop_last(), id);
    }
}

/// A parent comes before its child.
pub proof fn lemma_resolve(nodes: Seq<SourceNode>, i: int)
    requires
        0 <= i < nodes.len(),
    ensures
        resolve(nodes, i) matches Some(p) ==> 0 <= p < i,
        resolve(nodes, i) is Some ==> nodes[i].parent_id is Some,
{
    if let Some(id) = nodes[i].parent_id {
        lemma_last_with_id(nodes.take(i), id);
    }
}

/// A node without a parent is counted.
pub proof fn lemma_root_counted(nodes: Seq<SourceNode>, a: int)
    requires
        0 <= a < nodes.len(),
        nodes[a].parent_id is None,
    ensures
        root_count(nodes) >= 1,
    decreases nodes.len(),
{
    if a < nodes.len() - 1 {
        lemma_root_counted(nodes.drop_last(), a);
    }
}

/// Two nodes without a parent are both counted.
pub proof fn lemma_two_roots_counted(nodes: Seq<SourceNode>, a: int, b: int)
    requires
        0 <= a < b < nodes.len(),
        nodes[a].parent_id is None,
        nodes[b].parent_id is None,
    ensures
        root_count(nodes) >= 2,
    decreases nodes.len(),
{
    if b < nodes.len() - 1 {
        lemma_two_roots_counted(nodes.drop_last(), a, b);
    } else {
        lemma_root_counted(nodes.drop_last(), a);
    }
}

/// The nodes of a linked tree with one root at most have a well-formed shape.
pub proof fn lemma_shape_of_tree(nodes: Seq<SourceNode>)
    requires
        root_count(nodes) <= 1,
        linked(nodes),
    ensures
        shape_of(nodes).wf(),
{
    let shape = shape_of(nodes);
    assert forall|i: int| 0 <= i < shape.len() implies match #[trigger] shape.parents[i] {
        Some(p) => 0 <= p < i,
        None => i == 0,
    } by {
        lemma_resolve(nodes, i);
        assert(linked_at(nodes, i));
        if shape.parents[i] is None && i != 0 {
            assert(linked_at(nodes, 0));
            lemma_resolve(nodes, 0);
            lemma_two_roots_counted(nodes, 0, i);
        }
    }
}

/// The records that pass one makes of a tree form a table with the shape
/// of the tree.
pub proof fn lemma_table_of_tree(nodes: Seq<SourceNode>, items: Seq<InternalNode>)
    requires
        root_count(nodes) <= 1,
        linked(nodes),
        items.len() == nodes.len(),
        forall|i: int| 0 <= i < nodes.len() ==> starts(nodes, i, #[trigger] items[i]),
    ensures
        skeleton(items) == shape_of(nodes),
        is_table(items),
{
    lemma_shape_of_tree(nodes);
    assert(skeleton(items).parents =~= shape_of(nodes).parents);
    assert(skeleton(items).extents =~= shape_of(nodes).extents);
    assert forall|i: int| 0 <= i < items.len() implies #[trigger] level_at(items, i) by {
        assert(linked_at(nodes, i));
        lemma_resolve(nodes, i);
    }
}

/// A record lies no deeper than its position.
pub proof fn lemma_level_bound(items: Seq<InternalNode>, i: int)
    requires
        is_table(items),
        0 <= i < items.len(),
    ensures
        items[i].y_order <= i,
    decreases i,
{
    assert(skeleton(items).parents[i] == as_index(items[i].parent));
    assert(level_at(items, i));
    if let Some(p) = items[i].parent {
        lemma_level_bound(items, p as int);
    }
}

} // verus!
