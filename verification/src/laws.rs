//! What holds of every layout.

use crate::error::LayouterError;
use crate::node::{EmbeddedNode, Embedding, SourceNode};
use crate::table::{
    as_index, is_layout_of, lays_out, lemma_resolve, lemma_shape_of_tree, linked_at, places,
    shape_of,
};
use vstd::prelude::*;

verus! {

/// The parent of a node comes before it in the layout and lies one level
/// above it. The first node is the only one without a parent, and lies at
/// level 0.
pub proof fn lemma_levels(nodes: Seq<SourceNode>, embedding: Seq<EmbeddedNode>)
    requires
        lays_out(nodes, embedding),
    ensures
        forall|i: int|
            0 <= i < embedding.len() ==> match (#[trigger] embedding[i]).parent {
                Some(p) => p < i && embedding[i].y_order == embedding[p as int].y_order + 1,
                None => i == 0 && embedding[i].y_order == 0,
            },
{
    lemma_shape_of_tree(nodes);
    assert forall|i: int| 0 <= i < embedding.len() implies match (#[trigger] embedding[i]).parent {
        Some(p) => p < i && embedding[i].y_order == embedding[p as int].y_order + 1,
        None => i == 0 && embedding[i].y_order == 0,
    } by {
        assert(places(nodes, i, embedding[i]));
        assert(linked_at(nodes, i));
        lemma_resolve(nodes, i);
        assert(shape_of(nodes).parents[i] == as_index(embedding[i].parent));
        if let Some(p) = embedding[i].parent {
            assert(places(nodes, p as int, embedding[p as int]));
        }
    }
}

/// The width that the subtrees of those children of `parent` have together
/// in a layout that stand at `from` or after it.
pub open spec fn children_width(embedding: Seq<EmbeddedNode>, parent: int, from: int) -> int
    decreases embedding.len() - from,
{
    if 0 <= parent < from < embedding.len() {
        (if as_index(embedding[from].parent) == Some(parent) {
            embedding[from].x_extent_children as int
        } else {
            0
        }) + children_width(embedding, parent, from + 1)
    } else {
        0
    }
}

/// The widths of the subtrees of the children of a node add up in the
/// layout to what they add up to in the model.
pub proof fn lemma_children_width(
    nodes: Seq<SourceNode>,
    embedding: Seq<EmbeddedNode>,
    parent: int,
    from: int,
)
    requires
        lays_out(nodes, embedding),
    ensures
        children_width(embedding, parent, from) == shape_of(nodes).children_extent_from(
            parent,
            from,
        ),
    decreases embedding.len() - from,
{
    if 0 <= parent < from < embedding.len() {
        assert(places(nodes, from, embedding[from]));
        lemma_children_width(nodes, embedding, parent, from + 1);
    }
}

/// The width reserved for a subtree is the width of the label of its root
/// or the width that the subtrees of the root's children have together,
/// whichever is larger; a label has a width of at least 1.
pub proof fn lemma_widths(nodes: Seq<SourceNode>, embedding: Seq<EmbeddedNode>, i: int)
    requires
        lays_out(nodes, embedding),
        0 <= i < embedding.len(),
    ensures
        1 <= embedding[i].x_extent <= embedding[i].x_extent_children,
        0 <= children_width(embedding, i, i + 1) <= embedding[i].x_extent_children,
        embedding[i].x_extent_children == embedding[i].x_extent || embedding[i].x_extent_children
            == children_width(embedding, i, i + 1),
{
    lemma_shape_of_tree(nodes);
    lemma_children_width(nodes, embedding, i, i + 1);
    assert(places(nodes, i, embedding[i]));
    shape_of(nodes).lemma_extent_order(i);
}

/// The spans of two children of one parent do not overlap: the centre of
/// the earlier child plus half the width of its subtree is not right of the
/// centre of the later child minus half the width of its subtree.
pub proof fn lemma_siblings_do_not_overlap(
    nodes: Seq<SourceNode>,
    embedding: Seq<EmbeddedNode>,
    a: int,
    b: int,
)
    requires
        lays_out(nodes, embedding),
        0 <= a < b < embedding.len(),
        embedding[a].parent == embedding[b].parent,
    ensures
        embedding[a].x_center + embedding[a].x_extent_children / 2 <= embedding[b].x_center
            - embedding[b].x_extent_children / 2,
{
    lemma_shape_of_tree(nodes);
    let shape = shape_of(nodes);
    assert(places(nodes, a, embedding[a]));
    assert(places(nodes, b, embedding[b]));
    shape.lemma_siblings_apart(a, b);
    shape.lemma_extent_order(a);
    shape.lemma_extent_order(b);
}

/// The centre of a child is no farther from the centre of its parent than
/// half the width that the subtrees of the parent's children have together,
/// which is no more than the width of the subtree of the parent.
pub proof fn lemma_child_below_parent(
    nodes: Seq<SourceNode>,
    embedding: Seq<EmbeddedNode>,
    child: int,
)
    requires
        lays_out(nodes, embedding),
        0 <= child < embedding.len(),
        embedding[child].parent is Some,
    ensures
        ({
            let parent = embedding[child].parent->0 as int;
            let span = children_width(embedding, parent, parent + 1);
            &&& 0 <= parent < child
            &&& embedding[parent].x_center - span / 2 <= embedding[child].x_center
                <= embedding[parent].x_center + span / 2
            &&& span <= embedding[parent].x_extent_children
        }),
{
    lemma_shape_of_tree(nodes);
    let shape = shape_of(nodes);
    assert(places(nodes, child, embedding[child]));
    let parent = embedding[child].parent->0 as int;
    assert(shape.parents[child] == Some(parent));
    assert(places(nodes, parent, embedding[parent]));
    shape.lemma_child_near_parent(child);
    shape.lemma_extent_order(parent);
    lemma_children_width(nodes, embedding, parent, parent + 1);
}

/// Every centre lies within the width of the layout, which is the width of
/// the subtree of the first node.
pub proof fn lemma_within_width(nodes: Seq<SourceNode>, embedding: Seq<EmbeddedNode>, i: int)
    requires
        lays_out(nodes, embedding),
        0 <= i < embedding.len(),
    ensures
        embedding[i].x_center + (embedding[i].x_extent_children - embedding[i].x_extent_children
            / 2) <= embedding[0].x_extent_children,
        embedding[i].x_extent_children / 2 <= embedding[i].x_center,
{
    lemma_shape_of_tree(nodes);
    let shape = shape_of(nodes);
    assert(places(nodes, i, embedding[i]));
    assert(places(nodes, 0, embedding[0]));
    shape.lemma_slot_bounds(i);
}

/// Laying out the same nodes twice gives the same: two results for the
/// same nodes are the same error, or layouts that hold the same records.
pub proof fn lemma_layout_is_unique(
    nodes: Seq<SourceNode>,
    first: Result<Embedding, LayouterError>,
    second: Result<Embedding, LayouterError>,
)
    requires
        is_layout_of(nodes, first),
        is_layout_of(nodes, second),
    ensures
        match (first, second) {
            (Ok(a), Ok(b)) => a@ == b@,
            (Err(a), Err(b)) => a == b,
            _ => false,
        },
{
    if let (Ok(a), Ok(b)) = (first, second) {
        assert forall|i: int| 0 <= i < a@.len() implies a@[i] == b@[i] by {
            assert(places(nodes, i, a@[i]));
            assert(places(nodes, i, b@[i]));
        }
        assert(a@ =~= b@);
    }
}

} // verus!
