//! The three passes that lay a tree out.

use crate::error::LayouterError;
use crate::node::{EmbeddedNode, Embedding, InternalNode, SourceNode};
use crate::shape::Shape;
use crate::source::{top_level_count, walk_with_depths, SourceTree, Visit};
use crate::table::{
    as_index, centered_above, centered_in, fits, is_layout_of, is_table,
    label_extent, last_with_id, lemma_last_with_id, lemma_level_bound, lemma_shape_of_tree,
    lemma_table_of_tree, level_at, linked, linked_at, measured, measured_in, moved, places,
    resolve, root_count, shape_of, skeleton, starts, widened,
};
use std::collections::HashMap;
use vstd::prelude::*;
use vstd::std_specs::hash::group_hash_axioms;

verus! {

/// Lays trees out.
pub struct Embedder;

/// `node` is what is laid out for the node that the walk has yielded as
/// `visit`: it has the same identity, parent and depth, and `stringify` and
/// `emphasize` have returned its label and its emphasis for the value of the
/// node.
pub open spec fn described<'a, T, S: Fn(&T) -> String, E: Fn(&T) -> bool>(
    stringify: S,
    emphasize: E,
    visit: Visit<'a, T>,
    node: SourceNode,
) -> bool {
    &&& node.node_id == visit.node_id
    &&& node.parent_id == visit.parent_id
    &&& node.depth == visit.depth
    &&& call_ensures(stringify, (visit.value,), node.text)
    &&& call_ensures(emphasize, (visit.value,), node.is_emphasized)
}

/// `nodes` are what is laid out for the nodes that a walk has yielded, in
/// the order of the walk.
pub open spec fn describes<'a, T, S: Fn(&T) -> String, E: Fn(&T) -> bool>(
    stringify: S,
    emphasize: E,
    walk: Seq<Visit<'a, T>>,
    nodes: Seq<SourceNode>,
) -> bool {
    &&& nodes.len() == walk.len()
    &&& forall|i: int|
        0 <= i < walk.len() ==> described(stringify, emphasize, walk[i], #[trigger] nodes[i])
}

/// `picked` lists, in rising order, exactly the positions below `upto` that
/// `keep` holds of.
spec fn lists(keep: spec_fn(int) -> bool, upto: int, picked: Seq<usize>) -> bool {
    &&& forall|k: int|
        0 <= k < picked.len() ==> (#[trigger] picked[k]) < upto && keep(picked[k] as int)
    &&& forall|a: int, b: int| 0 <= a < b < picked.len() ==> picked[a] < picked[b]
    &&& forall|j: int|
        0 <= j < upto && #[trigger] keep(j) ==> exists|k: int|
            0 <= k < picked.len() && picked[k] == j
}

/// Holds of the positions of the records that lie in `layer`.
spec fn layer_members(items: Seq<InternalNode>, layer: usize) -> spec_fn(int) -> bool {
    |j: int| 0 <= j < items.len() && items[j].y_order == layer
}

/// Holds of the positions of the records that lie in `layer` and have the
/// parent `parent`.
spec fn group_members(items: Seq<InternalNode>, layer: usize, parent: Option<usize>) -> spec_fn(
    int,
) -> bool {
    |j: int| 0 <= j < items.len() && items[j].y_order == layer && items[j].parent == parent
}

/// Where the next child of `parent` starts, once its siblings before
/// `bound` are placed; for the root, which has no parent: 0 before it is
/// placed.
spec fn cursor_at(shape: Shape, parent: Option<int>, bound: int) -> int {
    match parent {
        Some(p) => shape.children_start(p) + shape.children_extent(p)
            - shape.children_extent_from(p, bound),
        None => if bound <= 0 {
            0
        } else {
            shape.width()
        },
    }
}

/// Whether two records have the same parent.
fn same_parent(left: Option<usize>, right: Option<usize>) -> (same: bool)
    ensures
        same == (left == right),
{
    match (left, right) {
        (Some(a), Some(b)) => a == b,
        (None, None) => true,
        _ => false,
    }
}

impl Embedder {
    /// Lays out `tree`, with the label that `stringify` gives for the value
    /// of each node and the emphasis that `emphasize` gives for it. A tree
    /// with more than one node at its top is refused before it is walked.
    /// Otherwise the result is what [`Embedder::embed_nodes`] gives for the
    /// nodes that [`Embedder::source_nodes`] makes of what the walk of the
    /// tree has yielded.
    pub fn embed<'a, T, S, E>(tree: &SourceTree<'a, T>, stringify: S, emphasize: E) -> (result:
        Result<Embedding, LayouterError>) where S: Fn(&T) -> String, E: Fn(&T) -> bool
        requires
            forall|value: &T| call_requires(stringify, (value,)),
            forall|value: &T| call_requires(emphasize, (value,)),
        ensures
            result == Err::<Embedding, LayouterError>(LayouterError::MultipleRoots) || exists|
                walk: Seq<Visit<'a, T>>,
                nodes: Seq<SourceNode>,
            |
                {
                    &&& describes(stringify, emphasize, walk, nodes)
                    &&& is_layout_of(nodes, result)
                },
    {
        if top_level_count(tree) > 1 {
            return Err(LayouterError::MultipleRoots);
        }
        let walk = walk_with_depths(tree);
        let nodes = Self::source_nodes(&walk, stringify, emphasize);
        let ghost walked = nodes@;
        let result = Self::embed_nodes(nodes);
        assert(describes(stringify, emphasize, walk@, walked) && is_layout_of(walked, result));
        result
    }

    /// Makes of each node that a walk has yielded the node to lay out: with
    /// the same identity, parent and depth, the label that `stringify`
    /// returns for its value and the emphasis that `emphasize` returns for
    /// it. Each function is called once for each node, in the order of the
    /// walk.
    pub fn source_nodes<'a, T, S, E>(walk: &Vec<Visit<'a, T>>, stringify: S, emphasize: E) -> (nodes:
        Vec<SourceNode>) where S: Fn(&T) -> String, E: Fn(&T) -> bool
        requires
            forall|value: &T| call_requires(stringify, (value,)),
            forall|value: &T| call_requires(emphasize, (value,)),
        ensures
            describes(stringify, emphasize, walk@, nodes@),
    {
        let mut nodes: Vec<SourceNode> = Vec::with_capacity(walk.len());
        let mut i: usize = 0;
        while i < walk.len()
            invariant
                i <= walk.len(),
                nodes.len() == i,
                forall|value: &T| call_requires(stringify, (value,)),
                forall|value: &T| call_requires(emphasize, (value,)),
                forall|k: int|
                    0 <= k < i ==> described(stringify, emphasize, walk[k], #[trigger] nodes[k]),
            decreases walk.len() - i,
        {
            let visit = &walk[i];
            let text = stringify(visit.value);
            let is_emphasized = emphasize(visit.value);
            nodes.push(
                SourceNode {
                    node_id: visit.node_id,
                    parent_id: visit.parent_id,
                    depth: visit.depth,
                    text,
                    is_emphasized,
                },
            );
            i += 1;
        }
        nodes
    }

    /// Lays out the tree whose pre-order walk yields `nodes`. The layout
    /// holds one record for each node, in the nodes' order: its depth, the
    /// width of its label and of its subtree, and its centre. It fails
    /// where the tree has more than one root, where a node names a parent
    /// that does not come before it or is not one level above it, and where
    /// the layout is too wide for a `usize`.
    pub fn embed_nodes(nodes: Vec<SourceNode>) -> (result: Result<Embedding, LayouterError>)
        ensures
            is_layout_of(nodes@, result),
    {
        let mut items = Self::create_initial_embedding_data(nodes)?;
        let ghost started = items@;
        proof {
            lemma_table_of_tree(nodes@, started);
        }
        match Self::apply_children_x_extents(&mut items) {
            Ok(_) => {},
            Err(error) => {
                return Err(error);
            },
        }
        let ghost widths = items@;
        Self::apply_x_center(&mut items);
        let ghost centres = items@;
        let embedding = Self::transfer_result(items);
        proof {
            let shape = shape_of(nodes@);
            assert forall|i: int| 0 <= i < nodes@.len() implies places(
                nodes@,
                i,
                #[trigger] embedding@[i],
            ) by {
                assert(starts(nodes@, i, started[i]));
                assert(widened(started[i], widths[i]));
                assert(measured_in(shape, widths[i], i));
                assert(moved(widths[i], centres[i]));
                assert(centered_in(shape, centres[i], i));
            }
            if nodes@.len() > 0 {
                assert(measured_in(shape, widths[0], 0));
            }
        }
        Ok(embedding)
    }

    /// Counts the nodes without a parent.
    fn count_roots(nodes: &Vec<SourceNode>) -> (count: usize)
        ensures
            count == root_count(nodes@),
    {
        let mut count: usize = 0;
        let mut i: usize = 0;
        while i < nodes.len()
            invariant
                i <= nodes.len(),
                count <= i,
                count == root_count(nodes@.take(i as int)),
            decreases nodes.len() - i,
        {
            proof {
                assert(nodes@.take(i + 1).drop_last() =~= nodes@.take(i as int));
            }
            if nodes[i].parent_id.is_none() {
                count += 1;
            }
            i += 1;
        }
        proof {
            assert(nodes@.take(nodes.len() as int) =~= nodes@);
        }
        count
    }

    /// Finds the position of every node's parent among the nodes before it,
    /// and checks that the node is one level below it.
    fn resolve_parents(nodes: &Vec<SourceNode>) -> (result: Result<
        Vec<Option<usize>>,
        LayouterError,
    >)
        ensures
            match result {
                Ok(parents) => {
                    &&& linked(nodes@)
                    &&& parents.len() == nodes.len()
                    &&& forall|i: int|
                        0 <= i < nodes.len() ==> as_index(#[trigger] parents[i]) == resolve(
                            nodes@,
                            i,
                        )
                },
                Err(error) => error == LayouterError::InconsistentTree && !linked(nodes@),
            },
    {
        broadcast use group_hash_axioms;

        let mut index: HashMap<usize, usize> = HashMap::with_capacity(nodes.len());
        let mut parents: Vec<Option<usize>> = Vec::with_capacity(nodes.len());
        let mut i: usize = 0;
        while i < nodes.len()
            invariant
                i <= nodes.len(),
                parents.len() == i,
                forall|k: int| 0 <= k < i ==> linked_at(nodes@, k),
                forall|k: int|
                    0 <= k < i ==> as_index(#[trigger] parents[k]) == resolve(nodes@, k),
                forall|id: usize|
                    index@.contains_key(id) <==> last_with_id(nodes@.take(i as int), id) is Some,
                forall|id: usize|
                    index@.contains_key(id) ==> index@[id] as int == last_with_id(
                        nodes@.take(i as int),
                        id,
                    )->0,
            decreases nodes.len() - i,
        {
            let node = &nodes[i];
            let parent = match node.parent_id {
                Some(id) => match index.get(&id) {
                    Some(found) => {
                        let p = *found;
                        proof {
                            lemma_last_with_id(nodes@.take(i as int), id);
                        }
                        if nodes[p].depth == usize::MAX || nodes[p].depth + 1 != node.depth {
                            assert(!linked_at(nodes@, i as int));
                            return Err(LayouterError::InconsistentTree);
                        }
                        Some(p)
                    },
                    None => {
                        assert(!linked_at(nodes@, i as int));
                        return Err(LayouterError::InconsistentTree);
                    },
                },
                None => {
                    if node.depth != 0 {
                        assert(!linked_at(nodes@, i as int));
                        return Err(LayouterError::InconsistentTree);
                    }
                    None
                },
            };
            proof {
                assert(nodes@.take(i + 1).drop_last() =~= nodes@.take(i as int));
            }
            index.insert(node.node_id, i);
            parents.push(parent);
            i += 1;
        }
        Ok(parents)
    }

    /// Makes the record of one node: position, depth, label and the width of
    /// the label; the widths of pass two start at the width of the label and
    /// the centre at 0. There is no record where the width of the label does
    /// not fit in a `usize`.
    fn create_from_node(ord: usize, node: SourceNode, parent: Option<usize>) -> (created: Option<
        InternalNode,
    >)
        ensures
            created is Some <==> label_extent(node.text@) <= usize::MAX,
            created matches Some(item) ==> item == (InternalNode {
                y_order: node.depth,
                x_center: 0,
                x_extent: label_extent(node.text@) as usize,
                x_extent_of_children: label_extent(node.text@) as usize,
                x_extent_children: label_extent(node.text@) as usize,
                text: node.text,
                is_emphasized: node.is_emphasized,
                parent,
                ord,
                node_id: node.node_id,
            }),
    {
        match node.text.as_str().len().checked_add(1) {
            Some(x_extent) => Some(
                InternalNode {
                    y_order: node.depth,
                    x_center: 0,
                    x_extent,
                    x_extent_of_children: x_extent,
                    x_extent_children: x_extent,
                    text: node.text,
                    is_emphasized: node.is_emphasized,
                    parent,
                    ord,
                    node_id: node.node_id,
                },
            ),
            None => None,
        }
    }

    /// Pass one: checks the tree and makes the table of its nodes, in their
    /// order.
    fn create_initial_embedding_data(nodes: Vec<SourceNode>) -> (result: Result<
        Vec<InternalNode>,
        LayouterError,
    >)
        ensures
            match result {
                Ok(items) => {
                    &&& root_count(nodes@) <= 1
                    &&& linked(nodes@)
                    &&& items.len() == nodes.len()
                    &&& forall|i: int| 0 <= i < nodes.len() ==> starts(nodes@, i, #[trigger] items[i])
                },
                Err(LayouterError::MultipleRoots) => root_count(nodes@) > 1,
                Err(LayouterError::InconsistentTree) => root_count(nodes@) <= 1 && !linked(nodes@),
                Err(LayouterError::TooWide) => root_count(nodes@) <= 1 && linked(nodes@) && !fits(
                    nodes@,
                ),
            },
    {
        if Self::count_roots(&nodes) > 1 {
            return Err(LayouterError::MultipleRoots);
        }
        let parents = Self::resolve_parents(&nodes)?;
        let mut items: Vec<InternalNode> = Vec::with_capacity(nodes.len());
        let ghost all = nodes@;
        for node in walk: nodes
            invariant
                walk.seq() == all,
                parents.len() == all.len(),
                items.len() == walk.index(),
                root_count(all) <= 1,
                linked(all),
                forall|i: int| 0 <= i < all.len() ==> as_index(#[trigger] parents[i]) == resolve(all, i),
                forall|i: int| 0 <= i < items.len() ==> starts(all, i, #[trigger] items[i]),
        {
            let ord = items.len();
            match Self::create_from_node(ord, node, parents[ord]) {
                Some(item) => items.push(item),
                None => {
                    proof {
                        let shape = shape_of(all);
                        lemma_shape_of_tree(all);
                        shape.lemma_subtree_covers_label(ord as int);
                        shape.lemma_subtree_within_width(ord as int);
                    }
                    return Err(LayouterError::TooWide);
                },
            }
        }
        Ok(items)
    }

    /// Pass two: gives every record the width of its children together and
    /// the width of its subtree, children before parents. Fails where the
    /// layout is too wide for a `usize`.
    fn apply_children_x_extents(items: &mut Vec<InternalNode>) -> (result: Result<
        (),
        LayouterError,
    >)
        requires
            is_table(old(items)@),
        ensures
            match result {
                Ok(_) => {
                    &&& final(items).len() == old(items).len()
                    &&& forall|i: int|
                        0 <= i < old(items).len() ==> widened(
                            old(items)[i],
                            #[trigger] final(items)[i],
                        )
                    &&& skeleton(final(items)@) == skeleton(old(items)@)
                    &&& is_table(final(items)@)
                    &&& measured(final(items)@)
                },
                Err(error) => error == LayouterError::TooWide && skeleton(old(items)@).width()
                    > usize::MAX,
            },
    {
        let n = items.len();
        let ghost before = items@;
        let ghost shape = skeleton(before);
        let mut sums: Vec<usize> = Vec::with_capacity(n);
        while sums.len() < n
            invariant
                sums.len() <= n,
                forall|p: int| 0 <= p < sums.len() ==> sums[p] == 0,
            decreases n - sums.len(),
        {
            sums.push(0);
        }
        let mut i = n;
        while i > 0
            invariant
                i <= n,
                items.len() == n,
                sums.len() == n,
                before == old(items)@,
                before.len() == n,
                shape == skeleton(before),
                shape.wf(),
                forall|k: int| 0 <= k < n ==> widened(before[k], #[trigger] items[k]),
                forall|k: int| i <= k < n ==> #[trigger] measured_in(shape, items[k], k),
                forall|p: int|
                    0 <= p < n ==> #[trigger] sums[p] == shape.children_extent_from(
                        p,
                        if i > p {
                            i as int
                        } else {
                            p + 1
                        },
                    ),
            decreases i,
        {
            i -= 1;
            let of_children = sums[i];
            let own = items[i].x_extent;
            let extent = if own >= of_children {
                own
            } else {
                of_children
            };
            assert(widened(before[i as int], items[i as int]));
            assert(extent == shape.subtree_extent(i as int));
            let ghost unmeasured = items@;
            items[i].x_extent_of_children = of_children;
            items[i].x_extent_children = extent;
            assert(measured_in(shape, items[i as int], i as int));
            assert forall|k: int| i <= k < n implies #[trigger] measured_in(shape, items[k], k) by {
                if k > i {
                    assert(measured_in(shape, unmeasured[k], k));
                }
            }
            let ghost earlier = sums@;
            match items[i].parent {
                Some(p) => {
                    assert(shape.parents[i as int] == Some(p as int));
                    match sums[p].checked_add(extent) {
                        Some(sum) => {
                            sums[p] = sum;
                        },
                        None => {
                            proof {
                                assert(0 <= p < i);
                                assert(sums[p as int] == shape.children_extent_from(
                                    p as int,
                                    i + 1,
                                ));
                                assert(shape.children_extent_from(p as int, i as int)
                                    == shape.subtree_extent(i as int)
                                    + shape.children_extent_from(p as int, i + 1));
                                shape.lemma_children_extent_from_later(p as int, p + 1, i as int);
                                shape.lemma_subtree_covers_label(p as int);
                                shape.lemma_subtree_within_width(p as int);
                            }
                            return Err(LayouterError::TooWide);
                        },
                    }
                },
                None => {
                    assert(shape.parents[i as int] == None::<int>);
                },
            }
            assert forall|p: int| 0 <= p < n implies #[trigger] sums[p]
                == shape.children_extent_from(
                p,
                if i > p {
                    i as int
                } else {
                    p + 1
                },
            ) by {
                assert(earlier[p] == shape.children_extent_from(
                    p,
                    if i + 1 > p {
                        i + 1
                    } else {
                        p + 1
                    },
                ));
            }
        }
        proof {
            assert(skeleton(items@).parents =~= shape.parents);
            assert(skeleton(items@).extents =~= shape.extents);
            assert forall|k: int| 0 <= k < n implies #[trigger] level_at(items@, k) by {
                assert(widened(before[k], items[k]));
                assert(level_at(before, k));
                assert(shape.parents[k] == as_index(before[k].parent));
                if let Some(p) = before[k].parent {
                    assert(widened(before[p as int], items[p as int]));
                }
            }
        }
        Ok(())
    }

    /// The positions of the records that lie in `layer`, in rising order.
    fn nodes_in_layer(layer: usize, items: &Vec<InternalNode>) -> (picked: Vec<usize>)
        ensures
            lists(layer_members(items@, layer), items.len() as int, picked@),
    {
        let ghost keep = layer_members(items@, layer);
        let mut picked: Vec<usize> = Vec::new();
        let mut ord: usize = 0;
        while ord < items.len()
            invariant
                ord <= items.len(),
                keep == layer_members(items@, layer),
                lists(keep, ord as int, picked@),
            decreases items.len() - ord,
        {
            if items[ord].y_order == layer {
                let ghost earlier = picked@;
                picked.push(ord);
                assert forall|j: int| 0 <= j < ord + 1 && #[trigger] keep(j) implies exists|k: int|
                    0 <= k < picked.len() && picked[k] == j by {
                    if j < ord {
                        let k = choose|k: int| 0 <= k < earlier.len() && earlier[k] == j;
                        assert(picked[k] == j);
                    } else {
                        assert(picked[earlier.len() as int] == j);
                    }
                }
            }
            ord += 1;
        }
        picked
    }

    /// Those of the records of a layer whose parent is `parent`, in rising
    /// order.
    fn nodes_of_parent(
        parent: Option<usize>,
        node_ids_in_layer: &Vec<usize>,
        items: &Vec<InternalNode>,
        Ghost(layer): Ghost<usize>,
    ) -> (picked: Vec<usize>)
        requires
            lists(layer_members(items@, layer), items.len() as int, node_ids_in_layer@),
        ensures
            lists(group_members(items@, layer, parent), items.len() as int, picked@),
    {
        let ghost in_layer = layer_members(items@, layer);
        let ghost keep = group_members(items@, layer, parent);
        let mut picked: Vec<usize> = Vec::new();
        let mut k: usize = 0;
        while k < node_ids_in_layer.len()
            invariant
                k <= node_ids_in_layer.len(),
                in_layer == layer_members(items@, layer),
                keep == group_members(items@, layer, parent),
                lists(in_layer, items.len() as int, node_ids_in_layer@),
                forall|g: int|
                    0 <= g < picked.len() ==> {
                        &&& (#[trigger] picked[g]) < items.len()
                        &&& keep(picked[g] as int)
                        &&& k < node_ids_in_layer.len() ==> picked[g] < node_ids_in_layer[k as int]
                    },
                forall|a: int, b: int| 0 <= a < b < picked.len() ==> picked[a] < picked[b],
                forall|a: int|
                    0 <= a < k && keep(#[trigger] node_ids_in_layer[a] as int) ==> exists|g: int|
                        0 <= g < picked.len() && picked[g] == node_ids_in_layer[a],
            decreases node_ids_in_layer.len() - k,
        {
            let ord = node_ids_in_layer[k];
            assert(in_layer(ord as int));
            let ghost earlier = picked@;
            if same_parent(items[ord].parent, parent) {
                picked.push(ord);
                assert forall|a: int|
                    0 <= a < k + 1 && keep(#[trigger] node_ids_in_layer[a] as int) implies exists|
                    g: int,
                |
                    0 <= g < picked.len() && picked[g] == node_ids_in_layer[a] by {
                    if a < k {
                        let g = choose|g: int|
                            0 <= g < earlier.len() && earlier[g] == node_ids_in_layer[a];
                        assert(picked[g] == node_ids_in_layer[a]);
                    } else {
                        assert(picked[earlier.len() as int] == node_ids_in_layer[a]);
                    }
                }
            }
            k += 1;
        }
        proof {
            assert forall|j: int| 0 <= j < items.len() && #[trigger] keep(j) implies exists|g: int|
                0 <= g < picked.len() && picked[g] == j by {
                assert(in_layer(j));
                let a = choose|a: int|
                    0 <= a < node_ids_in_layer.len() && node_ids_in_layer[a] == j;
                assert(keep(node_ids_in_layer[a] as int));
            }
        }
        picked
    }

    /// Places the children of one parent side by side, starting at the left
    /// edge of the span that they share below their parent; the root starts
    /// at 0.
    fn place_group(
        parent: Option<usize>,
        nodes_in_layer_per_parent: &Vec<usize>,
        items: &mut Vec<InternalNode>,
        Ghost(layer): Ghost<usize>,
    )
        requires
            is_table(old(items)@),
            measured(old(items)@),
            nodes_in_layer_per_parent.len() > 0,
            lists(
                group_members(old(items)@, layer, parent),
                old(items).len() as int,
                nodes_in_layer_per_parent@,
            ),
            parent matches Some(p) ==> p < old(items).len() && centered_in(
                skeleton(old(items)@),
                old(items)[p as int],
                p as int,
            ),
        ensures
            final(items).len() == old(items).len(),
            forall|i: int|
                0 <= i < old(items).len() ==> moved(old(items)[i], #[trigger] final(items)[i]),
            forall|i: int|
                0 <= i < old(items).len() && group_members(old(items)@, layer, parent)(i)
                    ==> #[trigger] centered_in(skeleton(old(items)@), final(items)[i], i),
            forall|i: int|
                0 <= i < old(items).len() && !group_members(old(items)@, layer, parent)(i) ==> (
                #[trigger] final(items)[i]).x_center == old(items)[i].x_center,
    {
        let n = items.len();
        let ghost before = items@;
        let ghost shape = skeleton(before);
        let ghost keep = group_members(before, layer, parent);
        let ghost mut bound: int = match parent {
            Some(p) => p + 1,
            None => 0,
        };
        proof {
            lemma_first_slot(before, layer, parent, nodes_in_layer_per_parent@);
        }
        let mut moving_x_center: usize = match parent {
            Some(p) => items[p].x_center - items[p].x_extent_of_children / 2,
            None => 0,
        };
        let mut g: usize = 0;
        while g < nodes_in_layer_per_parent.len()
            invariant
                g <= nodes_in_layer_per_parent.len(),
                items.len() == n,
                before.len() == n,
                before == old(items)@,
                shape == skeleton(before),
                keep == group_members(before, layer, parent),
                is_table(before),
                measured(before),
                lists(keep, n as int, nodes_in_layer_per_parent@),
                forall|i: int| 0 <= i < n ==> moved(before[i], #[trigger] items[i]),
                forall|i: int|
                    0 <= i < n && !keep(i) ==> (#[trigger] items[i]).x_center
                        == before[i].x_center,
                forall|h: int|
                    0 <= h < g ==> {
                        &&& (#[trigger] nodes_in_layer_per_parent[h]) < bound
                        &&& centered_in(
                            shape,
                            items[nodes_in_layer_per_parent[h] as int],
                            nodes_in_layer_per_parent[h] as int,
                        )
                    },
                parent matches Some(p) ==> p < bound,
                parent is None ==> 0 <= bound,
                g < nodes_in_layer_per_parent.len() ==> bound <= nodes_in_layer_per_parent[g as int],
                moving_x_center == cursor_at(shape, as_index(parent), bound),
            decreases nodes_in_layer_per_parent.len() - g,
        {
            let ord = nodes_in_layer_per_parent[g];
            proof {
                lemma_next_slot(
                    before,
                    layer,
                    parent,
                    nodes_in_layer_per_parent@,
                    g as int,
                    bound,
                );
                assert(moved(before[ord as int], items[ord as int]));
                assert(moved(before[0], items[0]));
            }
            let ghost unplaced = items@;
            items[ord].x_center = moving_x_center + items[ord].x_extent_children / 2;
            moving_x_center += items[ord].x_extent_children;
            proof {
                bound = ord + 1;
                assert(centered_in(shape, items[ord as int], ord as int));
                assert forall|h: int| 0 <= h < g + 1 implies {
                    &&& (#[trigger] nodes_in_layer_per_parent[h]) < bound
                    &&& centered_in(
                        shape,
                        items[nodes_in_layer_per_parent[h] as int],
                        nodes_in_layer_per_parent[h] as int,
                    )
                } by {
                    if h < g {
                        assert(items[nodes_in_layer_per_parent[h] as int]
                            == unplaced[nodes_in_layer_per_parent[h] as int]);
                    }
                }
            }
            g += 1;
        }
        proof {
            assert forall|i: int| 0 <= i < n && keep(i) implies #[trigger] centered_in(
                shape,
                items[i],
                i,
            ) by {
                let h = choose|h: int|
                    0 <= h < nodes_in_layer_per_parent.len() && nodes_in_layer_per_parent[h] == i;
                assert(centered_in(
                    shape,
                    items[nodes_in_layer_per_parent[h] as int],
                    nodes_in_layer_per_parent[h] as int,
                ));
            }
        }
    }

    /// Pass three, for one layer: gives every record of the layer its
    /// centre. The records of one parent are placed side by side from the
    /// left edge of the span that they share below their parent.
    fn x_center_layer(layer: usize, items: &mut Vec<InternalNode>)
        requires
            is_table(old(items)@),
            measured(old(items)@),
            centered_above(old(items)@, layer as int),
        ensures
            final(items).len() == old(items).len(),
            forall|i: int|
                0 <= i < old(items).len() ==> moved(old(items)[i], #[trigger] final(items)[i]),
            forall|i: int|
                0 <= i < old(items).len() && old(items)[i].y_order == layer
                    ==> #[trigger] centered_in(skeleton(old(items)@), final(items)[i], i),
            forall|i: int|
                0 <= i < old(items).len() && old(items)[i].y_order != layer ==> (
                #[trigger] final(items)[i]).x_center == old(items)[i].x_center,
    {
        let n = items.len();
        let ghost before = items@;
        let ghost shape = skeleton(before);
        let node_ids_in_layer = Self::nodes_in_layer(layer, items);

        let mut parents_in_layer: Vec<Option<usize>> = Vec::new();
        let mut k: usize = 0;
        while k < node_ids_in_layer.len()
            invariant
                k <= node_ids_in_layer.len(),
                items@ == before,
                lists(layer_members(before, layer), before.len() as int, node_ids_in_layer@),
                parents_in_layer.len() == k,
                forall|a: int|
                    0 <= a < k ==> #[trigger] parents_in_layer[a]
                        == before[node_ids_in_layer[a] as int].parent,
            decreases node_ids_in_layer.len() - k,
        {
            parents_in_layer.push(items[node_ids_in_layer[k]].parent);
            k += 1;
        }

        let mut t: usize = 0;
        while t < parents_in_layer.len()
            invariant
                t <= parents_in_layer.len(),
                items.len() == n,
                before == old(items)@,
                before.len() == n,
                shape == skeleton(before),
                is_table(before),
                measured(before),
                centered_above(before, layer as int),
                lists(layer_members(before, layer), n as int, node_ids_in_layer@),
                parents_in_layer.len() == node_ids_in_layer.len(),
                forall|a: int|
                    0 <= a < parents_in_layer.len() ==> #[trigger] parents_in_layer[a]
                        == before[node_ids_in_layer[a] as int].parent,
                forall|i: int| 0 <= i < n ==> moved(before[i], #[trigger] items[i]),
                forall|i: int|
                    0 <= i < n && before[i].y_order != layer ==> (#[trigger] items[i]).x_center
                        == before[i].x_center,
                forall|a: int|
                    0 <= a < t ==> centered_in(
                        shape,
                        items[#[trigger] node_ids_in_layer[a] as int],
                        node_ids_in_layer[a] as int,
                    ),
            decreases parents_in_layer.len() - t,
        {
            let p = parents_in_layer[t];
            let ghost current = items@;
            proof {
                lemma_group_ready(before, current, layer, node_ids_in_layer@, t as int);
            }
            let nodes_in_layer_per_parent = Self::nodes_of_parent(
                p,
                &node_ids_in_layer,
                items,
                Ghost(layer),
            );
            proof {
                let child = node_ids_in_layer[t as int] as int;
                assert(group_members(current, layer, p)(child));
            }
            Self::place_group(p, &nodes_in_layer_per_parent, items, Ghost(layer));
            proof {
                assert forall|i: int| 0 <= i < n implies moved(before[i], #[trigger] items[i]) by {
                    assert(moved(before[i], current[i]));
                    assert(moved(current[i], items[i]));
                }
                assert forall|a: int| 0 <= a < t + 1 implies centered_in(
                    shape,
                    items[#[trigger] node_ids_in_layer[a] as int],
                    node_ids_in_layer[a] as int,
                ) by {
                    let i = node_ids_in_layer[a] as int;
                    assert(layer_members(before, layer)(i));
                    assert(moved(before[i], current[i]));
                    if group_members(current, layer, p)(i) {
                        assert(centered_in(skeleton(current), items[i], i));
                    } else {
                        assert(items[i].x_center == current[i].x_center);
                        assert(centered_in(shape, current[i], i));
                    }
                }
                assert forall|i: int|
                    0 <= i < n && before[i].y_order != layer implies (#[trigger] items[i]).x_center
                    == before[i].x_center by {
                    assert(moved(before[i], current[i]));
                    assert(!group_members(current, layer, p)(i));
                }
            }
            t += 1;
        }
        proof {
            assert forall|i: int| 0 <= i < n && before[i].y_order == layer implies #[trigger] centered_in(
                shape,
                items[i],
                i,
            ) by {
                assert(layer_members(before, layer)(i));
                let a = choose|a: int|
                    0 <= a < node_ids_in_layer.len() && node_ids_in_layer[a] == i;
                assert(centered_in(
                    shape,
                    items[node_ids_in_layer[a] as int],
                    node_ids_in_layer[a] as int,
                ));
            }
        }
    }

    /// Pass three: gives every record its centre, layer by layer from the
    /// root down.
    fn apply_x_center(items: &mut Vec<InternalNode>)
        requires
            is_table(old(items)@),
            measured(old(items)@),
        ensures
            final(items).len() == old(items).len(),
            forall|i: int|
                0 <= i < old(items).len() ==> moved(old(items)[i], #[trigger] final(items)[i]),
            forall|i: int|
                0 <= i < old(items).len() ==> #[trigger] centered_in(
                    skeleton(old(items)@),
                    final(items)[i],
                    i,
                ),
    {
        let n = items.len();
        let ghost before = items@;
        let ghost shape = skeleton(before);
        let mut height: usize = 0;
        let mut i: usize = 0;
        while i < n
            invariant
                i <= n,
                items@ == before,
                before.len() == n,
                is_table(before),
                height <= i,
                n > 0 ==> height < n,
                forall|k: int| 0 <= k < i ==> (#[trigger] before[k]).y_order <= height,
            decreases n - i,
        {
            proof {
                lemma_level_bound(before, i as int);
            }
            if items[i].y_order > height {
                height = items[i].y_order;
            }
            i += 1;
        }
        let mut layer: usize = 0;
        while layer <= height
            invariant
                layer <= height + 1,
                height < usize::MAX,
                items.len() == n,
                before == old(items)@,
                before.len() == n,
                shape == skeleton(before),
                is_table(before),
                measured(before),
                forall|k: int| 0 <= k < n ==> (#[trigger] before[k]).y_order <= height,
                forall|k: int| 0 <= k < n ==> moved(before[k], #[trigger] items[k]),
                forall|k: int|
                    0 <= k < n && before[k].y_order < layer ==> #[trigger] centered_in(
                        shape,
                        items[k],
                        k,
                    ),
            decreases height + 1 - layer,
        {
            let ghost current = items@;
            proof {
                lemma_same_table(before, current);
                assert forall|k: int|
                    0 <= k < n && current[k].y_order < layer implies #[trigger] centered_in(
                    skeleton(current),
                    current[k],
                    k,
                ) by {
                    assert(moved(before[k], current[k]));
                    assert(centered_in(shape, items[k], k));
                }
            }
            Self::x_center_layer(layer, items);
            proof {
                assert forall|k: int| 0 <= k < n implies moved(before[k], #[trigger] items[k]) by {
                    assert(moved(before[k], current[k]));
                    assert(moved(current[k], items[k]));
                }
                assert forall|k: int|
                    0 <= k < n && before[k].y_order < layer + 1 implies #[trigger] centered_in(
                    shape,
                    items[k],
                    k,
                ) by {
                    assert(moved(before[k], current[k]));
                    if current[k].y_order == layer {
                        assert(centered_in(skeleton(current), items[k], k));
                    } else {
                        assert(items[k].x_center == current[k].x_center);
                        assert(centered_in(shape, current[k], k));
                    }
                }
            }
            layer += 1;
        }
    }

    /// Turns the table into the layout, record by record.
    fn transfer_result(items: Vec<InternalNode>) -> (embedding: Embedding)
        ensures
            embedding.len() == items.len(),
            forall|i: int| 0 <= i < items.len() ==> #[trigger] embedding[i] == items[i].embedded(),
    {
        let mut embedding: Embedding = Vec::with_capacity(items.len());
        let ghost all = items@;
        for item in table: items
            invariant
                table.seq() == all,
                embedding.len() == table.index(),
                forall|i: int| 0 <= i < embedding.len() ==> #[trigger] embedding[i] == all[i].embedded(),
        {
            embedding.push(EmbeddedNode::from(item));
        }
        embedding
    }
}

/// A table whose records changed in their centres only keeps its shape, its
/// levels and its widths.
proof fn lemma_same_table(before: Seq<InternalNode>, after: Seq<InternalNode>)
    requires
        after.len() == before.len(),
        forall|i: int| 0 <= i < before.len() ==> moved(before[i], #[trigger] after[i]),
    ensures
        skeleton(after) == skeleton(before),
        is_table(before) ==> is_table(after),
        measured(before) ==> measured(after),
{
    assert(skeleton(after).parents =~= skeleton(before).parents);
    assert(skeleton(after).extents =~= skeleton(before).extents);
    if is_table(before) {
        assert forall|i: int| 0 <= i < after.len() implies #[trigger] level_at(after, i) by {
            assert(moved(before[i], after[i]));
            assert(level_at(before, i));
            assert(skeleton(before).parents[i] == as_index(before[i].parent));
            if let Some(p) = after[i].parent {
                assert(moved(before[p as int], after[p as int]));
            }
        }
    }
    if measured(before) {
        assert forall|i: int| 0 <= i < after.len() implies #[trigger] measured_in(
            skeleton(after),
            after[i],
            i,
        ) by {
            assert(moved(before[i], after[i]));
            assert(measured_in(skeleton(before), before[i], i));
        }
    }
}

/// What placing the children of the parent of the record `picked[t]` of a
/// layer starts from: the table is as it was but for centres in the layer,
/// and the parent holds its centre.
proof fn lemma_group_ready(
    before: Seq<InternalNode>,
    current: Seq<InternalNode>,
    layer: usize,
    picked: Seq<usize>,
    t: int,
)
    requires
        is_table(before),
        measured(before),
        centered_above(before, layer as int),
        lists(layer_members(before, layer), before.len() as int, picked),
        0 <= t < picked.len(),
        current.len() == before.len(),
        forall|i: int| 0 <= i < before.len() ==> moved(before[i], #[trigger] current[i]),
        forall|i: int|
            0 <= i < before.len() && before[i].y_order != layer ==> (#[trigger] current[i]).x_center
                == before[i].x_center,
    ensures
        skeleton(current) == skeleton(before),
        is_table(current),
        measured(current),
        lists(layer_members(current, layer), current.len() as int, picked),
        picked[t] < before.len(),
        forall|parent: Option<usize>|
            group_members(current, layer, parent) == group_members(before, layer, parent),
        before[picked[t] as int].parent matches Some(p) ==> p < current.len() && centered_in(
            skeleton(current),
            current[p as int],
            p as int,
        ),
{
    lemma_same_table(before, current);
    assert forall|j: int| #[trigger]
        layer_members(current, layer)(j) == layer_members(before, layer)(j) by {
        if 0 <= j < before.len() {
            assert(moved(before[j], current[j]));
        }
    }
    assert(layer_members(current, layer) =~= layer_members(before, layer));
    assert forall|parent: Option<usize>|
        group_members(current, layer, parent) == group_members(before, layer, parent) by {
        assert forall|j: int| #[trigger]
            group_members(current, layer, parent)(j) == group_members(before, layer, parent)(
                j,
            ) by {
            if 0 <= j < before.len() {
                assert(moved(before[j], current[j]));
            }
        }
        assert(group_members(current, layer, parent) =~= group_members(before, layer, parent));
    }
    let child = picked[t] as int;
    assert(layer_members(before, layer)(child));
    if let Some(p) = before[child].parent {
        assert(skeleton(before).parents[child] == Some(p as int));
        assert(level_at(before, child));
        assert(centered_in(skeleton(before), before[p as int], p as int));
        assert(moved(before[p as int], current[p as int]));
    }
}

/// Before the first child of a parent is placed, the cursor stands at the
/// left edge of the span that the children share, which is not left of 0.
proof fn lemma_first_slot(
    items: Seq<InternalNode>,
    layer: usize,
    parent: Option<usize>,
    picked: Seq<usize>,
)
    requires
        is_table(items),
        measured(items),
        picked.len() > 0,
        lists(group_members(items, layer, parent), items.len() as int, picked),
        parent matches Some(p) ==> p < items.len() && centered_in(
            skeleton(items),
            items[p as int],
            p as int,
        ),
    ensures
        match parent {
            Some(p) => {
                &&& p < picked[0]
                &&& items[p as int].x_center - items[p as int].x_extent_of_children / 2
                    == cursor_at(skeleton(items), Some(p as int), p + 1)
                &&& 0 <= cursor_at(skeleton(items), Some(p as int), p + 1)
            },
            None => 0 <= picked[0] && cursor_at(skeleton(items), None, 0) == 0,
        },
{
    let shape = skeleton(items);
    let first = picked[0] as int;
    assert(group_members(items, layer, parent)(first));
    assert(shape.parents[first] == as_index(parent));
    if let Some(p) = parent {
        assert(measured_in(shape, items[p as int], p as int));
        shape.lemma_slot_bounds(p as int);
        shape.lemma_extent_order(p as int);
    }
}

/// The cursor stands at the left edge of the span of the next child to
/// place, and after that child at its right edge, which is within the width
/// of the layout.
proof fn lemma_next_slot(
    items: Seq<InternalNode>,
    layer: usize,
    parent: Option<usize>,
    picked: Seq<usize>,
    g: int,
    bound: int,
)
    requires
        is_table(items),
        measured(items),
        lists(group_members(items, layer, parent), items.len() as int, picked),
        0 <= g < picked.len(),
        forall|h: int| 0 <= h < g ==> (#[trigger] picked[h]) < bound,
        bound <= picked[g],
        parent matches Some(p) ==> p < bound,
        parent is None ==> 0 <= bound,
    ensures
        picked[g] < items.len(),
        cursor_at(skeleton(items), as_index(parent), bound) == skeleton(items).slot_start(
            picked[g] as int,
        ),
        cursor_at(skeleton(items), as_index(parent), picked[g] + 1) == skeleton(items).slot_end(
            picked[g] as int,
        ),
        0 <= skeleton(items).slot_start(picked[g] as int),
        skeleton(items).slot_end(picked[g] as int) <= items[0].x_extent_children,
        items[picked[g] as int].x_extent_children == skeleton(items).subtree_extent(
            picked[g] as int,
        ),
        g + 1 < picked.len() ==> picked[g] + 1 <= picked[g + 1],
{
    let shape = skeleton(items);
    let keep = group_members(items, layer, parent);
    let ord = picked[g] as int;
    assert(keep(ord));
    assert(shape.parents[ord] == as_index(parent));
    assert(measured_in(shape, items[ord], ord));
    assert(measured_in(shape, items[0], 0));
    shape.lemma_slot_bounds(ord);
    match parent {
        Some(p) => {
            let po = p as int;
            assert forall|j: int| bound <= j < ord && j < shape.len() implies shape.parents[j]
                != Some(po) by {
                if shape.parents[j] == Some(po) {
                    assert(items[j].parent == parent);
                    assert(level_at(items, j));
                    assert(level_at(items, ord));
                    assert(keep(j));
                    let h = choose|h: int| 0 <= h < picked.len() && picked[h] == j;
                    if h < g {
                        assert(picked[h] < bound);
                    } else if h > g {
                        assert(picked[g] < picked[h]);
                    }
                }
            }
            shape.lemma_children_extent_from_later(po, bound, ord);
            shape.lemma_child_slot(ord);
        },
        None => {
            assert(ord == 0);
        },
    }
}

} // verus!
