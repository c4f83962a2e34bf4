use syntree_layout::embedder::Embedder;
use syntree_layout::error::LayouterError;
use syntree_layout::node::{EmbeddedNode, SourceNode};

fn node(node_id: usize, parent_id: Option<usize>, depth: usize, text: &str) -> SourceNode {
    SourceNode {
        node_id,
        parent_id,
        depth,
        text: text.to_string(),
        is_emphasized: false,
    }
}

fn centers(embedding: &[EmbeddedNode]) -> Vec<usize> {
    embedding.iter().map(|e| e.x_center).collect()
}

fn widths(embedding: &[EmbeddedNode]) -> Vec<usize> {
    embedding.iter().map(|e| e.x_extent_children).collect()
}

fn sample() -> Vec<SourceNode> {
    // root
    //   alpha
    //     a1
    //     a2
    //   b
    //   gamma
    //     g1
    //       deepest leaf
    vec![
        node(10, None, 0, "root"),
        node(11, Some(10), 1, "alpha"),
        node(12, Some(11), 2, "a1"),
        node(13, Some(11), 2, "a2"),
        node(14, Some(10), 1, "b"),
        node(15, Some(10), 1, "gamma"),
        node(16, Some(15), 2, "g1"),
        node(17, Some(16), 3, "deepest leaf"),
    ]
}

#[test]
fn root_with_two_children() {
    let nodes = vec![node(0, None, 0, "A"), node(1, Some(0), 1, "B"), node(2, Some(0), 1, "CC")];
    let embedding = Embedder::embed_nodes(nodes).unwrap();
    assert_eq!(embedding.len(), 3);
    assert_eq!(
        embedding.iter().map(|e| e.y_order).collect::<Vec<_>>(),
        vec![0, 1, 1]
    );
    assert_eq!(
        embedding.iter().map(|e| e.x_extent).collect::<Vec<_>>(),
        vec![2, 2, 3]
    );
    assert_eq!(widths(&embedding), vec![5, 2, 3]);
    // The root is centred in its span of 5. Its children share a span of 5
    // that starts at 2 - 5 / 2 = 0.
    assert_eq!(centers(&embedding), vec![2, 1, 3]);
    assert_eq!(
        embedding.iter().map(|e| e.parent).collect::<Vec<_>>(),
        vec![None, Some(0), Some(0)]
    );
    assert_eq!(
        embedding.iter().map(|e| e.ord).collect::<Vec<_>>(),
        vec![0, 1, 2]
    );
}

#[test]
fn single_root() {
    let embedding = Embedder::embed_nodes(vec![node(7, None, 0, "root")]).unwrap();
    assert_eq!(embedding.len(), 1);
    assert_eq!(
        embedding[0],
        EmbeddedNode {
            y_order: 0,
            x_center: 2,
            x_extent: 5,
            x_extent_children: 5,
            text: "root".to_string(),
            is_emphasized: false,
            parent: None,
            ord: 0,
            node_id: 7,
        }
    );
    assert_eq!(embedding[0].x_center, embedding[0].x_extent / 2);
}

#[test]
fn empty_label() {
    let embedding = Embedder::embed_nodes(vec![node(0, None, 0, "")]).unwrap();
    assert_eq!(embedding[0].x_extent, 1);
    assert_eq!(embedding[0].x_extent_children, 1);
    assert_eq!(embedding[0].x_center, 0);
}

#[test]
fn no_nodes() {
    assert_eq!(Embedder::embed_nodes(Vec::new()), Ok(Vec::new()));
}

#[test]
fn two_roots_are_refused() {
    let nodes = vec![node(0, None, 0, "A"), node(1, None, 0, "B")];
    assert_eq!(Embedder::embed_nodes(nodes), Err(LayouterError::MultipleRoots));
}

#[test]
fn two_roots_are_refused_before_anything_else() {
    let nodes = vec![node(0, None, 0, "A"), node(1, Some(9), 1, "B"), node(2, None, 0, "C")];
    assert_eq!(Embedder::embed_nodes(nodes), Err(LayouterError::MultipleRoots));
}

#[test]
fn unknown_parent_is_refused() {
    let nodes = vec![node(0, None, 0, "A"), node(1, Some(9), 1, "B")];
    assert_eq!(Embedder::embed_nodes(nodes), Err(LayouterError::InconsistentTree));
}

#[test]
fn parent_after_child_is_refused() {
    let nodes = vec![node(0, None, 0, "A"), node(1, Some(2), 2, "B"), node(2, Some(0), 1, "C")];
    assert_eq!(Embedder::embed_nodes(nodes), Err(LayouterError::InconsistentTree));
}

#[test]
fn first_node_with_parent_is_refused() {
    let nodes = vec![node(0, Some(0), 1, "A")];
    assert_eq!(Embedder::embed_nodes(nodes), Err(LayouterError::InconsistentTree));
}

#[test]
fn wrong_depth_is_refused() {
    let nodes = vec![node(0, None, 0, "A"), node(1, Some(0), 2, "B")];
    assert_eq!(Embedder::embed_nodes(nodes), Err(LayouterError::InconsistentTree));
    let nodes = vec![node(0, None, 1, "A")];
    assert_eq!(Embedder::embed_nodes(nodes), Err(LayouterError::InconsistentTree));
    let nodes = vec![node(0, None, 0, "A"), node(1, Some(0), 0, "B")];
    assert_eq!(Embedder::embed_nodes(nodes), Err(LayouterError::InconsistentTree));
}

#[test]
fn depth_at_the_limit_is_refused() {
    let nodes = vec![node(0, None, 0, "A"), node(1, Some(0), usize::MAX, "B"), node(2, Some(1), 0, "C")];
    assert_eq!(Embedder::embed_nodes(nodes), Err(LayouterError::InconsistentTree));
}

#[test]
fn parent_is_the_last_node_with_the_identity() {
    // Two nodes share the identity 1; the child belongs to the later one.
    let nodes = vec![
        node(0, None, 0, "r"),
        node(1, Some(0), 1, "x"),
        node(1, Some(1), 2, "y"),
        node(3, Some(1), 3, "z"),
    ];
    let embedding = Embedder::embed_nodes(nodes).unwrap();
    assert_eq!(embedding[3].parent, Some(2));
    assert_eq!(embedding[2].parent, Some(1));
}

#[test]
fn label_wider_than_children() {
    let nodes = vec![
        node(0, None, 0, "a very long label"),
        node(1, Some(0), 1, "x"),
        node(2, Some(0), 1, "y"),
    ];
    let embedding = Embedder::embed_nodes(nodes).unwrap();
    assert_eq!(widths(&embedding), vec![18, 2, 2]);
    // The children share a span of 4 that starts at 9 - 4 / 2 = 7.
    assert_eq!(centers(&embedding), vec![9, 8, 10]);
}

#[test]
fn label_width_counts_bytes() {
    let embedding = Embedder::embed_nodes(vec![node(0, None, 0, "äö")]).unwrap();
    assert_eq!(embedding[0].x_extent, 5);
}

#[test]
fn sample_tree_widths_and_centers() {
    let embedding = Embedder::embed_nodes(sample()).unwrap();
    assert_eq!(
        embedding.iter().map(|e| e.y_order).collect::<Vec<_>>(),
        vec![0, 1, 2, 2, 1, 1, 2, 3]
    );
    assert_eq!(
        embedding.iter().map(|e| e.x_extent).collect::<Vec<_>>(),
        vec![5, 6, 3, 3, 2, 6, 3, 13]
    );
    // alpha: max(6, 3 + 3); gamma: max(6, 13); root: max(5, 6 + 2 + 13).
    assert_eq!(widths(&embedding), vec![21, 6, 3, 3, 2, 13, 13, 13]);
    // root: 21 / 2 = 10; its children start at 10 - 21 / 2 = 0.
    // alpha: 0 + 6 / 2 = 3; b: 6 + 2 / 2 = 7; gamma: 8 + 13 / 2 = 14.
    // a1, a2 start at 3 - 6 / 2 = 0: 0 + 1 = 1 and 3 + 1 = 4.
    // g1 starts at 14 - 13 / 2 = 8: 8 + 6 = 14; the leaf below it likewise.
    assert_eq!(centers(&embedding), vec![10, 3, 1, 4, 7, 14, 14, 14]);
    assert_eq!(
        embedding.iter().map(|e| e.parent).collect::<Vec<_>>(),
        vec![None, Some(0), Some(1), Some(1), Some(0), Some(0), Some(5), Some(6)]
    );
    assert_eq!(
        embedding.iter().map(|e| e.node_id).collect::<Vec<_>>(),
        vec![10, 11, 12, 13, 14, 15, 16, 17]
    );
}

#[test]
fn children_lie_one_level_below_their_parent() {
    let embedding = Embedder::embed_nodes(sample()).unwrap();
    for (i, e) in embedding.iter().enumerate() {
        match e.parent {
            Some(p) => {
                assert!(p < i);
                assert_eq!(e.y_order, embedding[p].y_order + 1);
            }
            None => {
                assert_eq!(i, 0);
                assert_eq!(e.y_order, 0);
            }
        }
    }
}

#[test]
fn subtree_is_as_wide_as_label_and_children() {
    let embedding = Embedder::embed_nodes(sample()).unwrap();
    for (i, e) in embedding.iter().enumerate() {
        let of_children: usize = embedding
            .iter()
            .filter(|c| c.parent == Some(i))
            .map(|c| c.x_extent_children)
            .sum();
        assert!(e.x_extent >= 1);
        assert!(e.x_extent_children >= e.x_extent);
        assert!(e.x_extent_children >= of_children);
        assert_eq!(e.x_extent_children, e.x_extent.max(of_children));
    }
}

#[test]
fn siblings_do_not_overlap() {
    let embedding = Embedder::embed_nodes(sample()).unwrap();
    for a in 0..embedding.len() {
        for b in a + 1..embedding.len() {
            if embedding[a].parent == embedding[b].parent {
                assert!(
                    embedding[a].x_center + embedding[a].x_extent_children / 2
                        <= embedding[b].x_center - embedding[b].x_extent_children / 2
                );
            }
        }
    }
}

#[test]
fn children_lie_below_the_span_of_their_parent() {
    let embedding = Embedder::embed_nodes(sample()).unwrap();
    for (i, e) in embedding.iter().enumerate() {
        if let Some(p) = e.parent {
            let span: usize = embedding
                .iter()
                .filter(|c| c.parent == Some(p))
                .map(|c| c.x_extent_children)
                .sum();
            let parent = &embedding[p];
            assert!(parent.x_center - span / 2 <= e.x_center);
            assert!(e.x_center <= parent.x_center + span / 2);
        }
        assert!(e.x_center + (e.x_extent_children - e.x_extent_children / 2) <= embedding[0].x_extent_children);
        assert!(e.x_extent_children / 2 <= e.x_center, "node {i}");
    }
}

#[test]
fn laying_out_twice_gives_the_same() {
    assert_eq!(Embedder::embed_nodes(sample()), Embedder::embed_nodes(sample()));
    let broken = vec![node(0, None, 0, "A"), node(1, Some(5), 1, "B")];
    assert_eq!(Embedder::embed_nodes(broken.clone()), Embedder::embed_nodes(broken));
}

#[test]
fn emphasis_and_text_are_kept() {
    let mut nodes = sample();
    nodes[4].is_emphasized = true;
    let embedding = Embedder::embed_nodes(nodes).unwrap();
    assert_eq!(
        embedding.iter().map(|e| e.is_emphasized).collect::<Vec<_>>(),
        vec![false, false, false, false, true, false, false, false]
    );
    assert_eq!(embedding[7].text, "deepest leaf");
    assert_eq!(embedding[0].text, "root");
}

#[test]
fn error_descriptions() {
    assert_eq!(LayouterError::MultipleRoots.description(), "only one root is supported");
    assert_eq!(
        LayouterError::InconsistentTree.description(),
        "a node was not found one level below its parent"
    );
    assert_eq!(LayouterError::TooWide.description(), "the tree is too wide to be laid out");
}
