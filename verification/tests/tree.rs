use syntree::{Builder, Tree};
use syntree_layout::{
    EmbeddedNode, Embedder, LayouterError, SourceNode, SourceTree, Visit, Visualize,
    VisualizeEmbedder,
};

struct Label(&'static str, bool);

impl Visualize for Label {
    fn visualize(&self) -> String {
        self.0.to_string()
    }

    fn emphasize(&self) -> bool {
        self.1
    }
}

fn abc() -> Tree<&'static str, u32, usize> {
    let mut builder = Builder::new();
    builder.open("A").unwrap();
    builder.token("B", 1).unwrap();
    builder.token("CC", 2).unwrap();
    builder.close().unwrap();
    builder.build().unwrap()
}

fn text_of(value: &&'static str) -> String {
    value.to_string()
}

fn long_label(value: &&'static str) -> bool {
    value.len() > 1
}

#[test]
fn tree_with_two_children() {
    let tree = abc();
    let embedding = Embedder::embed(&SourceTree { tree: &tree }, text_of, long_label).unwrap();
    assert_eq!(
        embedding,
        vec![
            EmbeddedNode {
                y_order: 0,
                x_center: 2,
                x_extent: 2,
                x_extent_children: 5,
                text: "A".to_string(),
                is_emphasized: false,
                parent: None,
                ord: 0,
                node_id: 0,
            },
            EmbeddedNode {
                y_order: 1,
                x_center: 1,
                x_extent: 2,
                x_extent_children: 2,
                text: "B".to_string(),
                is_emphasized: false,
                parent: Some(0),
                ord: 1,
                node_id: 1,
            },
            EmbeddedNode {
                y_order: 1,
                x_center: 3,
                x_extent: 3,
                x_extent_children: 3,
                text: "CC".to_string(),
                is_emphasized: true,
                parent: Some(0),
                ord: 2,
                node_id: 2,
            },
        ]
    );
}

#[test]
fn tree_gives_what_its_nodes_give() {
    let tree = abc();
    let from_tree = Embedder::embed(&SourceTree { tree: &tree }, text_of, long_label);
    let from_nodes = Embedder::embed_nodes(vec![
        SourceNode { node_id: 0, parent_id: None, depth: 0, text: "A".to_string(), is_emphasized: false },
        SourceNode { node_id: 1, parent_id: Some(0), depth: 1, text: "B".to_string(), is_emphasized: false },
        SourceNode { node_id: 2, parent_id: Some(0), depth: 1, text: "CC".to_string(), is_emphasized: true },
    ]);
    assert_eq!(from_tree, from_nodes);
}

#[test]
fn tree_with_one_node() {
    let mut builder = Builder::new();
    builder.open("root").unwrap();
    builder.close().unwrap();
    let tree: Tree<&'static str, u32, usize> = builder.build().unwrap();
    let embedding = Embedder::embed(&SourceTree { tree: &tree }, text_of, long_label).unwrap();
    assert_eq!(embedding.len(), 1);
    assert_eq!(embedding[0].y_order, 0);
    assert_eq!(embedding[0].x_extent, 5);
    assert_eq!(embedding[0].x_center, embedding[0].x_extent / 2);
    assert_eq!(embedding[0].x_center, 2);
}

#[test]
fn tree_with_two_roots_is_refused() {
    let mut builder = Builder::new();
    builder.open("A").unwrap();
    builder.close().unwrap();
    builder.open("B").unwrap();
    builder.close().unwrap();
    let tree: Tree<&'static str, u32, usize> = builder.build().unwrap();
    assert_eq!(
        Embedder::embed(&SourceTree { tree: &tree }, text_of, long_label),
        Err(LayouterError::MultipleRoots)
    );
}

#[test]
fn empty_tree() {
    let builder: Builder<&'static str, u32, usize> = Builder::new();
    let tree = builder.build().unwrap();
    assert_eq!(
        Embedder::embed(&SourceTree { tree: &tree }, text_of, long_label),
        Ok(Vec::new())
    );
}

#[test]
fn tree_with_a_parent_inserted_later() {
    // The root is inserted above its children after they were added, so its
    // identity is the highest, though the walk meets it first.
    let mut builder = Builder::new();
    let checkpoint = builder.checkpoint().unwrap();
    builder.token("x", 1).unwrap();
    builder.open("inner").unwrap();
    builder.token("y", 1).unwrap();
    builder.close().unwrap();
    builder.close_at(&checkpoint, "root").unwrap();
    let tree: Tree<&'static str, u32, usize> = builder.build().unwrap();
    let embedding = Embedder::embed(&SourceTree { tree: &tree }, text_of, long_label).unwrap();
    assert_eq!(
        embedding.iter().map(|e| e.text.as_str()).collect::<Vec<_>>(),
        vec!["root", "x", "inner", "y"]
    );
    assert_eq!(
        embedding.iter().map(|e| e.y_order).collect::<Vec<_>>(),
        vec![0, 1, 1, 2]
    );
    assert_eq!(
        embedding.iter().map(|e| e.parent).collect::<Vec<_>>(),
        vec![None, Some(0), Some(0), Some(2)]
    );
    assert_eq!(
        embedding.iter().map(|e| e.x_extent_children).collect::<Vec<_>>(),
        vec![8, 2, 6, 2]
    );
    // root: 8 / 2 = 4; x: 0 + 1; inner: 2 + 3; y starts at 5 - 2 / 2 = 4.
    assert_eq!(
        embedding.iter().map(|e| e.x_center).collect::<Vec<_>>(),
        vec![4, 1, 5, 5]
    );
    assert_eq!(embedding[0].node_id, 3);
}

#[test]
fn embedding_a_tree_twice_gives_the_same() {
    let tree = abc();
    let source = SourceTree { tree: &tree };
    assert_eq!(
        Embedder::embed(&source, text_of, long_label),
        Embedder::embed(&source, text_of, long_label)
    );
}

#[test]
fn values_say_how_they_are_displayed() {
    let mut builder = Builder::new();
    builder.open(Label("sum", true)).unwrap();
    builder.token(Label("1", false), 1).unwrap();
    builder.token(Label("22", false), 2).unwrap();
    builder.close().unwrap();
    let tree = builder.build().unwrap();
    let embedding = VisualizeEmbedder::embed(&SourceTree { tree: &tree }).unwrap();
    assert_eq!(
        embedding.iter().map(|e| e.text.as_str()).collect::<Vec<_>>(),
        vec!["sum", "1", "22"]
    );
    assert_eq!(
        embedding.iter().map(|e| e.is_emphasized).collect::<Vec<_>>(),
        vec![true, false, false]
    );
    assert_eq!(
        embedding.iter().map(|e| e.x_center).collect::<Vec<_>>(),
        vec![2, 1, 3]
    );
}

#[test]
fn values_with_two_roots_are_refused() {
    let mut builder = Builder::new();
    builder.token(Label("a", false), 1).unwrap();
    builder.token(Label("b", false), 1).unwrap();
    let tree = builder.build().unwrap();
    assert_eq!(
        VisualizeEmbedder::embed(&SourceTree { tree: &tree }),
        Err(LayouterError::MultipleRoots)
    );
}

#[test]
fn nodes_of_a_walk() {
    let (a, b) = ("first", "b");
    let walk = vec![
        Visit { depth: 0, node_id: 4, parent_id: None, value: &a },
        Visit { depth: 1, node_id: 2, parent_id: Some(4), value: &b },
    ];
    assert_eq!(
        Embedder::source_nodes(&walk, text_of, long_label),
        vec![
            SourceNode { node_id: 4, parent_id: None, depth: 0, text: "first".to_string(), is_emphasized: true },
            SourceNode { node_id: 2, parent_id: Some(4), depth: 1, text: "b".to_string(), is_emphasized: false },
        ]
    );
}

#[test]
fn nodes_of_an_empty_walk() {
    let walk: Vec<Visit<&'static str>> = Vec::new();
    assert_eq!(Embedder::source_nodes(&walk, text_of, long_label), Vec::new());
}
