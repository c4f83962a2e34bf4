//! Planar layout of ordered, rooted trees.
//!
//! Every node of a tree receives a depth and a horizontal centre such that a
//! node lies below its parent, the subtrees of siblings do not overlap, and
//! the children of a node share the span that is centred below it.

pub mod embedder;
pub mod error;
pub mod laws;
pub mod node;
pub mod shape;
pub mod source;
pub mod table;
pub mod visualize;

pub use embedder::Embedder;
pub use error::LayouterError;
pub use node::{EmbeddedNode, Embedding, SourceNode};
pub use source::{SourceTree, Visit};
pub use visualize::{Visualize, VisualizeEmbedder};
