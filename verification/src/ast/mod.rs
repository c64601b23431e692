//! The shapes of blocks and of the expansion tree.
//!
//! Parsing produces [`Block`]s; expansion turns them into a tree of [`NodeKind`]s.
//! Nothing here depends on the parser.

pub mod arena;
pub mod block;
pub mod chain;
pub mod error;
pub mod node;
pub mod params;
pub mod span;
pub mod tree;

pub use block::{Block, BlockV, CallBlock, NaturalBlock};
pub use error::{ErrorKind, ErrorNode};
pub use node::{Element, Node};
pub use params::Params;
pub use span::Span;
pub use arena::Entry;
pub use tree::{Ast, Attr, KindTag, NodeKind};
