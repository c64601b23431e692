//! Expansion nodes as plain values.
//!
//! A [`Node`] tree may hold unexpanded and expanded nodes side by side: an
//! unexpanded [`Node::Call`] keeps its body as syntax (`Vec<Block>`) until an
//! expander replaces it. The arena-backed [`super::Ast`] is the tree the
//! dispatcher works on; `Node` is the same shape held by value.

use vstd::prelude::*;
use super::block::{Block, CallBlock, NaturalBlock};
use super::error::ErrorNode;
use super::tree::Attr;

verus! {

/// One node of an expansion tree held by value.
#[derive(Debug, PartialEq)]
pub enum Node {
    /// An unexpanded natural block.
    Natural(NaturalBlock),
    /// An unexpanded call; its body is still syntax.
    Call(CallBlock),
    /// An expanded HTML element.
    Element(Element),
    /// Expanded text, not yet escaped.
    Text(String),
    /// A run of siblings: what one block expands into when it becomes several
    /// nodes. It is flattened into its parent.
    Fragment(Vec<Node>),
    /// The final fallback when an expander cannot work; a leaf.
    Error(ErrorNode),
}

/// An HTML element.
#[derive(Debug, PartialEq)]
pub struct Element {
    /// The tag name, e.g. `div`.
    pub tag: String,
    /// The attributes.
    pub attrs: Vec<Attr>,
    /// The children.
    pub children: Vec<Node>,
}

/// The node that a block becomes before anything is expanded.
pub open spec fn spec_seed(block: Block) -> Node {
    match block {
        Block::Natural(natural) => Node::Natural(natural),
        Block::Call(call) => Node::Call(call),
    }
}

impl Node {
    /// Turns one block into a node, one level only: the block stays unexpanded.
    pub fn seed(block: Block) -> (r: Node)
        ensures
            r == spec_seed(block),
    {
        match block {
            Block::Natural(natural) => Node::Natural(natural),
            Block::Call(call) => Node::Call(call),
        }
    }

    /// [`Node::seed`] on each block, in order.
    pub fn seed_all(blocks: Vec<Block>) -> (r: Vec<Node>)
        ensures
            r@ == blocks@.map_values(|b: Block| spec_seed(b)),
    {
        let mut blocks = blocks;
        let ghost all = blocks@;
        let mut out: Vec<Node> = Vec::new();
        while blocks.len() > 0
            invariant
                out@.len() <= all.len(),
                blocks@ == all.skip(out@.len() as int),
                forall|i: int| 0 <= i < out@.len() ==> #[trigger] out@[i] == spec_seed(all[i]),
            decreases blocks@.len(),
        {
            let b = blocks.remove(0);
            out.push(Node::seed(b));
        }
        assert(out@ =~= all.map_values(|b: Block| spec_seed(b)));
        out
    }

    /// Whether this node is still unexpanded.
    pub fn is_unexpanded(&self) -> (r: bool)
        ensures
            r == (self is Natural || self is Call),
    {
        match self {
            Node::Natural(_) | Node::Call(_) => true,
            _ => false,
        }
    }
}

} // verus!
