//! Blocks: the result of splitting and recognising the source.
//!
//! A [`NaturalBlock`] is ordinary text cut out by blank lines; a [`CallBlock`] is a
//! `::name params...` header with an indented body. The body of a call block is
//! parsed again, so its children are blocks too.

use vstd::prelude::*;
use super::params::{Params, ParamV};
use super::span::Span;

verus! {

/// One block of a document.
#[derive(Debug, PartialEq)]
pub enum Block {
    /// A natural block.
    Natural(NaturalBlock),
    /// A call block.
    Call(CallBlock),
}

/// A stretch of ordinary text separated by blank lines (or by a call header).
#[derive(Debug, Clone, PartialEq, Eq)]
pub struct NaturalBlock {
    /// The text; lines joined with `\n`, without surrounding blank lines.
    pub text: String,
    /// Where it stands.
    pub span: Span,
}

/// A `::name params...:` header with its indented body.
#[derive(Debug, PartialEq)]
pub struct CallBlock {
    /// The call name, e.g. `notice`.
    pub name: String,
    /// The parameters (keys and values are strings).
    pub params: Params,
    /// The body, parsed again after dedenting; empty when there is no body.
    pub body: Vec<Block>,
    /// The dedented body text, lines joined with `\n`; empty when there is no body.
    pub raw_body: String,
    /// From the header line to the last body line.
    pub span: Span,
}

/// The mathematical value of a block.
pub enum BlockV {
    Natural { text: Seq<char>, span: Span },
    Call {
        name: Seq<char>,
        params: Seq<ParamV>,
        body: Seq<BlockV>,
        raw_body: Seq<char>,
        span: Span,
    },
}

/// The value of a block.
pub open spec fn block_view(b: Block) -> BlockV
    decreases b,
{
    match b {
        Block::Natural(n) => BlockV::Natural { text: n.text@, span: n.span },
        Block::Call(c) => BlockV::Call {
            name: c.name@,
            params: c.params@,
            body: blocks_view(c.body@),
            raw_body: c.raw_body@,
            span: c.span,
        },
    }
}

/// The values of a sequence of blocks.
pub open spec fn blocks_view(s: Seq<Block>) -> Seq<BlockV>
    decreases s,
{
    if s.len() == 0 {
        Seq::empty()
    } else {
        seq![block_view(s[0])] + blocks_view(s.subrange(1, s.len() as int))
    }
}

impl View for Block {
    type V = BlockV;

    open spec fn view(&self) -> BlockV {
        block_view(*self)
    }
}

impl CallBlock {
    /// The call name.
    pub fn name(&self) -> (r: &str)
        ensures
            r@ == self.name@,
    {
        self.name.as_str()
    }

    /// The value of the first parameter named `key`.
    pub fn param(&self, key: &str) -> (r: Option<&str>)
        ensures
            match r {
                Some(v) => super::params::spec_get(self.params@, key@) == Some(v@),
                None => super::params::spec_get(self.params@, key@) is None,
            },
    {
        self.params.get(key)
    }

    /// The dedented body text.
    pub fn raw_body(&self) -> (r: &str)
        ensures
            r@ == self.raw_body@,
    {
        self.raw_body.as_str()
    }

    /// Whether the body holds no block.
    pub fn body_is_empty(&self) -> (r: bool)
        ensures
            r == (self.body@.len() == 0),
    {
        self.body.len() == 0
    }
}

} // verus!
