//! The built-in expanders as one type, so that one registry can hold them all.

use vstd::prelude::*;
use indextree::NodeId;
use crate::ast::block::Block;
use crate::ast::tree::{Ast, KindTag, NodeKind};
use crate::dispatch::context::Context;
use crate::dispatch::handler::{Fallback, Handler, fallback_call_made, fallback_natural_made};
use crate::dispatch::matched::Matched;
use crate::handlers::headings::{Headings, headings_made};
use crate::handlers::natural::{NaturalExpander, natural_made};
use crate::handlers::wrap::{Wrap, wrap_made};
use super::code::{Code, code_made};

verus! {

/// One of the built-in expanders.
#[derive(Debug, Clone)]
pub enum Builtin {
    /// The natural-block expander.
    Natural(NaturalExpander),
    /// The heading expander.
    Headings(Headings),
    /// A wrapper.
    Wrap(Wrap),
    /// The code-block expander.
    Code(Code),
    /// The fallback.
    Fallback(Fallback),
}

/// What a built-in expander makes of a node: by the node's kind, what the
/// expander it holds makes of it, where that expander handles the kind, and the
/// fallback's error node where it leaves the kind to the default.
pub open spec fn builtin_made(
    b: Builtin,
    a0: Ast,
    a1: Ast,
    node: NodeId,
    r: Seq<NodeId>,
    source: &str,
    matched: Matched,
) -> bool {
    match a0.nodes()[node].data {
        NodeKind::Unparsed(Block::Natural(_)) => match b {
            Builtin::Natural(h) => natural_made(h, a0.nodes(), a1.nodes(), node, r),
            _ => fallback_natural_made(a0, a1, node, r, source),
        },
        _ => match b {
            Builtin::Headings(h) => headings_made(h, a0, a1, node, r, source),
            Builtin::Wrap(w) => wrap_made(w, a0.nodes(), a1.nodes(), node, r, matched),
            Builtin::Code(_) => code_made(a0.nodes(), a1.nodes(), node, r),
            _ => fallback_call_made(a0, a1, node, r, source),
        },
    }
}

impl Handler for Builtin {
    /// Expands with the built-in expander this is: call blocks go to its
    /// `expand_call`, natural blocks to its `expand_natural`.
    fn expand(&self, node: NodeId, ast: &mut Ast, ctx: &mut Context, matched: &Matched) -> (r: Vec<
        NodeId,
    >)
        ensures
            builtin_made(*self, *old(ast), *final(ast), node, r@, old(ctx).spec_source(), *matched),
    {
        match ast.tag(node) {
            Some(KindTag::Call) => match self {
                Builtin::Natural(h) => h.expand_call(node, ast, ctx, matched),
                Builtin::Headings(h) => h.expand_call(node, ast, ctx, matched),
                Builtin::Wrap(h) => h.expand_call(node, ast, ctx, matched),
                Builtin::Code(h) => h.expand_call(node, ast, ctx, matched),
                Builtin::Fallback(h) => h.expand_call(node, ast, ctx, matched),
            },
            Some(KindTag::Natural) => match self {
                Builtin::Natural(h) => h.expand_natural(node, ast, ctx),
                Builtin::Headings(h) => h.expand_natural(node, ast, ctx),
                Builtin::Wrap(h) => h.expand_natural(node, ast, ctx),
                Builtin::Code(h) => h.expand_natural(node, ast, ctx),
                Builtin::Fallback(h) => h.expand_natural(node, ast, ctx),
            },
            _ => Vec::new(),
        }
    }
}

/// A handler type that can hold the built-in expanders: the registries that the
/// standard library fills.
pub trait FromBuiltin: Sized {
    /// What a built-in expander becomes.
    spec fn spec_from_builtin(b: Builtin) -> Self;

    /// Turns a built-in expander into this type.
    fn from_builtin(b: Builtin) -> (r: Self)
        ensures
            r == Self::spec_from_builtin(b),
    ;
}

impl FromBuiltin for Builtin {
    open spec fn spec_from_builtin(b: Builtin) -> Self {
        b
    }

    fn from_builtin(b: Builtin) -> (r: Self) {
        b
    }
}

} // verus!
