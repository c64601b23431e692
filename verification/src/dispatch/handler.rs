//! The expander interface, and the built-in fallback.

use vstd::prelude::*;
use vstd::string::StringSliceAdditionalSpecFns;
use indextree::NodeId;
use crate::ast::arena::{Entry, fresh_entry};
use crate::ast::block::Block;
use crate::ast::error::{ErrorKind, ErrorNode};
use crate::ast::span::Span;
use crate::ast::tree::{Ast, KindTag, NodeKind};
use crate::text::{extend_chars, chars_to_string, str_chars};
use super::context::Context;
use super::matched::Matched;

verus! {

/// The text of a span of the source, if the span lies in it on character
/// boundaries; empty otherwise.
pub open spec fn span_text_is(source: &str, span: Span, text: Seq<char>) -> bool {
    if span.fits(source) {
        exists|s: &str|
            s.spec_bytes() == source.spec_bytes().subrange(span.start_byte as int, span.end_byte as int)
                && s@ == text
    } else {
        text.len() == 0
    }
}

/// `n` is a new node holding an error of the given kind and message for the block at
/// `span`, with the block's source text, and nothing else changed.
pub open spec fn error_added(
    ast0: Ast,
    ast1: Ast,
    n: NodeId,
    kind: ErrorKind,
    message: Seq<char>,
    span: Span,
    source: &str,
) -> bool {
    &&& !ast0.nodes().dom().contains(n)
    &&& ast1.nodes() == ast0.nodes().insert(n, fresh_entry(ast1.nodes()[n].data))
    &&& match ast1.nodes()[n].data {
        NodeKind::Error(e) => e.kind == kind && e.message@ == message && e.span == span
            && span_text_is(source, span, e.content@) && !e.inline,
        _ => false,
    }
}

/// What an expander may do to the tree while it expands `node`: add nodes, and
/// change `node` and its children. Every other node stays as it was. What it
/// returns is new or was a child of `node`, each at most once.
pub open spec fn confined(
    m0: Map<NodeId, Entry>,
    m: Map<NodeId, Entry>,
    node: NodeId,
    r: Seq<NodeId>,
) -> bool {
    &&& forall|z: NodeId|
        #[trigger] m0.dom().contains(z) && z != node && !m0[node].children.contains(z)
            ==> m.dom().contains(z) && m[z] == m0[z]
    &&& forall|i: int|
        0 <= i < r.len() ==> !m0.dom().contains(#[trigger] r[i]) || m0[node].children.contains(
            r[i],
        )
    &&& r.no_duplicates()
}

/// The source text of a span, or nothing when the span does not lie in the source.
fn source_text(ctx: &Context, span: Span) -> (r: String)
    ensures
        span_text_is(ctx.spec_source(), span, r@),
{
    match ctx.get(span) {
        Some(s) => s.to_owned(),
        None => String::new(),
    }
}

/// What the fallback makes of a call block: one error node saying that `::name`
/// is not registered, holding the block's source; nothing, and no change, for
/// anything else.
pub open spec fn fallback_call_made(a0: Ast, a1: Ast, node: NodeId, r: Seq<NodeId>, source: &str) -> bool {
    match a0.nodes()[node].data {
        NodeKind::Unparsed(Block::Call(c)) if a0.nodes().dom().contains(node) => r.len() == 1
            && error_added(
            a0,
            a1,
            r[0],
            ErrorKind::NoHandler,
            "未注册的调用块 ::"@ + c.name@,
            c.span,
            source,
        ),
        _ => r.len() == 0 && a1.nodes() == a0.nodes(),
    }
}

/// What the fallback makes of a natural block: one error node saying that no
/// natural-block expander is registered, holding the block's source; nothing, and
/// no change, for anything else.
pub open spec fn fallback_natural_made(
    a0: Ast,
    a1: Ast,
    node: NodeId,
    r: Seq<NodeId>,
    source: &str,
) -> bool {
    match a0.nodes()[node].data {
        NodeKind::Unparsed(Block::Natural(n)) if a0.nodes().dom().contains(node) => r.len() == 1
            && error_added(a0, a1, r[0], ErrorKind::NoHandler, "没有注册自然块展开器"@, n.span, source),
        _ => r.len() == 0 && a1.nodes() == a0.nodes(),
    }
}

/// What the fallback makes of a node, by its kind.
pub open spec fn fallback_made(a0: Ast, a1: Ast, node: NodeId, r: Seq<NodeId>, source: &str) -> bool {
    match a0.nodes()[node].data {
        NodeKind::Unparsed(Block::Natural(_)) => fallback_natural_made(a0, a1, node, r, source),
        _ => fallback_call_made(a0, a1, node, r, source),
    }
}

/// What the fallback makes of a call block: an error node saying that `::name` is
/// not registered, holding the block's source. Anything else gives nothing.
pub fn fallback_call(node: NodeId, ast: &mut Ast, ctx: &Context) -> (r: Vec<NodeId>)
    requires
        old(ast).wf(),
    ensures
        final(ast).wf(),
        final(ast).doc() == old(ast).doc(),
        confined(old(ast).nodes(), final(ast).nodes(), node, r@),
        fallback_call_made(*old(ast), *final(ast), node, r@, ctx.spec_source()),
{
    let (span, mut message) = match ast.call(node) {
        Some(call) => (call.span, str_chars("未注册的调用块 ::")),
        None => {
            return Vec::new();
        },
    };
    let name = match ast.call(node) {
        Some(call) => str_chars(call.name.as_str()),
        None => Vec::new(),
    };
    extend_chars(&mut message, &name);
    let content = source_text(ctx, span);
    let message = chars_to_string(&message);
    let error = ErrorNode::new(ErrorKind::NoHandler, message.as_str(), span, content.as_str());
    let id = ast.new_error(error);
    let mut r = Vec::new();
    r.push(id);
    r
}

/// What the fallback makes of a natural block: an error node saying that no
/// natural-block expander is registered, holding the block's source. Anything else
/// gives nothing.
pub fn fallback_natural(node: NodeId, ast: &mut Ast, ctx: &Context) -> (r: Vec<NodeId>)
    requires
        old(ast).wf(),
    ensures
        final(ast).wf(),
        final(ast).doc() == old(ast).doc(),
        confined(old(ast).nodes(), final(ast).nodes(), node, r@),
        fallback_natural_made(*old(ast), *final(ast), node, r@, ctx.spec_source()),
{
    let span = match ast.natural(node) {
        Some(n) => n.span,
        None => {
            return Vec::new();
        },
    };
    let content = source_text(ctx, span);
    let error = ErrorNode::new(ErrorKind::NoHandler, "没有注册自然块展开器", span, content.as_str());
    let id = ast.new_error(error);
    let mut r = Vec::new();
    r.push(id);
    r
}

/// An expander of blocks.
///
/// An expander gets the id of an unexpanded node and returns the nodes that take
/// its place: none drops the block, one replaces it, several expand it into
/// siblings. Unexpanded blocks among them are expanded in turn.
///
/// [`Handler::expand`] sends call blocks to [`Handler::expand_call`] and natural
/// blocks to [`Handler::expand_natural`]; both default to the fallback, an error
/// node saying that nobody claimed the block.
///
/// An expander keeps to its block ([`confined`]): it may add nodes and change the
/// block and the block's children, and returns new nodes or the block's children.
/// The expanders of this library are proved to; the dispatcher relies on it for
/// any other.
pub trait Handler {
    /// Expands an unexpanded node, by its kind.
    fn expand(&self, node: NodeId, ast: &mut Ast, ctx: &mut Context, matched: &Matched) -> (r: Vec<
        NodeId,
    >)
        requires
            old(ast).wf(),
        ensures
            final(ast).wf(),
            final(ast).doc() == old(ast).doc(),
            confined(old(ast).nodes(), final(ast).nodes(), node, r@),
        default_ensures
            !(old(ast).nodes().dom().contains(node) && old(ast).nodes()[node].data is Unparsed)
                ==> r@.len() == 0 && final(ast).nodes() == old(ast).nodes(),
    {
        match ast.tag(node) {
            Some(KindTag::Call) => self.expand_call(node, ast, ctx, matched),
            Some(KindTag::Natural) => self.expand_natural(node, ast, ctx),
            _ => Vec::new(),
        }
    }

    /// Expands a call block; by default an error node.
    fn expand_call(&self, node: NodeId, ast: &mut Ast, ctx: &mut Context, matched: &Matched) -> (r:
        Vec<NodeId>)
        requires
            old(ast).wf(),
        ensures
            final(ast).wf(),
            final(ast).doc() == old(ast).doc(),
            confined(old(ast).nodes(), final(ast).nodes(), node, r@),
        default_ensures
            fallback_call_made(*old(ast), *final(ast), node, r@, old(ctx).spec_source()),
    {
        fallback_call(node, ast, ctx)
    }

    /// Expands a natural block; by default an error node.
    fn expand_natural(&self, node: NodeId, ast: &mut Ast, ctx: &mut Context) -> (r: Vec<NodeId>)
        requires
            old(ast).wf(),
        ensures
            final(ast).wf(),
            final(ast).doc() == old(ast).doc(),
            confined(old(ast).nodes(), final(ast).nodes(), node, r@),
        default_ensures
            fallback_natural_made(*old(ast), *final(ast), node, r@, old(ctx).spec_source()),
    {
        fallback_natural(node, ast, ctx)
    }
}

/// The fallback expander: every default of [`Handler`], that is, an error node
/// holding the source of the block nobody claimed.
#[derive(Debug, Default, Clone, Copy, PartialEq, Eq)]
pub struct Fallback;

impl Handler for Fallback {
}

/// What the built-in fallback makes of a node: by its kind, the error node of
/// [`fallback_call`] or [`fallback_natural`], and nothing for anything else.
pub fn fallback_expand(node: NodeId, ast: &mut Ast, ctx: &Context) -> (r: Vec<NodeId>)
    requires
        old(ast).wf(),
    ensures
        final(ast).wf(),
        final(ast).doc() == old(ast).doc(),
        confined(old(ast).nodes(), final(ast).nodes(), node, r@),
        fallback_made(*old(ast), *final(ast), node, r@, ctx.spec_source()),
{
    match ast.tag(node) {
        Some(KindTag::Call) => fallback_call(node, ast, ctx),
        Some(KindTag::Natural) => fallback_natural(node, ast, ctx),
        _ => Vec::new(),
    }
}

} // verus!
