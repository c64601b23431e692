//! The natural-block expander: natural blocks become paragraphs of inline content.

use vstd::prelude::*;
use indextree::NodeId;
use crate::ast::arena::Entry;
use crate::ast::block::Block;
use crate::ast::tree::{Ast, Attr, NodeKind};
use crate::inline::lower::{lower_one, lowered, lowers_to, parse_with, spec_inline, wrap_inline};
use crate::inline::Piece;
use crate::ast::tree::tree_of;
use crate::inline::options::Options;
use crate::inline::PieceV;
use crate::dispatch::context::Context;
use crate::dispatch::handler::Handler;

verus! {

/// Turns natural blocks into paragraphs, and text into inline nodes. Other
/// expanders use it to parse text too.
#[derive(Debug, Clone, Copy, PartialEq, Eq)]
pub struct NaturalExpander {
    /// Which inline constructs are recognised.
    pub options: Options,
}

impl NaturalExpander {
    /// An expander with the given inline options.
    pub fn with_options(options: Options) -> (r: Self)
        ensures
            r.options == options,
    {
        NaturalExpander { options }
    }

    /// Parses a text as inline content; the returned nodes are detached, in
    /// document order, for the caller to attach.
    pub fn inline(&self, ast: &mut Ast, text: &str) -> (r: Vec<NodeId>)
        requires
            old(ast).wf(),
        ensures
            final(ast).wf(),
            final(ast).doc() == old(ast).doc(),
            lowers_to(old(ast).nodes(), final(ast).nodes(), r@, spec_inline(text@, self.options)),
    {
        parse_with(ast, text, self.options)
    }
}

/// What the natural-block expander makes of a node: a paragraph of the inline
/// content of a natural block; nothing, and no change, for anything else.
pub open spec fn natural_made(
    h: NaturalExpander,
    m0: Map<NodeId, Entry>,
    m: Map<NodeId, Entry>,
    node: NodeId,
    r: Seq<NodeId>,
) -> bool {
    match m0[node].data {
        NodeKind::Unparsed(Block::Natural(n)) if m0.dom().contains(node) =>
            lowers_to(
            m0,
            m,
            r,
            seq![
                PieceV::Node {
                    kind: NodeKind::Paragraph,
                    children: spec_inline(n.text@, h.options),
                },
            ],
        ),
        _ => r.len() == 0 && m == m0,
    }
}

impl Handler for NaturalExpander {
    /// A natural block becomes a paragraph of its inline content; anything else
    /// gives nothing.
    fn expand_natural(&self, node: NodeId, ast: &mut Ast, ctx: &mut Context) -> (r: Vec<NodeId>)
        ensures
            natural_made(*self, old(ast).nodes(), final(ast).nodes(), node, r@),

    {
        let text = match ast.natural(node) {
            Some(n) => n.text.clone(),
            None => {
                return Vec::new();
            },
        };
        let paragraph = wrap_inline(ast, NodeKind::Paragraph, text.as_str(), self.options);
        let mut r = Vec::new();
        r.push(paragraph);
        assert(r@ == seq![paragraph]);
        r
    }
}

/// The kind of the element a [`ParagraphHandler`] makes: `<p class="nm-p">`.
pub open spec fn is_plain_paragraph(k: NodeKind) -> bool {
    &&& k matches NodeKind::Element { tag, attrs }
    &&& tag@ == "p"@
    &&& attrs@.len() == 1
    &&& attrs@[0].name@ == "class"@
    &&& attrs@[0].value matches Some(v) && v@ == "nm-p"@
}

/// Natural block → `<p class="nm-p">text</p>`, the text taken as it is: no inline
/// syntax, escaping is the renderer's business. Several lines stay as they are;
/// HTML folds the line breaks into spaces, as a paragraph should.
#[derive(Debug, Default, Clone, Copy, PartialEq, Eq)]
pub struct ParagraphHandler;

impl Handler for ParagraphHandler {
    /// A natural block becomes one detached paragraph element holding its text;
    /// anything else gives nothing.
    fn expand_natural(&self, node: NodeId, ast: &mut Ast, ctx: &mut Context) -> (r: Vec<NodeId>)
        ensures
            match old(ast).nodes()[node].data {
                NodeKind::Unparsed(Block::Natural(n)) if old(ast).nodes().dom().contains(node) =>
                    exists|k: NodeKind|
                        is_plain_paragraph(k) && #[trigger] lowers_to(
                            old(ast).nodes(),
                            final(ast).nodes(),
                            r@,
                            seq![PieceV::Node { kind: k, children: seq![PieceV::Text(n.text@)] }],
                        ),
                _ => r@.len() == 0 && final(ast).nodes() == old(ast).nodes(),
            },
    {
        let text = match ast.natural(node) {
            Some(n) => n.text.clone(),
            None => {
                return Vec::new();
            },
        };
        let ghost tv = text@;
        let mut attrs: Vec<Attr> = Vec::new();
        attrs.push(Attr::new("class", "nm-p"));
        let kind = NodeKind::Element { tag: "p".to_owned(), attrs };
        let ghost k = kind;
        assert(is_plain_paragraph(k));
        let mut children: Vec<Piece> = Vec::new();
        children.push(Piece::Text(text));
        let ghost pv = PieceV::Node { kind: k, children: seq![PieceV::Text(tv)] };
        let piece = Piece::Node { kind, children };
        assert(crate::inline::piece_view(piece) == pv) by {
            let cs = piece->Node_children@;
            assert(cs.len() == 1);
            assert(crate::inline::piece_view(cs[0]) == PieceV::Text(tv));
            assert(cs.subrange(1, cs.len() as int) =~= Seq::<Piece>::empty());
            assert(crate::inline::pieces_view(Seq::<Piece>::empty()) =~= Seq::<PieceV>::empty());
            assert(crate::inline::pieces_view(cs) =~= seq![PieceV::Text(tv)]);
        }
        let paragraph = lower_one(ast, piece);
        let mut r = Vec::new();
        r.push(paragraph);
        proof {
            assert(r@ == seq![paragraph]);
            assert forall|i: int, f: nat| 0 <= i < 1 implies lowered(
                #[trigger] tree_of(ast.nodes(), r@[i], f),
                seq![pv][i],
                f,
            ) by {
                assert(r@[i] == paragraph);
            }
            assert(lowers_to(old(ast).nodes(), ast.nodes(), r@, seq![pv]));
            assert(old(ast).nodes()[node].data matches NodeKind::Unparsed(Block::Natural(n)) && n.text@ == tv);
        }
        r
    }
}

impl Default for NaturalExpander {
    fn default() -> (r: Self)
        ensures
            r.options == Options::spec_all(),
    {
        NaturalExpander { options: Options::default() }
    }
}

} // verus!
