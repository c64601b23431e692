//! Headings: `::h1` to `::h6`.

use vstd::prelude::*;
use indextree::NodeId;
use crate::ast::block::Block;
use crate::ast::error::{ErrorKind, ErrorNode};
use crate::ast::tree::{Ast, NodeKind};
use crate::dispatch::context::Context;
use crate::dispatch::handler::{Handler, error_added, span_text_is};
use crate::dispatch::matched::Matched;
use crate::handlers::natural::NaturalExpander;
use crate::inline::PieceV;
use crate::inline::lower::{lowers_to, spec_inline, wrap_inline};
use crate::text::{chars_to_string, extend_chars, str_chars};

verus! {

/// The level a call name gives a heading: `h` followed by one digit from 1 to 6.
/// Any other name (a leading zero, a sign, more digits) names no heading.
pub open spec fn spec_level(name: Seq<char>) -> Option<u8> {
    if name.len() == 2 && name[0] == 'h' && '1' <= name[1] && name[1] <= '6' {
        Some((name[1] as u32 - '0' as u32) as u8)
    } else {
        None
    }
}

/// A heading level read from a name is one of 1 to 6.
pub proof fn heading_levels_are_one_to_six(name: Seq<char>)
    ensures
        spec_level(name) matches Some(l) ==> 1 <= l <= 6,
{
}

/// The heading level of a call name, if it is `h1` to `h6`.
pub fn heading_level(name: &str) -> (r: Option<u8>)
    ensures
        r == spec_level(name@),
{
    let chars = str_chars(name);
    if chars.len() != 2 || chars[0] != 'h' {
        return None;
    }
    let d = chars[1];
    if '1' <= d && d <= '6' {
        Some((d as u32 - '0' as u32) as u8)
    } else {
        None
    }
}

/// The heading expander: `::h1` to `::h6`, the body parsed as inline content.
#[derive(Debug, Clone, PartialEq, Eq)]
pub struct Headings {
    natural: NaturalExpander,
}

impl Headings {
    /// The expander that parses the heading text.
    pub closed spec fn natural(&self) -> NaturalExpander {
        self.natural
    }

    /// A heading expander whose text goes through `natural`.
    pub fn new(natural: NaturalExpander) -> (r: Self)
        ensures
            r.natural() == natural,
    {
        Headings { natural }
    }

    /// The level a call name gives: only `h1` to `h6` count.
    pub fn level(name: &str) -> (r: Option<u8>)
        ensures
            r == spec_level(name@),
    {
        heading_level(name)
    }
}

/// What the heading expander makes of a node: a heading over the inline content
/// of an `h1` to `h6` call, an error node for any other call; nothing, and no
/// change, for anything else.
pub open spec fn headings_made(
    h: Headings,
    a0: Ast,
    a1: Ast,
    node: NodeId,
    r: Seq<NodeId>,
    source: &str,
) -> bool {
    match a0.nodes()[node].data {
        NodeKind::Unparsed(Block::Call(c)) if a0.nodes().dom().contains(node) =>
            match spec_level(c.name@) {
            Some(level) => lowers_to(
                a0.nodes(),
                a1.nodes(),
                r,
                seq![
                    PieceV::Node {
                        kind: NodeKind::Heading { level },
                        children: spec_inline(c.raw_body@, h.natural().options),
                    },
                ],
            ),
            None => r.len() == 1 && error_added(
                a0,
                a1,
                r[0],
                ErrorKind::ExpandFailed,
                "标题级别只能是 h1~h6，给的是 ::"@ + c.name@,
                c.span,
                source,
            ),
        },
        _ => r.len() == 0 && a1.nodes() == a0.nodes(),
    }
}

impl Handler for Headings {
    /// `::h1` to `::h6` become a heading of that level over the inline content of the
    /// body; any other name becomes an error node, since a pattern wider than the
    /// default may send other names here.
    fn expand_call(&self, node: NodeId, ast: &mut Ast, ctx: &mut Context, matched: &Matched) -> (r:
        Vec<NodeId>)
        ensures
            headings_made(*self, *old(ast), *final(ast), node, r@, old(ctx).spec_source()),

    {
        let (name, span, body) = match ast.call(node) {
            Some(call) => (call.name.clone(), call.span, call.raw_body.clone()),
            None => {
                return Vec::new();
            },
        };
        let mut r = Vec::new();
        match heading_level(name.as_str()) {
            Some(level) => {
                let heading = wrap_inline(
                    ast,
                    NodeKind::Heading { level },
                    body.as_str(),
                    self.natural.options,
                );
                r.push(heading);
                assert(r@ == seq![heading]);
            },
            None => {
                let mut message = str_chars("标题级别只能是 h1~h6，给的是 ::");
                let name_chars = str_chars(name.as_str());
                extend_chars(&mut message, &name_chars);
                let message = chars_to_string(&message);
                let content = match ctx.get(span) {
                    Some(s) => s.to_owned(),
                    None => String::new(),
                };
                let error = ErrorNode::new(
                    ErrorKind::ExpandFailed,
                    message.as_str(),
                    span,
                    content.as_str(),
                );
                let id = ast.new_error(error);
                r.push(id);
            },
        }
        r
    }
}

} // verus!
