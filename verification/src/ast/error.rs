//! Error nodes: the last resort when no expander can handle a block.

use vstd::prelude::*;
use super::span::Span;

verus! {

/// What went wrong.
#[derive(Debug, Clone, Copy, PartialEq, Eq)]
pub enum ErrorKind {
    /// No expander claimed the block: the call name is not registered, or no
    /// natural-block expander is.
    NoHandler,
    /// The expander itself decided it could not expand the block.
    ExpandFailed,
}

impl ErrorKind {
    /// The stable machine-readable name, used as a CSS class suffix and `data-kind`.
    pub open spec fn spec_as_str(self) -> Seq<char> {
        match self {
            ErrorKind::NoHandler => seq!['n', 'o', '-', 'h', 'a', 'n', 'd', 'l', 'e', 'r'],
            ErrorKind::ExpandFailed => seq![
                'e', 'x', 'p', 'a', 'n', 'd', '-', 'f', 'a', 'i', 'l', 'e', 'd',
            ],
        }
    }

    /// The stable machine-readable name.
    pub fn as_str(self) -> (r: &'static str)
        ensures
            r@ == self.spec_as_str(),
    {
        match self {
            ErrorKind::NoHandler => {
                let r = "no-handler";
                proof {
                    reveal_strlit("no-handler");
                }
                r
            },
            ErrorKind::ExpandFailed => {
                let r = "expand-failed";
                proof {
                    reveal_strlit("expand-failed");
                }
                r
            },
        }
    }
}

/// An error node: a leaf, drawn by the renderer as it sees fit.
#[derive(Debug, Clone, PartialEq, Eq)]
pub struct ErrorNode {
    /// What went wrong.
    pub kind: ErrorKind,
    /// A message for people.
    pub message: String,
    /// Where the failing block stands.
    pub span: Span,
    /// The full source text of the block that could not be expanded.
    pub content: String,
    /// Whether the error stands in an inline position (rendered as `<span>`) rather
    /// than a block position (rendered as `<div>`).
    pub inline: bool,
}

impl ErrorNode {
    /// A block-level error node.
    pub fn new(kind: ErrorKind, message: &str, span: Span, content: &str) -> (r: Self)
        ensures
            r.kind == kind,
            r.message@ == message@,
            r.span == span,
            r.content@ == content@,
            !r.inline,
    {
        ErrorNode {
            kind,
            message: message.to_owned(),
            span,
            content: content.to_owned(),
            inline: false,
        }
    }

    /// Marks the error as standing in an inline position.
    pub fn at_inline(self) -> (r: Self)
        ensures
            r == (ErrorNode { inline: true, ..self }),
    {
        let mut r = self;
        r.inline = true;
        r
    }
}

} // verus!
