//! The inline layer: turns the text of a natural block into inline pieces.
//!
//! | construct | syntax |
//! |---|---|
//! | backslash escape | `\*` |
//! | hard break | `\` at the end of a line |
//! | code span | `` `code` ``, ``` ``a`b`` ``` |
//! | math | `$x$`, `$$a$b$$` |
//! | entity | `&amp;` `&#35;` |
//! | shortcode | `:smile:` |
//! | link | `[[text => target]]`, `[[text => "a target"]]` |
//! | emphasis / strong | `*x*` / `**x**` |
//! | strikethrough | `~~x~~` |
//! | subscript / superscript | `~x~` / `^x^` |
//! | highlight | `==x==` |
//! | smart punctuation | `...` `--` `---` `"x"` |
//!
//! `_` is not emphasis, and there is no inline HTML: `<div>` stays text.


pub mod delim;
pub mod emoji;
pub mod entities;
pub mod options;
pub mod link;
pub mod lower;
pub mod scan;
pub mod smart;

use vstd::prelude::*;
use crate::ast::tree::NodeKind;

pub use lower::{parse, parse_with, wrap_inline};
pub use options::Options;

verus! {

/// The intermediate form of the inline layer.
#[derive(Debug, PartialEq)]
pub enum Piece {
    /// Plain text.
    Text(String),
    /// A finished semantic node with its children.
    Node { kind: NodeKind, children: Vec<Piece> },
    /// A shortcode; only the name.
    Emoji(String),
    /// A hard line break.
    LineBreak,
    /// A run of delimiter characters not paired yet.
    Delim { ch: char, count: usize, can_open: bool, can_close: bool },
    /// A link: its target and its text, already parsed.
    Link { target: String, children: Vec<Piece> },
}

/// The value of a piece.
pub enum PieceV {
    Text(Seq<char>),
    Node { kind: NodeKind, children: Seq<PieceV> },
    Emoji(Seq<char>),
    LineBreak,
    Delim { ch: char, count: nat, can_open: bool, can_close: bool },
    Link { target: Seq<char>, children: Seq<PieceV> },
}

/// The value of a piece.
pub open spec fn piece_view(p: Piece) -> PieceV
    decreases p,
{
    match p {
        Piece::Text(t) => PieceV::Text(t@),
        Piece::Node { kind, children } => PieceV::Node {
            kind,
            children: pieces_view(children@),
        },
        Piece::Emoji(n) => PieceV::Emoji(n@),
        Piece::LineBreak => PieceV::LineBreak,
        Piece::Delim { ch, count, can_open, can_close } => PieceV::Delim {
            ch,
            count: count as nat,
            can_open,
            can_close,
        },
        Piece::Link { target, children } => PieceV::Link {
            target: target@,
            children: pieces_view(children@),
        },
    }
}

/// The values of some pieces.
pub open spec fn pieces_view(s: Seq<Piece>) -> Seq<PieceV>
    decreases s,
{
    if s.len() == 0 {
        Seq::empty()
    } else {
        seq![piece_view(s[0])] + pieces_view(s.subrange(1, s.len() as int))
    }
}

/// The value of pieces with one more piece has one more value.
pub proof fn lemma_pieces_view_push(s: Seq<Piece>, p: Piece)
    ensures
        pieces_view(s.push(p)) == pieces_view(s) + seq![piece_view(p)],
    decreases s.len(),
{
    if s.len() == 0 {
        assert(s.push(p).subrange(1, 1) =~= s);
        assert(s.push(p)[0] == p);
        assert(pieces_view(s) == Seq::<PieceV>::empty());
        assert(pieces_view(s.push(p)) == seq![piece_view(p)] + pieces_view(s));
        assert(pieces_view(s.push(p)) =~= pieces_view(s) + seq![piece_view(p)]);
    } else {
        let t = s.subrange(1, s.len() as int);
        assert(s.push(p).subrange(1, s.len() + 1 as int) =~= t.push(p));
        lemma_pieces_view_push(t, p);
        assert(pieces_view(s.push(p)) =~= pieces_view(s) + seq![piece_view(p)]);
    }
}

/// The value of pieces, position by position.
pub proof fn lemma_pieces_view_index(s: Seq<Piece>, i: int)
    requires
        0 <= i < s.len(),
    ensures
        pieces_view(s).len() == s.len(),
        pieces_view(s)[i] == piece_view(s[i]),
    decreases s.len(),
{
    if i > 0 {
        lemma_pieces_view_index(s.subrange(1, s.len() as int), i - 1);
    } else {
        lemma_pieces_view_len(s);
    }
}

/// One value per piece.
pub proof fn lemma_pieces_view_len(s: Seq<Piece>)
    ensures
        pieces_view(s).len() == s.len(),
    decreases s.len(),
{
    if s.len() > 0 {
        lemma_pieces_view_len(s.subrange(1, s.len() as int));
    }
}

/// The value of a piece sequence is taken piece by piece.
pub proof fn lemma_pieces_view_map(s: Seq<Piece>)
    ensures
        pieces_view(s) == s.map_values(|p: Piece| piece_view(p)),
{
    lemma_pieces_view_len(s);
    assert forall|i: int| 0 <= i < s.len() implies pieces_view(s)[i] == s.map_values(
        |p: Piece| piece_view(p),
    )[i] by {
        lemma_pieces_view_index(s, i);
    }
    assert(pieces_view(s) =~= s.map_values(|p: Piece| piece_view(p)));
}

} // verus!
