//! Planting blocks into a tree: every block becomes an unparsed node, and the body
//! of a call block becomes its children.

use vstd::prelude::*;
use vstd::string::StringSliceAdditionalSpecFns;
use indextree::NodeId;
use crate::ast::block::{Block, BlockV, block_view, blocks_view};
use crate::ast::tree::{
    Ast, NodeKind, TreeV, lemma_frame, lemma_reach_live, lemma_trees_of_index, lemma_trees_of_len,
    reach, same_node, tree_of, trees_of,
};
use crate::inline::lower::{lower, lowered, lowered_all};
use crate::inline::{Piece, PieceV, lemma_pieces_view_index, lemma_pieces_view_len, piece_view, pieces_view};
use super::split::{parse_blocks, spec_parse_blocks};
use crate::dispatch::unclaimed::blocks_at_top;

verus! {

/// `k` is the unparsed payload of block `b`; a call block keeps no body there, its
/// body blocks are the node's children.
pub open spec fn block_payload(k: NodeKind, b: BlockV) -> bool {
    match b {
        BlockV::Natural { text, span } => match k {
            NodeKind::Unparsed(Block::Natural(n)) => n.text@ == text && n.span == span,
            _ => false,
        },
        BlockV::Call { name, params, raw_body, span, .. } => match k {
            NodeKind::Unparsed(Block::Call(c)) => c.name@ == name && c.params@ == params
                && c.body@.len() == 0 && c.raw_body@ == raw_body && c.span == span,
            _ => false,
        },
    }
}

/// The blocks under a block: the body of a call block, nothing for a natural block.
pub open spec fn block_children(b: BlockV) -> Seq<BlockV> {
    match b {
        BlockV::Natural { .. } => Seq::empty(),
        BlockV::Call { body, .. } => body,
    }
}

/// The subtree `t` holds block `b`, looked at `fuel` levels deep.
pub open spec fn seeded(t: TreeV, b: BlockV, fuel: nat) -> bool
    decreases fuel,
{
    if fuel == 0 {
        t is Cut
    } else {
        match t {
            TreeV::Cut => false,
            TreeV::Node { data, children } => block_payload(data, b) && children.len()
                == block_children(b).len() && forall|i: int|
                0 <= i < children.len() ==> seeded(
                    #[trigger] children[i],
                    block_children(b)[i],
                    (fuel - 1) as nat,
                ),
        }
    }
}

/// The piece `p` stands for block `b`.
pub open spec fn piece_of(p: PieceV, b: BlockV) -> bool
    decreases b,
{
    match p {
        PieceV::Node { kind, children } => block_payload(kind, b) && match b {
            BlockV::Natural { .. } => children.len() == 0,
            BlockV::Call { body, .. } => children.len() == body.len() && forall|i: int|
                0 <= i < body.len() ==> piece_of(#[trigger] children[i], body[i]),
        },
        _ => false,
    }
}

/// Subtrees lowered together are lowered one by one.
proof fn lemma_lowered_all_index(ts: Seq<TreeV>, ps: Seq<PieceV>, fuel: nat, i: int)
    requires
        lowered_all(ts, ps, fuel),
        0 <= i < ps.len(),
    ensures
        ts.len() == ps.len(),
        lowered(ts[i], ps[i], fuel),
    decreases ps.len(),
{
    if i < ps.len() - 1 {
        lemma_lowered_all_index(ts.drop_last(), ps.drop_last(), fuel, i);
    }
}

/// What a piece standing for a block lowers to holds that block.
proof fn lemma_seeded(t: TreeV, p: PieceV, b: BlockV, fuel: nat)
    requires
        lowered(t, p, fuel),
        piece_of(p, b),
    ensures
        seeded(t, b, fuel),
    decreases fuel,
{
    if fuel > 0 {
        if let TreeV::Node { data, children } = t {
            if let PieceV::Node { kind, children: ps } = p {
                let bs = block_children(b);
                assert(ps.len() == bs.len());
                assert forall|i: int| 0 <= i < children.len() implies seeded(
                    #[trigger] children[i],
                    bs[i],
                    (fuel - 1) as nat,
                ) by {
                    lemma_lowered_all_index(children, ps, (fuel - 1) as nat, i);
                    lemma_seeded(children[i], ps[i], bs[i], (fuel - 1) as nat);
                }
                if ps.len() > 0 {
                    lemma_lowered_all_index(children, ps, (fuel - 1) as nat, 0);
                } else {
                    assert(children.len() == 0);
                }
            }
        }
    }
}

/// The value of blocks, position by position.
pub proof fn lemma_blocks_view_index(s: Seq<Block>, i: int)
    requires
        0 <= i < s.len(),
    ensures
        blocks_view(s).len() == s.len(),
        blocks_view(s)[i] == block_view(s[i]),
    decreases s.len(),
{
    lemma_blocks_view_len(s);
    if i > 0 {
        lemma_blocks_view_index(s.subrange(1, s.len() as int), i - 1);
    }
}

/// One value per block.
pub proof fn lemma_blocks_view_len(s: Seq<Block>)
    ensures
        blocks_view(s).len() == s.len(),
    decreases s.len(),
{
    if s.len() > 0 {
        lemma_blocks_view_len(s.subrange(1, s.len() as int));
    }
}

/// A block as a piece: an unparsed node over its body.
fn block_to_piece(b: Block) -> (p: Piece)
    ensures
        piece_of(piece_view(p), block_view(b)),
    decreases b, 0nat,
{
    match b {
        Block::Natural(n) => {
            let p = Piece::Node { kind: NodeKind::Unparsed(Block::Natural(n)), children: Vec::new() };
            proof {
                lemma_pieces_view_len(Seq::<Piece>::empty());
            }
            p
        },
        Block::Call(c) => {
            let ghost bv = block_view(Block::Call(c));
            let mut c = c;
            let mut body: Vec<Block> = Vec::new();
            std::mem::swap(&mut c.body, &mut body);
            proof {
                assert(decreases_to!(b => body));
            }
            let children = blocks_to_pieces(body);
            let p = Piece::Node { kind: NodeKind::Unparsed(Block::Call(c)), children };
            proof {
                lemma_pieces_view_len(children@);
            }
            p
        },
    }
}

/// Blocks as pieces, in order.
fn blocks_to_pieces(bs: Vec<Block>) -> (ps: Vec<Piece>)
    ensures
        pieces_view(ps@).len() == blocks_view(bs@).len(),
        forall|i: int|
            0 <= i < blocks_view(bs@).len() ==> piece_of(
                #[trigger] pieces_view(ps@)[i],
                blocks_view(bs@)[i],
            ),
    decreases bs, 1nat,
{
    let ghost orig = bs@;
    let n = bs.len();
    let mut rest = bs;
    let mut out: Vec<Piece> = Vec::new();
    let mut k: usize = 0;
    proof {
        lemma_blocks_view_len(orig);
    }
    while k < n
        invariant
            orig == bs@,
            n == orig.len(),
            k <= n,
            rest@ == orig.subrange(k as int, n as int),
            out@.len() == k,
            forall|i: int| 0 <= i < k ==> piece_of(#[trigger] piece_view(out@[i]), block_view(orig[i])),
        decreases n - k,
    {
        let b = rest.remove(0);
        proof {
            assert(b == orig[k as int]);
            assert(decreases_to!(bs => bs@));
            assert(decreases_to!(bs@ => bs@[k as int]));
        }
        let p = block_to_piece(b);
        out.push(p);
        proof {
            assert(rest@ =~= orig.subrange(k + 1, n as int));
            assert(out@[k as int] == p);
        }
        k += 1;
    }
    proof {
        lemma_pieces_view_len(out@);
        assert forall|i: int| 0 <= i < blocks_view(orig).len() implies piece_of(
            #[trigger] pieces_view(out@)[i],
            blocks_view(orig)[i],
        ) by {
            lemma_pieces_view_index(out@, i);
            lemma_blocks_view_index(orig, i);
        }
    }
    out
}

/// The blocks of a tree: the children of its document root, `fuel` levels deep.
pub open spec fn seeded_blocks(t: TreeV, bs: Seq<BlockV>, fuel: nat) -> bool {
    match t {
        TreeV::Node { data, children } => data == NodeKind::Document && children.len() == bs.len()
            && forall|i: int| 0 <= i < bs.len() ==> seeded(#[trigger] children[i], bs[i], fuel),
        TreeV::Cut => false,
    }
}

/// A parsed document has one top-level node per block of [`parse_blocks`], and each
/// is an unexpanded block (a call block with its body under it).
pub proof fn parsed_blocks_wait_at_top(ast: Ast, source: &str)
    requires
        ast.wf(),
        forall|f: nat| #[trigger]
            seeded_blocks(tree_of(ast.nodes(), ast.doc(), f + 1), spec_parse_blocks(source@), f),
    ensures
        ast.nodes()[ast.doc()].children.len() == spec_parse_blocks(source@).len(),
        blocks_at_top(ast.nodes(), ast.doc()),
{
    let m = ast.nodes();
    let doc = ast.doc();
    let kids = m[doc].children;
    let bs = spec_parse_blocks(source@);
    assert(seeded_blocks(tree_of(m, doc, 1 + 1), bs, 1));
    lemma_trees_of_len(m, kids, 1);
    assert forall|k: int| 0 <= k < kids.len() implies m[#[trigger] kids[k]].data is Unparsed by {
        lemma_trees_of_index(m, kids, 1, k);
        assert(m.dom().contains(m[doc].children[k]));
        let t = trees_of(m, kids, 1)[k];
        assert(seeded(t, bs[k], 1));
        assert(t == tree_of(m, kids[k], 1));
        assert(block_payload(m[kids[k]].data, bs[k]));
    }
}

/// Parses a document into a tree: the blocks of [`parse_blocks`], unparsed, under
/// the document root, each call block over the blocks of its body.
pub fn parse(source: &str) -> (r: Ast)
    requires
        source.spec_bytes().len() < usize::MAX,
    ensures
        r.wf(),
        forall|f: nat| #[trigger]
            seeded_blocks(tree_of(r.nodes(), r.doc(), f + 1), spec_parse_blocks(source@), f),
{
    let blocks = parse_blocks(source);
    let ghost bv = blocks_view(blocks@);
    assert(bv == spec_parse_blocks(source@));
    let pieces = blocks_to_pieces(blocks);
    let ghost pv = pieces_view(pieces@);
    let mut ast = Ast::new();
    let ghost m0 = ast.nodes();
    let document = ast.document();
    proof {
        lemma_pieces_view_len(pieces@);
    }
    let rs = lower(&mut ast, pieces);
    let ghost ml = ast.nodes();
    let mut j: usize = 0;
    proof {
        assert(rs@.take(0) =~= Seq::<NodeId>::empty());
        assert(m0.dom().contains(document));
    }
    while j < rs.len()
        invariant
            ast.wf(),
            ast.doc() == document,
            rs@.len() == pv.len(),
            ml.dom().contains(document),
            forall|k: int|
                0 <= k < rs@.len() ==> !m0.dom().contains(#[trigger] rs@[k])
                    && ml.dom().contains(rs@[k]),
            forall|k1: int, k2: int|
                0 <= k1 < k2 < rs@.len() ==> #[trigger] rs@[k1] != #[trigger] rs@[k2],
            m0.dom().contains(document),
            j <= rs.len(),
            ast.nodes().dom() == ml.dom(),
            forall|y: NodeId|
                y != document && #[trigger] ml.dom().contains(y) ==> same_node(
                    ml,
                    ast.nodes(),
                    y,
                ),
            ast.nodes()[document].data == NodeKind::Document,
            ast.nodes()[document].parent is None,
            ast.nodes()[document].children == rs@.take(j as int),
            forall|k: int| j <= k < rs@.len() ==> ast.nodes()[#[trigger] rs@[k]].parent is None,
        decreases rs.len() - j,
    {
        let c = rs[j];
        proof {
            assert(rs@[j as int] == c);
            assert(c != document);
        }
        let ghost before = ast.nodes();
        ast.push_block(c);
        proof {
            assert(ast.nodes().dom() =~= before.dom());
            assert(rs@.take(j + 1) =~= rs@.take(j as int).push(c));
            assert forall|k: int| j + 1 <= k < rs@.len() implies ast.nodes()[#[trigger] rs@[k]].parent is None by {
                assert(rs@[k] != c);
            }
        }
        j += 1;
    }
    proof {
        let mf = ast.nodes();
        assert(rs@.take(rs.len() as int) =~= rs@);
        assert forall|i: int, f: nat, y: NodeId|
            0 <= i < rs@.len() implies #[trigger] reach(mf, rs@[i], y, f) == reach(
                ml,
                rs@[i],
                y,
                f,
            ) && tree_of(mf, rs@[i], f) == tree_of(ml, rs@[i], f) by {
            assert forall|z: NodeId| #[trigger] reach(ml, rs@[i], z, f) implies same_node(
                ml,
                mf,
                z,
            ) by {
                lemma_reach_live(ml, rs@[i], z, f);
            }
            lemma_frame(ml, mf, rs@[i], f);
        }
        assert forall|f: nat| #[trigger]
            seeded_blocks(tree_of(mf, document, f + 1), bv, f) by {
            let ts = trees_of(mf, rs@, f);
            lemma_trees_of_len(mf, rs@, f);
            assert forall|i: int| 0 <= i < bv.len() implies seeded(#[trigger] ts[i], bv[i], f) by {
                lemma_trees_of_index(mf, rs@, f, i);
                assert(reach(mf, rs@[i], rs@[i], f) == reach(ml, rs@[i], rs@[i], f));
                lemma_seeded(tree_of(ml, rs@[i], f), pv[i], bv[i], f);
            }
        }
    }
    ast
}

} // verus!
