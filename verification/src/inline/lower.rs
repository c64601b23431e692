//! Lowering: inline pieces become nodes of the tree.

use vstd::prelude::*;
use indextree::NodeId;
use crate::ast::arena::Entry;
use crate::ast::tree::{
    Ast, NodeKind, TreeV, lemma_frame, lemma_reach_any_index, lemma_reach_live,
    lemma_trees_of_index, lemma_trees_of_len, reach, same_node, tree_of, trees_of,
};
use crate::text::{push_char, str_chars};
use super::{Piece, PieceV, lemma_pieces_view_index, lemma_pieces_view_len, piece_view, pieces_view};
use super::delim::{resolve, resolve_from, spec_resolve};
use super::options::Options;
use super::scan::{flush_v, initial_state, scan_from, scan_with, spec_scan};
use super::smart::QuoteState;

verus! {

/// The subtree `t` is what `p` lowers to, looked at `fuel` levels deep: text,
/// shortcodes and line breaks become leaves, a finished node keeps its payload over
/// its lowered children, and an unpaired delimiter run falls back to its text.
pub open spec fn lowered(t: TreeV, p: PieceV, fuel: nat) -> bool
    decreases fuel, 0nat,
{
    if fuel == 0 {
        t is Cut
    } else {
        match t {
            TreeV::Cut => false,
            TreeV::Node { data, children } => match p {
                PieceV::Text(s) => children.len() == 0 && match data {
                    NodeKind::Text(x) => x@ == s,
                    _ => false,
                },
                PieceV::Node { kind, children: ps } => data == kind && lowered_all(
                    children,
                    ps,
                    (fuel - 1) as nat,
                ),
                PieceV::Emoji(n) => children.len() == 0 && match data {
                    NodeKind::Emoji(x) => x@ == n,
                    _ => false,
                },
                PieceV::LineBreak => children.len() == 0 && data == NodeKind::LineBreak,
                PieceV::Link { target, children: ps } => data matches NodeKind::Link { target: x }
                    && x@ == target && lowered_all(children, ps, (fuel - 1) as nat),
                PieceV::Delim { ch, count, .. } => children.len() == 0 && match data {
                    NodeKind::Text(x) => x@ == Seq::new(count, |_i: int| ch),
                    _ => false,
                },
            },
        }
    }
}

/// Each subtree is what the piece at its position lowers to.
pub open spec fn lowered_all(ts: Seq<TreeV>, ps: Seq<PieceV>, fuel: nat) -> bool
    decreases fuel, ps.len() + 1,
{
    ts.len() == ps.len() && (ps.len() == 0 || (lowered_all(
        ts.drop_last(),
        ps.drop_last(),
        fuel,
    ) && lowered(ts.last(), ps.last(), fuel)))
}

/// Subtrees lowered one by one are lowered together.
proof fn lemma_lowered_all(ts: Seq<TreeV>, ps: Seq<PieceV>, fuel: nat)
    requires
        ts.len() == ps.len(),
        forall|i: int| 0 <= i < ps.len() ==> lowered(#[trigger] ts[i], ps[i], fuel),
    ensures
        lowered_all(ts, ps, fuel),
    decreases ps.len(),
{
    if ps.len() > 0 {
        let (t0, p0) = (ts.drop_last(), ps.drop_last());
        assert forall|i: int| 0 <= i < p0.len() implies lowered(#[trigger] t0[i], p0[i], fuel) by {
            assert(t0[i] == ts[i]);
            assert(p0[i] == ps[i]);
        }
        lemma_lowered_all(t0, p0, fuel);
        assert(lowered(ts[ps.len() - 1], ps[ps.len() - 1], fuel));
    }
}

/// The pieces a text parses to under some options.
pub open spec fn spec_inline(text: Seq<char>, o: Options) -> Seq<PieceV> {
    spec_resolve(spec_scan(text, o))
}

/// With every construct switched off, scanning only gathers the characters.
proof fn lemma_scan_plain(t: Seq<char>, i: int, lit: Seq<char>, st: QuoteState)
    requires
        0 <= i <= t.len(),
    ensures
        scan_from(t, i, lit, st, Options::spec_none()) == flush_v(
            lit + t.subrange(i, t.len() as int),
            st,
            false,
        ).pieces,
    decreases t.len() - i,
{
    if i < t.len() {
        lemma_scan_plain(t, i + 1, lit.push(t[i]), st);
        assert(lit.push(t[i]) + t.subrange(i + 1, t.len() as int) =~= lit + t.subrange(
            i,
            t.len() as int,
        ));
    } else {
        assert(lit + t.subrange(i, t.len() as int) =~= lit);
    }
}

/// With every construct switched off, the inline layer gives a text back as it
/// is: one plain text, or nothing for an empty text.
pub proof fn plain_options_give_the_text_back(t: Seq<char>)
    ensures
        spec_inline(t, Options::spec_none()) == if t.len() == 0 {
            Seq::<PieceV>::empty()
        } else {
            seq![PieceV::Text(t)]
        },
{
    lemma_scan_plain(t, 0, Seq::empty(), initial_state());
    assert(Seq::<char>::empty() + t.subrange(0, t.len() as int) =~= t);
    if t.len() > 0 {
        let nodes = seq![PieceV::Text(t)];
        assert(resolve_from(nodes, 1) == nodes);
    }
}

/// `rs` are new, detached subtrees, each what the piece at its position lowers to,
/// made only of nodes that are not in `m0`; the nodes of `m0` are left as they were.
pub open spec fn lowers_to(
    m0: Map<NodeId, Entry>,
    m: Map<NodeId, Entry>,
    rs: Seq<NodeId>,
    pv: Seq<PieceV>,
) -> bool {
    &&& rs.len() == pv.len()
    &&& forall|i: int|
        0 <= i < rs.len() ==> !m0.dom().contains(#[trigger] rs[i]) && m.dom().contains(rs[i])
            && m[rs[i]].parent is None
    &&& forall|i: int, j: int| 0 <= i < j < rs.len() ==> #[trigger] rs[i] != #[trigger] rs[j]
    &&& forall|x: NodeId| #[trigger] m0.dom().contains(x) ==> m.dom().contains(x) && m[x] == m0[x]
    &&& forall|i: int, f: nat| 0 <= i < rs.len() ==> lowered(#[trigger] tree_of(m, rs[i], f), pv[i], f)
    &&& forall|i: int, f: nat, y: NodeId|
        0 <= i < rs.len() && #[trigger] reach(m, rs[i], y, f) ==> !m0.dom().contains(y)
}

/// Parses a text as inline content under some options; the returned nodes are
/// detached, in document order, for the caller to attach.
pub fn parse_with(ast: &mut Ast, text: &str, options: Options) -> (r: Vec<NodeId>)
    requires
        old(ast).wf(),
    ensures
        final(ast).wf(),
        final(ast).doc() == old(ast).doc(),
        lowers_to(old(ast).nodes(), final(ast).nodes(), r@, spec_inline(text@, options)),
{
    let chars = str_chars(text);
    let pieces = resolve(scan_with(chars.as_slice(), options));
    let ghost pv = pieces_view(pieces@);
    assert(pv == spec_inline(text@, options));
    proof {
        lemma_pieces_view_len(pieces@);
    }
    let r = lower(ast, pieces);
    assert(lowers_to(old(ast).nodes(), ast.nodes(), r@, pv));
    r
}

/// Parses a text as inline content with every construct on; the returned nodes are
/// detached, in document order, for the caller to attach.
pub fn parse(ast: &mut Ast, text: &str) -> (r: Vec<NodeId>)
    requires
        old(ast).wf(),
    ensures
        final(ast).wf(),
        final(ast).doc() == old(ast).doc(),
        lowers_to(old(ast).nodes(), final(ast).nodes(), r@, spec_inline(text@, Options::spec_all())),
{
    parse_with(ast, text, Options::default())
}

/// A new node of the given kind over the inline content of a text.
pub fn wrap_inline(ast: &mut Ast, kind: NodeKind, text: &str, options: Options) -> (r: NodeId)
    requires
        old(ast).wf(),
    ensures
        final(ast).wf(),
        final(ast).doc() == old(ast).doc(),
        lowers_to(
            old(ast).nodes(),
            final(ast).nodes(),
            seq![r],
            seq![PieceV::Node { kind, children: spec_inline(text@, options) }],
        ),
{
    let chars = str_chars(text);
    let pieces = resolve(scan_with(chars.as_slice(), options));
    let ghost pv = PieceV::Node { kind, children: spec_inline(text@, options) };
    let piece = Piece::Node { kind, children: pieces };
    assert(piece_view(piece) == pv);
    let r = lower_one(ast, piece);
    proof {
        assert forall|i: int, f: nat| 0 <= i < 1 implies lowered(
            #[trigger] tree_of(ast.nodes(), seq![r][i], f),
            seq![pv][i],
            f,
        ) by {
            assert(seq![r][i] == r);
        }
        assert forall|i: int, f: nat, y: NodeId|
            0 <= i < 1 && #[trigger] reach(ast.nodes(), seq![r][i], y, f) implies !old(ast).nodes().dom().contains(y) by {
            assert(seq![r][i] == r);
        }
    }
    r
}

/// `count` copies of `ch`.
fn repeat_char(ch: char, count: usize) -> (r: String)
    ensures
        r@ == Seq::new(count as nat, |_i: int| ch),
{
    let mut s = String::new();
    let mut i: usize = 0;
    while i < count
        invariant
            i <= count,
            s@ == Seq::new(i as nat, |_i: int| ch),
        decreases count - i,
    {
        push_char(&mut s, ch);
        assert(s@ =~= Seq::new((i + 1) as nat, |_i: int| ch));
        i += 1;
    }
    s
}

/// Lowers one piece; the new subtree is detached and made only of new nodes.
pub fn lower_one(ast: &mut Ast, piece: Piece) -> (r: NodeId)
    requires
        old(ast).wf(),
    ensures
        final(ast).wf(),
        final(ast).doc() == old(ast).doc(),
        !old(ast).nodes().dom().contains(r),
        final(ast).nodes().dom().contains(r),
        final(ast).nodes()[r].parent is None,
        forall|x: NodeId| #[trigger]
            old(ast).nodes().dom().contains(x) ==> final(ast).nodes().dom().contains(x)
                && final(ast).nodes()[x] == old(ast).nodes()[x],
        forall|f: nat| lowered(#[trigger] tree_of(final(ast).nodes(), r, f), piece_view(piece), f),
        forall|f: nat, y: NodeId| #[trigger]
            reach(final(ast).nodes(), r, y, f) ==> !old(ast).nodes().dom().contains(y),
    decreases piece, 0nat,
{
    let ghost m0 = ast.nodes();
    let ghost doc0 = ast.doc();
    let ghost pv = piece_view(piece);
    match piece {
        Piece::Text(t) => {
            let r = ast.new_text(t.as_str());
            proof {
                lemma_leaf(ast.nodes(), m0, r, pv);
            }
            r
        },
        Piece::Emoji(n) => {
            let r = ast.new_emoji(n.as_str());
            proof {
                lemma_leaf(ast.nodes(), m0, r, pv);
            }
            r
        },
        Piece::LineBreak => {
            let r = ast.new_line_break();
            proof {
                lemma_leaf(ast.nodes(), m0, r, pv);
            }
            r
        },
        Piece::Delim { ch, count, .. } => {
            let s = repeat_char(ch, count);
            let r = ast.new_text(s.as_str());
            proof {
                lemma_leaf(ast.nodes(), m0, r, pv);
            }
            r
        },
        Piece::Node { .. } | Piece::Link { .. } => {
            let (kind, children) = match piece {
                Piece::Link { target, children } => (NodeKind::Link { target }, children),
                Piece::Node { kind, children } => (kind, children),
                _ => (NodeKind::LineBreak, Vec::new()),
            };
            let ghost cv = pieces_view(children@);
            let e = ast.new_node(kind);
            let ghost me = ast.nodes();
            let rs = lower(ast, children);
            let ghost ml = ast.nodes();
            let ghost kind_v = me[e].data;
            proof {
                lemma_pieces_view_len(children@);
                assert(rs@.take(0) =~= Seq::<NodeId>::empty());
                assert(me.dom().contains(e));
                assert(ml.dom().contains(e) && ml[e] == me[e]);
                assert forall|x: NodeId| #[trigger] m0.dom().contains(x) implies ml[x] == m0[x] by {
                    assert(me.dom().contains(x));
                }
            }
            let mut j: usize = 0;
            while j < rs.len()
                invariant
                    ast.wf(),
                    ast.doc() == doc0,
                    rs@.len() == cv.len(),
                    me.dom().contains(e),
                    ml.dom().contains(e),
                    !m0.dom().contains(e),
                    forall|x: NodeId| #[trigger] m0.dom().contains(x) ==> me.dom().contains(x),
                    forall|k: int|
                        0 <= k < rs@.len() ==> !me.dom().contains(#[trigger] rs@[k])
                            && ml.dom().contains(rs@[k]),
                    forall|k1: int, k2: int|
                        0 <= k1 < k2 < rs@.len() ==> #[trigger] rs@[k1] != #[trigger] rs@[k2],
                    j <= rs.len(),
                    ast.nodes().dom() == ml.dom(),
                    forall|y: NodeId|
                        y != e && #[trigger] ml.dom().contains(y) ==> same_node(ml, ast.nodes(), y),
                    forall|x: NodeId| #[trigger]
                        m0.dom().contains(x) ==> ast.nodes()[x] == m0[x],
                    ast.nodes()[e] == (Entry { data: kind_v, parent: None, children: rs@.take(j as int) }),
                    forall|k: int| j <= k < rs@.len() ==> ast.nodes()[#[trigger] rs@[k]].parent is None,
                decreases rs.len() - j,
            {
                let c = rs[j];
                proof {
                    assert(rs@[j as int] == c);
                    assert(c != e);
                    assert(ast.nodes()[c].parent is None);
                }
                let ghost before = ast.nodes();
                ast.append(e, c);
                proof {
                    assert(ast.nodes().dom() =~= before.dom());
                    assert(rs@.take(j + 1) =~= rs@.take(j as int).push(c));
                    assert forall|k: int| j + 1 <= k < rs@.len() implies ast.nodes()[#[trigger] rs@[k]].parent is None by {
                        assert(rs@[k] != c);
                    }
                }
                j += 1;
            }
            proof {
                assert(rs@.take(rs.len() as int) =~= rs@);
                let mf = ast.nodes();
                assert forall|i: int, f: nat, y: NodeId|
                    0 <= i < rs@.len() implies #[trigger] reach(mf, rs@[i], y, f) == reach(
                        ml,
                        rs@[i],
                        y,
                        f,
                    ) && tree_of(mf, rs@[i], f) == tree_of(ml, rs@[i], f) by {
                    assert forall|z: NodeId| #[trigger] reach(ml, rs@[i], z, f) implies same_node(
                        ml,
                        mf,
                        z,
                    ) by {
                        lemma_reach_live(ml, rs@[i], z, f);
                    }
                    lemma_frame(ml, mf, rs@[i], f);
                }
                assert forall|i: int, f: nat|
                    0 <= i < rs@.len() implies #[trigger] tree_of(mf, rs@[i], f) == tree_of(
                        ml,
                        rs@[i],
                        f,
                    ) by {
                    assert(reach(mf, rs@[i], rs@[i], f) == reach(ml, rs@[i], rs@[i], f));
                }
                assert forall|f: nat| lowered(#[trigger] tree_of(mf, e, f), pv, f) by {
                    if f > 0 {
                        let ts = trees_of(mf, rs@, (f - 1) as nat);
                        lemma_trees_of_len(mf, rs@, (f - 1) as nat);
                        assert forall|i: int| 0 <= i < cv.len() implies lowered(
                            #[trigger] ts[i],
                            cv[i],
                            (f - 1) as nat,
                        ) by {
                            lemma_trees_of_index(mf, rs@, (f - 1) as nat, i);
                            assert(tree_of(mf, rs@[i], (f - 1) as nat) == tree_of(ml, rs@[i], (f - 1) as nat));
                        }
                        lemma_lowered_all(ts, cv, (f - 1) as nat);
                    }
                }
                assert forall|f: nat, y: NodeId| #[trigger]
                    reach(mf, e, y, f) implies !m0.dom().contains(y) by {
                    if y != e {
                        let i = lemma_reach_any_index(mf, rs@, y, (f - 1) as nat);
                        assert(reach(mf, rs@[i], y, (f - 1) as nat) == reach(ml, rs@[i], y, (f - 1) as nat));
                    }
                }
            }
            e
        },
    }
}

/// A leaf was created: its subtree is itself.
proof fn lemma_leaf(m: Map<NodeId, Entry>, m0: Map<NodeId, Entry>, r: NodeId, pv: PieceV)
    requires
        m.dom().contains(r),
        !m0.dom().contains(r),
        m[r].children.len() == 0,
        forall|f: nat| f > 0 ==> #[trigger] lowered(TreeV::Node { data: m[r].data, children: Seq::empty() }, pv, f),
    ensures
        forall|f: nat| lowered(#[trigger] tree_of(m, r, f), pv, f),
        forall|f: nat, y: NodeId| #[trigger] reach(m, r, y, f) ==> !m0.dom().contains(y),
{
    assert forall|f: nat| lowered(#[trigger] tree_of(m, r, f), pv, f) by {
        if f > 0 {
            assert(trees_of(m, m[r].children, (f - 1) as nat) =~= Seq::<TreeV>::empty());
        }
    }
}

/// Lowers pieces in order; each new subtree is detached and made only of new nodes.
pub fn lower(ast: &mut Ast, pieces: Vec<Piece>) -> (r: Vec<NodeId>)
    requires
        old(ast).wf(),
    ensures
        final(ast).wf(),
        final(ast).doc() == old(ast).doc(),
        r@.len() == pieces@.len(),
        forall|i: int|
            0 <= i < r@.len() ==> !old(ast).nodes().dom().contains(#[trigger] r@[i])
                && final(ast).nodes().dom().contains(r@[i]) && final(ast).nodes()[r@[i]].parent
                is None,
        forall|i: int, j: int| 0 <= i < j < r@.len() ==> #[trigger] r@[i] != #[trigger] r@[j],
        forall|x: NodeId| #[trigger]
            old(ast).nodes().dom().contains(x) ==> final(ast).nodes().dom().contains(x)
                && final(ast).nodes()[x] == old(ast).nodes()[x],
        forall|i: int, f: nat|
            0 <= i < r@.len() ==> lowered(
                #[trigger] tree_of(final(ast).nodes(), r@[i], f),
                pieces_view(pieces@)[i],
                f,
            ),
        forall|i: int, f: nat, y: NodeId|
            0 <= i < r@.len() && #[trigger] reach(final(ast).nodes(), r@[i], y, f)
                ==> !old(ast).nodes().dom().contains(y),
    decreases pieces, 1nat,
{
    let ghost m0 = ast.nodes();
    let ghost doc0 = ast.doc();
    let ghost orig = pieces@;
    let ghost pv = pieces_view(orig);
    let n = pieces.len();
    let mut rest = pieces;
    let mut rs: Vec<NodeId> = Vec::new();
    let mut k: usize = 0;
    proof {
        lemma_pieces_view_len(orig);
    }
    while k < n
        invariant
            ast.wf(),
            ast.doc() == doc0,
            n == orig.len(),
            pv == pieces_view(orig),
            pv.len() == n,
            k <= n,
            rest@ == orig.subrange(k as int, n as int),
            orig == pieces@,
            rs@.len() == k,
            forall|i: int|
                0 <= i < k ==> !m0.dom().contains(#[trigger] rs@[i]) && ast.nodes().dom().contains(
                    rs@[i],
                ) && ast.nodes()[rs@[i]].parent is None,
            forall|i: int, j: int| 0 <= i < j < k ==> #[trigger] rs@[i] != #[trigger] rs@[j],
            forall|x: NodeId| #[trigger]
                m0.dom().contains(x) ==> ast.nodes().dom().contains(x) && ast.nodes()[x] == m0[x],
            forall|i: int, f: nat|
                0 <= i < k ==> lowered(#[trigger] tree_of(ast.nodes(), rs@[i], f), pv[i], f),
            forall|i: int, f: nat, y: NodeId|
                0 <= i < k && #[trigger] reach(ast.nodes(), rs@[i], y, f) ==> !m0.dom().contains(y),
        decreases n - k,
    {
        let p = rest.remove(0);
        proof {
            assert(p == orig[k as int]);
            lemma_pieces_view_index(orig, k as int);
            assert(decreases_to!(pieces => pieces@));
            assert(decreases_to!(pieces@ => pieces@[k as int]));
        }
        let ghost mk = ast.nodes();
        let r = lower_one(ast, p);
        proof {
            let m1 = ast.nodes();
            assert forall|i: int, f: nat, y: NodeId|
                0 <= i < k implies #[trigger] reach(m1, rs@[i], y, f) == reach(mk, rs@[i], y, f)
                && tree_of(m1, rs@[i], f) == tree_of(mk, rs@[i], f) by {
                assert forall|z: NodeId| #[trigger] reach(mk, rs@[i], z, f) implies same_node(
                    mk,
                    m1,
                    z,
                ) by {
                    lemma_reach_live(mk, rs@[i], z, f);
                }
                lemma_frame(mk, m1, rs@[i], f);
            }
            assert forall|i: int, f: nat|
                0 <= i < k implies #[trigger] tree_of(m1, rs@[i], f) == tree_of(mk, rs@[i], f) by {
                assert(reach(m1, rs@[i], rs@[i], f) == reach(mk, rs@[i], rs@[i], f));
            }
        }
        rs.push(r);
        proof {
            assert(rest@ =~= orig.subrange(k + 1, n as int));
            assert forall|i: int, f: nat|
                0 <= i < k + 1 implies lowered(#[trigger] tree_of(ast.nodes(), rs@[i], f), pv[i], f) by {
                if i < k {
                    assert(tree_of(ast.nodes(), rs@[i], f) == tree_of(mk, rs@[i], f));
                }
            }
            assert forall|i: int, f: nat, y: NodeId|
                0 <= i < k + 1 && #[trigger] reach(ast.nodes(), rs@[i], y, f) implies !m0.dom().contains(y) by {
                if i < k {
                    assert(reach(ast.nodes(), rs@[i], y, f) == reach(mk, rs@[i], y, f));
                }
            }
        }
        k += 1;
    }
    rs
}

} // verus!
