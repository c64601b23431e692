//! Pairing delimiter runs into emphasis, strong emphasis, strikethrough,
//! subscript, superscript and highlight.
//!
//! This follows CommonMark: the nearest opener of the same character, and the
//! "rule of 3" for `*`. `_` does not take part.

use vstd::prelude::*;
use crate::ast::tree::NodeKind;
use crate::inline::{
    Piece, PieceV, lemma_pieces_view_map, lemma_pieces_view_push, piece_view, pieces_view,
};

verus! {

/// A delimiter run seen as plain data.
#[derive(Debug, Clone, Copy, PartialEq, Eq)]
pub struct DelimInfo {
    pub ch: char,
    pub count: usize,
    pub can_open: bool,
    pub can_close: bool,
}

/// The delimiter run at `v`, if it is one.
pub open spec fn delim_of(v: PieceV) -> Option<(char, nat, bool, bool)> {
    match v {
        PieceV::Delim { ch, count, can_open, can_close } => Some((ch, count, can_open, can_close)),
        _ => None,
    }
}

/// CommonMark's "rule of 3", for `*` only.
pub open spec fn spec_allowed(o: (char, nat, bool, bool), c: (char, nat, bool, bool)) -> bool {
    if o.0 != '*' {
        true
    } else {
        !(o.3 || c.2) || (o.1 + c.1) % 3 != 0 || (o.1 % 3 == 0 && c.1 % 3 == 0)
    }
}

/// What a pair of runs becomes, and how many characters of each it uses.
pub open spec fn spec_matching(ch: char, open: nat, close: nat) -> Option<(NodeKind, nat)> {
    if ch == '*' {
        if open >= 2 && close >= 2 {
            Some((NodeKind::Strong, 2))
        } else {
            Some((NodeKind::Emphasis, 1))
        }
    } else if ch == '~' {
        if open >= 2 && close >= 2 {
            Some((NodeKind::Strikethrough, 2))
        } else {
            Some((NodeKind::Subscript, 1))
        }
    } else if ch == '^' {
        Some((NodeKind::Superscript, 1))
    } else if ch == '=' && open >= 2 && close >= 2 {
        Some((NodeKind::Mark, 2))
    } else {
        None
    }
}

/// The nearest run before `k` that may open for the closer `c`.
pub open spec fn opener_from(nodes: Seq<PieceV>, k: int, c: (char, nat, bool, bool)) -> Option<int>
    decreases k,
{
    if k <= 0 || k > nodes.len() {
        None
    } else {
        match delim_of(nodes[k - 1]) {
            Some(o) if o.0 == c.0 && o.2 && spec_allowed(o, c) => Some(k - 1),
            _ => opener_from(nodes, k - 1, c),
        }
    }
}

/// A run with `count` characters left, if any are left.
pub open spec fn leftover(d: (char, nat, bool, bool), used: nat) -> Seq<PieceV> {
    if d.1 > used {
        seq![PieceV::Delim { ch: d.0, count: (d.1 - used) as nat, can_open: d.2, can_close: d.3 }]
    } else {
        Seq::empty()
    }
}

/// The opener at `o` and the closer at `c` pair up around what lies between them.
pub open spec fn spec_splice(
    nodes: Seq<PieceV>,
    o: int,
    c: int,
    od: (char, nat, bool, bool),
    cd: (char, nat, bool, bool),
    kind: NodeKind,
    used: nat,
) -> Seq<PieceV> {
    nodes.take(o) + leftover(od, used) + seq![
        PieceV::Node { kind, children: nodes.subrange(o + 1, c) },
    ] + leftover(cd, used) + nodes.skip(c + 1)
}

/// The delimiter characters and runs left at the top level; pairing always shrinks
/// it.
pub open spec fn weight(s: Seq<PieceV>) -> nat
    decreases s.len(),
{
    if s.len() == 0 {
        0
    } else {
        weight(s.drop_last()) + match delim_of(s.last()) {
            Some(d) => d.1 + 1,
            None => 0,
        }
    }
}

/// The delimiter weight of two runs of pieces adds up.
pub proof fn lemma_weight_concat(a: Seq<PieceV>, b: Seq<PieceV>)
    ensures
        weight(a + b) == weight(a) + weight(b),
    decreases b.len(),
{
    if b.len() == 0 {
        assert(a + b =~= a);
    } else {
        assert((a + b).drop_last() =~= a + b.drop_last());
        lemma_weight_concat(a, b.drop_last());
    }
}

/// The delimiter weight of one piece.
pub proof fn lemma_weight_one(v: PieceV)
    ensures
        weight(seq![v]) == match delim_of(v) {
            Some(d) => d.1 + 1,
            None => 0,
        },
{
    assert(seq![v].drop_last() =~= Seq::<PieceV>::empty());
    assert(weight(Seq::<PieceV>::empty()) == 0);
    assert(seq![v].last() == v);
}

/// Pairing removes weight.
pub proof fn lemma_splice_weight(
    nodes: Seq<PieceV>,
    o: int,
    c: int,
    kind: NodeKind,
    used: nat,
)
    requires
        0 <= o < c < nodes.len(),
        delim_of(nodes[o]) is Some,
        delim_of(nodes[c]) is Some,
        used >= 1,
    ensures
        weight(
            spec_splice(
                nodes,
                o,
                c,
                delim_of(nodes[o]).unwrap(),
                delim_of(nodes[c]).unwrap(),
                kind,
                used,
            ),
        ) < weight(nodes),
{
    let od = delim_of(nodes[o]).unwrap();
    let cd = delim_of(nodes[c]).unwrap();
    let a = nodes.take(o);
    let mid = nodes.subrange(o + 1, c);
    let z = nodes.skip(c + 1);
    assert(nodes =~= a + seq![nodes[o]] + mid + seq![nodes[c]] + z);
    lemma_weight_concat(a + seq![nodes[o]] + mid + seq![nodes[c]], z);
    lemma_weight_concat(a + seq![nodes[o]] + mid, seq![nodes[c]]);
    lemma_weight_concat(a + seq![nodes[o]], mid);
    lemma_weight_concat(a, seq![nodes[o]]);
    lemma_weight_one(nodes[o]);
    lemma_weight_one(nodes[c]);
    let node = PieceV::Node { kind, children: mid };
    let lo = leftover(od, used);
    let lc = leftover(cd, used);
    lemma_weight_concat(a + lo + seq![node] + lc, z);
    lemma_weight_concat(a + lo + seq![node], lc);
    lemma_weight_concat(a + lo, seq![node]);
    lemma_weight_concat(a, lo);
    lemma_weight_one(node);
    if od.1 > used {
        lemma_weight_one(lo[0]);
        assert(lo =~= seq![lo[0]]);
    } else {
        assert(weight(lo) == 0);
    }
    if cd.1 > used {
        lemma_weight_one(lc[0]);
        assert(lc =~= seq![lc[0]]);
    } else {
        assert(weight(lc) == 0);
    }
}

/// Pairs the runs of `nodes`, starting with the candidate closer at `closer`.
pub open spec fn resolve_from(nodes: Seq<PieceV>, closer: int) -> Seq<PieceV>
    decreases weight(nodes), nodes.len() - closer,
{
    if closer < 0 || closer >= nodes.len() {
        nodes
    } else {
        match delim_of(nodes[closer]) {
            Some(cd) if cd.3 => match opener_from(nodes, closer, cd) {
                Some(o) => {
                    proof {
                        lemma_opener_from(nodes, closer, cd);
                    }
                    let od = delim_of(nodes[o]).unwrap();
                    match spec_matching(cd.0, od.1, cd.1) {
                        Some((kind, used)) => {
                            proof {
                                lemma_matching_used(cd.0, od.1, cd.1);
                                lemma_splice_weight(nodes, o, closer, kind, used);
                            }
                            resolve_from(spec_splice(nodes, o, closer, od, cd, kind, used), o)
                        },
                        None => resolve_from(nodes, closer + 1),
                    }
                },
                None => resolve_from(nodes, closer + 1),
            },
            _ => resolve_from(nodes, closer + 1),
        }
    }
}

/// Pairs all delimiter runs; unpaired runs stay.
pub open spec fn spec_resolve(nodes: Seq<PieceV>) -> Seq<PieceV> {
    resolve_from(nodes, 0)
}

/// An opener found before `k` is a delimiter that can open and may pair with `c`.
pub proof fn lemma_opener_from(nodes: Seq<PieceV>, k: int, c: (char, nat, bool, bool))
    ensures
        opener_from(nodes, k, c) matches Some(o) ==> 0 <= o < k && delim_of(nodes[o]) is Some
            && delim_of(nodes[o]).unwrap().0 == c.0 && delim_of(nodes[o]).unwrap().2
            && spec_allowed(delim_of(nodes[o]).unwrap(), c),
    decreases k,
{
    if 0 < k <= nodes.len() {
        lemma_opener_from(nodes, k - 1, c);
    }
}

/// CommonMark's rule of 3, as the search for an opener sees it. A `*` closer
/// passes over a `*` run that could open when either of the two could also play the
/// other part and their lengths add up to a multiple of 3 without both being
/// multiples of 3 (so `**` never pairs with a `*` that might close, as in
/// `**粗*斜*粗**`); a run of the closer's character that can open and meets none of
/// that is the nearest opener, and is taken.
pub proof fn rule_of_three(nodes: Seq<PieceV>, k: int, o: (char, nat, bool, bool), c: (char, nat, bool, bool))
    requires
        0 < k <= nodes.len(),
        nodes[k - 1] == (PieceV::Delim { ch: o.0, count: o.1, can_open: o.2, can_close: o.3 }),
        o.0 == c.0,
        o.2,
    ensures
        c.0 == '*' && (o.3 || c.2) && (o.1 + c.1) % 3 == 0 && !(o.1 % 3 == 0 && c.1 % 3 == 0)
            ==> opener_from(nodes, k, c) == opener_from(nodes, k - 1, c),
        c.0 == '*' && o.3 && (o.1 + c.1) % 3 == 0 && !(o.1 % 3 == 0 && c.1 % 3 == 0) ==> opener_from(
            nodes,
            k,
            c,
        ) != Some(k - 1),
        c.0 == '*' && c.2 && (o.1 + c.1) % 3 == 0 && !(o.1 % 3 == 0 && c.1 % 3 == 0) ==> opener_from(
            nodes,
            k,
            c,
        ) != Some(k - 1),
        c.0 != '*' ==> opener_from(nodes, k, c) == Some(k - 1),
        !o.3 && !c.2 ==> opener_from(nodes, k, c) == Some(k - 1),
        (o.1 + c.1) % 3 != 0 ==> opener_from(nodes, k, c) == Some(k - 1),
        o.1 % 3 == 0 && c.1 % 3 == 0 ==> opener_from(nodes, k, c) == Some(k - 1),
{
    assert(delim_of(nodes[k - 1]) == Some(o));
    lemma_opener_from(nodes, k - 1, c);
}

/// A pairing of delimiters uses at least one character.
pub proof fn lemma_matching_used(ch: char, open: nat, close: nat)
    ensures
        spec_matching(ch, open, close) matches Some((kind, used)) ==> used >= 1,
{
}

// ── execution ──────────────────────────────────────────────────────────────

/// The delimiter run at `nodes[i]`, if it is one.
fn delim_at(nodes: &Vec<Piece>, i: usize) -> (r: Option<DelimInfo>)
    requires
        i < nodes.len(),
    ensures
        match r {
            Some(d) => delim_of(piece_view(nodes@[i as int])) == Some(
                (d.ch, d.count as nat, d.can_open, d.can_close),
            ),
            None => delim_of(piece_view(nodes@[i as int])) is None,
        },
{
    match &nodes[i] {
        Piece::Delim { ch, count, can_open, can_close } => Some(
            DelimInfo { ch: *ch, count: *count, can_open: *can_open, can_close: *can_close },
        ),
        _ => None,
    }
}

/// The rule of 3.
fn allowed(o: DelimInfo, c: DelimInfo) -> (r: bool)
    ensures
        r == spec_allowed(
            (o.ch, o.count as nat, o.can_open, o.can_close),
            (c.ch, c.count as nat, c.can_open, c.can_close),
        ),
{
    if o.ch != '*' {
        return true;
    }
    let sum = (o.count as u128) + (c.count as u128);
    !(o.can_close || c.can_open) || sum % 3 != 0 || (o.count % 3 == 0 && c.count % 3 == 0)
}

/// What a pair of runs becomes.
fn matching(ch: char, open: usize, close: usize) -> (r: Option<(NodeKind, usize)>)
    ensures
        match r {
            Some((k, u)) => spec_matching(ch, open as nat, close as nat) == Some((k, u as nat)),
            None => spec_matching(ch, open as nat, close as nat) is None,
        },
{
    if ch == '*' {
        if open >= 2 && close >= 2 {
            Some((NodeKind::Strong, 2))
        } else {
            Some((NodeKind::Emphasis, 1))
        }
    } else if ch == '~' {
        if open >= 2 && close >= 2 {
            Some((NodeKind::Strikethrough, 2))
        } else {
            Some((NodeKind::Subscript, 1))
        }
    } else if ch == '^' {
        Some((NodeKind::Superscript, 1))
    } else if ch == '=' && open >= 2 && close >= 2 {
        Some((NodeKind::Mark, 2))
    } else {
        None
    }
}

/// Searches backwards from `k` for an opener for `c`.
fn find_opener(nodes: &Vec<Piece>, k: usize, c: DelimInfo) -> (r: Option<usize>)
    requires
        k <= nodes.len(),
    ensures
        match r {
            Some(o) => opener_from(
                pieces_view(nodes@),
                k as int,
                (c.ch, c.count as nat, c.can_open, c.can_close),
            ) == Some(o as int),
            None => opener_from(
                pieces_view(nodes@),
                k as int,
                (c.ch, c.count as nat, c.can_open, c.can_close),
            ) is None,
        },
{
    let ghost cv = (c.ch, c.count as nat, c.can_open, c.can_close);
    let ghost pv = pieces_view(nodes@);
    proof {
        lemma_pieces_view_map(nodes@);
    }
    let mut j = k;
    while j > 0
        invariant
            j <= k <= nodes.len(),
            pv == pieces_view(nodes@),
            pv == nodes@.map_values(|p: Piece| piece_view(p)),
            cv == (c.ch, c.count as nat, c.can_open, c.can_close),
            opener_from(pv, j as int, cv) == opener_from(pv, k as int, cv),
        decreases j,
    {
        assert(pv[j - 1] == piece_view(nodes@[j - 1]));
        match delim_at(nodes, j - 1) {
            Some(o) => {
                if o.ch == c.ch && o.can_open && allowed(o, c) {
                    return Some(j - 1);
                }
            },
            None => {},
        }
        j -= 1;
    }
    None
}

/// The leftover of a run after pairing, as pieces.
fn push_leftover(out: &mut Vec<Piece>, d: DelimInfo, used: usize)
    ensures
        pieces_view(final(out)@) == pieces_view(old(out)@) + leftover(
            (d.ch, d.count as nat, d.can_open, d.can_close),
            used as nat,
        ),
{
    if d.count > used {
        let p = Piece::Delim {
            ch: d.ch,
            count: d.count - used,
            can_open: d.can_open,
            can_close: d.can_close,
        };
        let ghost prev = out@;
        out.push(p);
        proof {
            lemma_pieces_view_push(prev, p);
        }
    } else {
        assert(pieces_view(out@) + Seq::<PieceV>::empty() =~= pieces_view(out@));
    }
}

/// The value of two runs of pieces is the two values joined.
pub proof fn lemma_pieces_view_concat(a: Seq<Piece>, b: Seq<Piece>)
    ensures
        pieces_view(a + b) == pieces_view(a) + pieces_view(b),
{
    lemma_pieces_view_map(a);
    lemma_pieces_view_map(b);
    lemma_pieces_view_map(a + b);
    assert((a + b).map_values(|p: Piece| piece_view(p)) =~= a.map_values(|p: Piece| piece_view(p))
        + b.map_values(|p: Piece| piece_view(p)));
}

/// Pairs the opener at `o` with the closer at `c`.
fn splice(
    nodes: &mut Vec<Piece>,
    o: usize,
    c: usize,
    od: DelimInfo,
    cd: DelimInfo,
    kind: NodeKind,
    used: usize,
)
    requires
        o < c < old(nodes).len(),
    ensures
        pieces_view(final(nodes)@) == spec_splice(
            pieces_view(old(nodes)@),
            o as int,
            c as int,
            (od.ch, od.count as nat, od.can_open, od.can_close),
            (cd.ch, cd.count as nat, cd.can_open, cd.can_close),
            kind,
            used as nat,
        ),
{
    let ghost orig = old(nodes)@;
    let mut rest = nodes.split_off(o);
    assert(nodes@ =~= orig.take(o as int));
    assert(rest@ =~= orig.skip(o as int));
    // Move what lies between into the children.
    let _opener = rest.remove(0);
    let mut children: Vec<Piece> = Vec::new();
    let mut k = o + 1;
    while k < c
        invariant
            o + 1 <= k <= c < orig.len(),
            rest@ == orig.skip(k as int),
            children@ == orig.subrange(o + 1, k as int),
        decreases c - k,
    {
        let p = rest.remove(0);
        children.push(p);
        assert(rest@ =~= orig.skip(k + 1));
        assert(children@ =~= orig.subrange(o + 1, k + 1));
        k += 1;
    }
    let _closer = rest.remove(0);
    assert(rest@ =~= orig.skip(c + 1));
    let ghost ch_seq = children@;
    let ghost head = nodes@;
    push_leftover(nodes, od, used);
    let node = Piece::Node { kind, children };
    let ghost before_node = nodes@;
    nodes.push(node);
    proof {
        lemma_pieces_view_push(before_node, node);
    }
    push_leftover(nodes, cd, used);
    let ghost before_rest = nodes@;
    nodes.append(&mut rest);
    proof {
        lemma_pieces_view_concat(before_rest, orig.skip(c + 1));
        lemma_pieces_view_map(orig);
        lemma_pieces_view_map(head);
        lemma_pieces_view_map(ch_seq);
        lemma_pieces_view_map(orig.skip(c + 1));
        let pv = pieces_view(orig);
        assert(pieces_view(head) =~= pv.take(o as int));
        assert(pieces_view(ch_seq) =~= pv.subrange(o + 1, c as int));
        assert(pieces_view(orig.skip(c + 1)) =~= pv.skip(c + 1));
        assert(pieces_view(nodes@) =~= spec_splice(
            pv,
            o as int,
            c as int,
            (od.ch, od.count as nat, od.can_open, od.can_close),
            (cd.ch, cd.count as nat, cd.can_open, cd.can_close),
            kind,
            used as nat,
        ));
    }
}

/// Pairs the delimiter runs of a piece sequence, nearest opener first.
pub fn resolve(nodes: Vec<Piece>) -> (r: Vec<Piece>)
    ensures
        pieces_view(r@) == spec_resolve(pieces_view(nodes@)),
{
    let mut nodes = nodes;
    let ghost start = pieces_view(nodes@);
    let mut closer: usize = 0;
    proof {
        lemma_pieces_view_map(nodes@);
        crate::inline::lemma_pieces_view_len(nodes@);
    }
    while closer < nodes.len()
        invariant
            closer <= nodes.len(),
            pieces_view(nodes@).len() == nodes@.len(),
            resolve_from(pieces_view(nodes@), closer as int) == spec_resolve(start),
        decreases weight(pieces_view(nodes@)), nodes@.len() - closer,
    {
        let ghost pv = pieces_view(nodes@);
        proof {
            lemma_pieces_view_map(nodes@);
            assert(pv[closer as int] == piece_view(nodes@[closer as int]));
        }
        match delim_at(&nodes, closer) {
            Some(cd) if cd.can_close => {
                match find_opener(&nodes, closer, cd) {
                    Some(o) => {
                        proof {
                            lemma_opener_from(
                                pv,
                                closer as int,
                                (cd.ch, cd.count as nat, cd.can_open, cd.can_close),
                            );
                            assert(pv[o as int] == piece_view(nodes@[o as int]));
                        }
                        let od = match delim_at(&nodes, o) {
                            Some(d) => d,
                            None => {
                                proof {
                                    assert(false);
                                }
                                cd
                            },
                        };
                        match matching(cd.ch, od.count, cd.count) {
                            Some((kind, used)) => {
                                proof {
                                    lemma_splice_weight(pv, o as int, closer as int, kind, used as nat);
                                }
                                splice(&mut nodes, o, closer, od, cd, kind, used);
                                proof {
                                    crate::inline::lemma_pieces_view_len(nodes@);
                                }
                                closer = o;
                            },
                            None => {
                                closer += 1;
                            },
                        }
                    },
                    None => {
                        closer += 1;
                    },
                }
            },
            _ => {
                closer += 1;
            },
        }
    }
    nodes
}

/// The texts of a piece, at every depth, in reading order.
pub open spec fn piece_texts(p: PieceV) -> Seq<Seq<char>>
    decreases p,
{
    match p {
        PieceV::Text(t) => seq![t],
        PieceV::Node { children, .. } => texts_of(children),
        PieceV::Link { children, .. } => texts_of(children),
        _ => Seq::empty(),
    }
}

/// The texts of some pieces, at every depth, in reading order.
pub open spec fn texts_of(ps: Seq<PieceV>) -> Seq<Seq<char>>
    decreases ps,
{
    if ps.len() == 0 {
        Seq::empty()
    } else {
        piece_texts(ps[0]) + texts_of(ps.subrange(1, ps.len() as int))
    }
}

/// The texts of two runs of pieces, one after the other.
proof fn lemma_texts_concat(a: Seq<PieceV>, b: Seq<PieceV>)
    ensures
        texts_of(a + b) == texts_of(a) + texts_of(b),
    decreases a.len(),
{
    if a.len() == 0 {
        assert(a + b =~= b);
        assert(texts_of(a) =~= Seq::<Seq<char>>::empty());
        assert(texts_of(a) + texts_of(b) =~= texts_of(b));
    } else {
        let a1 = a.subrange(1, a.len() as int);
        assert((a + b).subrange(1, (a + b).len() as int) =~= a1 + b);
        assert((a + b)[0] == a[0]);
        lemma_texts_concat(a1, b);
        assert(piece_texts(a[0]) + (texts_of(a1) + texts_of(b)) =~= (piece_texts(a[0]) + texts_of(a1))
            + texts_of(b));
    }
}

/// The texts of one piece.
proof fn lemma_texts_one(v: PieceV)
    ensures
        texts_of(seq![v]) == piece_texts(v),
{
    assert(seq![v].subrange(1, 1) =~= Seq::<PieceV>::empty());
    assert(texts_of(Seq::<PieceV>::empty()) =~= Seq::<Seq<char>>::empty());
    assert(piece_texts(v) + Seq::<Seq<char>>::empty() =~= piece_texts(v));
}

/// Pairing two runs keeps the texts.
proof fn lemma_splice_texts(
    nodes: Seq<PieceV>,
    o: int,
    c: int,
    kind: NodeKind,
    used: nat,
)
    requires
        0 <= o < c < nodes.len(),
        delim_of(nodes[o]) is Some,
        delim_of(nodes[c]) is Some,
    ensures
        texts_of(
            spec_splice(
                nodes,
                o,
                c,
                delim_of(nodes[o]).unwrap(),
                delim_of(nodes[c]).unwrap(),
                kind,
                used,
            ),
        ) == texts_of(nodes),
{
    let od = delim_of(nodes[o]).unwrap();
    let cd = delim_of(nodes[c]).unwrap();
    let a = nodes.take(o);
    let mid = nodes.subrange(o + 1, c);
    let z = nodes.skip(c + 1);
    let e: Seq<Seq<char>> = Seq::empty();
    assert(nodes =~= a + seq![nodes[o]] + mid + seq![nodes[c]] + z);
    lemma_texts_concat(a + seq![nodes[o]] + mid + seq![nodes[c]], z);
    lemma_texts_concat(a + seq![nodes[o]] + mid, seq![nodes[c]]);
    lemma_texts_concat(a + seq![nodes[o]], mid);
    lemma_texts_concat(a, seq![nodes[o]]);
    lemma_texts_one(nodes[o]);
    lemma_texts_one(nodes[c]);
    let node = PieceV::Node { kind, children: mid };
    let lo = leftover(od, used);
    let lc = leftover(cd, used);
    lemma_texts_concat(a + lo + seq![node] + lc, z);
    lemma_texts_concat(a + lo + seq![node], lc);
    lemma_texts_concat(a + lo, seq![node]);
    lemma_texts_concat(a, lo);
    lemma_texts_one(node);
    if od.1 > used {
        lemma_texts_one(lo[0]);
        assert(lo =~= seq![lo[0]]);
    } else {
        assert(texts_of(lo) =~= e);
    }
    if cd.1 > used {
        lemma_texts_one(lc[0]);
        assert(lc =~= seq![lc[0]]);
    } else {
        assert(texts_of(lc) =~= e);
    }
    assert(piece_texts(nodes[o]) =~= e);
    assert(piece_texts(nodes[c]) =~= e);
    assert(texts_of(a) + e + texts_of(mid) + e + texts_of(z) =~= texts_of(a) + texts_of(mid) + texts_of(z));
    assert(texts_of(a) + texts_of(lo) + texts_of(mid) + texts_of(lc) + texts_of(z) =~= texts_of(a)
        + texts_of(mid) + texts_of(z));
}

/// Pairing from any closer keeps the texts.
proof fn lemma_resolve_from_texts(nodes: Seq<PieceV>, closer: int)
    ensures
        texts_of(resolve_from(nodes, closer)) == texts_of(nodes),
    decreases weight(nodes), nodes.len() - closer,
{
    if 0 <= closer < nodes.len() {
        match delim_of(nodes[closer]) {
            Some(cd) if cd.3 => match opener_from(nodes, closer, cd) {
                Some(o) => {
                    lemma_opener_from(nodes, closer, cd);
                    let od = delim_of(nodes[o]).unwrap();
                    match spec_matching(cd.0, od.1, cd.1) {
                        Some((kind, used)) => {
                            lemma_matching_used(cd.0, od.1, cd.1);
                            lemma_splice_weight(nodes, o, closer, kind, used);
                            lemma_splice_texts(nodes, o, closer, kind, used);
                            lemma_resolve_from_texts(spec_splice(nodes, o, closer, od, cd, kind, used), o);
                        },
                        None => lemma_resolve_from_texts(nodes, closer + 1),
                    }
                },
                None => lemma_resolve_from_texts(nodes, closer + 1),
            },
            _ => lemma_resolve_from_texts(nodes, closer + 1),
        }
    }
}

/// Pairing delimiters keeps every text, at every depth, in reading order: it only
/// groups pieces under new nodes and uses up delimiter characters.
pub proof fn resolving_keeps_the_texts(nodes: Seq<PieceV>)
    ensures
        texts_of(spec_resolve(nodes)) == texts_of(nodes),
{
    lemma_resolve_from_texts(nodes, 0);
}

/// A delimiter run holds at least one character.
pub open spec fn run_not_empty(v: PieceV) -> bool {
    match v {
        PieceV::Delim { count, .. } => count >= 1,
        _ => true,
    }
}

/// How many delimiter characters a node formed by pairing stands for: both runs'
/// share.
pub open spec fn paired_chars(kind: NodeKind) -> nat {
    match kind {
        NodeKind::Strong | NodeKind::Strikethrough | NodeKind::Mark => 4,
        NodeKind::Emphasis | NodeKind::Subscript | NodeKind::Superscript => 2,
        _ => 0,
    }
}

/// The delimiter characters of a piece, at every depth: those of runs not paired,
/// and those that nodes formed by pairing stand for.
pub open spec fn piece_delims(p: PieceV) -> nat
    decreases p,
{
    match p {
        PieceV::Delim { count, .. } => count,
        PieceV::Node { kind, children } => paired_chars(kind) + delims_of(children),
        PieceV::Link { children, .. } => delims_of(children),
        _ => 0,
    }
}

/// The delimiter characters of some pieces, at every depth.
pub open spec fn delims_of(ps: Seq<PieceV>) -> nat
    decreases ps,
{
    if ps.len() == 0 {
        0
    } else {
        piece_delims(ps[0]) + delims_of(ps.subrange(1, ps.len() as int))
    }
}

/// The delimiter characters of two runs of pieces add up.
proof fn lemma_delims_concat(a: Seq<PieceV>, b: Seq<PieceV>)
    ensures
        delims_of(a + b) == delims_of(a) + delims_of(b),
    decreases a.len(),
{
    if a.len() == 0 {
        assert(a + b =~= b);
    } else {
        let a1 = a.subrange(1, a.len() as int);
        assert((a + b).subrange(1, (a + b).len() as int) =~= a1 + b);
        assert((a + b)[0] == a[0]);
        lemma_delims_concat(a1, b);
    }
}

/// The delimiter characters of one piece.
proof fn lemma_delims_one(v: PieceV)
    ensures
        delims_of(seq![v]) == piece_delims(v),
{
    assert(seq![v].subrange(1, 1) =~= Seq::<PieceV>::empty());
    assert(delims_of(Seq::<PieceV>::empty()) == 0);
    assert(seq![v][0] == v);
}

/// Pairing keeps the delimiter characters, counting those the new node stands for.
proof fn lemma_splice_delims(
    nodes: Seq<PieceV>,
    o: int,
    c: int,
    kind: NodeKind,
    used: nat,
)
    requires
        0 <= o < c < nodes.len(),
        delim_of(nodes[o]) is Some,
        delim_of(nodes[c]) is Some,
        used <= delim_of(nodes[o]).unwrap().1,
        used <= delim_of(nodes[c]).unwrap().1,
        paired_chars(kind) == 2 * used,
    ensures
        delims_of(
            spec_splice(
                nodes,
                o,
                c,
                delim_of(nodes[o]).unwrap(),
                delim_of(nodes[c]).unwrap(),
                kind,
                used,
            ),
        ) == delims_of(nodes),
{
    let od = delim_of(nodes[o]).unwrap();
    let cd = delim_of(nodes[c]).unwrap();
    let a = nodes.take(o);
    let mid = nodes.subrange(o + 1, c);
    let z = nodes.skip(c + 1);
    assert(nodes =~= a + seq![nodes[o]] + mid + seq![nodes[c]] + z);
    lemma_delims_concat(a + seq![nodes[o]] + mid + seq![nodes[c]], z);
    lemma_delims_concat(a + seq![nodes[o]] + mid, seq![nodes[c]]);
    lemma_delims_concat(a + seq![nodes[o]], mid);
    lemma_delims_concat(a, seq![nodes[o]]);
    lemma_delims_one(nodes[o]);
    lemma_delims_one(nodes[c]);
    let node = PieceV::Node { kind, children: mid };
    let lo = leftover(od, used);
    let lc = leftover(cd, used);
    lemma_delims_concat(a + lo + seq![node] + lc, z);
    lemma_delims_concat(a + lo + seq![node], lc);
    lemma_delims_concat(a + lo, seq![node]);
    lemma_delims_concat(a, lo);
    lemma_delims_one(node);
    if od.1 > used {
        lemma_delims_one(lo[0]);
        assert(lo =~= seq![lo[0]]);
    } else {
        assert(delims_of(lo) == 0);
    }
    if cd.1 > used {
        lemma_delims_one(lc[0]);
        assert(lc =~= seq![lc[0]]);
    } else {
        assert(delims_of(lc) == 0);
    }
}

/// A pair forms a node that stands for what it used of both runs, and uses no more
/// than each has.
proof fn lemma_matching_chars(ch: char, open: nat, close: nat)
    ensures
        spec_matching(ch, open, close) matches Some((kind, used)) ==> paired_chars(kind) == 2 * used
            && (open >= 1 && close >= 1 ==> used <= open && used <= close),
{
}

/// Pairing from any closer keeps the delimiter characters.
proof fn lemma_resolve_from_delims(nodes: Seq<PieceV>, closer: int)
    requires
        forall|k: int| 0 <= k < nodes.len() ==> run_not_empty(#[trigger] nodes[k]),
    ensures
        delims_of(resolve_from(nodes, closer)) == delims_of(nodes),
    decreases weight(nodes), nodes.len() - closer,
{
    if 0 <= closer < nodes.len() {
        match delim_of(nodes[closer]) {
            Some(cd) if cd.3 => match opener_from(nodes, closer, cd) {
                Some(o) => {
                    lemma_opener_from(nodes, closer, cd);
                    let od = delim_of(nodes[o]).unwrap();
                    match spec_matching(cd.0, od.1, cd.1) {
                        Some((kind, used)) => {
                            lemma_matching_used(cd.0, od.1, cd.1);
                            lemma_matching_chars(cd.0, od.1, cd.1);
                            lemma_splice_weight(nodes, o, closer, kind, used);
                            lemma_splice_delims(nodes, o, closer, kind, used);
                            let next = spec_splice(nodes, o, closer, od, cd, kind, used);
                            assert forall|k: int| 0 <= k < next.len() implies run_not_empty(
                                #[trigger] next[k],
                            ) by {
                                let a = nodes.take(o);
                                let lo = leftover(od, used);
                                let lc = leftover(cd, used);
                                let node = PieceV::Node { kind, children: nodes.subrange(o + 1, closer) };
                                let z = nodes.skip(closer + 1);
                                if k < o {
                                    assert(next[k] == nodes[k]);
                                } else if k < o + lo.len() {
                                    assert(next[k] == lo[0]);
                                } else if k == o + lo.len() {
                                    assert(next[k] == node);
                                } else if k < o + lo.len() + 1 + lc.len() {
                                    assert(next[k] == lc[0]);
                                } else {
                                    let kz = k - (o + lo.len() + 1 + lc.len());
                                    assert(next[k] == z[kz]);
                                    assert(z[kz] == nodes[closer + 1 + kz]);
                                }
                            }
                            lemma_resolve_from_delims(next, o);
                        },
                        None => lemma_resolve_from_delims(nodes, closer + 1),
                    }
                },
                None => lemma_resolve_from_delims(nodes, closer + 1),
            },
            _ => lemma_resolve_from_delims(nodes, closer + 1),
        }
    }
}

/// Pairing delimiters neither makes nor loses a delimiter character: each is still
/// in a run not paired, or counted by the node it helped form (two per side for
/// strong emphasis, strikethrough and highlight, one per side otherwise). Runs are
/// never empty, as scanning leaves them.
pub proof fn resolving_keeps_the_delimiters(nodes: Seq<PieceV>)
    requires
        forall|k: int| 0 <= k < nodes.len() ==> run_not_empty(#[trigger] nodes[k]),
    ensures
        delims_of(spec_resolve(nodes)) == delims_of(nodes),
{
    lemma_resolve_from_delims(nodes, 0);
}

} // verus!
