//! Putting what an expander returned in the place of the block it expanded:
//! which replacements can be put there, and in what order the siblings end up.

use vstd::prelude::*;
use indextree::NodeId;
use crate::ast::arena::{
    Entry, anc_or_self, arena_wf, detached, inserted_after, is_anc_or_self, other_than,
    subtree_removed,
};
use crate::ast::chain::{lemma_anc_live, lemma_anc_trans, lemma_no_cycle, under};
use super::settle::{lemma_out_chain, lemma_outside_up, placing_inv, replacement_ok, touched};
use super::unclaimed::lemma_filter_keeps;

verus! {

/// The siblings `kids` with `x` given up for the nodes `r`, in order.
pub open spec fn in_place_of(kids: Seq<NodeId>, x: NodeId, r: Seq<NodeId>) -> Seq<NodeId> {
    let i = kids.index_of(x);
    kids.take(i) + r + kids.skip(i + 1)
}

/// The siblings `kids` with the first `n` nodes of `r` put right after `x`.
pub open spec fn placed_after(kids: Seq<NodeId>, x: NodeId, r: Seq<NodeId>, n: int) -> Seq<NodeId> {
    let i = kids.index_of(x);
    kids.take(i + 1) + r.take(n) + kids.skip(i + 1)
}

/// While the replacement of `x` is placed, the next node can go right after the
/// anchor exactly when it is live: the anchor is live and has a parent, and no
/// replacement node lies above it.
pub proof fn lemma_place_ok(
    m0: Map<NodeId, Entry>,
    m: Map<NodeId, Entry>,
    x: NodeId,
    r: Seq<NodeId>,
    i: int,
    anchor: NodeId,
)
    requires
        arena_wf(m0),
        arena_wf(m),
        m0.dom().contains(x),
        m0[x].parent is Some,
        replacement_ok(m0, x, r),
        placing_inv(m0, m, x, r, i),
        0 <= i < r.len(),
        anchor == (if i == 0 {
            x
        } else {
            r[i - 1]
        }),
    ensures
        m.dom().contains(anchor),
        m[anchor].parent == m0[x].parent,
        !is_anc_or_self(m, r[i], anchor),
{
    let p = m0[x].parent->0;
    let e = r[i];
    let f = m.dom().len();
    assert(touched(m0, x, e) && e != x);
    if i > 0 {
        assert(r[i - 1] != e);
    }
    if anc_or_self(m, e, anchor, f) {
        // The anchor is not `e`; the chain goes on from the anchor's parent `p`.
        assert(anc_or_self(m, e, p, (f - 1) as nat));
        assert(!under(m0, x, p)) by {
            lemma_outside_up(m0, x, x);
        }
        assert(m0.dom().contains(p));
        lemma_out_chain(m0, m, x, e, p, (f - 1) as nat);
        assert(anc_or_self(m0, e, p, (f - 1) as nat));
        lemma_anc_live(m0, e, p, (f - 1) as nat);
        if e == p {
        } else {
            // `e` lies under `x` and above `x`'s parent: a cycle.
            let g = choose|g: nat| anc_or_self(m0, x, e, g);
            lemma_anc_trans(m0, x, e, p, g, (f - 1) as nat);
            lemma_no_cycle(m0, x, g + (f - 1) as nat);
        }
    }
}

/// Putting the next replacement node right after the anchor puts it next in line
/// among the siblings, and keeps the live nodes.
pub proof fn lemma_place_children(
    m0: Map<NodeId, Entry>,
    m: Map<NodeId, Entry>,
    x: NodeId,
    r: Seq<NodeId>,
    i: int,
    anchor: NodeId,
    kids: Seq<NodeId>,
)
    requires
        arena_wf(m0),
        arena_wf(m),
        m0.dom().contains(x),
        m0[x].parent is Some,
        replacement_ok(m0, x, r),
        placing_inv(m0, m, x, r, i),
        0 <= i < r.len(),
        anchor == (if i == 0 {
            x
        } else {
            r[i - 1]
        }),
        m.dom().contains(r[i]),
        kids.no_duplicates(),
        kids.contains(x),
        m[m0[x].parent->0].children == placed_after(kids, x, r, i),
    ensures
        inserted_after(m, anchor, r[i]).dom() == m.dom(),
        inserted_after(m, anchor, r[i])[m0[x].parent->0].children == placed_after(kids, x, r, i + 1),
{
    let p = m0[x].parent->0;
    let e = r[i];
    lemma_place_ok(m0, m, x, r, i, anchor);
    assert(touched(m0, x, e) && e != x);
    assert(!r.take(i).contains(e)) by {
        if r.take(i).contains(e) {
            let k = choose|k: int| 0 <= k < i && r.take(i)[k] == e;
            assert(r[k] == r[i]);
        }
    }
    // `e` does not hang under `p` yet, so taking it out of its place leaves `p` alone.
    assert(m[e].parent != Some(p));
    assert(!under(m0, x, p)) by {
        lemma_outside_up(m0, x, x);
    }
    assert(e != p);
    let md = detached(m, e);
    assert(md[p] == m[p]);
    assert(anchor != e) by {
        if i > 0 {
            assert(r[i - 1] != r[i]);
        }
    }
    assert(md[anchor].parent == Some(p));
    let c = m[p].children;
    let ix = kids.index_of(x);
    assert(kids[ix] == x);
    assert(0 <= ix < kids.len());
    assert(c.no_duplicates());
    assert(c[ix + i] == anchor);
    let j = c.index_of(anchor);
    assert(c.contains(anchor));
    assert(c[j] == anchor);
    assert(j == ix + i);
    if m[e].parent is Some {
        assert(md.dom() == m.dom());
    }
    assert(c.insert(ix + i + 1, e) =~= placed_after(kids, x, r, i + 1));
}

/// Taking the one `x` out of siblings that hold it once.
proof fn lemma_filter_out_one(a: Seq<NodeId>, x: NodeId, r: Seq<NodeId>, b: Seq<NodeId>)
    requires
        !a.contains(x),
        !r.contains(x),
        !b.contains(x),
    ensures
        (a + (seq![x] + (r + b))).filter(other_than(x)) == a + (r + b),
{
    let pred = other_than(x);
    lemma_filter_keeps(a, x, pred);
    lemma_filter_keeps(b, x, pred);
    lemma_filter_keeps(r, x, pred);
    Seq::filter_distributes_over_add(a, seq![x] + (r + b), pred);
    Seq::filter_distributes_over_add(seq![x], r + b, pred);
    Seq::filter_distributes_over_add(r, b, pred);
    assert(seq![x].filter(pred) =~= Seq::<NodeId>::empty()) by {
        reveal(Seq::filter);
        assert(seq![x].drop_last() =~= Seq::<NodeId>::empty());
        assert(Seq::<NodeId>::empty().filter(pred) =~= Seq::<NodeId>::empty());
        assert(seq![x].last() == x);
        assert(!pred(x));
    }
    assert(Seq::<NodeId>::empty() + (r + b) =~= r + b);
}

/// Removing the block after its replacement was placed leaves the replacement in
/// its place among the siblings.
pub proof fn lemma_removed_children(m: Map<NodeId, Entry>, x: NodeId, p: NodeId, kids: Seq<NodeId>, r: Seq<NodeId>)
    requires
        m.dom().contains(x),
        m[x].parent == Some(p),
        p != x,
        kids.no_duplicates(),
        kids.contains(x),
        forall|k: int| 0 <= k < r.len() ==> #[trigger] r[k] != x,
        m[p].children == placed_after(kids, x, r, r.len() as int),
        subtree_removed(m, x).dom().contains(p),
    ensures
        subtree_removed(m, x)[p].children == in_place_of(kids, x, r),
{
    let ix = kids.index_of(x);
    assert(kids[ix] == x);
    let md = detached(m, x);
    let a = kids.take(ix);
    let b = kids.skip(ix + 1);
    assert(r.take(r.len() as int) =~= r);
    assert(m[p].children =~= a + (seq![x] + (r + b)));
    assert(!a.contains(x)) by {
        if a.contains(x) {
            let k = choose|k: int| 0 <= k < a.len() && a[k] == x;
            assert(kids[k] == kids[ix]);
        }
    }
    assert(!b.contains(x)) by {
        if b.contains(x) {
            let k = choose|k: int| 0 <= k < b.len() && b[k] == x;
            assert(kids[ix + 1 + k] == kids[ix]);
        }
    }
    assert(!r.contains(x));
    lemma_filter_out_one(a, x, r, b);
    assert(md[p].children == m[p].children.filter(other_than(x)));
    assert(subtree_removed(m, x)[p] == md[p]);
}

} // verus!
