//! Parent chains: what lies under what, and why sibling subtrees never meet.
//!
//! A node lies under `a` when following its parent links, however many, reaches
//! `a`. In a forest every chain ends at a root, so no node lies strictly under
//! itself; everything below rests on that.

use vstd::prelude::*;
use indextree::NodeId;
use super::arena::{Entry, anc_or_self, arena_wf, arena_rooted, rooted};
use super::tree::{reach, reach_any, lemma_reach_any_index};

verus! {

/// `y` lies under `a` (or is `a`), at any depth.
pub open spec fn under(m: Map<NodeId, Entry>, a: NodeId, y: NodeId) -> bool {
    exists|f: nat| #[trigger] anc_or_self(m, a, y, f)
}

/// More fuel finds what less fuel found.
pub proof fn lemma_anc_mono(m: Map<NodeId, Entry>, a: NodeId, y: NodeId, f: nat, g: nat)
    requires
        anc_or_self(m, a, y, f),
        f <= g,
    ensures
        anc_or_self(m, a, y, g),
    decreases f,
{
    if y != a {
        let q = m[y].parent->0;
        lemma_anc_mono(m, a, q, (f - 1) as nat, (g - 1) as nat);
    }
}

/// A child lies under whatever its parent lies under.
pub proof fn lemma_anc_parent(m: Map<NodeId, Entry>, a: NodeId, y: NodeId, f: nat)
    requires
        m.dom().contains(y),
        m[y].parent matches Some(q) && anc_or_self(m, a, q, f),
    ensures
        anc_or_self(m, a, y, f + 1),
{
}

/// Lying under is transitive.
pub proof fn lemma_anc_trans(m: Map<NodeId, Entry>, a: NodeId, b: NodeId, y: NodeId, f: nat, g: nat)
    requires
        anc_or_self(m, a, b, f),
        anc_or_self(m, b, y, g),
    ensures
        anc_or_self(m, a, y, f + g),
    decreases g,
{
    if y == b {
        lemma_anc_mono(m, a, b, f, f + g);
    } else if y != a {
        let q = m[y].parent->0;
        lemma_anc_trans(m, a, b, q, f, (g - 1) as nat);
    }
}

/// Only a live node has live nodes under it.
pub proof fn lemma_anc_live(m: Map<NodeId, Entry>, a: NodeId, y: NodeId, f: nat)
    requires
        arena_wf(m),
        m.dom().contains(y),
        anc_or_self(m, a, y, f),
    ensures
        m.dom().contains(a),
    decreases f,
{
    if y != a {
        let q = m[y].parent->0;
        lemma_anc_live(m, a, q, (f - 1) as nat);
    }
}

/// A chain that meets `x` after passing `x`'s parent goes round forever and never
/// reaches a root.
proof fn lemma_no_cycle_from(m: Map<NodeId, Entry>, x: NodeId, z: NodeId, f: nat, g: nat, h: nat)
    requires
        rooted(m, z, g),
        anc_or_self(m, x, z, f),
        m.dom().contains(x),
        m[x].parent is Some,
    ensures
        !anc_or_self(m, x, m[x].parent->0, h),
    decreases g,
{
    let p = m[x].parent->0;
    if anc_or_self(m, x, p, h) {
        if z == x {
            lemma_no_cycle_from(m, x, p, h, (g - 1) as nat, h);
        } else {
            let q = m[z].parent->0;
            lemma_no_cycle_from(m, x, q, (f - 1) as nat, (g - 1) as nat, h);
        }
    }
}

/// No node lies under its own parent.
pub proof fn lemma_no_cycle(m: Map<NodeId, Entry>, x: NodeId, h: nat)
    requires
        arena_wf(m),
        m.dom().contains(x),
        m[x].parent is Some,
    ensures
        !anc_or_self(m, x, m[x].parent->0, h),
{
    reveal(arena_rooted);
    assert(rooted(m, x, m.dom().len()));
    lemma_no_cycle_from(m, x, x, 0, m.dom().len(), h);
}

/// Two nodes above one node lie one above the other.
pub proof fn lemma_anc_comparable(m: Map<NodeId, Entry>, a: NodeId, b: NodeId, y: NodeId, f: nat, g: nat)
    requires
        anc_or_self(m, a, y, f),
        anc_or_self(m, b, y, g),
    ensures
        under(m, a, b) || under(m, b, a),
    decreases f,
{
    if y == a {
        assert(anc_or_self(m, b, a, g));
    } else if y == b {
        assert(anc_or_self(m, a, b, f));
    } else {
        let q = m[y].parent->0;
        lemma_anc_comparable(m, a, b, q, (f - 1) as nat, (g - 1) as nat);
    }
}

/// The subtrees under two distinct children of one parent share no node.
pub proof fn lemma_siblings_disjoint(
    m: Map<NodeId, Entry>,
    x1: NodeId,
    x2: NodeId,
    y: NodeId,
    f: nat,
    g: nat,
)
    requires
        arena_wf(m),
        m.dom().contains(x1),
        m.dom().contains(x2),
        x1 != x2,
        m[x1].parent is Some,
        m[x1].parent == m[x2].parent,
    ensures
        !(anc_or_self(m, x1, y, f) && anc_or_self(m, x2, y, g)),
{
    if anc_or_self(m, x1, y, f) && anc_or_self(m, x2, y, g) {
        lemma_anc_comparable(m, x1, x2, y, f, g);
        if under(m, x1, x2) {
            let k = choose|k: nat| anc_or_self(m, x1, x2, k);
            lemma_no_cycle(m, x1, (k - 1) as nat);
        } else {
            let k = choose|k: nat| anc_or_self(m, x2, x1, k);
            lemma_no_cycle(m, x2, (k - 1) as nat);
        }
    }
}

/// What a node reaches through its children lies under it.
pub proof fn lemma_reach_under(m: Map<NodeId, Entry>, r: NodeId, y: NodeId, f: nat)
    requires
        arena_wf(m),
        reach(m, r, y, f),
    ensures
        anc_or_self(m, r, y, f),
    decreases f,
{
    if y != r {
        let kids = m[r].children;
        let i = lemma_reach_any_index(m, kids, y, (f - 1) as nat);
        let c = kids[i];
        assert(m.dom().contains(m[r].children[i]));
        lemma_reach_under(m, c, y, (f - 1) as nat);
        assert(m[c].parent == Some(r));
        assert(anc_or_self(m, r, r, 0));
        lemma_anc_parent(m, r, c, 0);
        lemma_anc_trans(m, r, c, y, 1, (f - 1) as nat);
    }
}

/// The nodes outside the subtree under `x` keep their parent and payload.
pub open spec fn kept_outside(m0: Map<NodeId, Entry>, m: Map<NodeId, Entry>, x: NodeId) -> bool {
    forall|z: NodeId|
        #[trigger] m0.dom().contains(z) && !under(m0, x, z) ==> m.dom().contains(z)
            && m[z].parent == m0[z].parent && m[z].data == m0[z].data
}

/// Outside the subtree under `x`, parent chains are as they were.
pub proof fn lemma_kept_chain(
    m0: Map<NodeId, Entry>,
    m: Map<NodeId, Entry>,
    x: NodeId,
    a: NodeId,
    z: NodeId,
    f: nat,
)
    requires
        arena_wf(m0),
        kept_outside(m0, m, x),
        m0.dom().contains(z),
        !under(m0, x, z),
    ensures
        anc_or_self(m, a, z, f) == anc_or_self(m0, a, z, f),
    decreases f,
{
    if z != a && f > 0 {
        if let Some(q) = m0[z].parent {
            if under(m0, x, q) {
                let k = choose|k: nat| anc_or_self(m0, x, q, k);
                lemma_anc_parent(m0, x, z, k);
            }
            lemma_kept_chain(m0, m, x, a, q, (f - 1) as nat);
        }
    }
}

/// Parent chains that stay inside a set of nodes closed under taking parents, all
/// of whose parent links were kept, are as they were.
pub proof fn lemma_region_chain(
    m0: Map<NodeId, Entry>,
    m: Map<NodeId, Entry>,
    k: Set<NodeId>,
    a: NodeId,
    z: NodeId,
    f: nat,
)
    requires
        arena_wf(m0),
        k.contains(z),
        m0.dom().contains(z),
        forall|w: NodeId|
            #[trigger] k.contains(w) && m0.dom().contains(w) ==> m.dom().contains(w)
                && m[w].parent == m0[w].parent,
        forall|w: NodeId|
            #[trigger] k.contains(w) && m0.dom().contains(w) && m0[w].parent is Some ==> k.contains(
                m0[w].parent->0,
            ),
    ensures
        anc_or_self(m, a, z, f) == anc_or_self(m0, a, z, f),
    decreases f,
{
    if z != a && f > 0 {
        if let Some(q) = m0[z].parent {
            lemma_region_chain(m0, m, k, a, q, (f - 1) as nat);
        }
    }
}

/// A chain that starts inside a set of nodes and ends outside it leaves the set
/// through some node of the set whose parent lies outside.
pub proof fn lemma_exit(m: Map<NodeId, Entry>, k: Set<NodeId>, a: NodeId, y: NodeId, f: nat) -> (w:
    NodeId)
    requires
        anc_or_self(m, a, y, f),
        k.contains(y),
        !k.contains(a),
    ensures
        k.contains(w),
        m.dom().contains(w),
        m[w].parent is Some,
        !k.contains(m[w].parent->0),
        under(m, w, y),
    decreases f,
{
    let q = m[y].parent->0;
    if !k.contains(q) {
        assert(anc_or_self(m, y, y, 0));
        y
    } else {
        let w = lemma_exit(m, k, a, q, (f - 1) as nat);
        let g = choose|g: nat| anc_or_self(m, w, q, g);
        lemma_anc_parent(m, w, y, g);
        w
    }
}

/// What lies strictly under `x` lies under one of its children.
pub proof fn lemma_child_below(m: Map<NodeId, Entry>, x: NodeId, y: NodeId, f: nat) -> (c: NodeId)
    requires
        anc_or_self(m, x, y, f),
        y != x,
    ensures
        m.dom().contains(c),
        m[c].parent == Some(x),
        under(m, c, y),
    decreases f,
{
    let q = m[y].parent->0;
    if q == x {
        assert(anc_or_self(m, y, y, 0));
        y
    } else {
        let c = lemma_child_below(m, x, q, (f - 1) as nat);
        let g = choose|g: nat| anc_or_self(m, c, q, g);
        lemma_anc_parent(m, c, y, g);
        c
    }
}

} // verus!
