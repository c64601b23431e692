//! Why expansion leaves nothing unexpanded: what each step of the dispatcher keeps
//! and what it settles.
//!
//! Expanding a node `x` touches only the subtree under `x` (and the children list
//! of `x`'s parent, when `x` is replaced). Every other node keeps its parent and
//! payload, so the parent chains outside that subtree stay as they were. A block
//! still waiting after the step was therefore waiting before it, and outside the
//! subtree under `x`.

use vstd::prelude::*;
use indextree::NodeId;
use crate::ast::arena::{
    Entry, anc_or_self, arena_wf, detached, inserted_after, is_anc_or_self, lemma_detached_anc,
    subtree_removed,
};
use crate::ast::chain::{
    kept_outside, lemma_anc_live, lemma_anc_parent, lemma_anc_trans, lemma_child_below,
    lemma_exit, lemma_kept_chain, lemma_no_cycle, lemma_region_chain, lemma_siblings_disjoint,
    under,
};
use super::handler::confined;

verus! {

/// `y` is an unexpanded block attached to the document.
pub open spec fn pending(m: Map<NodeId, Entry>, doc: NodeId, y: NodeId) -> bool {
    &&& m.dom().contains(y)
    &&& m[y].data is Unparsed
    &&& under(m, doc, y)
}

/// `z` belongs to what expanding `x` may touch: it is new, or lies under `x`.
pub open spec fn touched(m0: Map<NodeId, Entry>, x: NodeId, z: NodeId) -> bool {
    !m0.dom().contains(z) || under(m0, x, z)
}

/// The parent of a node outside the subtree under `x` (or of `x` itself) lies
/// outside that subtree.
pub proof fn lemma_outside_up(m0: Map<NodeId, Entry>, x: NodeId, w: NodeId)
    requires
        arena_wf(m0),
        m0.dom().contains(w),
        w == x || !under(m0, x, w),
        m0[w].parent is Some,
    ensures
        !under(m0, x, m0[w].parent->0),
{
    let q = m0[w].parent->0;
    if under(m0, x, q) {
        let g = choose|g: nat| anc_or_self(m0, x, q, g);
        if w == x {
            lemma_no_cycle(m0, x, g);
        } else {
            lemma_anc_parent(m0, x, w, g);
        }
    }
}

/// Chains from `x` or from outside the subtree under `x` are as they were, when
/// `x` and the outside kept their parents.
pub proof fn lemma_out_chain(
    m0: Map<NodeId, Entry>,
    m: Map<NodeId, Entry>,
    x: NodeId,
    a: NodeId,
    z: NodeId,
    f: nat,
)
    requires
        arena_wf(m0),
        m0.dom().contains(z),
        z == x || !under(m0, x, z),
        kept_outside(m0, m, x),
        m0.dom().contains(x) ==> m.dom().contains(x) && m[x].parent == m0[x].parent,
    ensures
        anc_or_self(m, a, z, f) == anc_or_self(m0, a, z, f),
{
    let k = Set::new(|w: NodeId| w == x || !under(m0, x, w));
    assert forall|w: NodeId| #[trigger]
        k.contains(w) && m0.dom().contains(w) implies m.dom().contains(w) && m[w].parent
        == m0[w].parent by {}
    assert forall|w: NodeId| #[trigger]
        k.contains(w) && m0.dom().contains(w) && m0[w].parent is Some implies k.contains(
        m0[w].parent->0,
    ) by {
        lemma_outside_up(m0, x, w);
    }
    lemma_region_chain(m0, m, k, a, z, f);
}

/// Chains from the subtree under a child `c` of `x` are as they were, when that
/// subtree, `x` and the outside of `x` kept their parents.
pub proof fn lemma_sub_chain(
    m0: Map<NodeId, Entry>,
    m: Map<NodeId, Entry>,
    x: NodeId,
    c: NodeId,
    a: NodeId,
    z: NodeId,
    f: nat,
)
    requires
        arena_wf(m0),
        m0.dom().contains(x),
        m0.dom().contains(c),
        m0[c].parent == Some(x),
        m0.dom().contains(z),
        under(m0, c, z),
        kept_outside(m0, m, x),
        m.dom().contains(x),
        m[x].parent == m0[x].parent,
        forall|w: NodeId|
            #[trigger] under(m0, c, w) && m0.dom().contains(w) ==> m.dom().contains(w)
                && m[w].parent == m0[w].parent,
    ensures
        anc_or_self(m, a, z, f) == anc_or_self(m0, a, z, f),
{
    let k = Set::new(|w: NodeId| under(m0, c, w) || w == x || !under(m0, x, w));
    assert forall|w: NodeId| #[trigger]
        k.contains(w) && m0.dom().contains(w) implies m.dom().contains(w) && m[w].parent
        == m0[w].parent by {
        if under(m0, c, w) {
        } else if w == x {
        } else {
        }
    }
    assert forall|w: NodeId| #[trigger]
        k.contains(w) && m0.dom().contains(w) && m0[w].parent is Some implies k.contains(
        m0[w].parent->0,
    ) by {
        let q = m0[w].parent->0;
        if under(m0, c, w) {
            if w != c {
                let g = choose|g: nat| anc_or_self(m0, c, w, g);
                assert(anc_or_self(m0, c, q, (g - 1) as nat));
            }
        } else {
            lemma_outside_up(m0, x, w);
        }
    }
    lemma_region_chain(m0, m, k, a, z, f);
}

/// The invariant of the walk over the children of an expanded node `x`, after
/// the first `i` of them: `x` and its outside as they were, the children not
/// walked yet untouched, and every block still waiting outside `x` or under a child
/// not walked yet.
pub open spec fn walk_inv(
    m0: Map<NodeId, Entry>,
    m: Map<NodeId, Entry>,
    doc: NodeId,
    x: NodeId,
    i: int,
    settled: bool,
) -> bool {
    let kids = m0[x].children;
    &&& kept_outside(m0, m, x)
    &&& m.dom().contains(x)
    &&& m[x].parent == m0[x].parent
    &&& m[x].data == m0[x].data
    &&& forall|k: int, z: NodeId|
        i <= k < kids.len() && #[trigger] under(m0, kids[k], z) && m0.dom().contains(z)
            ==> m.dom().contains(z) && m[z].parent == m0[z].parent && m[z].data == m0[z].data
    &&& settled ==> forall|y: NodeId| #[trigger]
        pending(m, doc, y) ==> m0.dom().contains(y) && (!under(m0, x, y) || exists|k: int|
            i <= k < kids.len() && #[trigger] under(m0, kids[k], y))
}

/// Before the walk: a waiting block under `x` lies under one of its children.
pub proof fn lemma_walk_start(m0: Map<NodeId, Entry>, doc: NodeId, x: NodeId)
    requires
        arena_wf(m0),
        m0.dom().contains(x),
        !(m0[x].data is Unparsed),
    ensures
        walk_inv(m0, m0, doc, x, 0, true),
{
    let kids = m0[x].children;
    assert forall|y: NodeId| #[trigger] pending(m0, doc, y) implies m0.dom().contains(y) && (
    !under(m0, x, y) || exists|k: int| 0 <= k < kids.len() && #[trigger] under(m0, kids[k], y)) by {
        if under(m0, x, y) {
            let f = choose|f: nat| anc_or_self(m0, x, y, f);
            let c = lemma_child_below(m0, x, y, f);
            assert(m0[x].children.contains(c));
            let k = choose|k: int| 0 <= k < kids.len() && kids[k] == c;
            assert(under(m0, kids[k], y));
        }
    }
}

/// The child about to be walked is attached to the document.
pub proof fn lemma_walk_attached(
    m0: Map<NodeId, Entry>,
    m: Map<NodeId, Entry>,
    doc: NodeId,
    x: NodeId,
    i: int,
    settled: bool,
)
    requires
        arena_wf(m0),
        m0.dom().contains(x),
        under(m0, doc, x),
        0 <= i < m0[x].children.len(),
        walk_inv(m0, m, doc, x, i, settled),
    ensures
        under(m, doc, m0[x].children[i]),
        m.dom().contains(m0[x].children[i]),
{
    let c = m0[x].children[i];
    assert(m0.dom().contains(c) && m0[c].parent == Some(x));
    assert(anc_or_self(m0, c, c, 0));
    assert(under(m0, m0[x].children[i], c));
    let f = choose|f: nat| anc_or_self(m0, doc, x, f);
    lemma_out_chain(m0, m, x, doc, x, f);
    lemma_anc_parent(m, doc, c, f);
}

/// Walking child `i` keeps the walk's invariant for the children after it.
pub proof fn lemma_walk_step(
    m0: Map<NodeId, Entry>,
    mi: Map<NodeId, Entry>,
    m1: Map<NodeId, Entry>,
    doc: NodeId,
    x: NodeId,
    i: int,
    settled: bool,
    settled1: bool,
)
    requires
        arena_wf(m0),
        arena_wf(mi),
        m0.dom().contains(x),
        0 <= i < m0[x].children.len(),
        walk_inv(m0, mi, doc, x, i, settled),
        kept_outside(mi, m1, m0[x].children[i]),
        settled1 ==> settled,
        settled1 ==> forall|y: NodeId| #[trigger]
            pending(m1, doc, y) ==> mi.dom().contains(y) && !under(mi, m0[x].children[i], y),
    ensures
        walk_inv(m0, m1, doc, x, i + 1, settled1),
{
    let kids = m0[x].children;
    let c = kids[i];
    assert(m0.dom().contains(c) && m0[c].parent == Some(x));
    // The outside of `x` does not lie under `c`.
    assert forall|z: NodeId| #[trigger]
        m0.dom().contains(z) && !under(m0, x, z) implies m1.dom().contains(z) && m1[z].parent
        == m0[z].parent && m1[z].data == m0[z].data by {
        if under(mi, c, z) {
            let f = choose|f: nat| anc_or_self(mi, c, z, f);
            lemma_out_chain(m0, mi, x, c, z, f);
            assert(anc_or_self(m0, x, c, 1)) by {
                assert(anc_or_self(m0, x, x, 0));
            }
            lemma_anc_trans(m0, x, c, z, 1, f);
        }
    }
    // Nor does `x`.
    if under(mi, c, x) {
        let f = choose|f: nat| anc_or_self(mi, c, x, f);
        lemma_out_chain(m0, mi, x, c, x, f);
        let p = m0[x].parent->0;
        assert(anc_or_self(m0, c, p, (f - 1) as nat));
        assert(anc_or_self(m0, x, c, 1)) by {
            assert(anc_or_self(m0, x, x, 0));
        }
        lemma_anc_trans(m0, x, c, p, 1, (f - 1) as nat);
        lemma_no_cycle(m0, x, (f - 1 + 1) as nat);
    }
    // Nor does anything under a later child.
    assert forall|k: int, z: NodeId|
        i + 1 <= k < kids.len() && #[trigger] under(m0, kids[k], z) && m0.dom().contains(
            z,
        ) implies m1.dom().contains(z) && m1[z].parent == m0[z].parent && m1[z].data
        == m0[z].data by {
        let ck = kids[k];
        assert(m0.dom().contains(ck) && m0[ck].parent == Some(x));
        if under(mi, c, z) {
            let f = choose|f: nat| anc_or_self(mi, c, z, f);
            assert forall|w: NodeId| #[trigger]
                under(m0, ck, w) && m0.dom().contains(w) implies mi.dom().contains(w)
                && mi[w].parent == m0[w].parent by {
                assert(under(m0, kids[k], w));
            }
            lemma_sub_chain(m0, mi, x, ck, c, z, f);
            let g = choose|g: nat| anc_or_self(m0, ck, z, g);
            assert(kids.no_duplicates());
            lemma_siblings_disjoint(m0, c, ck, z, f, g);
        }
    }
    // What still waits lies outside `x` or under a later child.
    if settled1 {
        assert forall|y: NodeId| #[trigger] pending(m1, doc, y) implies m0.dom().contains(y) && (
        !under(m0, x, y) || exists|k: int|
            i + 1 <= k < kids.len() && #[trigger] under(m0, kids[k], y)) by {
            let f = choose|f: nat| anc_or_self(m1, doc, y, f);
            lemma_kept_chain(mi, m1, c, doc, y, f);
            assert(pending(mi, doc, y));
            if under(m0, x, y) {
                let k = choose|k: int| i <= k < kids.len() && #[trigger] under(m0, kids[k], y);
                if k == i {
                    let g = choose|g: nat| anc_or_self(m0, c, y, g);
                    assert forall|w: NodeId| #[trigger]
                        under(m0, c, w) && m0.dom().contains(w) implies mi.dom().contains(w)
                        && mi[w].parent == m0[w].parent by {
                        assert(under(m0, kids[i], w));
                    }
                    lemma_sub_chain(m0, mi, x, c, c, y, g);
                    assert(anc_or_self(mi, c, y, g));
                }
                assert(under(m0, kids[k], y));
            }
        }
    }
}

/// While the replacement of `x` is put in place, after its first `i` nodes: the
/// outside of `x` as it was (its parent keeps at least its own parent and
/// payload), `x` still under its parent, the first `i` replacement nodes under that
/// parent too, and no other node that expanding `x` may touch.
pub open spec fn placing_inv(
    m0: Map<NodeId, Entry>,
    m: Map<NodeId, Entry>,
    x: NodeId,
    r: Seq<NodeId>,
    i: int,
) -> bool {
    &&& kept_outside(m0, m, x)
    &&& forall|z: NodeId|
        #[trigger] m0.dom().contains(z) && !under(m0, x, z) && Some(z) != m0[x].parent
            ==> m.dom().contains(z) && m[z] == m0[z]
    &&& m0[x].parent matches Some(p) ==> {
        &&& m.dom().contains(x)
        &&& m[x].parent == Some(p)
        &&& forall|k: int| 0 <= k < i ==> m.dom().contains(#[trigger] r[k]) && m[r[k]].parent == Some(p)
        &&& forall|z: NodeId|
            #[trigger] m.dom().contains(z) && m[z].parent == Some(p) && touched(m0, x, z) ==> z == x
                || r.take(i).contains(z)
    }
}

/// What a replacement may be made of: new nodes, or children of the block.
pub open spec fn replacement_ok(m0: Map<NodeId, Entry>, x: NodeId, r: Seq<NodeId>) -> bool {
    &&& forall|k: int| 0 <= k < r.len() ==> #[trigger] touched(m0, x, r[k]) && r[k] != x
    &&& r.no_duplicates()
}

/// An expander that kept to its block starts the placing.
pub proof fn lemma_place_start(m0: Map<NodeId, Entry>, m: Map<NodeId, Entry>, x: NodeId, r: Seq<NodeId>)
    requires
        arena_wf(m0),
        arena_wf(m),
        m0.dom().contains(x),
        confined(m0, m, x, r),
    ensures
        placing_inv(m0, m, x, r, 0),
        replacement_ok(m0, x, r),
{
    assert forall|z: NodeId| #[trigger]
        m0.dom().contains(z) && !under(m0, x, z) implies m.dom().contains(z) && m[z] == m0[z] by {
        if m0[x].children.contains(z) {
            let k = choose|k: int| 0 <= k < m0[x].children.len() && m0[x].children[k] == z;
            assert(m0.dom().contains(m0[x].children[k]));
            assert(anc_or_self(m0, x, x, 0));
            lemma_anc_parent(m0, x, z, 0);
        }
        assert(anc_or_self(m0, x, x, 0));
    }
    if let Some(p) = m0[x].parent {
        assert(!under(m0, x, p)) by {
            lemma_outside_up(m0, x, x);
        }
        assert(m[p] == m0[p]);
        assert(m0[p].children.contains(x));
        let kx = choose|kx: int| 0 <= kx < m0[p].children.len() && m0[p].children[kx] == x;
        assert(m.dom().contains(m[p].children[kx]) && m[m[p].children[kx]].parent == Some(p));
        assert forall|z: NodeId| #[trigger]
            m.dom().contains(z) && m[z].parent == Some(p) && touched(m0, x, z) implies z == x
            || r.take(0).contains(z) by {
            assert(m[p].children.contains(z));
            let kz = choose|kz: int| 0 <= kz < m[p].children.len() && m[p].children[kz] == z;
            assert(m0.dom().contains(m0[p].children[kz]) && m0[m0[p].children[kz]].parent == Some(p));
            if z != x {
                let f = choose|f: nat| anc_or_self(m0, x, z, f);
                assert(anc_or_self(m0, x, p, (f - 1) as nat));
                lemma_no_cycle(m0, x, (f - 1) as nat);
            }
        }
    }
    assert forall|k: int| 0 <= k < r.len() implies #[trigger] touched(m0, x, r[k]) && r[k] != x by {
        if m0.dom().contains(r[k]) {
            assert(m0[x].children.contains(r[k]));
            let j = choose|j: int| 0 <= j < m0[x].children.len() && m0[x].children[j] == r[k];
            assert(m0.dom().contains(m0[x].children[j]) && m0[m0[x].children[j]].parent == Some(x));
            assert(anc_or_self(m0, x, x, 0));
            lemma_anc_parent(m0, x, r[k], 0);
        }
    }
}

/// Putting replacement node `i` after the anchor keeps the placing invariant.
pub proof fn lemma_place_step(
    m0: Map<NodeId, Entry>,
    m: Map<NodeId, Entry>,
    x: NodeId,
    r: Seq<NodeId>,
    i: int,
    anchor: NodeId,
)
    requires
        arena_wf(m0),
        arena_wf(m),
        m0.dom().contains(x),
        replacement_ok(m0, x, r),
        placing_inv(m0, m, x, r, i),
        0 <= i < r.len(),
        anchor == (if i == 0 {
            x
        } else {
            r[i - 1]
        }),
        m.dom().contains(anchor),
        m.dom().contains(r[i]),
        m[anchor].parent is Some,
        !is_anc_or_self(m, r[i], anchor),
    ensures
        placing_inv(m0, inserted_after(m, anchor, r[i]), x, r, i + 1),
{
    let node = r[i];
    let m1 = detached(m, node);
    let pa = m1[anchor].parent->0;
    let m2 = inserted_after(m, anchor, node);
    assert(touched(m0, x, node) && node != x);
    assert(node != anchor) by {
        assert(anc_or_self(m, node, node, m.dom().len()));
    }
    assert(m1[anchor].parent == m[anchor].parent);
    // The old parent of the node is not a kept outside node.
    if let Some(q) = m[node].parent {
        if m0.dom().contains(q) && !under(m0, x, q) && Some(q) != m0[x].parent {
            assert(m[q] == m0[q]);
            assert(m[q].children.contains(node));
            let k = choose|k: int| 0 <= k < m[q].children.len() && m[q].children[k] == node;
            assert(m0.dom().contains(m0[q].children[k]) && m0[m0[q].children[k]].parent == Some(q));
            let f = choose|f: nat| anc_or_self(m0, x, node, f);
            assert(anc_or_self(m0, x, q, (f - 1) as nat));
        }
    }
    // Nor is the anchor's parent.
    if m0.dom().contains(pa) && !under(m0, x, pa) && Some(pa) != m0[x].parent {
        assert(m[pa] == m0[pa]);
        assert(m[pa].children.contains(anchor));
        let k = choose|k: int| 0 <= k < m[pa].children.len() && m[pa].children[k] == anchor;
        assert(m0.dom().contains(m0[pa].children[k]) && m0[m0[pa].children[k]].parent == Some(pa));
        if i > 0 {
            assert(touched(m0, x, r[i - 1]));
            let f = choose|f: nat| anc_or_self(m0, x, anchor, f);
            assert(anc_or_self(m0, x, pa, (f - 1) as nat));
        }
    }
    assert forall|z: NodeId| #[trigger]
        m0.dom().contains(z) && !under(m0, x, z) && Some(z) != m0[x].parent implies m2.dom().contains(
        z,
    ) && m2[z] == m0[z] by {
        assert(z != node);
    }
    assert forall|z: NodeId| #[trigger]
        m0.dom().contains(z) && !under(m0, x, z) implies m2.dom().contains(z) && m2[z].parent
        == m0[z].parent && m2[z].data == m0[z].data by {
        assert(z != node);
    }
    if let Some(p) = m0[x].parent {
        assert(pa == p);
        assert(m2.dom().contains(x) && m2[x].parent == Some(p));
        assert forall|k: int| 0 <= k < i + 1 implies m2.dom().contains(#[trigger] r[k])
            && m2[r[k]].parent == Some(p) by {
            if k < i {
                assert(r[k] != node);
            }
        }
        assert forall|z: NodeId| #[trigger]
            m2.dom().contains(z) && m2[z].parent == Some(p) && touched(m0, x, z) implies z == x
            || r.take(i + 1).contains(z) by {
            if z == node {
                assert(r.take(i + 1)[i] == z);
            } else {
                assert(m[z].parent == Some(p));
                if z != x {
                    let k = choose|k: int| 0 <= k < i && r.take(i)[k] == z;
                    assert(r.take(i + 1)[k] == z);
                }
            }
        }
    }
}

/// After the block is placed out: what the removal of `x` and what was left under
/// it leaves.
pub open spec fn replaced(
    m0: Map<NodeId, Entry>,
    mm: Map<NodeId, Entry>,
    x: NodeId,
    p: NodeId,
    r: Seq<NodeId>,
) -> bool {
    &&& kept_outside(m0, mm, x)
    &&& forall|z: NodeId|
        #[trigger] m0.dom().contains(z) && !under(m0, x, z) && z != p ==> mm.dom().contains(z)
            && mm[z] == m0[z]
    &&& !mm.dom().contains(x)
    &&& forall|k: int| 0 <= k < r.len() ==> mm.dom().contains(#[trigger] r[k]) && mm[r[k]].parent == Some(p)
    &&& forall|z: NodeId|
        #[trigger] mm.dom().contains(z) && mm[z].parent == Some(p) && touched(m0, x, z) ==> r.contains(
            z,
        )
}

/// Removing the block with what was left under it keeps the outside and the
/// replacement, and nothing else under the parent.
pub proof fn lemma_removed(
    m0: Map<NodeId, Entry>,
    m: Map<NodeId, Entry>,
    x: NodeId,
    r: Seq<NodeId>,
)
    requires
        arena_wf(m0),
        arena_wf(m),
        m0.dom().contains(x),
        m0[x].parent is Some,
        replacement_ok(m0, x, r),
        placing_inv(m0, m, x, r, r.len() as int),
    ensures
        replaced(m0, subtree_removed(m, x), x, m0[x].parent->0, r),
{
    let p = m0[x].parent->0;
    let m1 = detached(m, x);
    let n = m1.dom().len();
    let mm = subtree_removed(m, x);
    assert(!under(m0, x, p)) by {
        lemma_outside_up(m0, x, x);
    }
    crate::ast::arena::lemma_detached_dom(m, x);
    assert(is_anc_or_self(m1, x, x));
    assert forall|z: NodeId| #[trigger]
        m0.dom().contains(z) && !under(m0, x, z) implies mm.dom().contains(z) && mm[z].parent
        == m0[z].parent && mm[z].data == m0[z].data by {
        if is_anc_or_self(m1, x, z) {
            lemma_detached_anc(m, x, z, n);
            lemma_out_chain(m0, m, x, x, z, n);
        }
    }
    assert forall|z: NodeId| #[trigger]
        m0.dom().contains(z) && !under(m0, x, z) && z != p implies mm.dom().contains(z) && mm[z]
        == m0[z] by {
        if is_anc_or_self(m1, x, z) {
            lemma_detached_anc(m, x, z, n);
            lemma_out_chain(m0, m, x, x, z, n);
        }
    }
    assert forall|k: int| 0 <= k < r.len() implies mm.dom().contains(#[trigger] r[k])
        && mm[r[k]].parent == Some(p) by {
        let z = r[k];
        assert(touched(m0, x, z) && z != x);
        if is_anc_or_self(m1, x, z) {
            lemma_detached_anc(m, x, z, n);
            assert(anc_or_self(m, x, p, (n - 1) as nat));
            lemma_out_chain(m0, m, x, x, p, (n - 1) as nat);
            lemma_no_cycle(m0, x, (n - 1) as nat);
        }
    }
    assert forall|z: NodeId| #[trigger]
        mm.dom().contains(z) && mm[z].parent == Some(p) && touched(m0, x, z) implies r.contains(z) by {
        assert(z != x);
        assert(m[z].parent == Some(p));
        assert(r.take(r.len() as int) == r);
    }
}

/// While the replacement nodes are expanded, after the first `j`: the outside of
/// the block as it was, the replacement nodes not expanded yet untouched, and
/// every block still waiting was waiting right after the removal, under no
/// replacement node expanded so far.
pub open spec fn expanding_inv(
    m0: Map<NodeId, Entry>,
    mm: Map<NodeId, Entry>,
    m: Map<NodeId, Entry>,
    doc: NodeId,
    x: NodeId,
    r: Seq<NodeId>,
    j: int,
    settled: bool,
) -> bool {
    &&& kept_outside(m0, m, x)
    &&& forall|k: int, z: NodeId|
        j <= k < r.len() && #[trigger] under(mm, r[k], z) && mm.dom().contains(z) ==> m.dom().contains(z)
            && m[z].parent == mm[z].parent && m[z].data == mm[z].data
    &&& settled ==> forall|y: NodeId| #[trigger]
        pending(m, doc, y) ==> pending(mm, doc, y) && forall|k: int|
            0 <= k < j ==> !#[trigger] under(mm, r[k], y)
}

/// Chains from the subtree under an untouched replacement node are as they were
/// right after the removal.
proof fn lemma_rep_chain(
    m0: Map<NodeId, Entry>,
    mm: Map<NodeId, Entry>,
    m: Map<NodeId, Entry>,
    doc: NodeId,
    x: NodeId,
    p: NodeId,
    r: Seq<NodeId>,
    j: int,
    k: int,
    a: NodeId,
    z: NodeId,
    f: nat,
)
    requires
        arena_wf(m0),
        arena_wf(mm),
        m0.dom().contains(x),
        m0[x].parent == Some(p),
        replaced(m0, mm, x, p, r),
        expanding_inv(m0, mm, m, doc, x, r, j, false),
        0 <= j <= k < r.len(),
        under(mm, r[k], z),
        mm.dom().contains(z),
    ensures
        anc_or_self(m, a, z, f) == anc_or_self(mm, a, z, f),
{
    assert(!under(m0, x, p)) by {
        lemma_outside_up(m0, x, x);
    }
    let set = Set::new(|w: NodeId| under(mm, r[k], w) || (m0.dom().contains(w) && !under(m0, x, w)));
    assert forall|w: NodeId| #[trigger]
        set.contains(w) && mm.dom().contains(w) implies m.dom().contains(w) && m[w].parent
        == mm[w].parent by {
        if under(mm, r[k], w) {
        } else {
        }
    }
    assert forall|w: NodeId| #[trigger]
        set.contains(w) && mm.dom().contains(w) && mm[w].parent is Some implies set.contains(
        mm[w].parent->0,
    ) by {
        let q = mm[w].parent->0;
        if under(mm, r[k], w) {
            if w != r[k] {
                let g = choose|g: nat| anc_or_self(mm, r[k], w, g);
                assert(anc_or_self(mm, r[k], q, (g - 1) as nat));
            } else {
                assert(0 <= k < r.len());
                assert(mm.dom().contains(r[k]) && mm[r[k]].parent == Some(p));
                assert(m0.dom().contains(p));
            }
        } else {
            lemma_outside_up(m0, x, w);
        }
    }
    lemma_region_chain(mm, m, set, a, z, f);
}

/// The replacement node about to be expanded is attached to the document.
pub proof fn lemma_expand_attached(
    m0: Map<NodeId, Entry>,
    mm: Map<NodeId, Entry>,
    m: Map<NodeId, Entry>,
    doc: NodeId,
    x: NodeId,
    r: Seq<NodeId>,
    j: int,
    settled: bool,
)
    requires
        arena_wf(m0),
        arena_wf(mm),
        m0.dom().contains(x),
        m0[x].parent is Some,
        under(m0, doc, x),
        x != doc,
        replaced(m0, mm, x, m0[x].parent->0, r),
        expanding_inv(m0, mm, m, doc, x, r, j, settled),
        0 <= j < r.len(),
    ensures
        under(m, doc, r[j]),
{
    let p = m0[x].parent->0;
    assert(!under(m0, x, p)) by {
        lemma_outside_up(m0, x, x);
    }
    let f = choose|f: nat| anc_or_self(m0, doc, x, f);
    assert(anc_or_self(m0, doc, p, (f - 1) as nat));
    lemma_kept_chain(m0, m, x, doc, p, (f - 1) as nat);
    assert(anc_or_self(mm, r[j], r[j], 0));
    assert(under(mm, r[j], r[j]));
    assert(m.dom().contains(r[j]) && m[r[j]].parent == Some(p));
    lemma_anc_parent(m, doc, r[j], (f - 1) as nat);
}

/// Expanding replacement node `j` keeps the invariant for the nodes after it.
pub proof fn lemma_expand_step(
    m0: Map<NodeId, Entry>,
    mm: Map<NodeId, Entry>,
    m: Map<NodeId, Entry>,
    m1: Map<NodeId, Entry>,
    doc: NodeId,
    x: NodeId,
    r: Seq<NodeId>,
    j: int,
    settled: bool,
    settled1: bool,
)
    requires
        arena_wf(m0),
        arena_wf(mm),
        arena_wf(m),
        m0.dom().contains(x),
        m0[x].parent is Some,
        replacement_ok(m0, x, r),
        replaced(m0, mm, x, m0[x].parent->0, r),
        expanding_inv(m0, mm, m, doc, x, r, j, settled),
        0 <= j < r.len(),
        kept_outside(m, m1, r[j]),
        settled1 ==> settled,
        settled1 ==> forall|y: NodeId| #[trigger]
            pending(m1, doc, y) ==> m.dom().contains(y) && !under(m, r[j], y),
    ensures
        expanding_inv(m0, mm, m1, doc, x, r, j + 1, settled1),
{
    let p = m0[x].parent->0;
    let c = r[j];
    assert(touched(m0, x, c) && c != x);
    assert(mm.dom().contains(c) && mm[c].parent == Some(p));
    assert forall|z: NodeId| #[trigger]
        m0.dom().contains(z) && !under(m0, x, z) implies m1.dom().contains(z) && m1[z].parent
        == m0[z].parent && m1[z].data == m0[z].data by {
        if under(m, c, z) {
            let f = choose|f: nat| anc_or_self(m, c, z, f);
            lemma_kept_chain(m0, m, x, c, z, f);
            lemma_anc_live(m0, c, z, f);
            let g = choose|g: nat| anc_or_self(m0, x, c, g);
            lemma_anc_trans(m0, x, c, z, g, f);
        }
    }
    assert forall|k: int, z: NodeId|
        j + 1 <= k < r.len() && #[trigger] under(mm, r[k], z) && mm.dom().contains(z) implies m1.dom().contains(
        z,
    ) && m1[z].parent == mm[z].parent && m1[z].data == mm[z].data by {
        if under(m, c, z) {
            let f = choose|f: nat| anc_or_self(m, c, z, f);
            lemma_rep_chain(m0, mm, m, doc, x, p, r, j, k, c, z, f);
            let g = choose|g: nat| anc_or_self(mm, r[k], z, g);
            assert(mm.dom().contains(r[k]) && mm[r[k]].parent == Some(p));
            lemma_siblings_disjoint(mm, c, r[k], z, f, g);
        }
    }
    if settled1 {
        assert forall|y: NodeId| #[trigger] pending(m1, doc, y) implies pending(mm, doc, y)
            && forall|k: int| 0 <= k < j + 1 ==> !#[trigger] under(mm, r[k], y) by {
            let f = choose|f: nat| anc_or_self(m1, doc, y, f);
            lemma_kept_chain(m, m1, c, doc, y, f);
            assert(pending(m, doc, y));
            if under(mm, c, y) {
                let g = choose|g: nat| anc_or_self(mm, c, y, g);
                lemma_rep_chain(m0, mm, m, doc, x, p, r, j, j, c, y, g);
                assert(anc_or_self(m, c, y, g));
            }
            assert forall|k: int| 0 <= k < j + 1 implies !#[trigger] under(mm, r[k], y) by {
                if k == j {
                    assert(r[k] == c);
                }
            }
        }
    }
}

/// Once every replacement node is expanded, what still waits was waiting outside
/// the block before it was expanded.
pub proof fn lemma_expand_done(
    m0: Map<NodeId, Entry>,
    mm: Map<NodeId, Entry>,
    m: Map<NodeId, Entry>,
    doc: NodeId,
    x: NodeId,
    r: Seq<NodeId>,
)
    requires
        arena_wf(m0),
        arena_wf(mm),
        m0.dom().contains(doc),
        m0.dom().contains(x),
        m0[x].parent is Some,
        under(m0, doc, x),
        x != doc,
        replaced(m0, mm, x, m0[x].parent->0, r),
        expanding_inv(m0, mm, m, doc, x, r, r.len() as int, true),
    ensures
        forall|y: NodeId| #[trigger]
            pending(m, doc, y) ==> m0.dom().contains(y) && !under(m0, x, y),
{
    let p = m0[x].parent->0;
    assert(!under(m0, x, doc)) by {
        if under(m0, x, doc) {
            let g = choose|g: nat| anc_or_self(m0, x, doc, g);
            let h = choose|h: nat| anc_or_self(m0, doc, x, h);
            assert(anc_or_self(m0, doc, p, (h - 1) as nat));
            lemma_anc_trans(m0, x, doc, p, g, (h - 1) as nat);
            lemma_no_cycle(m0, x, (g + h - 1) as nat);
        }
    }
    let set = Set::new(|z: NodeId| touched(m0, x, z));
    assert forall|y: NodeId| #[trigger] pending(m, doc, y) implies m0.dom().contains(y) && !under(
        m0,
        x,
        y,
    ) by {
        assert(pending(mm, doc, y));
        if touched(m0, x, y) {
            let f = choose|f: nat| anc_or_self(mm, doc, y, f);
            assert(set.contains(y) && !set.contains(doc));
            let w = lemma_exit(mm, set, doc, y, f);
            let v = mm[w].parent->0;
            assert(mm.dom().contains(v));
            if v == p {
                assert(r.contains(w));
                let k = choose|k: int| 0 <= k < r.len() && r[k] == w;
                assert(!under(mm, r[k], y));
            } else {
                assert(mm[v] == m0[v]);
                assert(mm[v].children.contains(w));
                let k = choose|k: int| 0 <= k < mm[v].children.len() && mm[v].children[k] == w;
                assert(m0.dom().contains(m0[v].children[k]) && m0[m0[v].children[k]].parent == Some(v));
                assert(w != x);
                let g = choose|g: nat| anc_or_self(m0, x, w, g);
                assert(anc_or_self(m0, x, v, (g - 1) as nat));
            }
        }
    }
}

/// What is left of `budget` after `steps` steps, where the walk stops at nothing.
pub open spec fn left_after(budget: int, steps: int) -> int {
    if budget >= steps {
        budget - steps
    } else {
        0
    }
}

/// The live nodes under `x`.
pub open spec fn sub_of(m: Map<NodeId, Entry>, x: NodeId) -> Set<NodeId> {
    Set::new(|z: NodeId| m.dom().contains(z) && under(m, x, z))
}

/// The live nodes under the first `i` of some nodes.
pub open spec fn subs_of(m: Map<NodeId, Entry>, kids: Seq<NodeId>, i: int) -> Set<NodeId> {
    Set::new(
        |z: NodeId| m.dom().contains(z) && exists|k: int| 0 <= k < i && #[trigger] under(m, kids[k], z),
    )
}

/// The subtrees under the children of `x` taken so far are as many nodes as they
/// hold together, and `x` is not among them.
pub proof fn lemma_subs_step(m: Map<NodeId, Entry>, x: NodeId, i: int)
    requires
        arena_wf(m),
        m.dom().contains(x),
        0 <= i < m[x].children.len(),
    ensures
        subs_of(m, m[x].children, i + 1).len() == subs_of(m, m[x].children, i).len() + sub_of(
            m,
            m[x].children[i],
        ).len(),
        subs_of(m, m[x].children, i + 1).finite(),
{
    let kids = m[x].children;
    let a = subs_of(m, kids, i);
    let b = sub_of(m, kids[i]);
    vstd::set_lib::lemma_len_subset(a, m.dom());
    vstd::set_lib::lemma_len_subset(b, m.dom());
    assert(subs_of(m, kids, i + 1) =~= a + b) by {
        assert forall|z: NodeId| #[trigger] subs_of(m, kids, i + 1).contains(z) implies (a + b).contains(z) by {
            let k = choose|k: int| 0 <= k < i + 1 && #[trigger] under(m, kids[k], z);
            if k < i {
                assert(a.contains(z));
            }
        }
        assert forall|z: NodeId| #[trigger] (a + b).contains(z) implies subs_of(m, kids, i + 1).contains(z) by {
            if b.contains(z) {
                assert(under(m, kids[i], z));
            } else {
                let k = choose|k: int| 0 <= k < i && #[trigger] under(m, kids[k], z);
                assert(under(m, kids[k], z));
            }
        }
    }
    assert(a.disjoint(b)) by {
        assert forall|z: NodeId| a.contains(z) implies !b.contains(z) by {
            let k = choose|k: int| 0 <= k < i && #[trigger] under(m, kids[k], z);
            if b.contains(z) {
                let f = choose|f: nat| anc_or_self(m, kids[k], z, f);
                let g = choose|g: nat| anc_or_self(m, kids[i], z, g);
                assert(m.dom().contains(m[x].children[k]) && m[m[x].children[k]].parent == Some(x));
                assert(m.dom().contains(m[x].children[i]) && m[m[x].children[i]].parent == Some(x));
                assert(kids.no_duplicates());
                lemma_siblings_disjoint(m, kids[k], kids[i], z, f, g);
            }
        }
    }
    vstd::set_lib::lemma_set_disjoint_lens(a, b);
    vstd::set::axiom_set_union_finite(a, b);
}

/// The subtrees under all children of `x` hold every node of the subtree under
/// `x` but `x` itself.
pub proof fn lemma_subs_bound(m: Map<NodeId, Entry>, x: NodeId)
    requires
        arena_wf(m),
        m.dom().contains(x),
    ensures
        subs_of(m, m[x].children, m[x].children.len() as int).len() + 1 == sub_of(m, x).len(),
        sub_of(m, x).len() <= m.dom().len(),
{
    let kids = m[x].children;
    let u = subs_of(m, kids, kids.len() as int);
    let s = sub_of(m, x);
    vstd::set_lib::lemma_len_subset(s, m.dom());
    assert(anc_or_self(m, x, x, 0));
    assert(s.contains(x));
    assert(u.subset_of(s.remove(x))) by {
        assert forall|z: NodeId| u.contains(z) implies s.remove(x).contains(z) by {
            let k = choose|k: int| 0 <= k < kids.len() && #[trigger] under(m, kids[k], z);
            let f = choose|f: nat| anc_or_self(m, kids[k], z, f);
            assert(m.dom().contains(m[x].children[k]) && m[m[x].children[k]].parent == Some(x));
            assert(anc_or_self(m, x, kids[k], 1)) by {
                assert(anc_or_self(m, x, x, 0));
            }
            lemma_anc_trans(m, x, kids[k], z, 1, f);
            if z == x {
                assert(anc_or_self(m, kids[k], x, f));
                assert(anc_or_self(m, kids[k], m[kids[k]].parent->0, f));
                lemma_no_cycle(m, kids[k], f);
            }
        }
    }
    assert(s.remove(x).subset_of(u)) by {
        assert forall|z: NodeId| s.remove(x).contains(z) implies u.contains(z) by {
            let f = choose|f: nat| anc_or_self(m, x, z, f);
            let c = lemma_child_below(m, x, z, f);
            assert(m[x].children.contains(c));
            let k = choose|k: int| 0 <= k < kids.len() && kids[k] == c;
            assert(under(m, kids[k], z));
        }
    }
    vstd::set::axiom_set_remove_finite(s, x);
    vstd::set::axiom_set_remove_len(s, x);
    assert(u =~= s.remove(x));
}

} // verus!
