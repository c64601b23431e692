//! What a run makes of blocks that nobody claims: each block gives its place
//! to an error node, and the order of its siblings is kept.

use vstd::prelude::*;
use indextree::NodeId;
use crate::ast::arena::{
    Entry, anc_or_self, arena_wf, detached, other_than, inserted_after, is_anc_or_self, rooted,
    subtree_removed, with_children, with_parent,
};
use crate::ast::chain::{lemma_anc_parent, under};
use super::settle::{sub_of, subs_of};
use crate::ast::block::Block;
use crate::ast::error::ErrorKind;
use crate::ast::tree::NodeKind;
use super::handler::span_text_is;

verus! {

/// `made` is the error node the built-in fallback makes of `block`: a call block
/// is reported as an unregistered `::name`, a natural block as having no natural
/// expander, each with the block's span and its source text.
pub open spec fn fallback_error(block: NodeKind, made: NodeKind, source: &str) -> bool {
    match (block, made) {
        (NodeKind::Unparsed(Block::Call(c)), NodeKind::Error(e)) => e.kind == ErrorKind::NoHandler
            && e.message@ == "未注册的调用块 ::"@ + c.name@ && e.span == c.span && span_text_is(
            source,
            c.span,
            e.content@,
        ) && !e.inline,
        (NodeKind::Unparsed(Block::Natural(n)), NodeKind::Error(e)) => e.kind
            == ErrorKind::NoHandler && e.message@ == "没有注册自然块展开器"@ && e.span == n.span
            && span_text_is(source, n.span, e.content@) && !e.inline,
        _ => false,
    }
}

/// The entries after `e` is put right after `x` and `x` is removed with everything
/// under it.
pub open spec fn swapped_for(m: Map<NodeId, Entry>, x: NodeId, e: NodeId) -> Map<NodeId, Entry> {
    subtree_removed(inserted_after(m, x, e), x)
}

/// Every top-level block is an unexpanded block, as a parse leaves them (a call
/// block with its body under it).
pub open spec fn blocks_at_top(m: Map<NodeId, Entry>, doc: NodeId) -> bool {
    forall|k: int| 0 <= k < m[doc].children.len() ==> m[#[trigger] m[doc].children[k]].data is Unparsed
}

/// `e`, new, has taken the place of the block `x` among its siblings: `x` is gone
/// with everything under it, `e` holds the error node the fallback makes of `x`,
/// and nothing else changed.
pub open spec fn unclaimed_block(
    m0: Map<NodeId, Entry>,
    m1: Map<NodeId, Entry>,
    x: NodeId,
    e: NodeId,
    source: &str,
) -> bool {
    let p = m0[x].parent->0;
    let i = m0[p].children.index_of(x);
    &&& !m0.dom().contains(e)
    &&& forall|z: NodeId| #[trigger]
        m1.dom().contains(z) <==> z == e || (m0.dom().contains(z) && !under(m0, x, z))
    &&& m1[p] == with_children(m0[p], m0[p].children.update(i, e))
    &&& m1[e].parent == Some(p)
    &&& m1[e].children.len() == 0
    &&& fallback_error(m0[x].data, m1[e].data, source)
    &&& forall|z: NodeId| #[trigger] m1.dom().contains(z) && z != p && z != e ==> m1[z] == m0[z]
}

/// Adding a node that nothing links to keeps every parent chain of the others.
pub proof fn lemma_insert_chain(m0: Map<NodeId, Entry>, e: NodeId, en: Entry, a: NodeId, z: NodeId, f: nat)
    requires
        arena_wf(m0),
        !m0.dom().contains(e),
        m0.dom().contains(z),
    ensures
        anc_or_self(m0.insert(e, en), a, z, f) == anc_or_self(m0, a, z, f),
    decreases f,
{
    if z != a && f > 0 {
        if let Some(q) = m0[z].parent {
            lemma_insert_chain(m0, e, en, a, q, (f - 1) as nat);
        }
    }
}

/// A sibling of `x` does not lie under `x`.
pub proof fn lemma_sibling_outside(m: Map<NodeId, Entry>, x: NodeId, y: NodeId)
    requires
        arena_wf(m),
        m.dom().contains(x),
        m.dom().contains(y),
        x != y,
        m[x].parent is Some,
        m[y].parent == m[x].parent,
    ensures
        !under(m, x, y),
{
    if under(m, x, y) {
        let f = choose|f: nat| anc_or_self(m, x, y, f);
        crate::ast::chain::lemma_no_cycle(m, x, (f - 1) as nat);
    }
}

/// The node `e` is the error node the fallback makes of the block `x` of `m0`, with
/// nothing under it.
pub open spec fn reported(
    m0: Map<NodeId, Entry>,
    m: Map<NodeId, Entry>,
    x: NodeId,
    e: NodeId,
    source: &str,
) -> bool {
    &&& m.dom().contains(e)
    &&& m[e].children.len() == 0
    &&& fallback_error(m0[x].data, m[e].data, source)
}

/// What became of top-level node `x` of `m0`, now `y` in `m`: an unexpanded block
/// gave its place to the error node the fallback makes of it; any other node kept
/// its place and its payload.
pub open spec fn top_outcome(
    m0: Map<NodeId, Entry>,
    m: Map<NodeId, Entry>,
    x: NodeId,
    y: NodeId,
    source: &str,
) -> bool {
    if m0[x].data is Unparsed {
        reported(m0, m, x, y, source)
    } else {
        y == x && m.dom().contains(y) && m[y].data == m0[x].data
    }
}

/// Each top-level node of `m0` has its outcome at its place, in order: every
/// unexpanded block, with the body under it, gave its place to the error node the
/// fallback makes of it, so nothing of it is left but that node.
pub open spec fn blocks_reported(
    m0: Map<NodeId, Entry>,
    m: Map<NodeId, Entry>,
    doc: NodeId,
    source: &str,
) -> bool {
    &&& m[doc].children.len() == m0[doc].children.len()
    &&& forall|k: int|
        0 <= k < m0[doc].children.len() ==> top_outcome(
            m0,
            m,
            m0[doc].children[k],
            #[trigger] m[doc].children[k],
            source,
        )
}

/// Expanding `x` changed nothing but the subtree under `x` and, where `x` gave its
/// place, its parent.
pub open spec fn touched_only_below(m0: Map<NodeId, Entry>, m1: Map<NodeId, Entry>, x: NodeId) -> bool {
    forall|z: NodeId|
        #[trigger] m0.dom().contains(z) && !under(m0, x, z) && Some(z) != m0[x].parent ==> m1.dom().contains(z)
            && m1[z] == m0[z]
}

/// Chains within an unchanged subtree are as they were.
proof fn lemma_sub_chain_fwd(m0: Map<NodeId, Entry>, m: Map<NodeId, Entry>, c: NodeId, z: NodeId, f: nat)
    requires
        arena_wf(m0),
        m0.dom().contains(z),
        anc_or_self(m0, c, z, f),
        forall|w: NodeId| #[trigger] under(m0, c, w) && m0.dom().contains(w) ==> m.dom().contains(w) && m[w] == m0[w],
    ensures
        anc_or_self(m, c, z, f),
    decreases f,
{
    if z != c {
        let q = m0[z].parent->0;
        assert(under(m0, c, z));
        lemma_sub_chain_fwd(m0, m, c, q, (f - 1) as nat);
    }
}

/// Nothing new hangs under an unchanged subtree.
proof fn lemma_sub_chain_back(m0: Map<NodeId, Entry>, m: Map<NodeId, Entry>, c: NodeId, z: NodeId, f: nat)
    requires
        arena_wf(m0),
        arena_wf(m),
        m0.dom().contains(c),
        m.dom().contains(z),
        anc_or_self(m, c, z, f),
        forall|w: NodeId| #[trigger] under(m0, c, w) && m0.dom().contains(w) ==> m.dom().contains(w) && m[w] == m0[w],
    ensures
        under(m0, c, z) && m0.dom().contains(z),
    decreases f,
{
    if z == c {
        assert(anc_or_self(m0, c, c, 0));
    } else {
        let q = m[z].parent->0;
        lemma_sub_chain_back(m0, m, c, q, (f - 1) as nat);
        assert(m[q] == m0[q]);
        assert(m[q].children.contains(z));
        let k = choose|k: int| 0 <= k < m0[q].children.len() && m0[q].children[k] == z;
        assert(m0.dom().contains(m0[q].children[k]) && m0[m0[q].children[k]].parent == Some(q));
        let g = choose|g: nat| anc_or_self(m0, c, q, g);
        lemma_anc_parent(m0, c, z, g);
    }
}

/// When no node under `c` changed, the subtree under `c` is as it was.
pub proof fn lemma_sub_kept(m0: Map<NodeId, Entry>, m: Map<NodeId, Entry>, c: NodeId)
    requires
        arena_wf(m0),
        arena_wf(m),
        m0.dom().contains(c),
        forall|w: NodeId| #[trigger] under(m0, c, w) && m0.dom().contains(w) ==> m.dom().contains(w) && m[w] == m0[w],
    ensures
        forall|z: NodeId| #[trigger] under(m, c, z) && m.dom().contains(z) ==> under(m0, c, z) && m0.dom().contains(z),
        sub_of(m, c) == sub_of(m0, c),
{
    assert forall|z: NodeId| #[trigger] under(m, c, z) && m.dom().contains(z) implies under(m0, c, z)
        && m0.dom().contains(z) by {
        let f = choose|f: nat| anc_or_self(m, c, z, f);
        lemma_sub_chain_back(m0, m, c, z, f);
    }
    assert forall|z: NodeId| sub_of(m, c).contains(z) <==> sub_of(m0, c).contains(z) by {
        if sub_of(m0, c).contains(z) {
            let f = choose|f: nat| anc_or_self(m0, c, z, f);
            lemma_sub_chain_fwd(m0, m, c, z, f);
        }
    }
    assert(sub_of(m, c) =~= sub_of(m0, c));
}

/// Before the walk expands child `i` of `x` with the fallback alone: the subtree
/// under that child is as it was, and the subtrees taken so far are no more than
/// all of them.
pub proof fn lemma_walk_fallback_pre(m0: Map<NodeId, Entry>, mi: Map<NodeId, Entry>, x: NodeId, i: int)
    requires
        arena_wf(m0),
        arena_wf(mi),
        m0.dom().contains(x),
        0 <= i < m0[x].children.len(),
        forall|k: int, z: NodeId|
            i <= k < m0[x].children.len() && #[trigger] under(m0, m0[x].children[k], z) && m0.dom().contains(z)
                ==> mi.dom().contains(z) && mi[z] == m0[z],
    ensures
        ({
            let c = m0[x].children[i];
            &&& sub_of(mi, c) == sub_of(m0, c)
            &&& forall|z: NodeId| #[trigger] under(mi, c, z) && mi.dom().contains(z) ==> under(m0, c, z)
                && m0.dom().contains(z)
            &&& mi.dom().contains(c)
            &&& mi[c] == m0[c]
            &&& subs_of(m0, m0[x].children, m0[x].children.len() as int).len() >= subs_of(
                m0,
                m0[x].children,
                i + 1,
            ).len()
        }),
{
    let kids = m0[x].children;
    let c = kids[i];
    assert(m0.dom().contains(c) && m0[c].parent == Some(x));
    assert forall|w: NodeId| #[trigger] under(m0, c, w) && m0.dom().contains(w) implies mi.dom().contains(w)
        && mi[w] == m0[w] by {
        assert(under(m0, kids[i], w));
    }
    lemma_sub_kept(m0, mi, c);
    assert(anc_or_self(m0, c, c, 0));
    let all = subs_of(m0, kids, kids.len() as int);
    let some = subs_of(m0, kids, i + 1);
    assert(some.subset_of(all)) by {
        assert forall|z: NodeId| some.contains(z) implies all.contains(z) by {
            let k = choose|k: int| 0 <= k < i + 1 && #[trigger] under(m0, kids[k], z);
            assert(under(m0, kids[k], z));
        }
    }
    assert(all.subset_of(m0.dom()));
    vstd::set_lib::lemma_len_subset(all, m0.dom());
    vstd::set_lib::lemma_len_subset(some, all);
    assert(under(m0, kids[i], c));
}

/// After the walk expanded child `i` of `x` with the fallback alone: the outside of
/// `x` and the subtrees under the later children are still as they were.
pub proof fn lemma_walk_fallback_step(
    m0: Map<NodeId, Entry>,
    mi: Map<NodeId, Entry>,
    m1: Map<NodeId, Entry>,
    x: NodeId,
    i: int,
)
    requires
        arena_wf(m0),
        m0.dom().contains(x),
        0 <= i < m0[x].children.len(),
        forall|z: NodeId| #[trigger]
            under(mi, m0[x].children[i], z) && mi.dom().contains(z) ==> under(m0, m0[x].children[i], z)
                && m0.dom().contains(z),
        mi.dom().contains(m0[x].children[i]),
        mi[m0[x].children[i]] == m0[m0[x].children[i]],
        forall|z: NodeId|
            #[trigger] m0.dom().contains(z) && !under(m0, x, z) ==> mi.dom().contains(z) && mi[z] == m0[z],
        forall|k: int, z: NodeId|
            i <= k < m0[x].children.len() && #[trigger] under(m0, m0[x].children[k], z) && m0.dom().contains(z)
                ==> mi.dom().contains(z) && mi[z] == m0[z],
        touched_only_below(mi, m1, m0[x].children[i]),
    ensures
        forall|z: NodeId|
            #[trigger] m0.dom().contains(z) && !under(m0, x, z) ==> m1.dom().contains(z) && m1[z] == m0[z],
        forall|k: int, z: NodeId|
            i + 1 <= k < m0[x].children.len() && #[trigger] under(m0, m0[x].children[k], z) && m0.dom().contains(
                z,
            ) ==> m1.dom().contains(z) && m1[z] == m0[z],
{
    let kids = m0[x].children;
    let c = kids[i];
    assert(m0.dom().contains(c) && m0[c].parent == Some(x));
    assert forall|z: NodeId| #[trigger] m0.dom().contains(z) && !under(m0, x, z) implies m1.dom().contains(z)
        && m1[z] == m0[z] by {
        assert(mi.dom().contains(z));
        if under(mi, c, z) {
            let f = choose|f: nat| anc_or_self(m0, c, z, f);
            assert(anc_or_self(m0, x, c, 1)) by {
                assert(anc_or_self(m0, x, x, 0));
            }
            crate::ast::chain::lemma_anc_trans(m0, x, c, z, 1, f);
        }
        assert(z != x) by {
            assert(anc_or_self(m0, x, x, 0));
        }
    }
    assert forall|k: int, z: NodeId|
        i + 1 <= k < kids.len() && #[trigger] under(m0, kids[k], z) && m0.dom().contains(z) implies m1.dom().contains(
        z,
    ) && m1[z] == m0[z] by {
        let ck = kids[k];
        assert(m0.dom().contains(ck) && m0[ck].parent == Some(x));
        assert(under(m0, kids[k], z));
        assert(mi.dom().contains(z) && mi[z] == m0[z]);
        let g = choose|g: nat| anc_or_self(m0, ck, z, g);
        if under(mi, c, z) {
            let f = choose|f: nat| anc_or_self(m0, c, z, f);
            assert(kids.no_duplicates());
            crate::ast::chain::lemma_siblings_disjoint(m0, c, ck, z, f, g);
        }
        if z == x {
            crate::ast::chain::lemma_no_cycle(m0, ck, g);
        }
    }
}

/// The walk over the top-level nodes of `m0` has taken the first `i`: each has its
/// outcome at its place, and the rest, with everything under them, and whatever
/// lies outside the document are as they were.
pub open spec fn tops_done(
    m0: Map<NodeId, Entry>,
    m: Map<NodeId, Entry>,
    doc: NodeId,
    i: int,
    source: &str,
) -> bool {
    &&& m.dom().contains(doc)
    &&& m[doc].children.len() == m0[doc].children.len()
    &&& forall|k: int| i <= k < m0[doc].children.len() ==> #[trigger] m[doc].children[k] == m0[doc].children[k]
    &&& forall|z: NodeId|
        #[trigger] m0.dom().contains(z) && !under(m0, doc, z) ==> m.dom().contains(z) && m[z] == m0[z]
    &&& forall|k: int, z: NodeId|
        i <= k < m0[doc].children.len() && #[trigger] under(m0, m0[doc].children[k], z) && m0.dom().contains(z)
            ==> m.dom().contains(z) && m[z] == m0[z]
    &&& forall|k: int|
        0 <= k < i ==> top_outcome(m0, m, m0[doc].children[k], #[trigger] m[doc].children[k], source)
}

/// What the fallback alone made of a top-level node `x`: a block gave its place to
/// its error node; any other node stayed with its payload, and nothing outside
/// the subtree under it changed.
pub open spec fn top_expanded(
    mi: Map<NodeId, Entry>,
    m1: Map<NodeId, Entry>,
    x: NodeId,
    source: &str,
) -> bool {
    if mi[x].data is Unparsed {
        exists|e: NodeId| #[trigger] unclaimed_block(mi, m1, x, e, source)
    } else {
        &&& m1.dom().contains(x)
        &&& m1[x].data == mi[x].data
        &&& forall|z: NodeId|
            #[trigger] mi.dom().contains(z) && !under(mi, x, z) ==> m1.dom().contains(z) && m1[z] == mi[z]
    }
}

/// The walk over the top-level nodes goes one further.
pub proof fn lemma_top_step(
    m0: Map<NodeId, Entry>,
    mi: Map<NodeId, Entry>,
    m1: Map<NodeId, Entry>,
    doc: NodeId,
    i: int,
    source: &str,
)
    requires
        arena_wf(m0),
        arena_wf(mi),
        arena_wf(m1),
        m0.dom().contains(doc),
        0 <= i < m0[doc].children.len(),
        tops_done(m0, mi, doc, i, source),
        top_expanded(mi, m1, m0[doc].children[i], source),
    ensures
        tops_done(m0, m1, doc, i + 1, source),
{
    let kids = m0[doc].children;
    let c = kids[i];
    lemma_walk_fallback_pre(m0, mi, doc, i);
    assert(mi[doc].children[i] == c);
    assert(mi.dom().contains(mi[doc].children[i]) && mi[c].parent == Some(doc));
    assert(!under(mi, c, doc)) by {
        crate::dispatch::settle::lemma_outside_up(mi, c, c);
    }
    if mi[c].data is Unparsed {
        let e = choose|e: NodeId| #[trigger] unclaimed_block(mi, m1, c, e, source);
        assert(touched_only_below(mi, m1, c)) by {
            assert forall|z: NodeId|
                #[trigger] mi.dom().contains(z) && !under(mi, c, z) && Some(z) != mi[c].parent implies m1.dom().contains(z)
                    && m1[z] == mi[z] by {
                assert(!mi.dom().contains(e));
                assert(z != e);
                assert(z != doc);
                assert(m1.dom().contains(z));
            }
        }
        let ks = mi[doc].children;
        assert(ks.contains(c));
        assert(ks.no_duplicates());
        assert(ks.index_of(c) == i);
        assert(m1[doc].children == ks.update(i, e));
    } else {
        assert(touched_only_below(mi, m1, c));
        assert(m1[doc] == mi[doc]);
    }
    lemma_walk_fallback_step(m0, mi, m1, doc, i);
    assert forall|k: int| i + 1 <= k < kids.len() implies #[trigger] m1[doc].children[k] == kids[k] by {
        assert(mi[doc].children[k] == kids[k]);
    }
    assert forall|k: int| 0 <= k < i + 1 implies top_outcome(m0, m1, kids[k], #[trigger] m1[doc].children[k], source) by {
        if k < i {
            let y = mi[doc].children[k];
            assert(top_outcome(m0, mi, kids[k], y, source));
            assert(mi.dom().contains(mi[doc].children[k]) && mi[y].parent == Some(doc));
            assert(y != c) by {
                assert(mi[doc].children[i] == c);
                assert(mi[doc].children.no_duplicates());
            }
            lemma_sibling_outside(mi, c, y);
            assert(y != doc);
            assert(m1.dom().contains(y) && m1[y] == mi[y]);
            assert(m1[doc].children[k] == y);
        }
    }
}

/// A node lies in the subtree under it.
pub proof fn lemma_sub_nonempty(m: Map<NodeId, Entry>, x: NodeId)
    requires
        arena_wf(m),
        m.dom().contains(x),
    ensures
        sub_of(m, x).len() >= 1,
        sub_of(m, x).finite(),
{
    assert(anc_or_self(m, x, x, 0));
    assert(sub_of(m, x).contains(x));
    vstd::set_lib::lemma_len_subset(sub_of(m, x), m.dom());
    vstd::set::axiom_set_contains_len(sub_of(m, x), x);
}

/// A node that no live node has as its parent is an ancestor of itself only.
pub proof fn lemma_childless_anc(m: Map<NodeId, Entry>, a: NodeId, y: NodeId, f: nat)
    requires
        forall|z: NodeId| #[trigger] m.dom().contains(z) ==> m[z].parent != Some(a),
        anc_or_self(m, a, y, f),
    ensures
        y == a,
    decreases f,
{
    if y != a {
        let p = m[y].parent->0;
        lemma_childless_anc(m, a, p, (f - 1) as nat);
    }
}

/// Filtering out a value that does not occur keeps a sequence.
pub proof fn lemma_filter_keeps(s: Seq<NodeId>, x: NodeId, pred: spec_fn(NodeId) -> bool)
    requires
        !s.contains(x),
        forall|c: NodeId| #[trigger] pred(c) == (c != x),
    ensures
        s.filter(pred) == s,
    decreases s.len(),
{
    reveal(Seq::filter);
    if s.len() > 0 {
        assert(!s.drop_last().contains(x)) by {
            if s.drop_last().contains(x) {
                let k = choose|k: int| 0 <= k < s.drop_last().len() && s.drop_last()[k] == x;
                assert(s[k] == x);
            }
        }
        lemma_filter_keeps(s.drop_last(), x, pred);
        assert(pred(s.last())) by {
            assert(s[s.len() - 1] == s.last());
        }
        assert(s.drop_last().push(s.last()) =~= s);
    }
}

/// Putting `e` right after the only `x` of a sequence and filtering `x` out puts
/// `e` in the place of `x`.
proof fn lemma_filter_replace(s: Seq<NodeId>, i: int, x: NodeId, e: NodeId, pred: spec_fn(NodeId) -> bool)
    requires
        0 <= i < s.len(),
        s[i] == x,
        s.no_duplicates(),
        e != x,
        forall|c: NodeId| #[trigger] pred(c) == (c != x),
    ensures
        s.insert(i + 1, e).filter(pred) == s.update(i, e),
    decreases s.len(),
{
    reveal(Seq::filter);
    let t = s.insert(i + 1, e);
    if i == s.len() - 1 {
        assert(t =~= s.push(e));
        assert(t.drop_last() =~= s);
        assert(s.drop_last().push(x) =~= s);
        assert(!s.drop_last().contains(x)) by {
            if s.drop_last().contains(x) {
                let k = choose|k: int| 0 <= k < s.drop_last().len() && s.drop_last()[k] == x;
                assert(s[k] == s[i]);
            }
        }
        lemma_filter_keeps(s.drop_last(), x, pred);
        assert(s.filter(pred) == s.drop_last().filter(pred));
        assert(s.drop_last().push(e) =~= s.update(i, e));
    } else {
        let d = s.drop_last();
        assert(d.no_duplicates()) by {
            assert forall|a: int, b: int| 0 <= a < d.len() && 0 <= b < d.len() && a != b implies d[a] != d[b] by {
                assert(d[a] == s[a] && d[b] == s[b]);
            }
        }
        lemma_filter_replace(d, i, x, e, pred);
        assert(t.drop_last() =~= d.insert(i + 1, e));
        assert(t.last() == s.last());
        assert(pred(s.last())) by {
            assert(s[s.len() - 1] != s[i]);
        }
        assert(d.update(i, e).push(s.last()) =~= s.update(i, e));
    }
}

/// A chain within `dom.len()` links reaches whatever any chain does.
pub proof fn lemma_anc_within(m: Map<NodeId, Entry>, a: NodeId, y: NodeId, f: nat, g: nat)
    requires
        rooted(m, y, g),
        anc_or_self(m, a, y, f),
    ensures
        anc_or_self(m, a, y, g),
    decreases f,
{
    if y != a {
        let q = m[y].parent->0;
        lemma_anc_within(m, a, q, (f - 1) as nat, (g - 1) as nat);
    }
}

/// In `md`, which keeps every parent link but those of `x` and `e`, and hangs `e`
/// outside the subtree under `x`, whatever lies under `x` lay under it in `m`.
proof fn lemma_anc_back(
    m: Map<NodeId, Entry>,
    md: Map<NodeId, Entry>,
    x: NodeId,
    e: NodeId,
    p: NodeId,
    y: NodeId,
    f: nat,
)
    requires
        md.dom() == m.dom(),
        forall|z: NodeId| #[trigger] m.dom().contains(z) && z != x && z != e ==> md[z].parent == m[z].parent,
        md[e].parent is None || md[e].parent == Some(p),
        !under(m, x, p),
        anc_or_self(md, x, y, f),
    ensures
        under(m, x, y),
    decreases f,
{
    if y == x {
        assert(anc_or_self(m, x, x, 0));
    } else {
        let q = md[y].parent->0;
        lemma_anc_back(m, md, x, e, p, q, (f - 1) as nat);
        if y != e {
            let g = choose|g: nat| anc_or_self(m, x, q, g);
            lemma_anc_parent(m, x, y, g);
        }
    }
}

/// ... and whatever lay under `x` in `m` still does, `e` having had no parent.
proof fn lemma_anc_fwd(
    m: Map<NodeId, Entry>,
    md: Map<NodeId, Entry>,
    x: NodeId,
    e: NodeId,
    y: NodeId,
    f: nat,
)
    requires
        md.dom() == m.dom(),
        forall|z: NodeId| #[trigger] m.dom().contains(z) && z != x && z != e ==> md[z].parent == m[z].parent,
        m.dom().contains(e) ==> m[e].parent is None,
        e != x,
        anc_or_self(m, x, y, f),
    ensures
        anc_or_self(md, x, y, f),
    decreases f,
{
    if y != x {
        let q = m[y].parent->0;
        lemma_anc_fwd(m, md, x, e, q, (f - 1) as nat);
    }
}

/// Replacing a block `x` with a detached leaf `e`: `e` takes the place of `x` among
/// its siblings, `x` goes with everything under it, and nothing else changes.
pub proof fn lemma_block_replaced(m: Map<NodeId, Entry>, x: NodeId, e: NodeId)
    requires
        arena_wf(m),
        m.dom().contains(x),
        m.dom().contains(e),
        x != e,
        m[x].parent is Some,
        m[e].parent is None,
        m[e].children.len() == 0,
    ensures
        !is_anc_or_self(m, e, x),
        ({
            let p = m[x].parent->0;
            let i = m[p].children.index_of(x);
            let r = swapped_for(m, x, e);
            &&& 0 <= i < m[p].children.len()
            &&& m[p].children[i] == x
            &&& !under(m, x, p)
            &&& !under(m, x, e)
            &&& forall|y: NodeId| #[trigger] is_anc_or_self(inserted_after(m, x, e), x, y) ==> under(m, x, y)
            &&& forall|z: NodeId| #[trigger] r.dom().contains(z) <==> m.dom().contains(z) && !under(m, x, z)
            &&& r[p] == with_children(m[p], m[p].children.update(i, e))
            &&& r[e] == with_parent(m[e], Some(p))
            &&& forall|z: NodeId| #[trigger] r.dom().contains(z) && z != p && z != e ==> r[z] == m[z]
        }),
{
    let p = m[x].parent->0;
    let kids = m[p].children;
    assert(kids.contains(x));
    let i = kids.index_of(x);
    assert(0 <= i < kids.len() && kids[i] == x);
    let n = m.dom().len();
    assert forall|z: NodeId| #[trigger] m.dom().contains(z) implies m[z].parent != Some(e) by {
        if m[z].parent == Some(e) {
            assert(m[e].children.contains(z));
        }
    }
    if anc_or_self(m, e, x, n) {
        lemma_childless_anc(m, e, x, n);
    }
    assert(!under(m, x, p)) by {
        if under(m, x, p) {
            let g = choose|g: nat| anc_or_self(m, x, p, g);
            crate::ast::chain::lemma_no_cycle(m, x, g);
        }
    }
    assert(!under(m, x, e)) by {
        if under(m, x, e) {
            let g = choose|g: nat| anc_or_self(m, x, e, g);
            assert(g > 0);
        }
    }
    assert(p != e);
    assert(p != x);
    assert(detached(m, e) == m);
    let m2 = inserted_after(m, x, e);
    let k2 = kids.insert(i + 1, e);
    assert(m2 == m.insert(p, with_children(m[p], k2)).insert(e, with_parent(m[e], Some(p))));
    assert(m2.dom() =~= m.dom());
    assert(m2[x] == m[x]);
    assert forall|y: NodeId| #[trigger] is_anc_or_self(m2, x, y) implies under(m, x, y) by {
        lemma_anc_back(m, m2, x, e, p, y, m2.dom().len());
    }
    let pred = other_than(x);
    let md = detached(m2, x);
    assert(md == m2.insert(p, with_children(m2[p], k2.filter(pred))).insert(
        x,
        with_parent(m2[x], None),
    ));
    lemma_filter_replace(kids, i, x, e, pred);
    assert(md.dom() =~= m.dom());
    let gone = Set::new(|y: NodeId| is_anc_or_self(md, x, y));
    let r = md.remove_keys(gone);
    assert(r == swapped_for(m, x, e));
    assert forall|z: NodeId| #[trigger] r.dom().contains(z) <==> m.dom().contains(z) && !under(m, x, z) by {
        if m.dom().contains(z) {
            if under(m, x, z) {
                let g = choose|g: nat| anc_or_self(m, x, z, g);
                reveal(crate::ast::arena::arena_rooted);
                assert(crate::ast::arena::rooted(m, z, n));
                lemma_anc_within(m, x, z, g, n);
                lemma_anc_fwd(m, md, x, e, z, n);
                assert(gone.contains(z));
            } else {
                if gone.contains(z) {
                    lemma_anc_back(m, md, x, e, p, z, n);
                }
            }
        }
    }
    assert(r[p] == with_children(m[p], kids.update(i, e)));
    assert(r[e] == with_parent(m[e], Some(p)));
    assert forall|z: NodeId| #[trigger] r.dom().contains(z) && z != p && z != e implies r[z] == m[z] by {
        assert(z != x) by {
            assert(anc_or_self(m, x, x, 0));
        }
        assert(md[z] == m2[z]);
        assert(m2[z] == m[z]);
    }
}

} // verus!
