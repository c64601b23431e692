//! The node store of the expansion tree: an `indextree` arena.
//!
//! Verus sees an arena through one name, [`arena_entries`]: for each live node, its
//! payload, its parent and its children in order. The functions below are the only
//! calls into `indextree`; each states what the call does to those entries.

use vstd::prelude::*;
use indextree::{Arena, NodeId};
use super::tree::NodeKind;

verus! {

#[verifier::external_type_specification]
#[verifier::external_body]
#[verifier::reject_recursive_types(T)]
pub struct ExArena<T>(Arena<T>);

#[verifier::external_type_specification]
#[verifier::external_body]
pub struct ExNodeId(NodeId);

/// What the arena records of one live node.
pub struct Entry {
    /// The payload.
    pub data: NodeKind,
    /// The parent, if the node is attached.
    pub parent: Option<NodeId>,
    /// The children, in document order.
    pub children: Seq<NodeId>,
}

/// The live nodes of an arena and what it records of each.
pub uninterp spec fn arena_entries(arena: Arena<NodeKind>) -> Map<NodeId, Entry>;

/// The consistency that `indextree` keeps between parent and child links: each
/// child knows its parent and each parent lists its children once, and the nodes
/// form a forest, without cycles.
pub open spec fn arena_wf(m: Map<NodeId, Entry>) -> bool {
    &&& m.dom().finite()
    &&& forall|x: NodeId| #[trigger]
        m.dom().contains(x) ==> (m[x].parent matches Some(p) ==> m.dom().contains(p)
            && m[p].children.contains(x))
    &&& forall|x: NodeId, i: int|
        m.dom().contains(x) && 0 <= i < m[x].children.len() ==> m.dom().contains(
            #[trigger] m[x].children[i],
        ) && m[m[x].children[i]].parent == Some(x)
    &&& forall|x: NodeId| #[trigger] m.dom().contains(x) ==> m[x].children.no_duplicates()
    &&& forall|x: NodeId| #[trigger] m.dom().contains(x) ==> m[x].parent != Some(x)
    &&& arena_rooted(m)
}

/// The parent chain from `x` ends at a root within `fuel` links.
pub open spec fn rooted(m: Map<NodeId, Entry>, x: NodeId, fuel: nat) -> bool
    decreases fuel,
{
    m.dom().contains(x) && match m[x].parent {
        None => true,
        Some(p) => fuel > 0 && rooted(m, p, (fuel - 1) as nat),
    }
}

/// The nodes form a forest: every parent chain ends at a root, within as many
/// links as there are nodes.
#[verifier::opaque]
pub open spec fn arena_rooted(m: Map<NodeId, Entry>) -> bool {
    forall|x: NodeId| #[trigger] m.dom().contains(x) ==> rooted(m, x, m.dom().len())
}

/// `a` is `y` or one of its ancestors, following at most `fuel` parent links.
pub open spec fn anc_or_self(m: Map<NodeId, Entry>, a: NodeId, y: NodeId, fuel: nat) -> bool
    decreases fuel,
{
    if y == a {
        true
    } else if fuel == 0 || !m.dom().contains(y) {
        false
    } else {
        match m[y].parent {
            Some(p) => anc_or_self(m, a, p, (fuel - 1) as nat),
            None => false,
        }
    }
}

/// `a` is `y` or an ancestor of `y`. A parent chain in a forest of `n` nodes has
/// fewer than `n` links.
pub open spec fn is_anc_or_self(m: Map<NodeId, Entry>, a: NodeId, y: NodeId) -> bool {
    anc_or_self(m, a, y, m.dom().len())
}

/// An entry with other children.
pub open spec fn with_children(e: Entry, children: Seq<NodeId>) -> Entry {
    Entry { data: e.data, parent: e.parent, children }
}

/// An entry with another parent.
pub open spec fn with_parent(e: Entry, parent: Option<NodeId>) -> Entry {
    Entry { data: e.data, parent, children: e.children }
}

/// Holds of every node but `x`.
pub open spec fn other_than(x: NodeId) -> spec_fn(NodeId) -> bool {
    |c: NodeId| c != x
}

/// The entries after `x` is taken out of its parent's children.
pub open spec fn detached(m: Map<NodeId, Entry>, x: NodeId) -> Map<NodeId, Entry> {
    match m[x].parent {
        Some(p) => m.insert(
            p,
            with_children(m[p], m[p].children.filter(other_than(x))),
        ).insert(x, with_parent(m[x], None)),
        None => m,
    }
}

/// The entries after `child` becomes the last child of `parent`.
pub open spec fn appended(m: Map<NodeId, Entry>, parent: NodeId, child: NodeId) -> Map<
    NodeId,
    Entry,
> {
    let m1 = detached(m, child);
    m1.insert(parent, with_children(m1[parent], m1[parent].children.push(child))).insert(
        child,
        with_parent(m1[child], Some(parent)),
    )
}

/// The entries after `node` becomes the next sibling of `anchor`.
pub open spec fn inserted_after(m: Map<NodeId, Entry>, anchor: NodeId, node: NodeId) -> Map<
    NodeId,
    Entry,
> {
    let m1 = detached(m, node);
    let p = m1[anchor].parent->0;
    let kids = m1[p].children;
    m1.insert(p, with_children(m1[p], kids.insert(kids.index_of(anchor) + 1, node))).insert(
        node,
        with_parent(m1[node], Some(p)),
    )
}

/// The entries after `x` and everything under it are removed.
pub open spec fn subtree_removed(m: Map<NodeId, Entry>, x: NodeId) -> Map<NodeId, Entry> {
    let m1 = detached(m, x);
    m1.remove_keys(Set::new(|y: NodeId| is_anc_or_self(m1, x, y)))
}

/// The entry of a node that was just created.
pub open spec fn fresh_entry(data: NodeKind) -> Entry {
    Entry { data, parent: None, children: Seq::empty() }
}

/// Detaching a live node keeps the set of live nodes.
pub proof fn lemma_detached_dom(m: Map<NodeId, Entry>, x: NodeId)
    requires
        arena_wf(m),
        m.dom().contains(x),
    ensures
        detached(m, x).dom() == m.dom(),
{
    assert(detached(m, x).dom() =~= m.dom());
}

/// After `x` is detached, a parent chain that reaches `x` reached it before too.
pub proof fn lemma_detached_anc(m: Map<NodeId, Entry>, x: NodeId, y: NodeId, fuel: nat)
    requires
        arena_wf(m),
        m.dom().contains(x),
    ensures
        anc_or_self(detached(m, x), x, y, fuel) ==> anc_or_self(m, x, y, fuel),
    decreases fuel,
{
    let m1 = detached(m, x);
    lemma_detached_dom(m, x);
    if y != x && fuel > 0 && m1.dom().contains(y) {
        assert(m1[y].parent == m[y].parent);
        if let Some(p) = m[y].parent {
            lemma_detached_anc(m, x, p, (fuel - 1) as nat);
        }
    }
}

/// `NodeId`'s `==`: two ids are equal when they name the same node.
#[verifier::external_body]
pub(crate) fn node_id_eq(a: NodeId, b: NodeId) -> (r: bool)
    ensures
        r == (a == b),
{
    a == b
}

/// `Arena::new`: an arena with no node.
#[verifier::external_body]
pub(crate) fn arena_new() -> (r: Arena<NodeKind>)
    ensures
        arena_entries(r).dom().len() == 0,
        arena_entries(r).dom().finite(),
{
    Arena::new()
}

/// `Arena::new_node`: a new live node, detached and without children. Its id is
/// not the id of any node live before.
#[verifier::external_body]
pub(crate) fn arena_new_node(arena: &mut Arena<NodeKind>, data: NodeKind) -> (r: NodeId)
    requires
        arena_wf(arena_entries(*old(arena))),
    ensures
        !arena_entries(*old(arena)).dom().contains(r),
        arena_entries(*final(arena)) == arena_entries(*old(arena)).insert(r, fresh_entry(data)),
        arena_wf(arena_entries(*final(arena))),
{
    arena.new_node(data)
}

/// `Arena::get_data`: the payload of a live node, `None` for any other id.
#[verifier::external_body]
pub(crate) fn arena_get_data(arena: &Arena<NodeKind>, id: NodeId) -> (r: Option<&NodeKind>)
    ensures
        match r {
            Some(k) => arena_entries(*arena).dom().contains(id) && *k == arena_entries(
                *arena,
            )[id].data,
            None => !arena_entries(*arena).dom().contains(id),
        },
{
    arena.get_data(id)
}

/// `Arena::get_data_mut`: the payload of a live node, to change in place; `None`
/// for any other id. Whatever is written there becomes that node's payload; its
/// links and every other node stay as they were.
#[verifier::external_body]
pub(crate) fn arena_get_data_mut(arena: &mut Arena<NodeKind>, id: NodeId) -> (r: Option<&mut NodeKind>)
    ensures
        match r {
            Some(k) => arena_entries(*old(arena)).dom().contains(id) && *k == arena_entries(
                *old(arena),
            )[id].data && arena_entries(*final(arena)) == arena_entries(*old(arena)).insert(
                id,
                Entry { data: *final(k), ..arena_entries(*old(arena))[id] },
            ),
            None => !arena_entries(*old(arena)).dom().contains(id) && *final(arena) == *old(arena),
        },
{
    arena.get_data_mut(id)
}

/// `Arena::live_count`: the number of live nodes.
#[verifier::external_body]
pub(crate) fn arena_live_count(arena: &Arena<NodeKind>) -> (r: usize)
    requires
        arena_wf(arena_entries(*arena)),
    ensures
        r == arena_entries(*arena).dom().len(),
{
    arena.live_count()
}

/// `Arena::validate`: the links are consistent, which every arena built through
/// these functions is.
#[verifier::external_body]
pub(crate) fn arena_validate(arena: &Arena<NodeKind>) -> (r: bool)
    requires
        arena_wf(arena_entries(*arena)),
    ensures
        r,
{
    arena.validate()
}

/// `NodeId::children`, collected: the children of a live node in order.
#[verifier::external_body]
pub(crate) fn node_children(arena: &Arena<NodeKind>, id: NodeId) -> (r: Vec<NodeId>)
    requires
        arena_entries(*arena).dom().contains(id),
    ensures
        r@ == arena_entries(*arena)[id].children,
{
    id.children(arena).collect()
}

/// `NodeId::parent`: the parent of a live node.
#[verifier::external_body]
pub(crate) fn node_parent(arena: &Arena<NodeKind>, id: NodeId) -> (r: Option<NodeId>)
    requires
        arena_entries(*arena).dom().contains(id),
    ensures
        r == arena_entries(*arena)[id].parent,
{
    id.parent(arena)
}

/// `NodeId::append`: `child` leaves its parent, if any, and becomes the last child
/// of `parent`. The call panics when `child` is `parent` or one of its ancestors,
/// or when either was removed, so those are excluded.
#[verifier::external_body]
pub(crate) fn node_append(arena: &mut Arena<NodeKind>, parent: NodeId, child: NodeId)
    requires
        arena_wf(arena_entries(*old(arena))),
        arena_entries(*old(arena)).dom().contains(parent),
        arena_entries(*old(arena)).dom().contains(child),
        !is_anc_or_self(arena_entries(*old(arena)), child, parent),
    ensures
        arena_entries(*final(arena)) == appended(arena_entries(*old(arena)), parent, child),
        arena_wf(arena_entries(*final(arena))),
{
    parent.append(child, arena)
}

/// `NodeId::insert_after`: `node` leaves its parent, if any, and becomes the next
/// sibling of `anchor`. The call panics when `node` is `anchor` or one of its
/// ancestors, or when either was removed; only anchors with a parent are used.
#[verifier::external_body]
pub(crate) fn node_insert_after(arena: &mut Arena<NodeKind>, anchor: NodeId, node: NodeId)
    requires
        arena_wf(arena_entries(*old(arena))),
        arena_entries(*old(arena)).dom().contains(anchor),
        arena_entries(*old(arena)).dom().contains(node),
        arena_entries(*old(arena))[anchor].parent is Some,
        !is_anc_or_self(arena_entries(*old(arena)), node, anchor),
    ensures
        arena_entries(*final(arena)) == inserted_after(arena_entries(*old(arena)), anchor, node),
        arena_wf(arena_entries(*final(arena))),
{
    anchor.insert_after(node, arena)
}

/// `NodeId::remove_subtree`: `id` leaves its parent and is removed with all its
/// descendants; nothing happens for an id that is not live.
#[verifier::external_body]
pub(crate) fn node_remove_subtree(arena: &mut Arena<NodeKind>, id: NodeId)
    requires
        arena_wf(arena_entries(*old(arena))),
    ensures
        arena_entries(*old(arena)).dom().contains(id) ==> arena_entries(*final(arena))
            == subtree_removed(arena_entries(*old(arena)), id),
        !arena_entries(*old(arena)).dom().contains(id) ==> arena_entries(*final(arena))
            == arena_entries(*old(arena)),
        arena_wf(arena_entries(*final(arena))),
{
    id.remove_subtree(arena)
}

} // verus!
