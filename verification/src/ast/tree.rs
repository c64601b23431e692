//! Node payloads of the expansion tree.
//!
//! The default is semantic: this is a paragraph, this is emphasis, this is an
//! instance of the `notice` template. Tag names, class names and void elements are
//! the renderer's business. [`NodeKind::Element`] is the escape hatch for
//! expanders that cannot express themselves with the semantic nodes: a generic
//! element with a tag and attributes, written out as it is.

use vstd::prelude::*;
use indextree::{Arena, NodeId};
use super::arena::{
    Entry, anc_or_self, appended, arena_entries, arena_get_data, arena_get_data_mut, arena_live_count, arena_new,
    arena_new_node, arena_rooted, arena_validate, arena_wf, fresh_entry, inserted_after, is_anc_or_self,
    lemma_detached_anc, lemma_detached_dom, node_append, node_children, node_insert_after,
    node_id_eq, node_parent, node_remove_subtree, subtree_removed,
};
use super::block::{Block, CallBlock, NaturalBlock};
use super::error::ErrorNode;
use super::params::Params;

verus! {

/// A node payload: a semantic kind, no HTML.
#[derive(Debug, PartialEq)]
pub enum NodeKind {
    /// The document root; not expanded, traversal starts at its children.
    Document,
    /// A block not parsed yet; [`Block`] says which kind.
    Unparsed(Block),
    /// A paragraph; its children are inline nodes.
    Paragraph,
    /// A heading of level 1 to 6; its children are inline nodes.
    Heading { level: u8 },
    /// An instance of a template produced by a call block: only name and
    /// parameters, what it looks like is up to the renderer.
    Instance { name: String, params: Params },
    /// Emphasis.
    Emphasis,
    /// Strong emphasis.
    Strong,
    /// Strikethrough.
    Strikethrough,
    /// Subscript.
    Subscript,
    /// Superscript.
    Superscript,
    /// Highlight.
    Mark,
    /// Inline code; its child is one verbatim text.
    Code,
    /// Inline math; its child is one verbatim text.
    Math,
    /// An emoji shortcode; only the name, the renderer decides how it looks.
    Emoji(String),
    /// A link to `target`; its children are the link text.
    Link { target: String },
    /// A hard line break.
    LineBreak,
    /// A generic HTML element: tag and attributes, children are its child nodes.
    Element { tag: String, attrs: Vec<Attr> },
    /// Plain text, not escaped (escaping is the renderer's business).
    Text(String),
    /// An error node: the last resort when an expander cannot work; a leaf.
    Error(ErrorNode),
}

/// How a node is to be handled; deliberately small.
#[derive(Debug, Clone, Copy, PartialEq, Eq, Hash)]
pub enum KindTag {
    /// The document root.
    Document,
    /// An unparsed natural block: no name, it goes to its own slot.
    Natural,
    /// An unparsed call block: looked up by name.
    Call,
    /// An expanded semantic node.
    Expanded,
}

impl NodeKind {
    /// How this node is to be handled.
    pub open spec fn spec_tag(&self) -> KindTag {
        match self {
            NodeKind::Document => KindTag::Document,
            NodeKind::Unparsed(Block::Natural(_)) => KindTag::Natural,
            NodeKind::Unparsed(Block::Call(_)) => KindTag::Call,
            _ => KindTag::Expanded,
        }
    }

    /// How this node is to be handled.
    pub fn tag(&self) -> (r: KindTag)
        ensures
            r == self.spec_tag(),
    {
        match self {
            NodeKind::Document => KindTag::Document,
            NodeKind::Unparsed(Block::Natural(_)) => KindTag::Natural,
            NodeKind::Unparsed(Block::Call(_)) => KindTag::Call,
            _ => KindTag::Expanded,
        }
    }

    /// Whether this node is a block not parsed yet.
    pub fn is_unparsed(&self) -> (r: bool)
        ensures
            r == (self is Unparsed),
    {
        match self {
            NodeKind::Unparsed(_) => true,
            _ => false,
        }
    }
}

/// An attribute of a generic element.
#[derive(Debug, Clone, PartialEq, Eq)]
pub struct Attr {
    /// The attribute name.
    pub name: String,
    /// The value; `None` is a boolean attribute (`lazy`, not `lazy="true"`).
    pub value: Option<String>,
}

impl Attr {
    /// An attribute with a value.
    pub fn new(name: &str, value: &str) -> (r: Self)
        ensures
            r.name@ == name@,
            r.value matches Some(v) && v@ == value@,
    {
        Attr { name: name.to_owned(), value: Some(value.to_owned()) }
    }

    /// A boolean attribute.
    pub fn boolean(name: &str) -> (r: Self)
        ensures
            r.name@ == name@,
            r.value is None,
    {
        Attr { name: name.to_owned(), value: None }
    }

    /// Whether this is a boolean attribute.
    pub fn is_boolean(&self) -> (r: bool)
        ensures
            r == self.value is None,
    {
        self.value.is_none()
    }
}

/// The subtree under a node, as a value: payloads and children, down to `fuel`
/// levels. `Cut` stands for what lies deeper, and for ids that are not live.
pub enum TreeV {
    Node { data: NodeKind, children: Seq<TreeV> },
    Cut,
}

/// The subtree under `id`, down to `fuel` levels.
pub open spec fn tree_of(m: Map<NodeId, Entry>, id: NodeId, fuel: nat) -> TreeV
    decreases fuel, 0nat, 0nat,
{
    if fuel == 0 || !m.dom().contains(id) {
        TreeV::Cut
    } else {
        TreeV::Node {
            data: m[id].data,
            children: trees_of(m, m[id].children, (fuel - 1) as nat),
        }
    }
}

/// The subtrees under some nodes, in order.
pub open spec fn trees_of(m: Map<NodeId, Entry>, ids: Seq<NodeId>, fuel: nat) -> Seq<TreeV>
    decreases fuel, 1nat, ids.len(),
{
    if ids.len() == 0 {
        Seq::empty()
    } else {
        trees_of(m, ids.subrange(0, ids.len() - 1), fuel).push(
            tree_of(m, ids[ids.len() - 1], fuel),
        )
    }
}

/// One subtree per id.
pub proof fn lemma_trees_of_len(m: Map<NodeId, Entry>, ids: Seq<NodeId>, fuel: nat)
    ensures
        trees_of(m, ids, fuel).len() == ids.len(),
    decreases ids.len(),
{
    if ids.len() > 0 {
        lemma_trees_of_len(m, ids.subrange(0, ids.len() - 1), fuel);
    }
}

/// Taking one more id takes one more subtree.
pub proof fn lemma_trees_of_take(m: Map<NodeId, Entry>, ids: Seq<NodeId>, fuel: nat, i: int)
    requires
        0 <= i < ids.len(),
    ensures
        trees_of(m, ids.take(i + 1), fuel) == trees_of(m, ids.take(i), fuel).push(
            tree_of(m, ids[i], fuel),
        ),
{
    assert(ids.take(i + 1).subrange(0, i) =~= ids.take(i));
}

/// `y` lies in the subtree under `r`, at most `fuel` levels down.
pub open spec fn reach(m: Map<NodeId, Entry>, r: NodeId, y: NodeId, fuel: nat) -> bool
    decreases fuel, 0nat, 0nat,
{
    m.dom().contains(r) && (y == r || (fuel > 0 && reach_any(
        m,
        m[r].children,
        y,
        (fuel - 1) as nat,
    )))
}

/// `y` lies in the subtree under one of `ids`, at most `fuel` levels down.
pub open spec fn reach_any(m: Map<NodeId, Entry>, ids: Seq<NodeId>, y: NodeId, fuel: nat) -> bool
    decreases fuel, 1nat, ids.len(),
{
    ids.len() > 0 && (reach_any(m, ids.subrange(0, ids.len() - 1), y, fuel) || reach(
        m,
        ids[ids.len() - 1],
        y,
        fuel,
    ))
}

/// What lies in a subtree is live.
pub proof fn lemma_reach_live(m: Map<NodeId, Entry>, r: NodeId, y: NodeId, fuel: nat)
    requires
        arena_wf(m),
        reach(m, r, y, fuel),
    ensures
        m.dom().contains(y),
    decreases fuel, 0nat, 0nat,
{
    if y != r {
        let kids = m[r].children;
        let f = (fuel - 1) as nat;
        let i = lemma_reach_any_index(m, kids, y, f);
        assert(m.dom().contains(m[r].children[i]));
        lemma_reach_live(m, kids[i], y, f);
    }
}

/// What lies under one of some ids lies under one of them in particular.
pub proof fn lemma_reach_any_index(m: Map<NodeId, Entry>, ids: Seq<NodeId>, y: NodeId, fuel: nat) -> (i: int)
    requires
        reach_any(m, ids, y, fuel),
    ensures
        0 <= i < ids.len(),
        reach(m, ids[i], y, fuel),
    decreases ids.len(),
{
    let init = ids.subrange(0, ids.len() - 1);
    if reach(m, ids[ids.len() - 1], y, fuel) {
        ids.len() - 1
    } else {
        let i = lemma_reach_any_index(m, init, y, fuel);
        assert(init[i] == ids[i]);
        i
    }
}

/// What lies under one of some ids lies under all of them together.
pub proof fn lemma_reach_any_of(m: Map<NodeId, Entry>, ids: Seq<NodeId>, i: int, y: NodeId, fuel: nat)
    requires
        0 <= i < ids.len(),
        reach(m, ids[i], y, fuel),
    ensures
        reach_any(m, ids, y, fuel),
    decreases ids.len(),
{
    if i < ids.len() - 1 {
        let init = ids.subrange(0, ids.len() - 1);
        assert(init[i] == ids[i]);
        lemma_reach_any_of(m, init, i, y, fuel);
    }
}

/// No block under `root` is left unexpanded, however deep.
pub open spec fn fully_expanded(m: Map<NodeId, Entry>, root: NodeId) -> bool {
    forall|y: NodeId, f: nat| #[trigger] reach(m, root, y, f) ==> !(m[y].data is Unparsed)
}

/// A node with nothing left to expand under it has nothing left under each child.
pub proof fn lemma_fully_expanded_child(m: Map<NodeId, Entry>, p: NodeId, i: int)
    requires
        m.dom().contains(p),
        0 <= i < m[p].children.len(),
        fully_expanded(m, p),
    ensures
        fully_expanded(m, m[p].children[i]),
{
    assert forall|y: NodeId, f: nat| #[trigger] reach(m, m[p].children[i], y, f) implies !(
    m[y].data is Unparsed) by {
        lemma_reach_any_of(m, m[p].children, i, y, f);
        assert(reach(m, p, y, f + 1));
    }
}

/// The subtree at a position is the subtree of the id at that position.
pub proof fn lemma_trees_of_index(m: Map<NodeId, Entry>, ids: Seq<NodeId>, fuel: nat, i: int)
    requires
        0 <= i < ids.len(),
    ensures
        trees_of(m, ids, fuel).len() == ids.len(),
        trees_of(m, ids, fuel)[i] == tree_of(m, ids[i], fuel),
    decreases ids.len(),
{
    lemma_trees_of_len(m, ids, fuel);
    let init = ids.subrange(0, ids.len() - 1);
    if i < ids.len() - 1 {
        lemma_trees_of_index(m, init, fuel, i);
    }
}

/// `y` is live in both and has the same payload and children.
pub open spec fn same_node(m1: Map<NodeId, Entry>, m2: Map<NodeId, Entry>, y: NodeId) -> bool {
    m1.dom().contains(y) && m2.dom().contains(y) && m1[y].data == m2[y].data && m1[y].children
        == m2[y].children
}

/// A subtree depends only on the payloads and children of the nodes in it.
pub proof fn lemma_frame(m1: Map<NodeId, Entry>, m2: Map<NodeId, Entry>, r: NodeId, fuel: nat)
    requires
        arena_wf(m1),
        m1.dom().contains(r),
        forall|y: NodeId| #[trigger] reach(m1, r, y, fuel) ==> same_node(m1, m2, y),
    ensures
        tree_of(m2, r, fuel) == tree_of(m1, r, fuel),
        forall|y: NodeId| #[trigger] reach(m2, r, y, fuel) == reach(m1, r, y, fuel),
    decreases fuel, 0nat, 0nat,
{
    assert(reach(m1, r, r, fuel));
    assert(same_node(m1, m2, r));
    if fuel > 0 {
        let f = (fuel - 1) as nat;
        let kids = m1[r].children;
        assert forall|y: NodeId| #[trigger] reach_any(m1, kids, y, f) implies same_node(
            m1,
            m2,
            y,
        ) by {
            assert(reach(m1, r, y, fuel));
        }
        assert forall|i: int| 0 <= i < kids.len() implies m1.dom().contains(#[trigger] kids[i]) by {
            assert(m1.dom().contains(m1[r].children[i]));
        }
        lemma_frame_any(m1, m2, kids, f);
        assert forall|y: NodeId| #[trigger] reach(m2, r, y, fuel) == reach(m1, r, y, fuel) by {
            assert(reach_any(m2, m2[r].children, y, f) == reach_any(m1, kids, y, f));
        }
    }
}

/// The subtrees under some ids depend only on the payloads and children of the
/// nodes in them.
pub proof fn lemma_frame_any(
    m1: Map<NodeId, Entry>,
    m2: Map<NodeId, Entry>,
    ids: Seq<NodeId>,
    fuel: nat,
)
    requires
        arena_wf(m1),
        forall|i: int| 0 <= i < ids.len() ==> m1.dom().contains(#[trigger] ids[i]),
        forall|y: NodeId| #[trigger] reach_any(m1, ids, y, fuel) ==> same_node(m1, m2, y),
    ensures
        trees_of(m2, ids, fuel) == trees_of(m1, ids, fuel),
        forall|y: NodeId| #[trigger] reach_any(m2, ids, y, fuel) == reach_any(m1, ids, y, fuel),
    decreases fuel, 1nat, ids.len(),
{
    if ids.len() > 0 {
        let init = ids.subrange(0, ids.len() - 1);
        let last = ids[ids.len() - 1];
        assert forall|y: NodeId| #[trigger] reach_any(m1, init, y, fuel) implies same_node(
            m1,
            m2,
            y,
        ) by {
            assert(reach_any(m1, ids, y, fuel));
        }
        assert forall|y: NodeId| #[trigger] reach(m1, last, y, fuel) implies same_node(m1, m2, y) by {
            assert(reach_any(m1, ids, y, fuel));
        }
        assert forall|i: int| 0 <= i < init.len() implies m1.dom().contains(#[trigger] init[i]) by {
            assert(init[i] == ids[i]);
        }
        lemma_frame_any(m1, m2, init, fuel);
        lemma_frame(m1, m2, last, fuel);
        assert forall|y: NodeId| #[trigger] reach_any(m2, ids, y, fuel) == reach_any(
            m1,
            ids,
            y,
            fuel,
        ) by {
            assert(reach_any(m2, init, y, fuel) == reach_any(m1, init, y, fuel));
            assert(reach(m2, last, y, fuel) == reach(m1, last, y, fuel));
        }
    }
}

/// A tree of nodes kept in an `indextree` arena, under one document root.
///
/// Children are not stored in the payload: the body of an unparsed call block, the
/// inline content of a paragraph and what an emphasis wraps are all arena edges.
pub struct Ast {
    arena: Arena<NodeKind>,
    document: NodeId,
}

impl Ast {
    /// The live nodes and what the arena records of each.
    pub closed spec fn nodes(&self) -> Map<NodeId, Entry> {
        arena_entries(self.arena)
    }

    /// The document root.
    pub closed spec fn doc(&self) -> NodeId {
        self.document
    }

    /// The links between the nodes are consistent and the document root is live and
    /// holds the document.
    pub open spec fn wf(&self) -> bool {
        &&& arena_wf(self.nodes())
        &&& self.nodes().dom().contains(self.doc())
        &&& self.nodes()[self.doc()].data is Document
    }

    /// A tree holding only the document root.
    pub fn new() -> (r: Self)
        ensures
            r.nodes() == Map::<NodeId, Entry>::empty().insert(
                r.doc(),
                fresh_entry(NodeKind::Document),
            ),
            r.wf(),
    {
        let mut arena = arena_new();
        assert(arena_wf(arena_entries(arena))) by {
            assert(arena_entries(arena).dom() =~= Set::<NodeId>::empty());
            reveal(arena_rooted);
        }
        let document = arena_new_node(&mut arena, NodeKind::Document);
        Ast { arena, document }
    }

    /// The document root; traversal starts at its children.
    pub fn document(&self) -> (r: NodeId)
        ensures
            r == self.doc(),
    {
        self.document
    }

    /// The underlying arena, for reading.
    pub fn arena(&self) -> (r: &Arena<NodeKind>)
        ensures
            arena_entries(*r) == self.nodes(),
    {
        &self.arena
    }

    /// Whether the links are consistent; always so for a tree built through this type.
    pub fn validate(&self) -> (r: bool)
        requires
            self.wf(),
        ensures
            r,
    {
        arena_validate(&self.arena)
    }

    /// The number of live nodes.
    pub fn len(&self) -> (r: usize)
        requires
            self.wf(),
        ensures
            r == self.nodes().dom().len(),
    {
        arena_live_count(&self.arena)
    }

    /// The payload of a node.
    pub fn kind(&self, id: NodeId) -> (r: Option<&NodeKind>)
        ensures
            match r {
                Some(k) => self.nodes().dom().contains(id) && *k == self.nodes()[id].data,
                None => !self.nodes().dom().contains(id),
            },
    {
        arena_get_data(&self.arena, id)
    }

    /// The payload of a node, to change in place. Only that payload changes; the
    /// links between the nodes stay as they were.
    pub fn kind_mut(&mut self, id: NodeId) -> (r: Option<&mut NodeKind>)
        ensures
            final(self).doc() == old(self).doc(),
            match r {
                Some(k) => old(self).nodes().dom().contains(id) && *k == old(self).nodes()[id].data
                    && final(self).nodes() == old(self).nodes().insert(
                    id,
                    Entry { data: *final(k), ..old(self).nodes()[id] },
                ),
                None => !old(self).nodes().dom().contains(id) && final(self).nodes() == old(
                    self,
                ).nodes(),
            },
    {
        arena_get_data_mut(&mut self.arena, id)
    }

    /// How a node is to be handled.
    pub fn tag(&self, id: NodeId) -> (r: Option<KindTag>)
        ensures
            match r {
                Some(t) => self.nodes().dom().contains(id) && t == self.nodes()[id].data.spec_tag(),
                None => !self.nodes().dom().contains(id),
            },
    {
        match self.kind(id) {
            Some(k) => Some(k.tag()),
            None => None,
        }
    }

    /// Whether a node is a block not parsed yet.
    pub fn is_unparsed(&self, id: NodeId) -> (r: bool)
        ensures
            r == (self.nodes().dom().contains(id) && self.nodes()[id].data is Unparsed),
    {
        match self.kind(id) {
            Some(k) => k.is_unparsed(),
            None => false,
        }
    }

    /// The syntax of a block not parsed yet.
    pub fn block(&self, id: NodeId) -> (r: Option<&Block>)
        ensures
            match r {
                Some(b) => self.nodes().dom().contains(id) && self.nodes()[id].data
                    == NodeKind::Unparsed(*b),
                None => !(self.nodes().dom().contains(id) && self.nodes()[id].data is Unparsed),
            },
    {
        match self.kind(id) {
            Some(NodeKind::Unparsed(b)) => Some(b),
            _ => None,
        }
    }

    /// The payload of an unparsed natural block.
    pub fn natural(&self, id: NodeId) -> (r: Option<&NaturalBlock>)
        ensures
            match r {
                Some(n) => self.nodes().dom().contains(id) && self.nodes()[id].data
                    == NodeKind::Unparsed(Block::Natural(*n)),
                None => !(self.nodes().dom().contains(id) && self.nodes()[id].data matches NodeKind::Unparsed(Block::Natural(_))),
            },
    {
        match self.kind(id) {
            Some(NodeKind::Unparsed(Block::Natural(n))) => Some(n),
            _ => None,
        }
    }

    /// The payload of an unparsed call block.
    pub fn call(&self, id: NodeId) -> (r: Option<&CallBlock>)
        ensures
            match r {
                Some(c) => self.nodes().dom().contains(id) && self.nodes()[id].data
                    == NodeKind::Unparsed(Block::Call(*c)),
                None => !(self.nodes().dom().contains(id) && self.nodes()[id].data matches NodeKind::Unparsed(Block::Call(_))),
            },
    {
        match self.kind(id) {
            Some(NodeKind::Unparsed(Block::Call(c))) => Some(c),
            _ => None,
        }
    }

    /// The text of a text node.
    pub fn text(&self, id: NodeId) -> (r: Option<&str>)
        ensures
            match r {
                Some(t) => self.nodes().dom().contains(id) && (self.nodes()[id].data matches NodeKind::Text(s) && s@ == t@),
                None => !(self.nodes().dom().contains(id) && self.nodes()[id].data is Text),
            },
    {
        match self.kind(id) {
            Some(NodeKind::Text(t)) => Some(t.as_str()),
            _ => None,
        }
    }

    /// The shortcode name of an emoji node.
    pub fn emoji(&self, id: NodeId) -> (r: Option<&str>)
        ensures
            match r {
                Some(t) => self.nodes().dom().contains(id) && (self.nodes()[id].data matches NodeKind::Emoji(s) && s@ == t@),
                None => !(self.nodes().dom().contains(id) && self.nodes()[id].data is Emoji),
            },
    {
        match self.kind(id) {
            Some(NodeKind::Emoji(t)) => Some(t.as_str()),
            _ => None,
        }
    }

    /// The name and parameters of a template instance.
    pub fn instance(&self, id: NodeId) -> (r: Option<(&str, &Params)>)
        ensures
            match r {
                Some((n, p)) => self.nodes().dom().contains(id) && (self.nodes()[id].data matches NodeKind::Instance { name, params } && name@ == n@ && params == *p),
                None => !(self.nodes().dom().contains(id) && self.nodes()[id].data is Instance),
            },
    {
        match self.kind(id) {
            Some(NodeKind::Instance { name, params }) => Some((name.as_str(), params)),
            _ => None,
        }
    }

    /// The tag and attributes of a generic element.
    pub fn element(&self, id: NodeId) -> (r: Option<(&str, &[Attr])>)
        ensures
            match r {
                Some((t, a)) => self.nodes().dom().contains(id) && (self.nodes()[id].data matches NodeKind::Element { tag, attrs } && tag@ == t@ && attrs@ == a@),
                None => !(self.nodes().dom().contains(id) && self.nodes()[id].data is Element),
            },
    {
        match self.kind(id) {
            Some(NodeKind::Element { tag, attrs }) => Some((tag.as_str(), attrs.as_slice())),
            _ => None,
        }
    }

    /// An error node.
    pub fn error(&self, id: NodeId) -> (r: Option<&ErrorNode>)
        ensures
            match r {
                Some(e) => self.nodes().dom().contains(id) && self.nodes()[id].data == NodeKind::Error(*e),
                None => !(self.nodes().dom().contains(id) && self.nodes()[id].data is Error),
            },
    {
        match self.kind(id) {
            Some(NodeKind::Error(e)) => Some(e),
            _ => None,
        }
    }

    /// A new node with the given payload, not attached yet.
    pub fn new_node(&mut self, kind: NodeKind) -> (r: NodeId)
        requires
            old(self).wf(),
        ensures
            !old(self).nodes().dom().contains(r),
            final(self).nodes() == old(self).nodes().insert(r, fresh_entry(kind)),
            final(self).doc() == old(self).doc(),
            final(self).wf(),
    {
        arena_new_node(&mut self.arena, kind)
    }

    /// A new text node.
    pub fn new_text(&mut self, text: &str) -> (r: NodeId)
        requires
            old(self).wf(),
        ensures
            !old(self).nodes().dom().contains(r),
            final(self).nodes() == old(self).nodes().insert(
                r,
                fresh_entry(final(self).nodes()[r].data),
            ),
            final(self).nodes()[r].data matches NodeKind::Text(s) && s@ == text@,
            final(self).doc() == old(self).doc(),
            final(self).wf(),
    {
        self.new_node(NodeKind::Text(text.to_owned()))
    }

    /// A new paragraph node.
    pub fn new_paragraph(&mut self) -> (r: NodeId)
        requires
            old(self).wf(),
        ensures
            !old(self).nodes().dom().contains(r),
            final(self).nodes() == old(self).nodes().insert(r, fresh_entry(NodeKind::Paragraph)),
            final(self).doc() == old(self).doc(),
            final(self).wf(),
    {
        self.new_node(NodeKind::Paragraph)
    }

    /// A new template instance node.
    pub fn new_instance(&mut self, name: &str, params: Params) -> (r: NodeId)
        requires
            old(self).wf(),
        ensures
            !old(self).nodes().dom().contains(r),
            final(self).nodes() == old(self).nodes().insert(
                r,
                fresh_entry(final(self).nodes()[r].data),
            ),
            final(self).nodes()[r].data matches NodeKind::Instance { name: n, params: p } && n@
                == name@ && p == params,
            final(self).doc() == old(self).doc(),
            final(self).wf(),
    {
        self.new_node(NodeKind::Instance { name: name.to_owned(), params })
    }

    /// A new generic element node (the escape hatch, see [`NodeKind::Element`]).
    pub fn new_element(&mut self, tag: &str, attrs: Vec<Attr>) -> (r: NodeId)
        requires
            old(self).wf(),
        ensures
            !old(self).nodes().dom().contains(r),
            final(self).nodes() == old(self).nodes().insert(
                r,
                fresh_entry(final(self).nodes()[r].data),
            ),
            final(self).nodes()[r].data matches NodeKind::Element { tag: t, attrs: a } && t@
                == tag@ && a == attrs,
            final(self).doc() == old(self).doc(),
            final(self).wf(),
    {
        self.new_node(NodeKind::Element { tag: tag.to_owned(), attrs })
    }

    /// A new emoji node.
    pub fn new_emoji(&mut self, alias: &str) -> (r: NodeId)
        requires
            old(self).wf(),
        ensures
            !old(self).nodes().dom().contains(r),
            final(self).nodes() == old(self).nodes().insert(
                r,
                fresh_entry(final(self).nodes()[r].data),
            ),
            final(self).nodes()[r].data matches NodeKind::Emoji(s) && s@ == alias@,
            final(self).doc() == old(self).doc(),
            final(self).wf(),
    {
        self.new_node(NodeKind::Emoji(alias.to_owned()))
    }

    /// A new hard line break node.
    pub fn new_line_break(&mut self) -> (r: NodeId)
        requires
            old(self).wf(),
        ensures
            !old(self).nodes().dom().contains(r),
            final(self).nodes() == old(self).nodes().insert(r, fresh_entry(NodeKind::LineBreak)),
            final(self).doc() == old(self).doc(),
            final(self).wf(),
    {
        self.new_node(NodeKind::LineBreak)
    }

    /// A new error node.
    pub fn new_error(&mut self, error: ErrorNode) -> (r: NodeId)
        requires
            old(self).wf(),
        ensures
            !old(self).nodes().dom().contains(r),
            final(self).nodes() == old(self).nodes().insert(
                r,
                fresh_entry(NodeKind::Error(error)),
            ),
            final(self).doc() == old(self).doc(),
            final(self).wf(),
    {
        self.new_node(NodeKind::Error(error))
    }

    /// Makes `child` the last child of `parent`. If `child` was attached elsewhere it
    /// is taken out first, so handing a body over to a new element is one `append`.
    pub fn append(&mut self, parent: NodeId, child: NodeId)
        requires
            old(self).wf(),
            old(self).nodes().dom().contains(parent),
            old(self).nodes().dom().contains(child),
            !is_anc_or_self(old(self).nodes(), child, parent),
        ensures
            final(self).nodes() == appended(old(self).nodes(), parent, child),
            final(self).doc() == old(self).doc(),
            final(self).wf(),
    {
        node_append(&mut self.arena, parent, child);
    }

    /// Makes `node` the next sibling of `anchor`.
    pub fn insert_after(&mut self, anchor: NodeId, node: NodeId)
        requires
            old(self).wf(),
            old(self).nodes().dom().contains(anchor),
            old(self).nodes().dom().contains(node),
            old(self).nodes()[anchor].parent is Some,
            !is_anc_or_self(old(self).nodes(), node, anchor),
        ensures
            final(self).nodes() == inserted_after(old(self).nodes(), anchor, node),
            final(self).doc() == old(self).doc(),
            final(self).wf(),
    {
        node_insert_after(&mut self.arena, anchor, node);
    }

    /// Removes `node` and its whole subtree.
    pub fn remove_subtree(&mut self, node: NodeId)
        requires
            old(self).wf(),
            !is_anc_or_self(old(self).nodes(), node, old(self).doc()),
        ensures
            old(self).nodes().dom().contains(node) ==> final(self).nodes() == subtree_removed(
                old(self).nodes(),
                node,
            ),
            !old(self).nodes().dom().contains(node) ==> final(self).nodes() == old(self).nodes(),
            final(self).doc() == old(self).doc(),
            final(self).wf(),
    {
        proof {
            if self.nodes().dom().contains(node) {
                lemma_detached_dom(self.nodes(), node);
                lemma_detached_anc(self.nodes(), node, self.document, self.nodes().dom().len());
            }
        }
        node_remove_subtree(&mut self.arena, node);
    }

    /// The children of `parent`, in document order.
    pub fn children(&self, parent: NodeId) -> (r: Vec<NodeId>)
        requires
            self.nodes().dom().contains(parent),
        ensures
            r@ == self.nodes()[parent].children,
    {
        node_children(&self.arena, parent)
    }

    /// The parent of a node.
    pub fn parent(&self, id: NodeId) -> (r: Option<NodeId>)
        requires
            self.nodes().dom().contains(id),
        ensures
            r == self.nodes()[id].parent,
    {
        node_parent(&self.arena, id)
    }

    /// Whether `id` names a live node.
    pub fn contains(&self, id: NodeId) -> (r: bool)
        ensures
            r == self.nodes().dom().contains(id),
    {
        self.kind(id).is_some()
    }

    /// Whether `a` is `y` or one of its ancestors.
    pub fn is_ancestor_or_self(&self, a: NodeId, y: NodeId) -> (r: bool)
        requires
            self.wf(),
        ensures
            r == is_anc_or_self(self.nodes(), a, y),
    {
        let n = self.len();
        let ghost m = self.nodes();
        let mut cur = y;
        let mut fuel = n;
        while fuel > 0
            invariant
                m == self.nodes(),
                fuel <= n,
                n == m.dom().len(),
                anc_or_self(m, a, cur, fuel as nat) == is_anc_or_self(m, a, y),
            decreases fuel,
        {
            if node_id_eq(cur, a) {
                return true;
            }
            if !self.contains(cur) {
                return false;
            }
            match self.parent(cur) {
                Some(p) => {
                    cur = p;
                    fuel = fuel - 1;
                },
                None => {
                    return false;
                },
            }
        }
        node_id_eq(cur, a)
    }

    /// [`Ast::insert_after`] where its conditions hold; `false`, and nothing
    /// changed, where they do not.
    pub fn checked_insert_after(&mut self, anchor: NodeId, node: NodeId) -> (ok: bool)
        requires
            old(self).wf(),
        ensures
            ok == (old(self).nodes().dom().contains(anchor) && old(self).nodes().dom().contains(
                node,
            ) && old(self).nodes()[anchor].parent is Some && !is_anc_or_self(
                old(self).nodes(),
                node,
                anchor,
            )),
            ok ==> final(self).nodes() == inserted_after(old(self).nodes(), anchor, node),
            !ok ==> final(self).nodes() == old(self).nodes(),
            final(self).doc() == old(self).doc(),
            final(self).wf(),
    {
        if !self.contains(anchor) || !self.contains(node) {
            return false;
        }
        if self.parent(anchor).is_none() {
            return false;
        }
        if self.is_ancestor_or_self(node, anchor) {
            return false;
        }
        self.insert_after(anchor, node);
        true
    }

    /// [`Ast::remove_subtree`] where its condition holds; `false`, and nothing
    /// changed, where it does not.
    pub fn checked_remove_subtree(&mut self, node: NodeId) -> (ok: bool)
        requires
            old(self).wf(),
        ensures
            ok == !is_anc_or_self(old(self).nodes(), node, old(self).doc()),
            ok && old(self).nodes().dom().contains(node) ==> final(self).nodes()
                == subtree_removed(old(self).nodes(), node),
            !(ok && old(self).nodes().dom().contains(node)) ==> final(self).nodes() == old(
                self,
            ).nodes(),
            final(self).doc() == old(self).doc(),
            final(self).wf(),
    {
        let document = self.document;
        if self.is_ancestor_or_self(node, document) {
            return false;
        }
        self.remove_subtree(node);
        true
    }

    /// Attaches a block under the document root.
    pub fn push_block(&mut self, id: NodeId)
        requires
            old(self).wf(),
            old(self).nodes().dom().contains(id),
            !is_anc_or_self(old(self).nodes(), id, old(self).doc()),
        ensures
            final(self).nodes() == appended(old(self).nodes(), old(self).doc(), id),
            final(self).doc() == old(self).doc(),
            final(self).wf(),
    {
        let document = self.document;
        self.append(document, id);
    }
}

} // verus!
