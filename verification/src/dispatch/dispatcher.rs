//! The dispatcher: expands unexpanded blocks until none is left.

use vstd::prelude::*;
use indextree::NodeId;
use crate::ast::arena::{Entry, anc_or_self, arena_wf, inserted_after, is_anc_or_self};
use crate::ast::chain::{kept_outside, lemma_kept_chain, lemma_no_cycle, lemma_reach_under, under};
use crate::ast::tree::{Ast, NodeKind, fully_expanded, lemma_fully_expanded_child, reach};
use crate::ast::block::Block;
use super::key::{regex_capture_names, regex_captures};
use super::context::Context;
use super::handler::{Handler, confined, fallback_expand, fallback_made};
use crate::ast::arena::fresh_entry;
use super::matched::Matched;
use super::registry::Registry;
use super::place::{in_place_of, lemma_place_children, lemma_place_ok, lemma_removed_children, placed_after};
use super::unclaimed::{
    blocks_reported, blocks_at_top, lemma_block_replaced, lemma_walk_fallback_pre, lemma_walk_fallback_step,
    touched_only_below, lemma_insert_chain, lemma_sub_nonempty, lemma_top_step, top_expanded, tops_done,
    swapped_for, unclaimed_block,
};
use super::settle::{
    expanding_inv, lemma_expand_attached, lemma_expand_done, lemma_expand_step,
    lemma_place_start, lemma_place_step, lemma_removed, lemma_walk_attached, lemma_walk_start,
    left_after, lemma_walk_step, lemma_subs_bound, lemma_subs_step, pending, placing_inv, replaced,
    replacement_ok, sub_of, subs_of, walk_inv,
};

verus! {

/// A match as the expander of a name sees it: the name, the capture groups of a
/// pattern hit (none for an exact hit) and their names.
pub open spec fn matched_is(
    m: Matched,
    name: Seq<char>,
    groups: Option<Seq<Option<Seq<char>>>>,
    names: Seq<Option<Seq<char>>>,
) -> bool {
    m.spec_name() == name && m.spec_groups() == groups && m.spec_names() == names
}

/// Expands the unexpanded blocks of a tree with the expanders of a registry.
///
/// A call block is looked up by its name, a natural block goes to the
/// natural-block expander; what nobody claims goes to the fallback, so no block is
/// dropped silently.
///
/// Expansion is top down: a node is expanded first, then what it was replaced
/// with. An expander decides whether the children of a block are visited, by
/// moving them into its result or not.
///
/// Expanders keep to the block they expand (see [`Handler`]): they add nodes and
/// change the block and its children, nothing else. Given that, a completed run
/// leaves no block under the document unexpanded.
///
/// Rewriting need not converge: an expander may bring back the block it expands.
/// Each step of the walk takes one unit of a budget of `usize::MAX` steps; when the
/// budget is spent the remaining blocks are left as they are and the run reports
/// failure.
pub struct Dispatcher<H> {
    registry: Registry<H>,
}

impl<H: Handler> Dispatcher<H> {
    /// The registry.
    pub closed spec fn spec_registry(&self) -> Registry<H> {
        self.registry
    }

    /// The registry is consistent.
    pub open spec fn wf(&self) -> bool {
        self.spec_registry().wf()
    }

    /// Every block goes to the built-in fallback: the registry has no names, no
    /// patterns, no natural-block expander and no fallback of its own.
    pub open spec fn fallback_only(&self) -> bool {
        &&& self.spec_registry().spec_names().len() == 0
        &&& self.spec_registry().spec_patterns().len() == 0
        &&& self.spec_registry().spec_natural() is None
        &&& self.spec_registry().spec_fallback() is None
    }

    /// A dispatcher over a registry.
    pub fn new(registry: Registry<H>) -> (r: Self)
        ensures
            r.spec_registry() == registry,
    {
        Dispatcher { registry }
    }

    /// The registry, for reading.
    pub fn registry(&self) -> (r: &Registry<H>)
        ensures
            *r == self.spec_registry(),
    {
        &self.registry
    }

    /// Expands every block under the document root, top down, until none is left.
    /// `false` when an expander returned a node that cannot take the place of the
    /// block it expanded (the node itself, one of its ancestors, or a node that does
    /// not exist), or when the budget ran out.
    ///
    /// On success no block under the document is left unexpanded; a tree with
    /// nothing left to expand comes back as it was, and the walk over it, one step
    /// per node, succeeds exactly when the budget covers the nodes under the
    /// document.
    ///
    /// With no expander registered, every top-level block, a call block together
    /// with the body under it, gives its place to the error node the fallback makes
    /// of it, in order; every other top-level node keeps its place and its payload;
    /// and the run succeeds. That is owed when every top-level node is a block, as in
    /// a parsed document (see [`crate::parse::seed::parsed_blocks_wait_at_top`]), and
    /// there are at most `usize::MAX / 2` of them; for any tree, when the nodes
    /// under the document are at most `usize::MAX / 2`, the budget's bound.
    pub fn run(&self, ast: &mut Ast, ctx: &mut Context) -> (ok: bool)
        requires
            self.wf(),
            old(ast).wf(),
        ensures
            final(ast).wf(),
            final(ast).doc() == old(ast).doc(),
            fully_expanded(old(ast).nodes(), old(ast).doc()) ==> final(ast).nodes() == old(
                ast,
            ).nodes(),
            fully_expanded(old(ast).nodes(), old(ast).doc()) ==> (ok <==> sub_of(
                old(ast).nodes(),
                old(ast).doc(),
            ).len() <= usize::MAX),
            fully_expanded(old(ast).nodes(), old(ast).doc()) && old(ast).nodes().dom().len()
                <= usize::MAX ==> ok,
            ok ==> fully_expanded(final(ast).nodes(), final(ast).doc()),
            self.fallback_only() && blocks_at_top(old(ast).nodes(), old(ast).doc()) && 2 * old(
                ast,
            ).nodes()[old(ast).doc()].children.len() < usize::MAX ==> ok && blocks_reported(
                old(ast).nodes(),
                final(ast).nodes(),
                old(ast).doc(),
                old(ctx).spec_source(),
            ),
            self.fallback_only() && 2 * sub_of(old(ast).nodes(), old(ast).doc()).len() <= usize::MAX
                ==> ok && blocks_reported(
                old(ast).nodes(),
                final(ast).nodes(),
                old(ast).doc(),
                old(ctx).spec_source(),
            ),
    {
        let document = ast.document();
        let roots = ast.children(document);
        let ghost m0 = ast.nodes();
        proof {
            lemma_walk_start(m0, document, document);
            assert(anc_or_self(m0, document, document, 0));
            assert(subs_of(m0, roots@, 0) =~= Set::<NodeId>::empty());
            lemma_subs_bound(m0, document);
        }
        let ghost top = blocks_at_top(m0, document) && 2 * roots.len() < usize::MAX;
        let ghost gen = 2 * sub_of(m0, document).len() <= usize::MAX;
        let ghost fo = self.fallback_only() && (top || gen);
        let ghost src = ctx.spec_source();
        let mut budget: usize = usize::MAX;
        let mut i: usize = 0;
        while i < roots.len()
            invariant
                self.wf(),
                ast.wf(),
                top == (blocks_at_top(m0, document) && 2 * roots.len() < usize::MAX),
                gen == (2 * sub_of(m0, document).len() <= usize::MAX),
                fo == (self.fallback_only() && (top || gen)),
                src == old(ctx).spec_source(),
                fo ==> *ctx == *old(ctx),
                fo ==> tops_done(m0, ast.nodes(), document, i as int, src),
                fo && top ==> budget == usize::MAX - 2 * i,
                fo && gen ==> budget + 2 * subs_of(m0, roots@, i as int).len() >= usize::MAX,
                subs_of(m0, roots@, roots.len() as int).len() + 1 == sub_of(m0, document).len(),
                ast.doc() == document,
                document == old(ast).doc(),
                m0 == old(ast).nodes(),
                arena_wf(m0),
                m0.dom().contains(document),
                under(m0, document, document),
                i <= roots.len(),
                roots@ == m0[document].children,
                fully_expanded(m0, document) ==> ast.nodes() == m0 && budget == left_after(
                    usize::MAX as int,
                    subs_of(m0, roots@, i as int).len() as int,
                ),
                walk_inv(m0, ast.nodes(), document, document, i as int, budget > 0),
            decreases roots.len() - i,
        {
            proof {
                if fully_expanded(m0, document) {
                    lemma_fully_expanded_child(m0, document, i as int);
                }
                lemma_walk_attached(m0, ast.nodes(), document, document, i as int, budget > 0);
            }
            let ghost mi = ast.nodes();
            proof {
                lemma_subs_step(m0, document, i as int);
                if fo {
                    let x = roots@[i as int];
                    lemma_walk_fallback_pre(m0, mi, document, i as int);
                    lemma_sub_nonempty(m0, x);
                    assert(m0.dom().contains(m0[document].children[i as int]));
                    assert(mi[document].children[i as int] == x);
                    assert(mi.dom().contains(mi[document].children[i as int]));
                    assert(mi[x].parent == Some(document));
                    if top {
                        assert(m0[m0[document].children[i as int]].data is Unparsed);
                    }
                }
            }
            let (b, ok) = self.expand_node(ast, roots[i], ctx, budget);
            proof {
                lemma_walk_step(m0, mi, ast.nodes(), document, document, i as int, budget > 0, ok && b > 0);
                if fo {
                    let x = roots@[i as int];
                    assert(top_expanded(mi, ast.nodes(), x, src));
                    lemma_top_step(m0, mi, ast.nodes(), document, i as int, src);
                }
            }
            budget = b;
            if !ok {
                return false;
            }
            i += 1;
        }
        if budget == 0 {
            return false;
        }
        proof {
            if fo {
                let m = ast.nodes();
                assert(tops_done(m0, m, document, roots.len() as int, src));
                assert(blocks_reported(m0, m, document, src));
            }
        }
        proof {
            let m = ast.nodes();
            assert forall|y: NodeId, f: nat| #[trigger] reach(m, document, y, f) implies !(
            m[y].data is Unparsed) by {
                lemma_reach_under(m, document, y, f);
                crate::ast::tree::lemma_reach_live(m, document, y, f);
                if m[y].data is Unparsed {
                    assert(pending(m, document, y));
                    lemma_kept_chain(m0, m, document, document, y, f);
                    assert(anc_or_self(m0, document, y, f));
                }
            }
        }
        true
    }

    /// Expands one node, then what it was replaced with; for an expanded node, its
    /// children. An unexpanded block goes through [`Dispatcher::claim`] to the
    /// expander [`Dispatcher::spec_claimant`] names for it, with the tree as it stands
    /// and its match. Returns the budget left and whether every replacement could be
    /// put in place.
    ///
    /// Only the subtree under `node` changes (and, when `node` is replaced, its
    /// parent's children). When the walk completed, a block still waiting
    /// afterwards was waiting before, outside that subtree.
    fn expand_node(&self, ast: &mut Ast, node: NodeId, ctx: &mut Context, budget: usize) -> (r: (
        usize,
        bool,
    ))
        requires
            self.wf(),
            old(ast).wf(),
            under(old(ast).nodes(), old(ast).doc(), node),
        ensures
            final(ast).wf(),
            final(ast).doc() == old(ast).doc(),
            r.0 <= budget,
            fully_expanded(old(ast).nodes(), node) ==> r.1 && final(ast).nodes() == old(
                ast,
            ).nodes() && r.0 == left_after(budget as int, sub_of(old(ast).nodes(), node).len() as int),
            kept_outside(old(ast).nodes(), final(ast).nodes(), node),
            r.1 && r.0 > 0 ==> forall|y: NodeId| #[trigger]
                pending(final(ast).nodes(), old(ast).doc(), y) ==> old(
                    ast,
                ).nodes().dom().contains(y) && !under(old(ast).nodes(), node, y),
            budget > 0 && old(ast).nodes().dom().contains(node) && !(old(
                ast,
            ).nodes()[node].data is Unparsed) && old(ast).nodes()[node].children.len() == 0
                ==> r.0 == budget - 1 && r.1 && final(ast).nodes() == old(ast).nodes() && *final(ctx)
                == *old(ctx),
            self.fallback_only() && old(ast).nodes().dom().contains(node) && old(
                ast,
            ).nodes()[node].data is Unparsed && old(ast).nodes()[node].parent is Some && budget >= 2 ==> r.0 == budget - 2 && r.1 && *final(ctx)
                == *old(ctx) && exists|e: NodeId| #[trigger]
                unclaimed_block(old(ast).nodes(), final(ast).nodes(), node, e, old(ctx).spec_source()),
            self.fallback_only() && old(ast).nodes().dom().contains(node) && 2 * sub_of(
                old(ast).nodes(),
                node,
            ).len() <= budget ==> {
                &&& r.1
                &&& r.0 + 2 * sub_of(old(ast).nodes(), node).len() >= budget
                &&& *final(ctx) == *old(ctx)
                &&& touched_only_below(old(ast).nodes(), final(ast).nodes(), node)
                &&& !(old(ast).nodes()[node].data is Unparsed) ==> final(ast).nodes().dom().contains(node)
                    && final(ast).nodes()[node].data == old(ast).nodes()[node].data && forall|z: NodeId|
                    #[trigger] old(ast).nodes().dom().contains(z) && !under(old(ast).nodes(), node, z)
                        ==> final(ast).nodes().dom().contains(z) && final(ast).nodes()[z] == old(
                        ast,
                    ).nodes()[z]
            },
            budget > 0 && old(ast).nodes().dom().contains(node) && old(ast).nodes()[node].data is Unparsed
                ==> match self.spec_claimant(old(ast).nodes()[node].data) {
                Some((h, name, groups, names)) => exists|
                    t: &H,
                    a: &mut Ast,
                    c: &mut Context,
                    m: Matched,
                    made: Vec<NodeId>,
                |
                    #[trigger] call_ensures(H::expand, (t, node, a, c, &m), made) && *t == h && *a == *old(
                        ast,
                    ) && *c == *old(ctx) && matched_is(m, name, groups, names),
                None => true,
            },
        decreases budget, 1nat,
    {
        let ghost m0 = ast.nodes();
        let ghost doc = ast.doc();
        let ghost fb = self.fallback_only() && 2 * sub_of(m0, node).len() <= budget;
        proof {
            let f = choose|f: nat| anc_or_self(m0, doc, node, f);
            crate::ast::chain::lemma_anc_live(m0, doc, node, f);
            if m0.dom().contains(node) {
                lemma_subs_bound(m0, node);
            }
        }
        if budget == 0 {
            return (0, true);
        }
        let rest = budget - 1;
        if !ast.is_unparsed(node) {
            if !ast.contains(node) {
                return (rest, true);
            }
            let children = ast.children(node);
            proof {
                lemma_walk_start(m0, doc, node);
                assert(subs_of(m0, children@, 0) =~= Set::<NodeId>::empty());
                lemma_subs_bound(m0, node);
            }
            let mut b = rest;
            let mut i: usize = 0;
            while i < children.len()
                invariant
                    self.wf(),
                    ast.wf(),
                    ast.doc() == doc,
                    doc == old(ast).doc(),
                    m0 == old(ast).nodes(),
                    arena_wf(m0),
                    b <= rest,
                    rest < budget,
                    i <= children.len(),
                    m0.dom().contains(node),
                    under(m0, doc, node),
                    children@ == m0[node].children,
                    !(m0[node].data is Unparsed),
                    i == 0 ==> ast.nodes() == m0 && b == rest && *ctx == *old(ctx),
                    fb == (self.fallback_only() && 2 * sub_of(m0, node).len() <= budget),
                    rest == budget - 1,
                    sub_of(m0, node).len() == subs_of(m0, children@, children.len() as int).len() + 1,
                    fb ==> {
                        &&& b + 2 * subs_of(m0, children@, i as int).len() >= rest
                        &&& *ctx == *old(ctx)
                        &&& forall|z: NodeId|
                            #[trigger] m0.dom().contains(z) && !under(m0, node, z) ==> ast.nodes().dom().contains(z)
                                && ast.nodes()[z] == m0[z]
                        &&& forall|k: int, z: NodeId|
                            i <= k < children.len() && #[trigger] under(m0, children@[k], z) && m0.dom().contains(z)
                                ==> ast.nodes().dom().contains(z) && ast.nodes()[z] == m0[z]
                    },
                    fully_expanded(m0, node) ==> ast.nodes() == m0 && b == left_after(
                        rest as int,
                        subs_of(m0, children@, i as int).len() as int,
                    ),
                    walk_inv(m0, ast.nodes(), doc, node, i as int, b > 0),
                decreases children.len() - i,
            {
                proof {
                    if fully_expanded(m0, node) {
                        lemma_fully_expanded_child(m0, node, i as int);
                    }
                    lemma_walk_attached(m0, ast.nodes(), doc, node, i as int, b > 0);
                }
                let ghost mi = ast.nodes();
                proof {
                    lemma_subs_step(m0, node, i as int);
                    if fb {
                        lemma_walk_fallback_pre(m0, mi, node, i as int);
                    }
                }
                let (b1, ok) = self.expand_node(ast, children[i], ctx, b);
                proof {
                    lemma_walk_step(m0, mi, ast.nodes(), doc, node, i as int, b > 0, ok && b1 > 0);
                    if fb {
                        lemma_walk_fallback_step(m0, mi, ast.nodes(), node, i as int);
                    }
                }
                b = b1;
                if !ok {
                    return (b, false);
                }
                i += 1;
            }
            proof {
                lemma_subs_bound(m0, node);
            }
            return (b, true);
        }
        assert(reach(ast.nodes(), node, node, 0));
        let ghost unclaimed_case = self.fallback_only() && m0[node].parent is Some
            && budget >= 2;
        let replacement = self.claim(ast, node, ctx);
        let ghost m1 = ast.nodes();
        let ghost src = old(ctx).spec_source();
        proof {
            if unclaimed_case {
                assert(fallback_made(*old(ast), *ast, node, replacement@, src));
                let e = replacement@[0];
                assert(m1 == m0.insert(e, fresh_entry(m1[e].data)));
                assert(m1[node] == m0[node]);
            }
        }
        let r = self.splice(ast, node, replacement, ctx, rest, Ghost(m0));
        proof {
            if unclaimed_case {
                let e = replacement@[0];
                lemma_block_replaced(m1, node, e);
                let p = m0[node].parent->0;
                assert(m1[p] == m0[p]);
                let mf = ast.nodes();
                assert forall|z: NodeId| #[trigger]
                    mf.dom().contains(z) <==> z == e || (m0.dom().contains(z) && !under(m0, node, z)) by {
                    if z != e && m0.dom().contains(z) {
                        if under(m1, node, z) {
                            let f = choose|f: nat| anc_or_self(m1, node, z, f);
                            lemma_insert_chain(m0, e, m1[e], node, z, f);
                        }
                        if under(m0, node, z) {
                            let f = choose|f: nat| anc_or_self(m0, node, z, f);
                            lemma_insert_chain(m0, e, m1[e], node, z, f);
                        }
                    }
                }
                assert(unclaimed_block(m0, mf, node, e, src));
            }
        }
        r
    }

    /// The expander a block goes to, and the match it gets: for a call block, the
    /// expander of its exact name, else of the last pattern that finds it (with the
    /// pattern's capture groups); for a natural block, the natural-block expander;
    /// whatever nobody claims, the fallback.
    pub open spec fn spec_claimant(&self, data: NodeKind) -> Option<
        (H, Seq<char>, Option<Seq<Option<Seq<char>>>>, Seq<Option<Seq<char>>>),
    > {
        let reg = self.spec_registry();
        match data {
            NodeKind::Unparsed(Block::Call(c)) => if reg.spec_names().contains(c.name@) {
                Some(
                    (
                        reg.spec_name_handlers()[reg.spec_names().index_of(c.name@)],
                        c.name@,
                        None,
                        Seq::empty(),
                    ),
                )
            } else {
                match reg.spec_pattern_for(c.name@) {
                    Some(j) => Some(
                        (
                            reg.spec_pattern_handlers()[j],
                            c.name@,
                            regex_captures(reg.spec_patterns()[j], c.name@),
                            regex_capture_names(reg.spec_patterns()[j]),
                        ),
                    ),
                    None => self.spec_fallback_claimant(),
                }
            },
            NodeKind::Unparsed(Block::Natural(_)) => match reg.spec_natural() {
                Some(h) => Some((h, Seq::empty(), None, Seq::empty())),
                None => self.spec_fallback_claimant(),
            },
            _ => self.spec_fallback_claimant(),
        }
    }

    /// The registered fallback with an empty match, if there is one; `None` stands
    /// for the built-in fallback.
    pub open spec fn spec_fallback_claimant(&self) -> Option<
        (H, Seq<char>, Option<Seq<Option<Seq<char>>>>, Seq<Option<Seq<char>>>),
    > {
        match self.spec_registry().spec_fallback() {
            Some(h) => Some((h, Seq::empty(), None, Seq::empty())),
            None => None,
        }
    }

    /// Hands an unexpanded block to its expander ([`Dispatcher::spec_claimant`]) with
    /// its match, and returns what that expander returns; with no claimant, what the
    /// built-in fallback makes of it.
    pub fn claim(&self, ast: &mut Ast, node: NodeId, ctx: &mut Context) -> (r: Vec<NodeId>)
        requires
            self.wf(),
            old(ast).wf(),
            old(ast).nodes().dom().contains(node),
            old(ast).nodes()[node].data is Unparsed,
        ensures
            final(ast).wf(),
            final(ast).doc() == old(ast).doc(),
            confined(old(ast).nodes(), final(ast).nodes(), node, r@),
            match self.spec_claimant(old(ast).nodes()[node].data) {
                Some((h, name, groups, names)) => exists|
                    t: &H,
                    a: &mut Ast,
                    c: &mut Context,
                    m: Matched,
                |
                    #[trigger] call_ensures(H::expand, (t, node, a, c, &m), r) && *t == h && *a == *old(ast)
                        && *final(a) == *final(ast) && *c == *old(ctx) && *final(c) == *final(ctx)
                        && matched_is(m, name, groups, names),
                None => fallback_made(*old(ast), *final(ast), node, r@, old(ctx).spec_source())
                    && *final(ctx) == *old(ctx),
            },
    {
        let name = match ast.call(node) {
            Some(call) => Some(call.name.clone()),
            None => None,
        };
        match name {
            Some(name) => match self.registry.find(name.as_str()) {
                Some((handler, captures)) => {
                    let matched = Matched::new(name.as_str(), captures);
                    handler.expand(node, ast, ctx, &matched)
                },
                None => self.expand_fallback(ast, node, ctx),
            },
            None => {
                let natural = ast.natural(node).is_some();
                if natural {
                    match self.registry.natural() {
                        Some(handler) => {
                            let matched = Matched::unnamed();
                            handler.expand(node, ast, ctx, &matched)
                        },
                        None => self.expand_fallback(ast, node, ctx),
                    }
                } else {
                    self.expand_fallback(ast, node, ctx)
                }
            },
        }
    }

    /// What the fallback makes of a node: the registered fallback's expansion, or
    /// the built-in one's.
    fn expand_fallback(&self, ast: &mut Ast, node: NodeId, ctx: &mut Context) -> (r: Vec<NodeId>)
        requires
            old(ast).wf(),
        ensures
            final(ast).wf(),
            final(ast).doc() == old(ast).doc(),
            confined(old(ast).nodes(), final(ast).nodes(), node, r@),
            self.spec_registry().spec_fallback() is None ==> fallback_made(
                *old(ast),
                *final(ast),
                node,
                r@,
                old(ctx).spec_source(),
            ),
            self.spec_registry().spec_fallback() is None ==> *final(ctx) == *old(ctx),
            self.spec_registry().spec_fallback() matches Some(h) ==> exists|
                t: &H,
                a: &mut Ast,
                c: &mut Context,
                m: Matched,
            |
                #[trigger] call_ensures(H::expand, (t, node, a, c, &m), r) && *t == h && *a == *old(ast)
                    && *final(a) == *final(ast) && *c == *old(ctx) && *final(c) == *final(ctx)
                    && matched_is(m, Seq::empty(), None, Seq::empty()),
    {
        match self.registry.fallback() {
            Some(handler) => {
                let matched = Matched::unnamed();
                handler.expand(node, ast, ctx, &matched)
            },
            None => fallback_expand(node, ast, ctx),
        }
    }

    /// Puts `replacement` in the place of `node`, in order, removes `node` with what
    /// is left under it, and expands the replacement. An expander that keeps only a
    /// block's raw text has the block's children removed here, never expanded.
    fn splice(
        &self,
        ast: &mut Ast,
        node: NodeId,
        replacement: Vec<NodeId>,
        ctx: &mut Context,
        budget: usize,
        Ghost(m0): Ghost<Map<NodeId, Entry>>,
    ) -> (r: (usize, bool))
        requires
            self.wf(),
            old(ast).wf(),
            arena_wf(m0),
            m0.dom().contains(old(ast).doc()),
            m0.dom().contains(node),
            under(m0, old(ast).doc(), node),
            m0[old(ast).doc()].data is Document,
            m0[node].data is Unparsed,
            confined(m0, old(ast).nodes(), node, replacement@),
        ensures
            final(ast).wf(),
            final(ast).doc() == old(ast).doc(),
            r.0 <= budget,
            kept_outside(m0, final(ast).nodes(), node),
            r.1 && r.0 > 0 ==> forall|y: NodeId| #[trigger]
                pending(final(ast).nodes(), old(ast).doc(), y) ==> m0.dom().contains(y) && !under(
                    m0,
                    node,
                    y,
                ),
            replacement@.len() == 1 && old(ast).nodes().dom().contains(replacement@[0]) && old(
                ast,
            ).nodes()[replacement@[0]].parent is None && old(ast).nodes()[replacement@[0]].children.len()
                == 0 && !(old(ast).nodes()[replacement@[0]].data is Unparsed) && old(
                ast,
            ).nodes().dom().contains(node) && old(
                ast,
            ).nodes()[node].parent is Some && old(ast).nodes()[node].data is Unparsed && budget > 0
                ==> r.0 == budget - 1 && r.1 && final(ast).nodes() == swapped_for(
                old(ast).nodes(),
                node,
                replacement@[0],
            ) && *final(ctx) == *old(ctx),
        decreases budget, 2nat,
    {
        let ghost doc = ast.doc();
        let ghost rs = replacement@;
        let ghost m1 = ast.nodes();
        let ghost one_leaf = rs.len() == 1 && m1.dom().contains(rs[0]) && m1[rs[0]].parent is None
            && m1[rs[0]].children.len() == 0 && !(m1[rs[0]].data is Unparsed) && m1.dom().contains(node)
            && m1[node].parent is Some && m1[node].data is Unparsed && budget > 0;
        proof {
            lemma_place_start(m0, ast.nodes(), node, rs);
            assert(node != doc);
            // `node` lies under the document and is not the document: it has a parent.
            let f = choose|f: nat| anc_or_self(m0, doc, node, f);
            assert(m0[node].parent is Some);
            if one_leaf {
                lemma_block_replaced(m1, node, rs[0]);
            }
        }
        if !put_in_place(ast, node, &replacement, Ghost(m0)) {
            return (budget, false);
        }
        let ghost mm = ast.nodes();
        let mut b = budget;
        let mut j: usize = 0;
        while j < replacement.len()
            invariant
                self.wf(),
                ast.wf(),
                ast.doc() == doc,
                doc == old(ast).doc(),
                rs == replacement@,
                b <= budget,
                j <= replacement.len(),
                arena_wf(m0),
                arena_wf(mm),
                m0.dom().contains(doc),
                m0.dom().contains(node),
                m0[node].parent is Some,
                under(m0, doc, node),
                node != doc,
                replacement_ok(m0, node, rs),
                replaced(m0, mm, node, m0[node].parent->0, rs),
                expanding_inv(m0, mm, ast.nodes(), doc, node, rs, j as int, b > 0),
                m1 == old(ast).nodes(),
                one_leaf == (rs.len() == 1 && m1.dom().contains(rs[0]) && m1[rs[0]].parent is None
                    && m1[rs[0]].children.len() == 0 && !(m1[rs[0]].data is Unparsed)
                    && m1.dom().contains(node) && m1[node].parent is Some
                    && m1[node].data is Unparsed && budget > 0),
                one_leaf ==> {
                    &&& mm == swapped_for(m1, node, rs[0])
                    &&& mm.dom().contains(rs[0])
                    &&& !(mm[rs[0]].data is Unparsed)
                    &&& mm[rs[0]].children.len() == 0
                    &&& ast.nodes() == mm
                    &&& *ctx == *old(ctx)
                    &&& b == (if j == 0 {
                        budget
                    } else {
                        (budget - 1) as usize
                    })
                },
            decreases replacement.len() - j,
        {
            proof {
                lemma_expand_attached(m0, mm, ast.nodes(), doc, node, rs, j as int, b > 0);
            }
            let ghost mj = ast.nodes();
            proof {
                if one_leaf {
                    assert(j == 0);
                    assert(replacement@[j as int] == rs[0]);
                    assert(b == budget);
                    assert(mj.dom().contains(rs[0]));
                }
            }
            let (b1, ok) = self.expand_node(ast, replacement[j], ctx, b);
            proof {
                lemma_expand_step(m0, mm, mj, ast.nodes(), doc, node, rs, j as int, b > 0, ok && b1 > 0);
            }
            b = b1;
            if !ok {
                return (b, false);
            }
            j += 1;
        }
        proof {
            if b > 0 {
                lemma_expand_done(m0, mm, ast.nodes(), doc, node, rs);
            }
        }
        (b, true)
    }
}

/// Puts `replacement` in the place of `node`, in order, and removes `node` with
/// what is left under it. `false` exactly when a replacement node does not exist;
/// the tree is then left as far as the placing got.
fn put_in_place(
    ast: &mut Ast,
    node: NodeId,
    replacement: &Vec<NodeId>,
    Ghost(m0): Ghost<Map<NodeId, Entry>>,
) -> (ok: bool)
    requires
        old(ast).wf(),
        arena_wf(m0),
        m0.dom().contains(old(ast).doc()),
        m0.dom().contains(node),
        m0[node].parent is Some,
        node != old(ast).doc(),
        under(m0, old(ast).doc(), node),
        replacement_ok(m0, node, replacement@),
        placing_inv(m0, old(ast).nodes(), node, replacement@, 0),
    ensures
        final(ast).wf(),
        final(ast).doc() == old(ast).doc(),
        ok == forall|k: int|
            0 <= k < replacement@.len() ==> old(ast).nodes().dom().contains(
                #[trigger] replacement@[k],
            ),
        ok ==> replaced(m0, final(ast).nodes(), node, m0[node].parent->0, replacement@),
        ok ==> final(ast).nodes()[m0[node].parent->0].children == in_place_of(
            old(ast).nodes()[m0[node].parent->0].children,
            node,
            replacement@,
        ),
        ok && replacement@.len() == 1 ==> final(ast).nodes() == swapped_for(
            old(ast).nodes(),
            node,
            replacement@[0],
        ),
        !ok ==> kept_outside(m0, final(ast).nodes(), node),
{
    let ghost doc = ast.doc();
    let ghost rs = replacement@;
    let ghost m1 = ast.nodes();
    let ghost p = m0[node].parent->0;
    let ghost kids = m1[p].children;
    proof {
        assert(m1.dom().contains(node) && m1[node].parent == Some(p));
        assert(kids.contains(node));
        assert(kids.no_duplicates());
        assert(placed_after(kids, node, rs, 0) =~= kids);
    }
    let mut anchor = node;
    let mut i: usize = 0;
    while i < replacement.len()
        invariant
            ast.wf(),
            ast.doc() == doc,
            doc == old(ast).doc(),
            rs == replacement@,
            m1 == old(ast).nodes(),
            i <= replacement.len(),
            arena_wf(m0),
            m0.dom().contains(node),
            m0[node].parent == Some(p),
            replacement_ok(m0, node, rs),
            placing_inv(m0, ast.nodes(), node, rs, i as int),
            anchor == (if i == 0 {
                node
            } else {
                rs[i - 1]
            }),
            ast.nodes().dom() == m1.dom(),
            kids == m1[p].children,
            kids.contains(node),
            kids.no_duplicates(),
            ast.nodes()[p].children == placed_after(kids, node, rs, i as int),
            forall|k: int| 0 <= k < i ==> m1.dom().contains(#[trigger] rs[k]),
            i == 0 ==> ast.nodes() == m1,
            rs.len() == 1 && i == 1 ==> ast.nodes() == inserted_after(m1, node, rs[0]),
        decreases replacement.len() - i,
    {
        let next = replacement[i];
        let ghost before = ast.nodes();
        proof {
            lemma_place_ok(m0, before, node, rs, i as int, anchor);
        }
        if !ast.checked_insert_after(anchor, next) {
            return false;
        }
        proof {
            lemma_place_children(m0, before, node, rs, i as int, anchor, kids);
            lemma_place_step(m0, before, node, rs, i as int, anchor);
        }
        anchor = next;
        i += 1;
    }
    let ghost placed = ast.nodes();
    proof {
        assert(placed[node].parent == Some(p));
        // The document does not lie under `node`, which lies under it.
        let f = choose|f: nat| anc_or_self(m0, doc, node, f);
        assert(anc_or_self(m0, doc, p, (f - 1) as nat));
        if under(m0, node, doc) {
            let g = choose|g: nat| anc_or_self(m0, node, doc, g);
            crate::ast::chain::lemma_anc_trans(m0, node, doc, p, g, (f - 1) as nat);
            lemma_no_cycle(m0, node, g + (f - 1) as nat);
        }
        let n = placed.dom().len();
        crate::dispatch::settle::lemma_out_chain(m0, placed, node, node, doc, n);
        assert(!is_anc_or_self(placed, node, doc));
        assert(rs.take(rs.len() as int) =~= rs);
    }
    let removed = ast.checked_remove_subtree(node);
    proof {
        lemma_removed(m0, placed, node, rs);
        assert(!under(m0, node, p)) by {
            crate::dispatch::settle::lemma_outside_up(m0, node, node);
        }
        assert(ast.nodes().dom().contains(p));
        lemma_removed_children(placed, node, p, kids, rs);
    }
    removed
}

} // verus!
