//! The wrapping expander: a call becomes one element around its body.
//!
//! Most expanders do just this: wrap the body in another tag, or in a `div` with a
//! class. Tag and classes can be fixed, or derived from how the call was claimed,
//! so one registration covers a family of names.

use vstd::prelude::*;
use indextree::NodeId;
use crate::ast::arena::{Entry, appended, arena_wf, fresh_entry, is_anc_or_self, with_parent};
use crate::ast::block::Block;
use crate::ast::params::{ParamV, spec_get};
use crate::ast::tree::{Ast, Attr, NodeKind};
use crate::dispatch::context::Context;
use crate::dispatch::handler::Handler;
use crate::dispatch::matched::{Invocation, Matched};
use crate::inline::PieceV;
use crate::inline::lower::{lowered, lowers_to, spec_inline, wrap_inline};
use crate::ast::tree::tree_of;
use crate::text::{chars_to_string, extend_chars, str_chars};
use super::natural::NaturalExpander;

verus! {

/// How a tag or a class is derived from a call.
#[derive(Debug, Clone, Copy, PartialEq, Eq)]
pub enum Derive {
    /// What was actually matched, as it is (the tag `h3` from `^h[1-6]$`).
    Matched,
    /// What was actually matched, as a class name.
    MatchedClass,
    /// The full call name, as a class name (`::note-warning` gives `note-warning`).
    NameClass,
}

/// A character kept in a class name: `[A-Za-z0-9_-]`.
pub open spec fn spec_class_char(c: char) -> bool {
    ('a' <= c <= 'z') || ('A' <= c <= 'Z') || ('0' <= c <= '9') || c == '-' || c == '_'
}

/// A string as a class name: any other character becomes `-`, since class names
/// cannot hold spaces.
pub open spec fn spec_sanitize_class(s: Seq<char>) -> Seq<char> {
    s.map_values(
        |c: char|
            if spec_class_char(c) {
                c
            } else {
                '-'
            },
    )
}

/// A sanitised class name is as long as the name and holds only `[A-Za-z0-9_-]`.
pub proof fn sanitized_classes_are_valid(s: Seq<char>)
    ensures
        spec_sanitize_class(s).len() == s.len(),
        forall|i: int|
            0 <= i < s.len() ==> spec_class_char(#[trigger] spec_sanitize_class(s)[i]),
{
}

/// A string as a class name.
pub fn sanitize_class(name: &str) -> (r: String)
    ensures
        r@ == spec_sanitize_class(name@),
{
    let chars = str_chars(name);
    let mut out: Vec<char> = Vec::new();
    let mut i: usize = 0;
    while i < chars.len()
        invariant
            i <= chars.len(),
            chars@ == name@,
            out@ == spec_sanitize_class(chars@.take(i as int)),
        decreases chars.len() - i,
    {
        let c = chars[i];
        if ('a' <= c && c <= 'z') || ('A' <= c && c <= 'Z') || ('0' <= c && c <= '9') || c == '-'
            || c == '_' {
            out.push(c);
        } else {
            out.push('-');
        }
        assert(spec_sanitize_class(chars@.take(i + 1)) =~= spec_sanitize_class(
            chars@.take(i as int),
        ).push(out@[i as int]));
        i += 1;
    }
    assert(chars@.take(chars.len() as int) =~= chars@);
    chars_to_string(out.as_slice())
}

/// What a derivation gives for a call.
pub open spec fn spec_derive(d: Derive, m: Matched) -> Seq<char> {
    match d {
        Derive::Matched => m.spec_matched(),
        Derive::MatchedClass => spec_sanitize_class(m.spec_matched()),
        Derive::NameClass => spec_sanitize_class(m.spec_name()),
    }
}

fn derive(d: Derive, call: &Invocation) -> (r: String)
    ensures
        r@ == spec_derive(d, call.spec_matched()),
{
    match d {
        Derive::Matched => call.matched().to_owned(),
        Derive::MatchedClass => sanitize_class(call.matched()),
        Derive::NameClass => sanitize_class(call.name()),
    }
}

/// An attribute as a name and an optional value.
pub type AttrV = (Seq<char>, Option<Seq<char>>);

/// The value of an attribute.
pub open spec fn attr_view(a: Attr) -> AttrV {
    (
        a.name@,
        match a.value {
            Some(v) => Some(v@),
            None => None,
        },
    )
}

/// The values of some attributes.
pub open spec fn attrs_view(s: Seq<Attr>) -> Seq<AttrV> {
    s.map_values(|a: Attr| attr_view(a))
}

/// The class names that are not empty, in order.
pub open spec fn spec_nonempty(s: Seq<Seq<char>>) -> Seq<Seq<char>>
    decreases s.len(),
{
    if s.len() == 0 {
        Seq::empty()
    } else if s.last().len() > 0 {
        spec_nonempty(s.drop_last()).push(s.last())
    } else {
        spec_nonempty(s.drop_last())
    }
}

/// Class names joined with spaces.
pub open spec fn spec_join(s: Seq<Seq<char>>) -> Seq<char>
    decreases s.len(),
{
    if s.len() == 0 {
        Seq::empty()
    } else if s.len() == 1 {
        s[0]
    } else {
        spec_join(s.drop_last()) + seq![' '] + s.last()
    }
}

/// Attributes taken from parameters: written only when the parameter is present
/// and not empty.
pub open spec fn spec_param_attrs(from: Seq<(Seq<char>, Seq<char>)>, params: Seq<ParamV>) -> Seq<
    AttrV,
>
    decreases from.len(),
{
    if from.len() == 0 {
        Seq::empty()
    } else {
        let rest = spec_param_attrs(from.drop_last(), params);
        match spec_get(params, from.last().1) {
            Some(v) if v.len() > 0 => rest.push((from.last().0, Some(v))),
            _ => rest,
        }
    }
}

/// The generic wrapper: the whole call becomes one element.
///
/// * As a **block** wrapper (the default) the blocks of the body move into the
///   element, so they are expanded in turn.
/// * As an **inline** wrapper ([`Wrap::inline`]) the body text is parsed as inline
///   content and the body blocks are dropped: a heading cannot hold a paragraph.
///
/// It produces [`NodeKind::Element`], the escape hatch: tags are written as they
/// are, outside the renderer's mapping. Only call blocks are handled; natural
/// blocks go to the defaults of [`Handler`].
#[derive(Debug, Clone)]
pub struct Wrap {
    tag: String,
    tag_from: Option<Derive>,
    classes: Vec<String>,
    classes_from: Vec<Derive>,
    attrs: Vec<Attr>,
    attrs_from: Vec<(String, String)>,
    class_prefix: String,
    inline: Option<NaturalExpander>,
}

impl Wrap {
    /// The fixed tag.
    pub closed spec fn spec_tag(&self) -> Seq<char> {
        self.tag@
    }

    /// The derived tag, if the tag is derived.
    pub closed spec fn spec_tag_from(&self) -> Option<Derive> {
        self.tag_from
    }

    /// The fixed classes.
    pub closed spec fn spec_classes(&self) -> Seq<Seq<char>> {
        self.classes@.map_values(|c: String| c@)
    }

    /// The derived classes.
    pub closed spec fn spec_classes_from(&self) -> Seq<Derive> {
        self.classes_from@
    }

    /// The fixed attributes.
    pub closed spec fn spec_attrs(&self) -> Seq<AttrV> {
        attrs_view(self.attrs@)
    }

    /// The attributes taken from parameters: attribute name, parameter name.
    pub closed spec fn spec_attrs_from(&self) -> Seq<(Seq<char>, Seq<char>)> {
        self.attrs_from@.map_values(|e: (String, String)| (e.0@, e.1@))
    }

    /// The prefix of derived classes.
    pub closed spec fn spec_class_prefix(&self) -> Seq<char> {
        self.class_prefix@
    }

    /// The inline parser, for an inline wrapper.
    pub closed spec fn spec_inline(&self) -> Option<NaturalExpander> {
        self.inline
    }

    /// The tag of the element for a call.
    pub open spec fn spec_build_tag(&self, m: Matched) -> Seq<char> {
        match self.spec_tag_from() {
            Some(d) => spec_derive(d, m),
            None => self.spec_tag(),
        }
    }

    /// The classes of the element for a call: the fixed ones, then the derived ones
    /// with the prefix, empty ones dropped.
    pub open spec fn spec_build_classes(&self, m: Matched) -> Seq<Seq<char>> {
        spec_nonempty(
            self.spec_classes() + self.spec_classes_from().map_values(
                |d: Derive| self.spec_class_prefix() + spec_derive(d, m),
            ),
        )
    }

    /// The attributes of the element for a call: `class` first when there is a
    /// class, then the fixed attributes, then those taken from parameters.
    pub open spec fn spec_build_attrs(&self, m: Matched, params: Seq<ParamV>) -> Seq<AttrV> {
        let classes = self.spec_build_classes(m);
        let rest = self.spec_attrs() + spec_param_attrs(self.spec_attrs_from(), params);
        if classes.len() > 0 {
            seq![(seq!['c', 'l', 'a', 's', 's'], Some(spec_join(classes)))] + rest
        } else {
            rest
        }
    }

    fn empty() -> (r: Self)
        ensures
            r.spec_tag() == Seq::<char>::empty(),
            r.spec_tag_from() is None,
            r.spec_classes() == Seq::<Seq<char>>::empty(),
            r.spec_classes_from() == Seq::<Derive>::empty(),
            r.spec_attrs() == Seq::<AttrV>::empty(),
            r.spec_attrs_from() == Seq::<(Seq<char>, Seq<char>)>::empty(),
            r.spec_class_prefix() == Seq::<char>::empty(),
            r.spec_inline() is None,
    {
        let r = Wrap {
            tag: String::new(),
            tag_from: None,
            classes: Vec::new(),
            classes_from: Vec::new(),
            attrs: Vec::new(),
            attrs_from: Vec::new(),
            class_prefix: String::new(),
            inline: None,
        };
        assert(r.spec_classes() =~= Seq::<Seq<char>>::empty());
        assert(r.spec_attrs() =~= Seq::<AttrV>::empty());
        assert(r.spec_attrs_from() =~= Seq::<(Seq<char>, Seq<char>)>::empty());
        r
    }

    /// A wrapper with a fixed tag.
    pub fn tag(tag: &str) -> (r: Self)
        ensures
            r.spec_tag() == tag@,
            r.spec_tag_from() is None,
            r.spec_classes() == Seq::<Seq<char>>::empty(),
            r.spec_classes_from() == Seq::<Derive>::empty(),
            r.spec_attrs() == Seq::<AttrV>::empty(),
            r.spec_attrs_from() == Seq::<(Seq<char>, Seq<char>)>::empty(),
            r.spec_class_prefix() == Seq::<char>::empty(),
            r.spec_inline() is None,
    {
        let mut r = Self::empty();
        r.tag = tag.to_owned();
        r
    }

    /// A wrapper whose tag is what was actually matched: `^h[1-6]$` on `h3` gives
    /// `<h3>`.
    pub fn tag_from_match() -> (r: Self)
        ensures
            r.spec_tag() == Seq::<char>::empty(),
            r.spec_tag_from() == Some(Derive::Matched),
            r.spec_classes() == Seq::<Seq<char>>::empty(),
            r.spec_classes_from() == Seq::<Derive>::empty(),
            r.spec_attrs() == Seq::<AttrV>::empty(),
            r.spec_attrs_from() == Seq::<(Seq<char>, Seq<char>)>::empty(),
            r.spec_class_prefix() == Seq::<char>::empty(),
            r.spec_inline() is None,
    {
        let mut r = Self::empty();
        r.tag_from = Some(Derive::Matched);
        r
    }

    /// Adds a fixed class.
    pub fn class(self, class: &str) -> (r: Self)
        ensures
            r.spec_tag() == self.spec_tag(),
            r.spec_tag_from() == self.spec_tag_from(),
            r.spec_classes_from() == self.spec_classes_from(),
            r.spec_attrs() == self.spec_attrs(),
            r.spec_attrs_from() == self.spec_attrs_from(),
            r.spec_class_prefix() == self.spec_class_prefix(),
            r.spec_inline() == self.spec_inline(),
            r.spec_classes() == self.spec_classes().push(class@),
    {
        let mut r = self;
        r.classes.push(class.to_owned());
        assert(r.spec_classes() =~= self.spec_classes().push(class@));
        r
    }

    /// Adds what was actually matched as a class (made a valid class name).
    pub fn class_from_match(self) -> (r: Self)
        ensures
            r.spec_tag() == self.spec_tag(),
            r.spec_tag_from() == self.spec_tag_from(),
            r.spec_classes() == self.spec_classes(),
            r.spec_attrs() == self.spec_attrs(),
            r.spec_attrs_from() == self.spec_attrs_from(),
            r.spec_class_prefix() == self.spec_class_prefix(),
            r.spec_inline() == self.spec_inline(),
            r.spec_classes_from() == self.spec_classes_from().push(Derive::MatchedClass),
    {
        let mut r = self;
        r.classes_from.push(Derive::MatchedClass);
        r
    }

    /// Adds the full call name as a class (made a valid class name): `::note-warning`
    /// gives `note-warning`. The full name, not what a prefix pattern matched.
    pub fn class_from_name(self) -> (r: Self)
        ensures
            r.spec_tag() == self.spec_tag(),
            r.spec_tag_from() == self.spec_tag_from(),
            r.spec_classes() == self.spec_classes(),
            r.spec_attrs() == self.spec_attrs(),
            r.spec_attrs_from() == self.spec_attrs_from(),
            r.spec_class_prefix() == self.spec_class_prefix(),
            r.spec_inline() == self.spec_inline(),
            r.spec_classes_from() == self.spec_classes_from().push(Derive::NameClass),
    {
        let mut r = self;
        r.classes_from.push(Derive::NameClass);
        r
    }

    /// Sets the prefix of derived classes; fixed classes keep theirs.
    pub fn class_prefix(self, prefix: &str) -> (r: Self)
        ensures
            r.spec_tag() == self.spec_tag(),
            r.spec_tag_from() == self.spec_tag_from(),
            r.spec_classes() == self.spec_classes(),
            r.spec_classes_from() == self.spec_classes_from(),
            r.spec_attrs() == self.spec_attrs(),
            r.spec_attrs_from() == self.spec_attrs_from(),
            r.spec_inline() == self.spec_inline(),
            r.spec_class_prefix() == prefix@,
    {
        let mut r = self;
        r.class_prefix = prefix.to_owned();
        r
    }

    /// Takes an attribute from a parameter; nothing is written when the parameter is
    /// absent or empty.
    pub fn attr_from_param(self, param: &str, attr: &str) -> (r: Self)
        ensures
            r.spec_tag() == self.spec_tag(),
            r.spec_tag_from() == self.spec_tag_from(),
            r.spec_classes() == self.spec_classes(),
            r.spec_classes_from() == self.spec_classes_from(),
            r.spec_attrs() == self.spec_attrs(),
            r.spec_class_prefix() == self.spec_class_prefix(),
            r.spec_inline() == self.spec_inline(),
            r.spec_attrs_from() == self.spec_attrs_from().push((attr@, param@)),
    {
        let mut r = self;
        r.attrs_from.push((attr.to_owned(), param.to_owned()));
        assert(r.spec_attrs_from() =~= self.spec_attrs_from().push((attr@, param@)));
        r
    }

    /// Adds an attribute with a value.
    pub fn attr(self, name: &str, value: &str) -> (r: Self)
        ensures
            r.spec_tag() == self.spec_tag(),
            r.spec_tag_from() == self.spec_tag_from(),
            r.spec_classes() == self.spec_classes(),
            r.spec_classes_from() == self.spec_classes_from(),
            r.spec_attrs_from() == self.spec_attrs_from(),
            r.spec_class_prefix() == self.spec_class_prefix(),
            r.spec_inline() == self.spec_inline(),
            r.spec_attrs() == self.spec_attrs().push((name@, Some(value@))),
    {
        let mut r = self;
        r.attrs.push(Attr::new(name, value));
        assert(r.spec_attrs() =~= self.spec_attrs().push((name@, Some(value@))));
        r
    }

    /// Adds a boolean attribute.
    pub fn flag(self, name: &str) -> (r: Self)
        ensures
            r.spec_tag() == self.spec_tag(),
            r.spec_tag_from() == self.spec_tag_from(),
            r.spec_classes() == self.spec_classes(),
            r.spec_classes_from() == self.spec_classes_from(),
            r.spec_attrs_from() == self.spec_attrs_from(),
            r.spec_class_prefix() == self.spec_class_prefix(),
            r.spec_inline() == self.spec_inline(),
            r.spec_attrs() == self.spec_attrs().push((name@, None)),
    {
        let mut r = self;
        r.attrs.push(Attr::boolean(name));
        assert(r.spec_attrs() =~= self.spec_attrs().push((name@, None)));
        r
    }

    /// Makes this an inline wrapper: the body text is parsed as inline content.
    pub fn inline(self, natural: NaturalExpander) -> (r: Self)
        ensures
            r.spec_tag() == self.spec_tag(),
            r.spec_tag_from() == self.spec_tag_from(),
            r.spec_classes() == self.spec_classes(),
            r.spec_classes_from() == self.spec_classes_from(),
            r.spec_attrs() == self.spec_attrs(),
            r.spec_attrs_from() == self.spec_attrs_from(),
            r.spec_class_prefix() == self.spec_class_prefix(),
            r.spec_inline() == Some(natural),
    {
        let mut r = self;
        r.inline = Some(natural);
        r
    }

    /// The tag and attributes of the element for a call.
    pub fn build(&self, call: &Invocation) -> (r: (String, Vec<Attr>))
        ensures
            r.0@ == self.spec_build_tag(call.spec_matched()),
            attrs_view(r.1@) == self.spec_build_attrs(call.spec_matched(), call.spec_params()),
    {
        let tag = match self.tag_from {
            Some(d) => derive(d, call),
            None => self.tag.clone(),
        };
        let classes = self.build_classes(call);
        let mut attrs: Vec<Attr> = Vec::new();
        if classes.len() > 0 {
            let joined = join_classes(&classes);
            let a = Attr::new("class", joined.as_str());
            proof {
                reveal_strlit("class");
                assert(a.name@ =~= seq!['c', 'l', 'a', 's', 's']);
            }
            attrs.push(a);
            assert(attrs_view(attrs@) =~= seq![attr_view(a)]);
        } else {
            assert(attrs_view(attrs@) =~= Seq::<AttrV>::empty());
        }
        let ghost head = attrs_view(attrs@);
        self.push_fixed_attrs(&mut attrs);
        self.push_param_attrs(call, &mut attrs);
        assert(attrs_view(attrs@) =~= head + (self.spec_attrs() + spec_param_attrs(
            self.spec_attrs_from(),
            call.spec_params(),
        )));
        (tag, attrs)
    }

    /// The classes for a call, empty ones dropped.
    fn build_classes(&self, call: &Invocation) -> (r: Vec<String>)
        ensures
            r@.map_values(|c: String| c@) == self.spec_build_classes(call.spec_matched()),
    {
        let ghost m = call.spec_matched();
        let ghost all = self.spec_classes() + self.spec_classes_from().map_values(
            |d: Derive| self.spec_class_prefix() + spec_derive(d, m),
        );
        let mut classes: Vec<String> = Vec::new();
        let mut i: usize = 0;
        let nfixed = self.classes.len();
        assert(classes@.map_values(|c: String| c@) =~= spec_nonempty(all.take(0)));
        while i < nfixed
            invariant
                nfixed == self.classes@.len(),
                i <= nfixed,
                all == self.spec_classes() + self.spec_classes_from().map_values(
                    |d: Derive| self.spec_class_prefix() + spec_derive(d, m),
                ),
                classes@.map_values(|c: String| c@) == spec_nonempty(all.take(i as int)),
            decreases nfixed - i,
        {
            let c = self.classes[i].clone();
            let nonempty = !c.as_str().is_empty();
            proof {
                assert(all[i as int] == self.classes@[i as int]@);
                assert(all.take(i + 1).drop_last() =~= all.take(i as int));
            }
            let ghost before = classes@;
            if nonempty {
                classes.push(c);
                assert(classes@.map_values(|c: String| c@) =~= before.map_values(|c: String| c@).push(all[i as int]));
            }
            i += 1;
        }
        let mut j: usize = 0;
        while j < self.classes_from.len()
            invariant
                nfixed == self.classes@.len(),
                j <= self.classes_from@.len(),
                all == self.spec_classes() + self.spec_classes_from().map_values(
                    |d: Derive| self.spec_class_prefix() + spec_derive(d, m),
                ),
                m == call.spec_matched(),
                classes@.map_values(|c: String| c@) == spec_nonempty(all.take(nfixed + j)),
            decreases self.classes_from.len() - j,
        {
            let derived = derive(self.classes_from[j], call);
            let mut cv = str_chars(self.class_prefix.as_str());
            let dv = str_chars(derived.as_str());
            extend_chars(&mut cv, &dv);
            let c = chars_to_string(&cv);
            let nonempty = !c.as_str().is_empty();
            proof {
                assert(all[nfixed + j] == self.spec_class_prefix() + spec_derive(self.classes_from@[j as int], m));
                assert(all.take(nfixed + j + 1).drop_last() =~= all.take(nfixed + j));
            }
            let ghost before = classes@;
            if nonempty {
                classes.push(c);
                assert(classes@.map_values(|c: String| c@) =~= before.map_values(|c: String| c@).push(all[nfixed + j]));
            }
            j += 1;
        }
        assert(all.take(all.len() as int) =~= all);
        classes
    }

    /// Appends the fixed attributes.
    fn push_fixed_attrs(&self, attrs: &mut Vec<Attr>)
        ensures
            attrs_view(final(attrs)@) == attrs_view(old(attrs)@) + self.spec_attrs(),
    {
        let mut k: usize = 0;
        while k < self.attrs.len()
            invariant
                k <= self.attrs@.len(),
                attrs_view(attrs@) == attrs_view(old(attrs)@) + self.spec_attrs().take(k as int),
            decreases self.attrs.len() - k,
        {
            let a = copy_attr(&self.attrs[k]);
            let ghost before = attrs@;
            attrs.push(a);
            proof {
                assert(attrs@ == before.push(a));
                assert(attrs_view(attrs@) =~= attrs_view(before).push(attr_view(a)));
                assert(self.spec_attrs()[k as int] == attr_view(self.attrs@[k as int]));
                assert(self.spec_attrs().take(k + 1) =~= self.spec_attrs().take(k as int).push(
                    self.spec_attrs()[k as int],
                ));
            }
            k += 1;
        }
        assert(self.spec_attrs().take(self.attrs@.len() as int) =~= self.spec_attrs());
    }

    /// Appends the attributes taken from parameters.
    fn push_param_attrs(&self, call: &Invocation, attrs: &mut Vec<Attr>)
        ensures
            attrs_view(final(attrs)@) == attrs_view(old(attrs)@) + spec_param_attrs(
                self.spec_attrs_from(),
                call.spec_params(),
            ),
    {
        let mut p: usize = 0;
        assert(spec_param_attrs(self.spec_attrs_from().take(0), call.spec_params()) =~= Seq::<AttrV>::empty());
        while p < self.attrs_from.len()
            invariant
                p <= self.attrs_from@.len(),
                attrs_view(attrs@) == attrs_view(old(attrs)@) + spec_param_attrs(
                    self.spec_attrs_from().take(p as int),
                    call.spec_params(),
                ),
            decreases self.attrs_from.len() - p,
        {
            let name = &self.attrs_from[p].0;
            let param = &self.attrs_from[p].1;
            proof {
                assert(self.spec_attrs_from().take(p + 1).drop_last() =~= self.spec_attrs_from().take(p as int));
                assert(self.spec_attrs_from().take(p + 1).last() == (name@, param@));
            }
            let ghost before = attrs@;
            match call.param(param.as_str()) {
                Some(v) => {
                    if !v.is_empty() {
                        let a = Attr::new(name.as_str(), v);
                        attrs.push(a);
                        assert(attrs_view(attrs@) =~= attrs_view(before).push(attr_view(a)));
                    }
                },
                None => {},
            }
            p += 1;
        }
        assert(self.spec_attrs_from().take(self.attrs_from@.len() as int) =~= self.spec_attrs_from());
    }
}

/// The children of `node` moved, in order, under the new node `e`; nothing else
/// changed but `node`, which lost them.
pub open spec fn body_moved(m0: Map<NodeId, Entry>, m: Map<NodeId, Entry>, node: NodeId, e: NodeId) -> bool {
    let kids = m0[node].children;
    &&& !m0.dom().contains(e)
    &&& m.dom() == m0.dom().insert(e)
    &&& m[e].parent is None
    &&& m[e].children == kids
    &&& forall|i: int|
        0 <= i < kids.len() ==> m[#[trigger] kids[i]] == with_parent(m0[kids[i]], Some(e))
    &&& forall|x: NodeId|
        #[trigger] m0.dom().contains(x) && x != node && !kids.contains(x) ==> m[x] == m0[x]
}

/// What a wrapper makes of a node: one element, tag and attributes built from a
/// call, around the inline content or the moved body of the call; nothing, and no
/// change, for anything else.
pub open spec fn wrap_made(
    w: Wrap,
    m0: Map<NodeId, Entry>,
    m: Map<NodeId, Entry>,
    node: NodeId,
    r: Seq<NodeId>,
    matched: Matched,
) -> bool {
    match m0[node].data {
        NodeKind::Unparsed(Block::Call(c)) if m0.dom().contains(node) => {
            &&& r.len() == 1
            &&& (m[r[0]].data matches NodeKind::Element { tag, attrs } && tag@
                == w.spec_build_tag(matched) && attrs_view(attrs@)
                == w.spec_build_attrs(matched, c.params@))
            &&& match w.spec_inline() {
                Some(natural) => lowers_to(
                    m0,
                    m,
                    r,
                    seq![
                        PieceV::Node {
                            kind: m[r[0]].data,
                            children: spec_inline(c.raw_body@, natural.options),
                        },
                    ],
                ),
                None => body_moved(m0, m, node, r[0]),
            }
        },
        _ => r.len() == 0 && m == m0,
    }
}

impl Handler for Wrap {
    /// A call block becomes one element, tag and attributes built from the call,
    /// around the inline content of the body (inline wrapper) or around the body
    /// blocks, moved over (block wrapper). Anything else gives nothing.
    fn expand_call(&self, node: NodeId, ast: &mut Ast, ctx: &mut Context, matched: &Matched) -> (r:
        Vec<NodeId>)
        ensures
            wrap_made(*self, old(ast).nodes(), final(ast).nodes(), node, r@, *matched),

    {
        let ghost m0 = ast.nodes();
        let (tag, attrs, body) = match ast.call(node) {
            Some(call) => {
                let invocation = Invocation::new(matched, &call.params);
                let (tag, attrs) = self.build(&invocation);
                (tag, attrs, call.raw_body.clone())
            },
            None => {
                return Vec::new();
            },
        };
        let ghost c = match m0[node].data {
            NodeKind::Unparsed(Block::Call(c)) => c,
            _ => arbitrary(),
        };
        assert(tag@ == self.spec_build_tag(*matched));
        assert(attrs_view(attrs@) == self.spec_build_attrs(*matched, c.params@));
        let mut r = Vec::new();
        match self.inline {
            Some(natural) => {
                let e = wrap_inline(
                    ast,
                    NodeKind::Element { tag, attrs },
                    body.as_str(),
                    natural.options,
                );
                r.push(e);
                assert(r@ == seq![e]);
                proof {
                    assert(r@[0] == e);
                    assert(lowered(tree_of(ast.nodes(), seq![e][0], 1), seq![PieceV::Node { kind: NodeKind::Element { tag, attrs }, children: spec_inline(body@, natural.options) }][0], 1));
                }
            },
            None => {
                let ghost m0 = ast.nodes();
                let kids = ast.children(node);
                let e = ast.new_element(tag.as_str(), attrs);
                let ghost me = ast.nodes();
                let ghost data_e = me[e].data;
                proof {
                    assert(kids@.take(0) =~= Seq::<NodeId>::empty());
                }
                let mut j: usize = 0;
                while j < kids.len()
                    invariant
                        ast.wf(),
                        ast.doc() == old(ast).doc(),
                        arena_wf(m0),
                        m0.dom().contains(node),
                        kids@ == m0[node].children,
                        !m0.dom().contains(e),
                        j <= kids.len(),
                        ast.nodes().dom() == m0.dom().insert(e),
                        ast.nodes()[e] == (Entry { data: data_e, parent: None, children: kids@.take(j as int) }),
                        forall|k: int| 0 <= k < j ==> ast.nodes()[#[trigger] kids@[k]] == with_parent(m0[kids@[k]], Some(e)),
                        forall|k: int| j <= k < kids@.len() ==> ast.nodes()[#[trigger] kids@[k]] == m0[kids@[k]],
                        forall|x: NodeId| #[trigger] m0.dom().contains(x) && x != node && !kids@.contains(x) ==> ast.nodes()[x] == m0[x],
                    decreases kids.len() - j,
                {
                    let c = kids[j];
                    proof {
                        assert(kids@[j as int] == c);
                        assert(m0.dom().contains(m0[node].children[j as int]));
                        assert(c != e);
                        assert(c != node);
                    }
                    let ghost before = ast.nodes();
                    ast.append(e, c);
                    proof {
                        assert(kids@.take(j + 1) =~= kids@.take(j as int).push(c));
                        assert forall|k: int| j + 1 <= k < kids@.len() implies ast.nodes()[#[trigger] kids@[k]] == m0[kids@[k]] by {
                            assert(kids@[k] != c);
                            assert(m0.dom().contains(m0[node].children[k]));
                        }
                        assert forall|k: int| 0 <= k < j + 1 implies ast.nodes()[#[trigger] kids@[k]] == with_parent(m0[kids@[k]], Some(e)) by {
                            if k < j {
                                assert(kids@[k] != c);
                                assert(m0.dom().contains(m0[node].children[k]));
                            }
                        }
                        assert(ast.nodes().dom() =~= m0.dom().insert(e));
                    }
                    j += 1;
                }
                proof {
                    assert(kids@.take(kids.len() as int) =~= kids@);
                }
                r.push(e);
            },
        }
        r
    }
}

/// An attribute, copied.
fn copy_attr(a: &Attr) -> (r: Attr)
    ensures
        r == *a,
{
    Attr {
        name: a.name.clone(),
        value: match &a.value {
            Some(v) => Some(v.clone()),
            None => None,
        },
    }
}

/// Class names joined with spaces.
fn join_classes(classes: &Vec<String>) -> (r: String)
    ensures
        r@ == spec_join(classes@.map_values(|c: String| c@)),
{
    let ghost cs = classes@.map_values(|c: String| c@);
    let mut out: Vec<char> = Vec::new();
    let mut i: usize = 0;
    while i < classes.len()
        invariant
            i <= classes@.len(),
            cs == classes@.map_values(|c: String| c@),
            out@ == spec_join(cs.take(i as int)),
        decreases classes.len() - i,
    {
        if i > 0 {
            out.push(' ');
        }
        let c = str_chars(classes[i].as_str());
        extend_chars(&mut out, &c);
        proof {
            assert(cs.take(i + 1).drop_last() =~= cs.take(i as int));
            assert(cs.take(i + 1).last() == classes@[i as int]@);
        }
        i += 1;
    }
    assert(cs.take(classes.len() as int) =~= cs);
    chars_to_string(out.as_slice())
}

} // verus!
