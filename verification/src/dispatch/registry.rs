//! The registry of expanders.

use vstd::prelude::*;
use crate::text::str_eq;
use super::key::{Key, Pattern, opt_strs_view, regex_capture_names, regex_captures};

verus! {

/// The expanders, by how they claim blocks.
///
/// * A call block is looked up by its name: exact names first, then patterns, the
///   one registered last first;
/// * a natural block goes to the natural-block expander;
/// * what nobody claims goes to the fallback, which by default turns the block
///   into an error node holding its source.
///
/// Registering a key again replaces the earlier expander. Patterns are plain
/// regular expressions; a call name is matched as a whole string, so a pattern
/// that must cover the whole name anchors itself (`^h[1-6]$`).
pub struct Registry<H> {
    names: Vec<(String, H)>,
    patterns: Vec<(Pattern, H)>,
    natural: Option<H>,
    fallback: Option<H>,
}

/// What a lookup found: the expander and, for a pattern, the capture groups and
/// their names.
pub type Found<'r, H> = (&'r H, Option<(Vec<Option<String>>, Vec<Option<String>>)>);

impl<H> Registry<H> {
    /// The exact names registered, in order of first registration.
    pub closed spec fn spec_names(&self) -> Seq<Seq<char>> {
        self.names@.map_values(|e: (String, H)| e.0@)
    }

    /// The expanders of the exact names, position by position.
    pub closed spec fn spec_name_handlers(&self) -> Seq<H> {
        self.names@.map_values(|e: (String, H)| e.1)
    }

    /// The patterns registered, in order of first registration.
    pub closed spec fn spec_patterns(&self) -> Seq<Seq<char>> {
        self.patterns@.map_values(|e: (Pattern, H)| e.0@)
    }

    /// The expanders of the patterns, position by position.
    pub closed spec fn spec_pattern_handlers(&self) -> Seq<H> {
        self.patterns@.map_values(|e: (Pattern, H)| e.1)
    }

    /// The natural-block expander.
    pub closed spec fn spec_natural(&self) -> Option<H> {
        self.natural
    }

    /// The fallback expander; `None` is the built-in fallback.
    pub closed spec fn spec_fallback(&self) -> Option<H> {
        self.fallback
    }

    /// No name and no pattern is registered twice.
    pub open spec fn wf(&self) -> bool {
        &&& self.spec_names().no_duplicates()
        &&& self.spec_patterns().no_duplicates()
        &&& self.spec_names().len() == self.spec_name_handlers().len()
        &&& self.spec_patterns().len() == self.spec_pattern_handlers().len()
    }

    /// An empty registry, with the built-in fallback.
    pub fn new() -> (r: Self)
        ensures
            r.wf(),
            r.spec_names() == Seq::<Seq<char>>::empty(),
            r.spec_patterns() == Seq::<Seq<char>>::empty(),
            r.spec_natural() is None,
            r.spec_fallback() is None,
    {
        let r = Registry { names: Vec::new(), patterns: Vec::new(), natural: None, fallback: None };
        assert(r.spec_names() =~= Seq::<Seq<char>>::empty());
        assert(r.spec_patterns() =~= Seq::<Seq<char>>::empty());
        assert(r.spec_name_handlers() =~= Seq::<H>::empty());
        assert(r.spec_pattern_handlers() =~= Seq::<H>::empty());
        r
    }

    /// Registers (or replaces) an expander under a key: an exact name, or a pattern.
    #[verifier::loop_isolation(false)]
    pub fn register(&mut self, key: Key, handler: H)
        requires
            old(self).wf(),
        ensures
            final(self).wf(),
            final(self).spec_natural() == old(self).spec_natural(),
            final(self).spec_fallback() == old(self).spec_fallback(),
            key is Name ==> {
                &&& final(self).spec_patterns() == old(self).spec_patterns()
                &&& final(self).spec_pattern_handlers() == old(self).spec_pattern_handlers()
                &&& if old(self).spec_names().contains(key.spec_as_str()) {
                    &&& final(self).spec_names() == old(self).spec_names()
                    &&& final(self).spec_name_handlers() == old(self).spec_name_handlers().update(
                        old(self).spec_names().index_of(key.spec_as_str()),
                        handler,
                    )
                } else {
                    &&& final(self).spec_names() == old(self).spec_names().push(key.spec_as_str())
                    &&& final(self).spec_name_handlers() == old(self).spec_name_handlers().push(
                        handler,
                    )
                }
            },
            key is Pattern ==> {
                &&& final(self).spec_names() == old(self).spec_names()
                &&& final(self).spec_name_handlers() == old(self).spec_name_handlers()
                &&& if old(self).spec_patterns().contains(key.spec_as_str()) {
                    &&& final(self).spec_patterns() == old(self).spec_patterns()
                    &&& final(self).spec_pattern_handlers() == old(
                        self,
                    ).spec_pattern_handlers().update(
                        old(self).spec_patterns().index_of(key.spec_as_str()),
                        handler,
                    )
                } else {
                    &&& final(self).spec_patterns() == old(self).spec_patterns().push(
                        key.spec_as_str(),
                    )
                    &&& final(self).spec_pattern_handlers() == old(
                        self,
                    ).spec_pattern_handlers().push(handler)
                }
            },
    {
        match key {
            Key::Name(n) => {
                let mut i: usize = 0;
                while i < self.names.len()
                    invariant
                        i <= self.names@.len(),
                        self.names@.len() == self.spec_names().len(),
                        self.wf(),
                        *self == *old(self),
                        forall|j: int| 0 <= j < i ==> self.spec_names()[j] != n@,
                    decreases self.names.len() - i,
                {
                    if str_eq(self.names[i].0.as_str(), n.as_str()) {
                        proof {
                            assert(self.spec_names()[i as int] == n@);
                            assert(self.spec_names().contains(n@));
                            assert(self.spec_names().index_of(n@) == i as int) by {
                                assert(self.spec_names().contains(n@));
                                let k = self.spec_names().index_of(n@);
                                assert(self.spec_names()[k] == n@);
                            }
                        }
                        let ghost before_names = self.spec_names();
                        let ghost before_handlers = self.spec_name_handlers();
                        self.names.set(i, (n, handler));
                        proof {
                            assert(self.spec_names() =~= before_names);
                            assert(self.spec_name_handlers() =~= before_handlers.update(
                                i as int,
                                handler,
                            ));
                        }
                        return;
                    }
                    i += 1;
                }
                let ghost before_names = self.spec_names();
                let ghost before_handlers = self.spec_name_handlers();
                proof {
                    assert(!before_names.contains(n@));
                }
                self.names.push((n, handler));
                proof {
                    assert(self.spec_names() =~= before_names.push(n@));
                    assert(self.spec_name_handlers() =~= before_handlers.push(handler));
                    assert(self.spec_names().no_duplicates()) by {
                        assert forall|a: int, b: int|
                            0 <= a < b < self.spec_names().len() implies self.spec_names()[a]
                            != self.spec_names()[b] by {
                            if b == before_names.len() {
                                assert(before_names[a] == self.spec_names()[a]);
                            } else {
                                assert(before_names[a] == self.spec_names()[a]);
                                assert(before_names[b] == self.spec_names()[b]);
                            }
                        }
                    }
                }
            },
            Key::Pattern(p) => {
                let mut i: usize = 0;
                while i < self.patterns.len()
                    invariant
                        i <= self.patterns@.len(),
                        self.patterns@.len() == self.spec_patterns().len(),
                        self.wf(),
                        *self == *old(self),
                        forall|j: int| 0 <= j < i ==> self.spec_patterns()[j] != p@,
                    decreases self.patterns.len() - i,
                {
                    if str_eq(self.patterns[i].0.as_str(), p.as_str()) {
                        proof {
                            assert(self.spec_patterns()[i as int] == p@);
                            assert(self.spec_patterns().contains(p@));
                            assert(self.spec_patterns().index_of(p@) == i as int) by {
                                assert(self.spec_patterns().contains(p@));
                                let k = self.spec_patterns().index_of(p@);
                                assert(self.spec_patterns()[k] == p@);
                            }
                        }
                        let ghost before_patterns = self.spec_patterns();
                        let ghost before_handlers = self.spec_pattern_handlers();
                        let ghost pv = p@;
                        self.patterns.set(i, (p, handler));
                        proof {
                            assert(self.spec_patterns() =~= before_patterns);
                            assert(self.spec_pattern_handlers() =~= before_handlers.update(
                                i as int,
                                handler,
                            ));
                        }
                        return;
                    }
                    i += 1;
                }
                let ghost before_patterns = self.spec_patterns();
                let ghost before_handlers = self.spec_pattern_handlers();
                proof {
                    assert(!before_patterns.contains(p@));
                }
                let ghost pv = p@;
                self.patterns.push((p, handler));
                proof {
                    assert(self.spec_patterns() =~= before_patterns.push(pv));
                    assert(self.spec_pattern_handlers() =~= before_handlers.push(handler));
                    assert(self.spec_patterns().no_duplicates()) by {
                        assert forall|a: int, b: int|
                            0 <= a < b < self.spec_patterns().len() implies self.spec_patterns()[a]
                            != self.spec_patterns()[b] by {
                            if b == before_patterns.len() {
                                assert(before_patterns[a] == self.spec_patterns()[a]);
                            } else {
                                assert(before_patterns[a] == self.spec_patterns()[a]);
                                assert(before_patterns[b] == self.spec_patterns()[b]);
                            }
                        }
                    }
                }
            },
        }
    }

    /// Registers the natural-block expander.
    pub fn register_natural(&mut self, handler: H)
        ensures
            final(self).spec_names() == old(self).spec_names(),
            final(self).spec_name_handlers() == old(self).spec_name_handlers(),
            final(self).spec_patterns() == old(self).spec_patterns(),
            final(self).spec_pattern_handlers() == old(self).spec_pattern_handlers(),
            final(self).spec_fallback() == old(self).spec_fallback(),
            final(self).spec_natural() == Some(handler),
    {
        self.natural = Some(handler);
    }

    /// Replaces the fallback expander.
    pub fn set_fallback(&mut self, handler: H)
        ensures
            final(self).spec_names() == old(self).spec_names(),
            final(self).spec_name_handlers() == old(self).spec_name_handlers(),
            final(self).spec_patterns() == old(self).spec_patterns(),
            final(self).spec_pattern_handlers() == old(self).spec_pattern_handlers(),
            final(self).spec_natural() == old(self).spec_natural(),
            final(self).spec_fallback() == Some(handler),
    {
        self.fallback = Some(handler);
    }

    /// Whether pattern `j` matches `name`.
    pub open spec fn spec_pattern_hits(&self, j: int, name: Seq<char>) -> bool {
        regex_captures(self.spec_patterns()[j], name) is Some
    }

    /// The pattern that claims `name`: the last registered one that matches.
    pub open spec fn spec_pattern_for(&self, name: Seq<char>) -> Option<int> {
        if exists|j: int| 0 <= j < self.spec_patterns().len() && self.spec_pattern_hits(j, name) {
            Some(
                choose|j: int|
                    0 <= j < self.spec_patterns().len() && self.spec_pattern_hits(j, name)
                        && forall|k: int|
                        j < k < self.spec_patterns().len() ==> !self.spec_pattern_hits(k, name),
            )
        } else {
            None
        }
    }

    /// Looks up the expander for a call name: an exact name first, then the patterns,
    /// the one registered last first; a pattern hit comes with its capture groups.
    pub fn find(&self, name: &str) -> (r: Option<Found<'_, H>>)
        requires
            self.wf(),
        ensures
            match r {
                Some((h, None)) => self.spec_names().contains(name@) && *h
                    == self.spec_name_handlers()[self.spec_names().index_of(name@)],
                Some((h, Some((gs, ns)))) => !self.spec_names().contains(name@) && (
                self.spec_pattern_for(name@) matches Some(j) && *h
                    == self.spec_pattern_handlers()[j] && regex_captures(
                    self.spec_patterns()[j],
                    name@,
                ) == Some(opt_strs_view(gs@)) && regex_capture_names(self.spec_patterns()[j])
                    == opt_strs_view(ns@)),
                None => !self.spec_names().contains(name@) && self.spec_pattern_for(name@) is None,
            },
    {
        let mut i: usize = 0;
        while i < self.names.len()
            invariant
                self.wf(),
                i <= self.names@.len(),
                self.names@.len() == self.spec_names().len(),
                forall|j: int| 0 <= j < i ==> self.spec_names()[j] != name@,
            decreases self.names.len() - i,
        {
            if str_eq(self.names[i].0.as_str(), name) {
                proof {
                    assert(self.spec_names()[i as int] == name@);
                    assert(self.spec_names().contains(name@));
                    assert(self.spec_names().index_of(name@) == i as int);
                    assert(self.spec_name_handlers()[i as int] == self.names@[i as int].1);
                }
                return Some((&self.names[i].1, None));
            }
            i += 1;
        }
        proof {
            assert(!self.spec_names().contains(name@));
        }
        let mut k: usize = self.patterns.len();
        while k > 0
            invariant
                self.wf(),
                k <= self.patterns@.len(),
                self.patterns@.len() == self.spec_patterns().len(),
                !self.spec_names().contains(name@),
                forall|j: int| k <= j < self.spec_patterns().len() ==> !self.spec_pattern_hits(j, name@),
            decreases k,
        {
            let j = k - 1;
            match self.patterns[j].0.captures(name) {
                Some(gs) => {
                    let ns = self.patterns[j].0.capture_names();
                    proof {
                        assert(self.spec_patterns()[j as int] == self.patterns@[j as int].0@);
                        assert(self.spec_pattern_hits(j as int, name@));
                        let c = self.spec_pattern_for(name@)->0;
                        assert(c == j as int) by {
                            if c < j as int {
                                assert(!self.spec_pattern_hits(j as int, name@));
                            }
                        }
                        assert(self.spec_pattern_handlers()[j as int] == self.patterns@[j as int].1);
                    }
                    return Some((&self.patterns[j].1, Some((gs, ns))));
                },
                None => {
                    proof {
                        assert(self.spec_patterns()[j as int] == self.patterns@[j as int].0@);
                    }
                },
            }
            k = j;
        }
        None
    }

    /// The expander for a call name, if any; see [`Registry::find`].
    pub fn get(&self, name: &str) -> (r: Option<&H>)
        requires
            self.wf(),
        ensures
            match r {
                Some(h) => if self.spec_names().contains(name@) {
                    *h == self.spec_name_handlers()[self.spec_names().index_of(name@)]
                } else {
                    self.spec_pattern_for(name@) matches Some(j) && *h
                        == self.spec_pattern_handlers()[j]
                },
                None => !self.spec_names().contains(name@) && self.spec_pattern_for(name@) is None,
            },
    {
        match self.find(name) {
            Some((h, _)) => Some(h),
            None => None,
        }
    }

    /// Whether some expander claims this call name, by name or by pattern.
    pub fn contains(&self, name: &str) -> (r: bool)
        requires
            self.wf(),
        ensures
            r == (self.spec_names().contains(name@) || self.spec_pattern_for(name@) is Some),
    {
        self.find(name).is_some()
    }

    /// The natural-block expander, if one is registered.
    pub fn natural(&self) -> (r: Option<&H>)
        ensures
            match r {
                Some(h) => self.spec_natural() == Some(*h),
                None => self.spec_natural() is None,
            },
    {
        self.natural.as_ref()
    }

    /// The fallback expander; `None` stands for the built-in one.
    pub fn fallback(&self) -> (r: Option<&H>)
        ensures
            match r {
                Some(h) => self.spec_fallback() == Some(*h),
                None => self.spec_fallback() is None,
            },
    {
        self.fallback.as_ref()
    }

    /// The exact names registered.
    pub fn names(&self) -> (r: Vec<&str>)
        ensures
            r@.len() == self.spec_names().len(),
            forall|i: int| 0 <= i < r@.len() ==> #[trigger] r@[i]@ == self.spec_names()[i],
    {
        let mut out: Vec<&str> = Vec::new();
        let mut i: usize = 0;
        while i < self.names.len()
            invariant
                i <= self.names@.len(),
                self.names@.len() == self.spec_names().len(),
                out@.len() == i,
                forall|k: int| 0 <= k < i ==> #[trigger] out@[k]@ == self.spec_names()[k],
            decreases self.names.len() - i,
        {
            out.push(self.names[i].0.as_str());
            i += 1;
        }
        out
    }

    /// The patterns registered, as written, in order of first registration.
    pub fn patterns(&self) -> (r: Vec<&str>)
        ensures
            r@.len() == self.spec_patterns().len(),
            forall|i: int| 0 <= i < r@.len() ==> #[trigger] r@[i]@ == self.spec_patterns()[i],
    {
        let mut out: Vec<&str> = Vec::new();
        let mut i: usize = 0;
        while i < self.patterns.len()
            invariant
                i <= self.patterns@.len(),
                self.patterns@.len() == self.spec_patterns().len(),
                out@.len() == i,
                forall|k: int| 0 <= k < i ==> #[trigger] out@[k]@ == self.spec_patterns()[k],
            decreases self.patterns.len() - i,
        {
            out.push(self.patterns[i].0.as_str());
            i += 1;
        }
        out
    }
}

} // verus!
