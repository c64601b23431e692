//! What a lookup by name found: the call name and, for a pattern, its captures.

use vstd::prelude::*;
use crate::ast::params::{Params, ParamV, spec_get};
use crate::text::str_eq;
use super::key::opt_strs_view;

verus! {

/// How a call was claimed.
///
/// * By its **exact name**: there are no capture groups, [`Matched::matched`] is the
///   call name, and group 0 is the call name too.
/// * By a **pattern**: [`Matched::matched`] is what the pattern actually matched
///   (shorter than the name when the pattern is not anchored), and the groups are
///   read with [`Matched::capture`] and [`Matched::capture_named`].
#[derive(Debug)]
pub struct Matched {
    name: String,
    groups: Option<Vec<Option<String>>>,
    names: Vec<Option<String>>,
}

impl Matched {
    /// The full call name; empty for a natural block.
    pub closed spec fn spec_name(&self) -> Seq<char> {
        self.name@
    }

    /// The capture groups of a pattern hit; `None` for an exact hit.
    pub closed spec fn spec_groups(&self) -> Option<Seq<Option<Seq<char>>>> {
        match self.groups {
            Some(gs) => Some(opt_strs_view(gs@)),
            None => None,
        }
    }

    /// The names of the capture groups of a pattern hit.
    pub closed spec fn spec_names(&self) -> Seq<Option<Seq<char>>> {
        opt_strs_view(self.names@)
    }

    /// A hit on `name`: `captures` holds the groups and their names for a pattern
    /// hit, and is `None` for an exact hit.
    pub fn new(name: &str, captures: Option<(Vec<Option<String>>, Vec<Option<String>>)>) -> (r:
        Self)
        ensures
            r.spec_name() == name@,
            r.spec_groups() == match captures {
                Some(c) => Some(opt_strs_view(c.0@)),
                None => None::<Seq<Option<Seq<char>>>>,
            },
            r.spec_names() == match captures {
                Some(c) => opt_strs_view(c.1@),
                None => Seq::<Option<Seq<char>>>::empty(),
            },
    {
        match captures {
            Some((groups, names)) => Matched { name: name.to_owned(), groups: Some(groups), names },
            None => {
                let r = Matched { name: name.to_owned(), groups: None, names: Vec::new() };
                assert(r.spec_names() =~= Seq::<Option<Seq<char>>>::empty());
                r
            },
        }
    }

    /// What a natural block gets: no name, no groups.
    pub fn unnamed() -> (r: Self)
        ensures
            r.spec_name() == Seq::<char>::empty(),
            r.spec_groups() is None,
            r.spec_names() == Seq::<Option<Seq<char>>>::empty(),
    {
        let r = Matched { name: String::new(), groups: None, names: Vec::new() };
        assert(r.spec_names() =~= Seq::<Option<Seq<char>>>::empty());
        r
    }

    /// The full call name.
    pub fn name(&self) -> (r: &str)
        ensures
            r@ == self.spec_name(),
    {
        self.name.as_str()
    }

    /// What was actually matched: group 0 of a pattern hit, the call name otherwise.
    pub open spec fn spec_matched(&self) -> Seq<char> {
        match self.spec_groups() {
            Some(gs) => if gs.len() > 0 {
                match gs[0] {
                    Some(m) => m,
                    None => self.spec_name(),
                }
            } else {
                self.spec_name()
            },
            None => self.spec_name(),
        }
    }

    /// What was actually matched: group 0 of a pattern hit, the call name otherwise.
    pub fn matched(&self) -> (r: &str)
        ensures
            r@ == self.spec_matched(),
    {
        match &self.groups {
            Some(gs) => {
                if gs.len() > 0 {
                    match &gs[0] {
                        Some(m) => m.as_str(),
                        None => self.name.as_str(),
                    }
                } else {
                    self.name.as_str()
                }
            },
            None => self.name.as_str(),
        }
    }

    /// Group `index` (0 is the whole match); for an exact hit only group 0 exists,
    /// and it is the call name.
    pub open spec fn spec_capture(&self, index: int) -> Option<Seq<char>> {
        match self.spec_groups() {
            Some(gs) => if 0 <= index < gs.len() {
                gs[index]
            } else {
                None
            },
            None => if index == 0 {
                Some(self.spec_name())
            } else {
                None
            },
        }
    }

    /// Group `index` (0 is the whole match).
    pub fn capture(&self, index: usize) -> (r: Option<&str>)
        ensures
            match r {
                Some(s) => self.spec_capture(index as int) == Some(s@),
                None => self.spec_capture(index as int) is None,
            },
    {
        match &self.groups {
            Some(gs) => {
                if index < gs.len() {
                    match &gs[index] {
                        Some(m) => Some(m.as_str()),
                        None => None,
                    }
                } else {
                    None
                }
            },
            None => {
                if index == 0 {
                    Some(self.name.as_str())
                } else {
                    None
                }
            },
        }
    }

    /// The first group named `name`, if any.
    pub open spec fn spec_named_index(&self, name: Seq<char>) -> Option<int> {
        if exists|i: int| 0 <= i < self.spec_names().len() && self.spec_names()[i] == Some(name) {
            Some(
                choose|i: int|
                    0 <= i < self.spec_names().len() && self.spec_names()[i] == Some(name) && forall|
                        j: int,
                    |
                        0 <= j < i ==> self.spec_names()[j] != Some(name),
            )
        } else {
            None
        }
    }

    /// The group named `name`; `None` for an exact hit, an unknown name, or a group
    /// that took no part in the match.
    pub open spec fn spec_capture_named(&self, name: Seq<char>) -> Option<Seq<char>> {
        match self.spec_groups() {
            Some(_) => match self.spec_named_index(name) {
                Some(i) => self.spec_capture(i),
                None => None,
            },
            None => None,
        }
    }

    /// The group named `name`.
    pub fn capture_named(&self, name: &str) -> (r: Option<&str>)
        ensures
            match r {
                Some(s) => self.spec_capture_named(name@) == Some(s@),
                None => self.spec_capture_named(name@) is None,
            },
    {
        if self.groups.is_none() {
            return None;
        }
        let mut i: usize = 0;
        while i < self.names.len()
            invariant
                i <= self.names@.len(),
                self.groups is Some,
                forall|j: int| 0 <= j < i ==> self.spec_names()[j] != Some(name@),
            decreases self.names.len() - i,
        {
            let hit = match &self.names[i] {
                Some(n) => str_eq(n.as_str(), name),
                None => false,
            };
            if hit {
                proof {
                    assert(self.spec_names()[i as int] == Some(name@));
                    let k = self.spec_named_index(name@)->0;
                    assert(k == i as int) by {
                        if k < i {
                        } else if k > i {
                        }
                    }
                }
                return self.capture(i);
            }
            proof {
                assert(self.spec_names()[i as int] != Some(name@));
            }
            i += 1;
        }
        None
    }

    /// The number of groups, group 0 included; 1 for an exact hit.
    pub open spec fn spec_group_count(&self) -> int {
        match self.spec_groups() {
            Some(gs) => gs.len() as int,
            None => 1,
        }
    }

    /// The number of groups, group 0 included.
    pub fn group_count(&self) -> (r: usize)
        ensures
            r == self.spec_group_count(),
    {
        match &self.groups {
            Some(gs) => gs.len(),
            None => 1,
        }
    }

    /// All groups in order, those that took no part in the match as `None`.
    pub fn groups(&self) -> (r: Vec<Option<&str>>)
        ensures
            r@.len() == self.spec_group_count(),
            forall|i: int|
                0 <= i < r@.len() ==> match #[trigger] r@[i] {
                    Some(s) => self.spec_capture(i) == Some(s@),
                    None => self.spec_capture(i) is None,
                },
    {
        let n = self.group_count();
        let mut out: Vec<Option<&str>> = Vec::new();
        let mut i: usize = 0;
        while i < n
            invariant
                n == self.spec_group_count(),
                i <= n,
                out@.len() == i,
                forall|k: int|
                    0 <= k < i ==> match #[trigger] out@[k] {
                        Some(s) => self.spec_capture(k) == Some(s@),
                        None => self.spec_capture(k) is None,
                    },
            decreases n - i,
        {
            out.push(self.capture(i));
            i += 1;
        }
        out
    }
}

/// A call as a whole: how it was claimed, and the parameters written.
#[derive(Debug)]
pub struct Invocation<'a> {
    matched: &'a Matched,
    params: &'a Params,
}

impl<'a> Invocation<'a> {
    /// How it was claimed.
    pub closed spec fn spec_matched(&self) -> Matched {
        *self.matched
    }

    /// The parameters written.
    pub closed spec fn spec_params(&self) -> Seq<ParamV> {
        self.params@
    }

    /// Puts a hit and the parameters together.
    pub fn new(matched: &'a Matched, params: &'a Params) -> (r: Self)
        ensures
            r.spec_matched() == *matched,
            r.spec_params() == params@,
    {
        Invocation { matched, params }
    }

    /// The full call name.
    pub fn name(&self) -> (r: &'a str)
        ensures
            r@ == self.spec_matched().spec_name(),
    {
        self.matched.name()
    }

    /// What was actually matched.
    pub fn matched(&self) -> (r: &'a str)
        ensures
            r@ == self.spec_matched().spec_matched(),
    {
        self.matched.matched()
    }

    /// Group `index` (0 is the whole match).
    pub fn capture(&self, index: usize) -> (r: Option<&'a str>)
        ensures
            match r {
                Some(s) => self.spec_matched().spec_capture(index as int) == Some(s@),
                None => self.spec_matched().spec_capture(index as int) is None,
            },
    {
        self.matched.capture(index)
    }

    /// The group named `name`.
    pub fn capture_named(&self, name: &str) -> (r: Option<&'a str>)
        ensures
            match r {
                Some(s) => self.spec_matched().spec_capture_named(name@) == Some(s@),
                None => self.spec_matched().spec_capture_named(name@) is None,
            },
    {
        self.matched.capture_named(name)
    }

    /// The number of groups, group 0 included.
    pub fn group_count(&self) -> (r: usize)
        ensures
            r == self.spec_matched().spec_group_count(),
    {
        self.matched.group_count()
    }

    /// All groups in order.
    pub fn groups(&self) -> (r: Vec<Option<&'a str>>)
        ensures
            r@.len() == self.spec_matched().spec_group_count(),
            forall|i: int|
                0 <= i < r@.len() ==> match #[trigger] r@[i] {
                    Some(s) => self.spec_matched().spec_capture(i) == Some(s@),
                    None => self.spec_matched().spec_capture(i) is None,
                },
    {
        self.matched.groups()
    }

    /// The value of the first parameter named `key`.
    pub fn param(&self, key: &str) -> (r: Option<&'a str>)
        ensures
            match r {
                Some(v) => spec_get(self.spec_params(), key@) == Some(v@),
                None => spec_get(self.spec_params(), key@) is None,
            },
    {
        self.params.get(key)
    }

    /// All parameters, in the order written.
    pub fn params(&self) -> (r: &'a Params)
        ensures
            r@ == self.spec_params(),
    {
        self.params
    }
}

} // verus!
