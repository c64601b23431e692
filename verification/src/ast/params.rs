//! The parameter table of a call block.
//!
//! Keys and values are strings; a parameter written without a value (`lazy`) is
//! normalised to the value `"true"` during parsing.

use vstd::prelude::*;
use crate::text::str_eq;

verus! {

/// A parameter: key and value, as character sequences.
pub type ParamV = (Seq<char>, Seq<char>);

/// The first value stored under `key`, if any.
pub open spec fn spec_get(entries: Seq<ParamV>, key: Seq<char>) -> Option<Seq<char>>
    decreases entries.len(),
{
    if entries.len() == 0 {
        None
    } else if entries[0].0 == key {
        Some(entries[0].1)
    } else {
        spec_get(entries.drop_first(), key)
    }
}

/// A repeated key keeps its first value: appending a parameter changes what a key
/// reads only for a key that was not there yet.
pub proof fn get_returns_the_first(entries: Seq<ParamV>, key: Seq<char>, added: ParamV)
    ensures
        spec_get(entries.push(added), key) == match spec_get(entries, key) {
            Some(v) => Some(v),
            None => if added.0 == key {
                Some(added.1)
            } else {
                None
            },
        },
    decreases entries.len(),
{
    if entries.len() > 0 {
        assert(entries.push(added).drop_first() =~= entries.drop_first().push(added));
        assert(entries.push(added)[0] == entries[0]);
        get_returns_the_first(entries.drop_first(), key, added);
    } else {
        assert(entries.push(added).drop_first() =~= Seq::<ParamV>::empty());
        assert(entries.push(added)[0] == added);
        assert(spec_get(Seq::<ParamV>::empty(), key) is None);
    }
}

/// The parameters of a call, in the order they were written. Repeated keys are all
/// kept; [`Params::get`] returns the first one.
#[derive(Debug, Clone, Default, PartialEq, Eq)]
pub struct Params {
    entries: Vec<(String, String)>,
}

impl View for Params {
    type V = Seq<ParamV>;

    closed spec fn view(&self) -> Seq<ParamV> {
        self.entries@.map_values(|e: (String, String)| (e.0@, e.1@))
    }
}

impl Params {
    /// An empty table.
    pub fn new() -> (r: Self)
        ensures
            r@ == Seq::<ParamV>::empty(),
    {
        let r = Params { entries: Vec::new() };
        assert(r@ =~= Seq::<ParamV>::empty());
        r
    }

    /// Appends a key/value pair.
    pub fn push(&mut self, key: &str, value: &str)
        ensures
            final(self)@ == old(self)@.push((key@, value@)),
    {
        self.entries.push((key.to_owned(), value.to_owned()));
        assert(self@ =~= old(self)@.push((key@, value@)));
    }

    /// Appends a key/value pair given as owned strings.
    pub fn push_owned(&mut self, key: String, value: String)
        ensures
            final(self)@ == old(self)@.push((key@, value@)),
    {
        let ghost k = key@;
        let ghost v = value@;
        self.entries.push((key, value));
        assert(self@ =~= old(self)@.push((k, v)));
    }

    /// The value of the first parameter named `key`.
    pub fn get(&self, key: &str) -> (r: Option<&str>)
        ensures
            match r {
                Some(v) => spec_get(self@, key@) == Some(v@),
                None => spec_get(self@, key@) is None,
            },
    {
        let mut i: usize = 0;
        assert(self@.skip(0) =~= self@);
        while i < self.entries.len()
            invariant
                i <= self.entries.len(),
                self@.len() == self.entries@.len(),
                spec_get(self@, key@) == spec_get(self@.skip(i as int), key@),
            decreases self.entries.len() - i,
        {
            assert(self@.skip(i as int).drop_first() =~= self@.skip(i + 1));
            assert(self@[i as int] == (self.entries@[i as int].0@, self.entries@[i as int].1@));
            if str_eq(self.entries[i].0.as_str(), key) {
                return Some(self.entries[i].1.as_str());
            }
            i += 1;
        }
        None
    }

    /// Whether some parameter is named `key`.
    pub fn contains(&self, key: &str) -> (r: bool)
        ensures
            r == spec_get(self@, key@) is Some,
    {
        self.get(key).is_some()
    }

    /// Number of parameters.
    pub fn len(&self) -> (r: usize)
        ensures
            r == self@.len(),
    {
        self.entries.len()
    }

    /// Whether there are no parameters.
    pub fn is_empty(&self) -> (r: bool)
        ensures
            r == (self@.len() == 0),
    {
        self.entries.len() == 0
    }

    /// All parameters as a slice.
    pub fn entries(&self) -> (r: &[(String, String)])
        ensures
            r@.map_values(|e: (String, String)| (e.0@, e.1@)) == self@,
    {
        self.entries.as_slice()
    }

    /// Walks the parameters in the order they were written.
    pub fn iter(&self) -> (r: std::slice::Iter<'_, (String, String)>)
        ensures
            vstd::std_specs::slice::into_iter_elts(r).map_values(
                |e: (String, String)| (e.0@, e.1@),
            ) == self@,
    {
        let it = self.entries.as_slice().iter();
        proof {
            broadcast use vstd::std_specs::slice::axiom_spec_slice_iter;
            assert(vstd::std_specs::slice::into_iter_elts(it) =~= self.entries@);
        }
        it
    }

    /// The `i`-th parameter.
    pub fn entry(&self, i: usize) -> (r: (&str, &str))
        requires
            i < self@.len(),
        ensures
            r.0@ == self@[i as int].0,
            r.1@ == self@[i as int].1,
    {
        (self.entries[i].0.as_str(), self.entries[i].1.as_str())
    }
}

} // verus!
