//! Registration keys: exact call names and regular-expression patterns.
//!
//! A pattern is a plain regular expression of the `regex` crate, compiled when the
//! key is made. What a pattern matches is known to Verus only by name: see
//! [`regex_captures`].

use vstd::prelude::*;
use regex::Regex;

verus! {

#[verifier::external_type_specification]
#[verifier::external_body]
pub struct ExRegex(Regex);

#[verifier::external_type_specification]
#[verifier::external_body]
pub struct ExRegexError(regex::Error);

/// Whether `Regex::new` accepts a pattern.
pub uninterp spec fn regex_compiles(pattern: Seq<char>) -> bool;

/// What `Regex::captures` gives for a pattern on a haystack: `None` when there is
/// no match, otherwise the text of each capture group in order (group 0 is the
/// whole match), `None` for a group that took no part in the match.
pub uninterp spec fn regex_captures(pattern: Seq<char>, haystack: Seq<char>) -> Option<
    Seq<Option<Seq<char>>>,
>;

/// What `Regex::capture_names` gives for a pattern: the name of each capture
/// group in order, `None` for an unnamed one.
pub uninterp spec fn regex_capture_names(pattern: Seq<char>) -> Seq<Option<Seq<char>>>;

/// Optional strings as optional character sequences.
pub open spec fn opt_strs_view(v: Seq<Option<String>>) -> Seq<Option<Seq<char>>> {
    v.map_values(
        |o: Option<String>|
            match o {
                Some(s) => Some(s@),
                None => None,
            },
    )
}

/// A compiled regular expression together with the pattern it was compiled from.
#[derive(Debug)]
pub struct Pattern {
    source: String,
    regex: Regex,
}

impl View for Pattern {
    type V = Seq<char>;

    closed spec fn view(&self) -> Seq<char> {
        self.source@
    }
}

/// `Regex::new`: compiles a pattern, or says why it cannot.
#[verifier::external_body]
fn regex_new(pattern: &str) -> (r: Result<Regex, regex::Error>)
    ensures
        r is Ok == regex_compiles(pattern@),
{
    Regex::new(pattern)
}

/// `regex::Error`'s `Display`: the text of the error, as the crate words it. What
/// the text says is not stated.
#[verifier::external_body]
fn regex_error_text(e: &regex::Error) -> (r: String) {
    e.to_string()
}

/// Why a pattern does not compile, in the words of the regular-expression engine.
#[derive(Debug, Clone, PartialEq, Eq)]
pub struct PatternError {
    message: String,
}

impl PatternError {
    /// The explanation, as a value.
    pub closed spec fn spec_message(&self) -> Seq<char> {
        self.message@
    }

    /// The explanation.
    pub fn message(&self) -> (r: &str)
        ensures
            r@ == self.spec_message(),
    {
        self.message.as_str()
    }
}

/// `Regex::captures`: the capture groups of the leftmost match, as owned strings.
/// When there is a match, group 0, the whole match, is always present.
#[verifier::external_body]
fn regex_captures_of(p: &Pattern, haystack: &str) -> (r: Option<Vec<Option<String>>>)
    ensures
        match r {
            Some(gs) => regex_captures(p@, haystack@) == Some(opt_strs_view(gs@)) && gs@.len()
                >= 1 && gs@[0] is Some,
            None => regex_captures(p@, haystack@) is None,
        },
{
    p.regex.captures(haystack).map(
        |caps| caps.iter().map(|m| m.map(|m| m.as_str().to_string())).collect(),
    )
}

/// `Regex::capture_names`: the group names, as owned strings. There is always a
/// group 0, and it is unnamed.
#[verifier::external_body]
fn regex_capture_names_of(p: &Pattern) -> (r: Vec<Option<String>>)
    ensures
        regex_capture_names(p@) == opt_strs_view(r@),
        r@.len() >= 1,
        r@[0] is None,
{
    p.regex.capture_names().map(|n| n.map(|n| n.to_string())).collect()
}

impl Pattern {
    /// Compiles a pattern.
    pub fn new(pattern: &str) -> (r: Result<Pattern, PatternError>)
        ensures
            r is Ok == regex_compiles(pattern@),
            r matches Ok(p) ==> p@ == pattern@,
    {
        match regex_new(pattern) {
            Ok(regex) => Ok(Pattern { source: pattern.to_owned(), regex }),
            Err(e) => Err(PatternError { message: regex_error_text(&e) }),
        }
    }

    /// The pattern as written.
    pub fn as_str(&self) -> (r: &str)
        ensures
            r@ == self@,
    {
        self.source.as_str()
    }

    /// The capture groups of the leftmost match in `haystack`, if any.
    pub fn captures(&self, haystack: &str) -> (r: Option<Vec<Option<String>>>)
        ensures
            match r {
                Some(gs) => regex_captures(self@, haystack@) == Some(opt_strs_view(gs@))
                    && gs@.len() >= 1 && gs@[0] is Some,
                None => regex_captures(self@, haystack@) is None,
            },
    {
        regex_captures_of(self, haystack)
    }

    /// The names of the capture groups, `None` for unnamed ones; group 0 is unnamed.
    pub fn capture_names(&self) -> (r: Vec<Option<String>>)
        ensures
            regex_capture_names(self@) == opt_strs_view(r@),
            r@.len() >= 1,
            r@[0] is None,
    {
        regex_capture_names_of(self)
    }
}

/// How a call name is claimed by an expander: by its exact name, or by a pattern.
#[derive(Debug)]
pub enum Key {
    /// An exact call name; looked up first.
    Name(String),
    /// A regular expression; whether it is anchored is up to the pattern.
    Pattern(Pattern),
}

impl Key {
    /// A pattern key; `Err` when the pattern does not compile.
    pub fn pattern(pattern: &str) -> (r: Result<Key, PatternError>)
        ensures
            r is Ok == regex_compiles(pattern@),
            r matches Ok(k) ==> k matches Key::Pattern(p) && p@ == pattern@,
    {
        match Pattern::new(pattern) {
            Ok(p) => Ok(Key::Pattern(p)),
            Err(e) => Err(e),
        }
    }

    /// An exact-name key.
    pub fn name(name: &str) -> (r: Key)
        ensures
            r matches Key::Name(n) && n@ == name@,
    {
        Key::Name(name.to_owned())
    }

    /// The key as written: the name, or the pattern.
    pub open spec fn spec_as_str(&self) -> Seq<char> {
        match self {
            Key::Name(n) => n@,
            Key::Pattern(p) => p@,
        }
    }

    /// The key as written: the name, or the pattern. Registering the same key twice
    /// replaces the first registration.
    pub fn as_str(&self) -> (r: &str)
        ensures
            r@ == self.spec_as_str(),
    {
        match self {
            Key::Name(n) => n.as_str(),
            Key::Pattern(p) => p.as_str(),
        }
    }

    /// Whether this is an exact-name key.
    pub fn is_name(&self) -> (r: bool)
        ensures
            r == (self is Name),
    {
        match self {
            Key::Name(_) => true,
            Key::Pattern(_) => false,
        }
    }
}

} // verus!
