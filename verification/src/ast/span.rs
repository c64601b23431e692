//! Where a block stands in the source text.

use vstd::prelude::*;
use vstd::utf8::is_char_boundary;
use vstd::string::StringSliceAdditionalSpecFns;

verus! {

/// The position of a block in the source text.
///
/// Line numbers start at 1 and are inclusive at both ends; byte offsets refer to
/// the source text, `end_byte` is exclusive and never includes the line break.
/// Blocks nested inside call blocks carry absolute positions too.
#[derive(Debug, Clone, Copy, PartialEq, Eq, Hash)]
pub struct Span {
    /// First line (1-based, inclusive).
    pub start_line: usize,
    /// Last line (1-based, inclusive).
    pub end_line: usize,
    /// First byte (inclusive).
    pub start_byte: usize,
    /// Last byte (exclusive).
    pub end_byte: usize,
}

/// `str` slicing by a byte range (`<str as Index<Range<usize>>>::index`).
#[verifier::external_body]
fn str_byte_range(s: &str, from: usize, to: usize) -> (r: &str)
    requires
        from <= to <= s.spec_bytes().len(),
        is_char_boundary(s.spec_bytes(), from as int),
        is_char_boundary(s.spec_bytes(), to as int),
    ensures
        r.spec_bytes() == s.spec_bytes().subrange(from as int, to as int),
{
    &s[from..to]
}

impl Span {
    /// Builds a span from its four coordinates.
    pub fn new(start_line: usize, end_line: usize, start_byte: usize, end_byte: usize) -> (r:
        Self)
        ensures
            r == (Span { start_line, end_line, start_byte, end_byte }),
    {
        Span { start_line, end_line, start_byte, end_byte }
    }

    /// Number of bytes covered (0 when the span is inverted).
    pub fn len_bytes(&self) -> (r: usize)
        ensures
            r == (if self.end_byte >= self.start_byte {
                self.end_byte - self.start_byte
            } else {
                0
            }),
    {
        self.end_byte.saturating_sub(self.start_byte)
    }

    /// Number of lines covered, both ends included.
    pub fn len_lines(&self) -> (r: usize)
        requires
            self.end_line < usize::MAX || self.start_line > 0,
        ensures
            r == (if self.end_line >= self.start_line {
                self.end_line - self.start_line
            } else {
                0
            }) + 1,
    {
        self.end_line.saturating_sub(self.start_line) + 1
    }

    /// Whether this span lies inside `source` on character boundaries.
    pub open spec fn fits(&self, source: &str) -> bool {
        &&& self.start_byte <= self.end_byte <= source.spec_bytes().len()
        &&& is_char_boundary(source.spec_bytes(), self.start_byte as int)
        &&& is_char_boundary(source.spec_bytes(), self.end_byte as int)
    }

    /// Cuts this span out of the source text, if it lies inside it on character
    /// boundaries.
    pub fn get<'a>(&self, source: &'a str) -> (r: Option<&'a str>)
        ensures
            match r {
                Some(s) => self.fits(source) && s.spec_bytes() == source.spec_bytes().subrange(
                    self.start_byte as int,
                    self.end_byte as int,
                ),
                None => !self.fits(source),
            },
    {
        if self.start_byte <= self.end_byte && self.end_byte <= source.as_bytes().len()
            && source.is_char_boundary(self.start_byte) && source.is_char_boundary(self.end_byte) {
            Some(self.slice(source))
        } else {
            None
        }
    }

    /// Cuts this span out of the source text.
    pub fn slice<'a>(&self, source: &'a str) -> (r: &'a str)
        requires
            self.fits(source),
        ensures
            r.spec_bytes() == source.spec_bytes().subrange(
                self.start_byte as int,
                self.end_byte as int,
            ),
    {
        str_byte_range(source, self.start_byte, self.end_byte)
    }
}

} // verus!
