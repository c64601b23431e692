//! What an expander gets besides the tree: the source text.

use vstd::prelude::*;
use vstd::string::StringSliceAdditionalSpecFns;
use crate::ast::span::Span;

verus! {

/// The context handed to expanders.
pub struct Context<'a> {
    source: &'a str,
}

impl<'a> Context<'a> {
    /// The source text.
    pub closed spec fn spec_source(&self) -> &'a str {
        self.source
    }

    /// A context over the source text.
    pub fn new(source: &'a str) -> (r: Self)
        ensures
            r.spec_source() == source,
    {
        Context { source }
    }

    /// The source text.
    pub fn source(&self) -> (r: &'a str)
        ensures
            r == self.spec_source(),
    {
        self.source
    }

    /// The source text of a span: a block's text as written, header line and
    /// indentation as written included. (The body alone is
    /// [`crate::ast::CallBlock::raw_body`].)
    pub fn slice(&self, span: Span) -> (r: &'a str)
        requires
            span.fits(self.spec_source()),
        ensures
            r.spec_bytes() == self.spec_source().spec_bytes().subrange(
                span.start_byte as int,
                span.end_byte as int,
            ),
    {
        span.slice(self.source)
    }

    /// The source text of a span, if the span lies inside the input on character
    /// boundaries.
    pub fn get(&self, span: Span) -> (r: Option<&'a str>)
        ensures
            match r {
                Some(s) => span.fits(self.spec_source()) && s.spec_bytes()
                    == self.spec_source().spec_bytes().subrange(
                    span.start_byte as int,
                    span.end_byte as int,
                ),
                None => !span.fits(self.spec_source()),
            },
    {
        span.get(self.source)
    }
}

} // verus!
