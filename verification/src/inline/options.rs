//! Configuration of the inline layer.

use vstd::prelude::*;

verus! {

/// Which inline constructs are recognised; each can be switched off.
///
/// The default switches everything on. With everything off the inline layer gives
/// back the text as it is.
#[derive(Debug, Clone, Copy, PartialEq, Eq)]
pub struct Options {
    /// Backslash escapes and hard line breaks.
    pub escapes: bool,
    /// Code spans: `` `x` ``.
    pub code_spans: bool,
    /// Math: `$x$`.
    pub math: bool,
    /// Entity references: `&amp;`.
    pub entities: bool,
    /// Inline calls; here, the shortcode form `:name:`.
    pub calls: bool,
    /// Links: `[[text => target]]`.
    pub links: bool,
    /// Emphasis and strong emphasis: `*x*` / `**x**`.
    pub emphasis: bool,
    /// Strikethrough, subscript, superscript, highlight: `~~x~~` `~x~` `^x^` `==x==`.
    pub styles: bool,
    /// Smart punctuation: `...` `--` `"x"`.
    pub smart_punctuation: bool,
}

impl Options {
    /// Everything on.
    pub open spec fn spec_all() -> Options {
        Options {
            escapes: true,
            code_spans: true,
            math: true,
            entities: true,
            calls: true,
            links: true,
            emphasis: true,
            styles: true,
            smart_punctuation: true,
        }
    }

    /// Everything off.
    pub open spec fn spec_none() -> Options {
        Options {
            escapes: false,
            code_spans: false,
            math: false,
            entities: false,
            calls: false,
            links: false,
            emphasis: false,
            styles: false,
            smart_punctuation: false,
        }
    }

    /// Everything off: the inline layer gives back plain text.
    pub fn none() -> (r: Self)
        ensures
            r == Options::spec_none(),
    {
        Options {
            escapes: false,
            code_spans: false,
            math: false,
            entities: false,
            calls: false,
            links: false,
            emphasis: false,
            styles: false,
            smart_punctuation: false,
        }
    }

    /// Whether nothing is switched on.
    pub fn is_plain(&self) -> (r: bool)
        ensures
            r == (*self == Options::spec_none()),
    {
        !self.escapes && !self.code_spans && !self.math && !self.entities && !self.calls
            && !self.links && !self.emphasis && !self.styles && !self.smart_punctuation
    }
}

impl Default for Options {
    fn default() -> (r: Self)
        ensures
            r == Options::spec_all(),
    {
        Options {
            escapes: true,
            code_spans: true,
            math: true,
            entities: true,
            calls: true,
            links: true,
            emphasis: true,
            styles: true,
            smart_punctuation: true,
        }
    }
}

} // verus!
