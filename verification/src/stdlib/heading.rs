//! Headings: `::h1` to `::h6`.

use vstd::prelude::*;
use crate::dispatch::key::{Key, regex_compiles};
use crate::dispatch::registry::Registry;
use crate::handlers::natural::NaturalExpander;
use crate::handlers::wrap::{AttrV, Derive, Wrap};
use super::builtin::{Builtin, FromBuiltin};

verus! {

/// The heading pattern: `h` and a digit from 1 to 6, anchored at both ends, so `ha`
/// and `h7` are not claimed here and fall through to the fallback.
pub const PATTERN: &'static str = "^h[1-6]$";

/// The heading wrapper: the tag is what the pattern matched (`h3`), the class is the
/// same with the `nm-` prefix (`nm-h3`), and the body is inline content, since a
/// heading cannot hold a paragraph.
pub open spec fn is_heading_wrap(w: Wrap, natural: NaturalExpander) -> bool {
    &&& w.spec_tag() == Seq::<char>::empty()
    &&& w.spec_tag_from() == Some(Derive::Matched)
    &&& w.spec_classes() == Seq::<Seq<char>>::empty()
    &&& w.spec_classes_from() == seq![Derive::MatchedClass]
    &&& w.spec_attrs() == Seq::<AttrV>::empty()
    &&& w.spec_attrs_from() == Seq::<(Seq<char>, Seq<char>)>::empty()
    &&& w.spec_class_prefix() == "nm-"@
    &&& w.spec_inline() == Some(natural)
}

/// Registers the heading wrapper under [`PATTERN`], its text parsed by `natural`.
/// (The pattern compiles; were it not to, nothing would be registered.)
pub fn register<H: FromBuiltin>(registry: &mut Registry<H>, natural: NaturalExpander)
    requires
        old(registry).wf(),
    ensures
        final(registry).wf(),
        final(registry).spec_names() == old(registry).spec_names(),
        final(registry).spec_name_handlers() == old(registry).spec_name_handlers(),
        final(registry).spec_natural() == old(registry).spec_natural(),
        final(registry).spec_fallback() == old(registry).spec_fallback(),
        regex_compiles(PATTERN@) ==> final(registry).spec_patterns().contains(PATTERN@) && exists|
            w: Wrap,
        |
            is_heading_wrap(w, natural) && final(registry).spec_pattern_handlers()[final(registry).spec_patterns().index_of(PATTERN@)] == H::spec_from_builtin(Builtin::Wrap(w)),
        !regex_compiles(PATTERN@) ==> final(registry).spec_patterns() == old(registry).spec_patterns() && final(registry).spec_pattern_handlers() == old(registry).spec_pattern_handlers(),
{
    let w = Wrap::tag_from_match().class_prefix("nm-").class_from_match().inline(natural);
    proof {
        assert(w.spec_classes_from() =~= seq![Derive::MatchedClass]);
    }
    let ghost wv = w;
    match Key::pattern(PATTERN) {
        Ok(key) => {
            let h = H::from_builtin(Builtin::Wrap(w));
            registry.register(key, h);
            proof {
                let ps = registry.spec_patterns();
                if !old(registry).spec_patterns().contains(PATTERN@) {
                    assert(ps[ps.len() - 1] == PATTERN@);
                    let k = ps.index_of(PATTERN@);
                    assert(ps[k] == PATTERN@);
                    assert(k == ps.len() - 1);
                }
                assert(ps.contains(PATTERN@)) by {
                    if !old(registry).spec_patterns().contains(PATTERN@) {
                        assert(ps[ps.len() - 1] == PATTERN@);
                    }
                }
                assert(is_heading_wrap(wv, natural));
                assert(registry.spec_pattern_handlers()[ps.index_of(PATTERN@)] == H::spec_from_builtin(Builtin::Wrap(wv)));
            }
        },
        Err(_) => {},
    }
}

} // verus!
