//! Quotations: `::quote origin=…`.

use vstd::prelude::*;
use crate::dispatch::key::Key;
use crate::dispatch::registry::Registry;
use crate::handlers::wrap::{AttrV, Derive, Wrap};
use super::builtin::{Builtin, FromBuiltin};

verus! {

/// The call name.
pub const NAME: &'static str = "quote";

/// The quotation wrapper: `<blockquote class="nm-quote" data-origin="…">` around the
/// body blocks; no `data-origin` when the `origin` parameter is absent or empty.
/// (`cite` would want a URL; an origin is free text.)
pub open spec fn is_quote_wrap(w: Wrap) -> bool {
    &&& w.spec_tag() == "blockquote"@
    &&& w.spec_tag_from() is None
    &&& w.spec_classes() == seq!["nm-quote"@]
    &&& w.spec_classes_from() == Seq::<Derive>::empty()
    &&& w.spec_attrs() == Seq::<AttrV>::empty()
    &&& w.spec_attrs_from() == seq![("data-origin"@, "origin"@)]
    &&& w.spec_class_prefix() == Seq::<char>::empty()
    &&& w.spec_inline() is None
}

/// Registers the quotation expander under `quote`.
pub fn register<H: FromBuiltin>(registry: &mut Registry<H>)
    requires
        old(registry).wf(),
    ensures
        final(registry).wf(),
        final(registry).spec_patterns() == old(registry).spec_patterns(),
        final(registry).spec_pattern_handlers() == old(registry).spec_pattern_handlers(),
        final(registry).spec_natural() == old(registry).spec_natural(),
        final(registry).spec_fallback() == old(registry).spec_fallback(),
        final(registry).spec_names().contains(NAME@),
        forall|k: Seq<char>| old(registry).spec_names().contains(k) ==> #[trigger] final(registry).spec_names().contains(k),
        exists|w: Wrap|
            is_quote_wrap(w) && final(registry).spec_name_handlers()[final(registry).spec_names().index_of(NAME@)] == H::spec_from_builtin(Builtin::Wrap(w)),
{
    let w = Wrap::tag("blockquote").class("nm-quote").attr_from_param("origin", "data-origin");
    proof {
        assert(w.spec_classes() =~= seq!["nm-quote"@]);
        assert(w.spec_attrs_from() =~= seq![("data-origin"@, "origin"@)]);
    }
    let ghost wv = w;
    let h = H::from_builtin(Builtin::Wrap(w));
    registry.register(Key::name(NAME), h);
    proof {
        let names = registry.spec_names();
        assert(names.contains(NAME@)) by {
            if !old(registry).spec_names().contains(NAME@) {
                assert(names[names.len() - 1] == NAME@);
            }
        }
        if !old(registry).spec_names().contains(NAME@) {
            let k = names.index_of(NAME@);
            assert(names[k] == NAME@);
            assert(k == names.len() - 1);
        }
        assert(is_quote_wrap(wv));
        assert(registry.spec_name_handlers()[names.index_of(NAME@)] == H::spec_from_builtin(Builtin::Wrap(wv)));
        assert forall|k: Seq<char>| old(registry).spec_names().contains(k) implies #[trigger] names.contains(k) by {
            let i = old(registry).spec_names().index_of(k);
            assert(old(registry).spec_names()[i] == k);
            assert(names[i] == k);
        }
    }
}

} // verus!
