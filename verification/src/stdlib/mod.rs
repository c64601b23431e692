//! The standard library of call blocks: the built-in expanders.
//!
//! | call | result | note |
//! |---|---|---|
//! | `::h1` to `::h6` | `<h1 class="nm-h1">` | one pattern, a wrapper |
//! | `::quote origin=…` | `<blockquote class="nm-quote" data-origin="…">` | body parsed as blocks |
//! | `::code language=…` | `<pre class="nm-code-block"><code class="language-…">` | body verbatim |
//!
//! Names nobody claims still go to the fallback, so nothing is swallowed.

pub mod builtin;
pub mod code;
pub mod heading;
pub mod quote;

pub use builtin::{Builtin, FromBuiltin};

use vstd::prelude::*;
use crate::dispatch::key::regex_compiles;
use crate::dispatch::registry::Registry;
use crate::handlers::natural::NaturalExpander;
use crate::inline::options::Options;
use crate::handlers::wrap::Wrap;

verus! {

/// Registers every built-in expander: the natural-block expander with every inline
/// construct on, the headings, quotations and code blocks.
pub fn register_defaults<H: FromBuiltin>(registry: &mut Registry<H>)
    requires
        old(registry).wf(),
    ensures
        final(registry).wf(),
        final(registry).spec_natural() == Some(
            H::spec_from_builtin(
                Builtin::Natural(NaturalExpander { options: Options::spec_all() }),
            ),
        ),
        final(registry).spec_fallback() == old(registry).spec_fallback(),
        final(registry).spec_names().contains(quote::NAME@),
        final(registry).spec_names().contains(code::NAME@),
        final(registry).spec_name_handlers()[final(registry).spec_names().index_of(code::NAME@)]
            == H::spec_from_builtin(Builtin::Code(code::Code)),
        exists|w: Wrap|
            quote::is_quote_wrap(w) && final(registry).spec_name_handlers()[final(registry).spec_names().index_of(quote::NAME@)] == H::spec_from_builtin(Builtin::Wrap(w)),
        regex_compiles(heading::PATTERN@) ==> final(registry).spec_patterns().contains(
            heading::PATTERN@,
        ) && exists|w: Wrap|
            heading::is_heading_wrap(w, NaturalExpander { options: Options::spec_all() })
                && final(registry).spec_pattern_handlers()[final(registry).spec_patterns().index_of(
                heading::PATTERN@,
            )] == H::spec_from_builtin(Builtin::Wrap(w)),
{
    let natural = NaturalExpander::default();
    let h = H::from_builtin(Builtin::Natural(natural));
    registry.register_natural(h);
    heading::register(registry, natural);
    quote::register(registry);
    let ghost before_code = *registry;
    code::register(registry);
    proof {
        reveal_strlit("quote");
        reveal_strlit("code");
        assert(quote::NAME@ != code::NAME@) by {
            assert(quote::NAME@[0] != code::NAME@[0]);
        }
        assert(before_code.spec_names().contains(quote::NAME@));
        let i = before_code.spec_names().index_of(quote::NAME@);
        assert(registry.spec_names().index_of(quote::NAME@) == i);
    }
}

} // verus!
