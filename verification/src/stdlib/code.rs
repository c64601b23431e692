//! Code blocks: `::code language=rust`.

use vstd::prelude::*;
use indextree::NodeId;
use crate::ast::arena::{Entry, fresh_entry};
use crate::ast::block::Block;
use crate::ast::params::spec_get;
use crate::ast::tree::{Ast, Attr, NodeKind};
use crate::dispatch::context::Context;
use crate::dispatch::handler::Handler;
use crate::dispatch::matched::Matched;
use crate::dispatch::key::Key;
use crate::dispatch::registry::Registry;
use super::builtin::{Builtin, FromBuiltin};
use crate::text::{chars_to_string, str_chars};

verus! {

/// The call name.
pub const NAME: &'static str = "code";

/// A character kept in a language name: ASCII letters and digits, `+ # . - _`.
pub open spec fn spec_language_char(c: char) -> bool {
    ('a' <= c <= 'z') || ('A' <= c <= 'Z') || ('0' <= c <= '9') || c == '+' || c == '#' || c
        == '.' || c == '-' || c == '_'
}

/// The prefix highlighters expect.
pub open spec fn language_prefix() -> Seq<char> {
    seq!['l', 'a', 'n', 'g', 'u', 'a', 'g', 'e', '-']
}

/// `rust` becomes `language-rust`; other characters become `-`, so a class
/// attribute cannot be broken out of.
pub open spec fn spec_language_class(language: Seq<char>) -> Seq<char> {
    language_prefix() + language.map_values(
        |c: char|
            if spec_language_char(c) {
                c
            } else {
                '-'
            },
    )
}

/// A language class is `language-` and then one character per character of the
/// language name, each a letter, a digit or one of `+ # . - _`: it cannot break out
/// of the class attribute.
pub proof fn language_classes_are_safe(language: Seq<char>)
    ensures
        spec_language_class(language).len() == language_prefix().len() + language.len(),
        spec_language_class(language).subrange(0, 9) == language_prefix(),
        forall|i: int|
            9 <= i < spec_language_class(language).len() ==> spec_language_char(
                #[trigger] spec_language_class(language)[i],
            ),
{
    assert(spec_language_class(language).subrange(0, 9) =~= language_prefix());
    assert forall|i: int| 9 <= i < spec_language_class(language).len() implies spec_language_char(
        #[trigger] spec_language_class(language)[i],
    ) by {
        assert(spec_language_class(language)[i] == language.map_values(
            |c: char|
                if spec_language_char(c) {
                    c
                } else {
                    '-'
                },
        )[i - 9]);
    }
}

/// The class of a code element for the given language.
pub fn language_class_chars(language: &[char]) -> (r: Vec<char>)
    ensures
        r@ == spec_language_class(language@),
{
    let mut out: Vec<char> = Vec::new();
    out.push('l');
    out.push('a');
    out.push('n');
    out.push('g');
    out.push('u');
    out.push('a');
    out.push('g');
    out.push('e');
    out.push('-');
    let ghost m = language@.map_values(
        |c: char|
            if spec_language_char(c) {
                c
            } else {
                '-'
            },
    );
    let mut i: usize = 0;
    assert(out@ =~= language_prefix() + m.take(0));
    while i < language.len()
        invariant
            i <= language.len(),
            m == language@.map_values(
                |c: char|
                    if spec_language_char(c) {
                        c
                    } else {
                        '-'
                    },
            ),
            out@ == language_prefix() + m.take(i as int),
        decreases language.len() - i,
    {
        let c = language[i];
        let k = if ('a' <= c && c <= 'z') || ('A' <= c && c <= 'Z') || ('0' <= c && c <= '9')
            || c == '+' || c == '#' || c == '.' || c == '-' || c == '_' {
            c
        } else {
            '-'
        };
        out.push(k);
        assert(language_prefix() + m.take(i + 1) =~= (language_prefix() + m.take(i as int)).push(
            k,
        ));
        i += 1;
    }
    assert(m.take(language.len() as int) =~= m);
    out
}

/// The class of a code element for the given language.
pub fn language_class(language: &str) -> (r: String)
    ensures
        r@ == spec_language_class(language@),
{
    let chars = str_chars(language);
    let out = language_class_chars(chars.as_slice());
    chars_to_string(out.as_slice())
}

/// The attributes of the `code` element for an optional `language` parameter: a
/// `language-…` class, or none.
pub open spec fn code_attrs_ok(attrs: Seq<Attr>, language: Option<Seq<char>>) -> bool {
    match language {
        Some(l) => attrs.len() == 1 && attrs[0].name@ == "class"@ && (attrs[0].value matches Some(
            v,
        ) && v@ == spec_language_class(l)),
        None => attrs.len() == 0,
    }
}

/// What the code-block expander makes of a node: `pre` > `code` > the raw body
/// of a call as text; nothing, and no change, for anything else.
pub open spec fn code_made(
    m0: Map<NodeId, Entry>,
    m: Map<NodeId, Entry>,
    node: NodeId,
    r: Seq<NodeId>,
) -> bool {
    match m0[node].data {
        NodeKind::Unparsed(Block::Call(c)) if m0.dom().contains(node) => {
            &&& r.len() == 1
            &&& !m0.dom().contains(r[0])
            &&& m[r[0]].parent is None
            &&& m[r[0]].children.len() == 1
            &&& (m[r[0]].data matches NodeKind::Element { tag, attrs } && tag@ == "pre"@
                && attrs@.len() == 1 && attrs@[0].name@ == "class"@ && (
            attrs@[0].value matches Some(v) && v@ == "nm-code-block"@))
            &&& {
                let code = m[r[0]].children[0];
                &&& !m0.dom().contains(code)
                &&& m[code].children.len() == 1
                &&& (m[code].data matches NodeKind::Element { tag, attrs } && tag@
                    == "code"@ && code_attrs_ok(
                    attrs@,
                    spec_get(c.params@, "language"@),
                ))
                &&& {
                    let text = m[code].children[0];
                    &&& !m0.dom().contains(text)
                    &&& m[text].children.len() == 0
                    &&& (m[text].data matches NodeKind::Text(s) && s@ == c.raw_body@)
                    &&& m == m0.insert(r[0], m[r[0]]).insert(code, m[code]).insert(
                        text,
                        m[text],
                    )
                }
            }
        },
        _ => r.len() == 0 && m == m0,
    }
}

/// The code-block expander: the body is written verbatim, in
/// `<pre class="nm-code-block"><code class="language-…">`. Nested blocks in the body
/// are text here, never expanded.
#[derive(Debug, Default, Clone, Copy, PartialEq, Eq)]
pub struct Code;

impl Handler for Code {
    /// A call block becomes `pre` > `code` > the raw body as text; anything else
    /// gives nothing.
    fn expand_call(&self, node: NodeId, ast: &mut Ast, ctx: &mut Context, matched: &Matched) -> (r:
        Vec<NodeId>)
        ensures
            code_made(old(ast).nodes(), final(ast).nodes(), node, r@),

    {
        let (language, source) = match ast.call(node) {
            Some(call) => {
                let language = match call.params.get("language") {
                    Some(l) => Some(language_class(l)),
                    None => None,
                };
                (language, call.raw_body.clone())
            },
            None => {
                return Vec::new();
            },
        };
        let pre = ast.new_element("pre", vec![Attr::new("class", "nm-code-block")]);
        let attrs = match language {
            Some(class) => vec![Attr::new("class", class.as_str())],
            None => Vec::new(),
        };
        let code = ast.new_element("code", attrs);
        let text = ast.new_text(source.as_str());
        ast.append(code, text);
        ast.append(pre, code);
        proof {
            let m = ast.nodes();
            assert(m[pre].children =~= seq![code]);
            assert(m[code].children =~= seq![text]);
            assert(m =~= old(ast).nodes().insert(pre, m[pre]).insert(code, m[code]).insert(
                text,
                m[text],
            ));
        }
        let mut r = Vec::new();
        r.push(pre);
        r
    }
}

/// Registers the code-block expander under `code`.
pub fn register<H: FromBuiltin>(registry: &mut Registry<H>)
    requires
        old(registry).wf(),
    ensures
        final(registry).wf(),
        final(registry).spec_patterns() == old(registry).spec_patterns(),
        final(registry).spec_pattern_handlers() == old(registry).spec_pattern_handlers(),
        final(registry).spec_natural() == old(registry).spec_natural(),
        final(registry).spec_fallback() == old(registry).spec_fallback(),
        final(registry).spec_names().contains(NAME@),
        final(registry).spec_name_handlers()[final(registry).spec_names().index_of(NAME@)]
            == H::spec_from_builtin(Builtin::Code(Code)),
        forall|k: Seq<char>| old(registry).spec_names().contains(k) ==> #[trigger] final(registry).spec_names().contains(k),
        forall|k: Seq<char>|
            old(registry).spec_names().contains(k) && k != NAME@ ==> #[trigger] final(registry).spec_names().index_of(k) == old(registry).spec_names().index_of(k)
                && final(registry).spec_name_handlers()[old(registry).spec_names().index_of(k)]
                == old(registry).spec_name_handlers()[old(registry).spec_names().index_of(k)],
{
    let h = H::from_builtin(Builtin::Code(Code));
    registry.register(Key::name(NAME), h);
    proof {
        let names = registry.spec_names();
        if !old(registry).spec_names().contains(NAME@) {
            assert(names[names.len() - 1] == NAME@);
            let k = names.index_of(NAME@);
            assert(names[k] == NAME@);
            assert(k == names.len() - 1);
        }
        assert(names.contains(NAME@)) by {
            if !old(registry).spec_names().contains(NAME@) {
                assert(names[names.len() - 1] == NAME@);
            }
        }
        assert forall|k: Seq<char>| old(registry).spec_names().contains(k) implies #[trigger] names.contains(k) by {
            let i = old(registry).spec_names().index_of(k);
            assert(old(registry).spec_names()[i] == k);
            assert(names[i] == k);
        }
        assert forall|k: Seq<char>| old(registry).spec_names().contains(k) && k != NAME@ implies #[trigger] names.index_of(k)
            == old(registry).spec_names().index_of(k)
            && registry.spec_name_handlers()[old(registry).spec_names().index_of(k)]
            == old(registry).spec_name_handlers()[old(registry).spec_names().index_of(k)] by {
            let olds = old(registry).spec_names();
            let i = olds.index_of(k);
            assert(olds[i] == k);
            assert(names[i] == k);
            let j = names.index_of(k);
            assert(names[j] == k);
            assert(names.no_duplicates());
            if j != i {
                assert(names[j] == names[i]);
            }
            if olds.contains(NAME@) {
                assert(olds[olds.index_of(NAME@)] == NAME@);
            }
        }
    }
}

} // verus!
