//! A complete HTML page: the rendered DOM and the built-in default CSS.

use vstd::prelude::*;
use crate::ast::tree::Ast;
use crate::text::{chars_to_string, extend_str, str_chars};
use super::escape::{escape_text, push_str, spec_escape_text};
use super::render::{render, spec_render_ast};

verus! {

/// The built-in default style sheet.
pub const DEFAULT_CSS: &'static str = ".nm-document { max-width: 46em; margin: 2em auto; padding: 0 1em; font-family: system-ui, sans-serif; line-height: 1.7; color: #222; }
.nm-document > :first-child { margin-top: 0; }
.nm-document > :last-child { margin-bottom: 0; }
.nm-p { margin: 0 0 1.1em; }
.nm-h1, .nm-h2, .nm-h3, .nm-h4, .nm-h5, .nm-h6 { margin: 1.4em 0 0.6em; line-height: 1.3; }
.nm-h1 { font-size: 2em; }
.nm-h2 { font-size: 1.6em; }
.nm-h3 { font-size: 1.3em; }
.nm-h4 { font-size: 1.1em; }
.nm-h5 { font-size: 1em; }
.nm-h6 { font-size: 0.9em; color: #555; }
.nm-em { font-style: italic; }
.nm-strong { font-weight: bold; }
.nm-del { text-decoration: line-through; }
.nm-mark { background: #fff3a3; padding: 0 0.15em; }
.nm-code-inline { font-family: ui-monospace, monospace; background: #f3f3f3; padding: 0.1em 0.3em; border-radius: 3px; }
.nm-code-block { font-family: ui-monospace, monospace; background: #f6f8fa; padding: 0.8em 1em; border-radius: 4px; overflow-x: auto; margin: 0 0 1.1em; }
.nm-math { font-family: serif; }
.nm-icon { font-style: normal; }
.nm-link { color: #0b5cad; text-decoration: underline; }
.nm-quote { margin: 0 0 1.1em; padding: 0.6em 1em; border-left: 4px solid #ccc; background: #fafafa; }
.nm-quote > * { margin: 0; }
.nm-quote > * + * { margin-top: 0.6em; }
.nm-quote > .nm-quote-origin { color: #666; font-size: 0.9em; }
.nm-quote-origin::before { content: \"— \"; }
.nm-instance { margin: 0 0 1.1em; padding: 0.6em 1em; border: 1px dashed #bbb; border-radius: 4px; }
.nm-error { margin: 0 0 1.1em; padding: 0.6em 1em; border: 1px solid #e0a0a0; background: #fff5f5; border-radius: 4px; }
.nm-error-message { margin: 0; color: #a02020; font-weight: bold; }
.nm-error-content { margin: 0.5em 0 0; white-space: pre-wrap; }
.nm-error-inline { color: #a02020; background: #fff5f5; border-bottom: 1px dotted #a02020; }
";

/// A complete page around an HTML fragment, with the given title.
pub open spec fn spec_page(title: Seq<char>, body: Seq<char>) -> Seq<char> {
    "<!DOCTYPE html>\n<html>\n<head>\n"@ + "<meta charset=\"utf-8\">\n"@
        + "<meta name=\"viewport\" content=\"width=device-width, initial-scale=1\">\n"@
        + "<title>"@ + spec_escape_text(title) + "</title>\n"@ + "<style>\n"@ + DEFAULT_CSS@
        + "</style>\n"@ + "</head>\n<body>\n<div class=\"nm-document\">\n"@ + body
        + "\n</div>\n</body>\n</html>\n"@
}

/// Renders the whole tree as a self-contained HTML page: the default CSS is
/// inlined, nothing outside is referenced.
pub fn render_page(ast: &Ast, title: &str) -> (r: String)
    requires
        ast.wf(),
    ensures
        r@ == spec_page(title@, spec_render_ast(ast.nodes(), ast.doc())),
{
    let mut out: Vec<char> = Vec::new();
    push_str(&mut out, "<!DOCTYPE html>\n<html>\n<head>\n");
    push_str(&mut out, "<meta charset=\"utf-8\">\n");
    push_str(&mut out, "<meta name=\"viewport\" content=\"width=device-width, initial-scale=1\">\n");
    push_str(&mut out, "<title>");
    let title_chars = str_chars(title);
    escape_text(&title_chars, &mut out);
    push_str(&mut out, "</title>\n");
    push_str(&mut out, "<style>\n");
    push_str(&mut out, DEFAULT_CSS);
    push_str(&mut out, "</style>\n");
    push_str(&mut out, "</head>\n<body>\n<div class=\"nm-document\">\n");
    let body = render(ast);
    extend_str(&mut out, body.as_str());
    push_str(&mut out, "\n</div>\n</body>\n</html>\n");
    chars_to_string(out.as_slice())
}

} // verus!
