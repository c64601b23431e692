//! The HTML renderer: maps semantic nodes to HTML.
//!
//! The tree says "this is emphasis"; this module decides on `<em class="nm-em">`.
//! The tree says "this is the `rocket` shortcode"; this module looks it up and wraps
//! it in a `<span>`. Only [`NodeKind::Element`], written by an expander, bypasses
//! the mapping and is written as it is.
//!
//! * Only the DOM is written; escaping happens here, the tree holds raw text.
//! * Top-level blocks are separated by a newline; inside an element no whitespace
//!   is added, which would break `pre`.
//! * Error nodes become message boxes; unparsed blocks, which should not be left
//!   after dispatch, are drawn rather than dropped.

use vstd::prelude::*;
use indextree::NodeId;
use crate::ast::arena::Entry;
use crate::ast::block::Block;
use crate::ast::error::ErrorNode;
use crate::ast::params::ParamV;
use crate::ast::tree::{Ast, Attr, NodeKind, TreeV, lemma_trees_of_len, lemma_trees_of_take, tree_of, trees_of};
use crate::inline::emoji::{emoji_table, lookup};
use crate::ast::params::spec_get;
use crate::text::{chars_to_string, extend_chars, str_chars};
use super::escape::{
    escape_attr, escape_text, is_valid_attr_name, is_void, push_str, spec_escape_attr,
    spec_escape_text, spec_is_valid_attr_name, spec_is_void,
};

verus! {

/// A tag with a class, with `inner` between the opening and closing tags.
pub open spec fn spec_container(tag: Seq<char>, class: Seq<char>, inner: Seq<char>) -> Seq<char> {
    "<"@ + tag + " class=\""@ + class + "\">"@ + inner + "</"@ + tag + ">"@
}

/// The decimal digits of a number.
pub open spec fn spec_decimal(n: nat) -> Seq<char>
    decreases n,
{
    if n < 10 {
        seq![(48 + n) as char]
    } else {
        spec_decimal(n / 10).push((48 + n % 10) as char)
    }
}

/// One attribute of a generic element; dropped when its name is not valid.
pub open spec fn spec_attr(a: Attr) -> Seq<char> {
    if !spec_is_valid_attr_name(a.name@) {
        Seq::empty()
    } else {
        " "@ + a.name@ + match a.value {
            Some(v) => "=\""@ + spec_escape_attr(v@) + "\""@,
            None => Seq::empty(),
        }
    }
}

/// The attributes of a generic element.
pub open spec fn spec_attrs(attrs: Seq<Attr>) -> Seq<char>
    decreases attrs.len(),
{
    if attrs.len() == 0 {
        Seq::empty()
    } else {
        spec_attrs(attrs.drop_last()) + spec_attr(attrs.last())
    }
}

/// A generic element: a valid tag is written with its attributes, children and
/// closing tag (none for a void element); an invalid tag keeps only the children.
pub open spec fn spec_element(tag: Seq<char>, attrs: Seq<Attr>, inner: Seq<char>) -> Seq<char> {
    if !spec_is_valid_attr_name(tag) {
        inner
    } else if spec_is_void(tag) {
        "<"@ + tag + spec_attrs(attrs) + ">"@
    } else {
        "<"@ + tag + spec_attrs(attrs) + ">"@ + inner + "</"@ + tag + ">"@
    }
}

/// One parameter of an instance as a `data-` attribute; dropped when the key is not
/// a valid name.
pub open spec fn spec_data_attr(p: ParamV) -> Seq<char> {
    if !spec_is_valid_attr_name(p.0) {
        Seq::empty()
    } else {
        " data-"@ + p.0 + "=\""@ + spec_escape_attr(p.1) + "\""@
    }
}

/// The parameters of an instance as `data-` attributes.
pub open spec fn spec_data_attrs(params: Seq<ParamV>) -> Seq<char>
    decreases params.len(),
{
    if params.len() == 0 {
        Seq::empty()
    } else {
        spec_data_attrs(params.drop_last()) + spec_data_attr(params.last())
    }
}

/// A template instance: `<div>` in block position, `<span>` inline.
pub open spec fn spec_instance(
    name: Seq<char>,
    params: Seq<ParamV>,
    inline: bool,
    inner: Seq<char>,
) -> Seq<char> {
    let tag = if inline {
        "span"@
    } else {
        "div"@
    };
    "<"@ + tag + " class=\"nm-instance nm-instance-"@ + spec_escape_attr(name)
        + "\" data-name=\""@ + spec_escape_attr(name) + "\""@ + spec_data_attrs(params) + ">"@
        + inner + "</"@ + tag + ">"@
}

/// A shortcode: the emoji it stands for, or the shortcode itself when unknown.
pub open spec fn spec_icon(name: Seq<char>) -> Seq<char> {
    match spec_get(emoji_table(), name) {
        Some(v) => "<span class=\"nm-icon\" data-alias=\""@ + spec_escape_attr(name) + "\">"@
            + spec_escape_text(v) + "</span>"@,
        None => ":"@ + spec_escape_text(name) + ":"@,
    }
}

/// A message box: a line of explanation and, optionally, the source echoed.
pub open spec fn spec_error_box(
    modifier: Seq<char>,
    message: Seq<char>,
    content: Option<Seq<char>>,
) -> Seq<char> {
    "<div class=\"nm-error nm-error-"@ + modifier + "\" data-kind=\""@ + spec_escape_attr(modifier)
        + "\"><p class=\"nm-error-message\">"@ + spec_escape_text(message) + "</p>"@ + match content {
        Some(c) => "<pre class=\"nm-error-content\"><code>"@ + spec_escape_text(c)
            + "</code></pre>"@,
        None => Seq::empty(),
    } + "</div>"@
}

/// An error in inline position: one `<span>`, showing the failing source, or the
/// message when there is none.
pub open spec fn spec_inline_error(e: ErrorNode) -> Seq<char> {
    "<span class=\"nm-error-inline nm-error-"@ + e.kind.spec_as_str() + "\" data-kind=\""@
        + spec_escape_attr(e.kind.spec_as_str()) + "\" title=\""@ + spec_escape_attr(e.message@)
        + "\">"@ + spec_escape_text(
        if e.content@.len() == 0 {
            e.message@
        } else {
            e.content@
        },
    ) + "</span>"@
}

/// An error node: inline when it says so or when it stands in inline context.
pub open spec fn spec_error(e: ErrorNode, inline: bool) -> Seq<char> {
    if e.inline || inline {
        spec_inline_error(e)
    } else {
        spec_error_box(e.kind.spec_as_str(), e.message@, Some(e.content@))
    }
}

/// What an unparsed block is called in its message.
pub open spec fn spec_unparsed_message(b: Block) -> Seq<char> {
    match b {
        Block::Call(c) => "未解析的调用块 ::"@ + c.name@,
        Block::Natural(_) => "未解析的自然块"@,
    }
}

/// An unparsed block, drawn rather than dropped.
pub open spec fn spec_unparsed(b: Block, inline: bool) -> Seq<char> {
    let message = spec_unparsed_message(b);
    if inline {
        "<span class=\"nm-error-inline nm-error-unparsed\" data-kind=\"unparsed\" title=\""@
            + spec_escape_attr(message) + "\">"@ + spec_escape_text(message) + "</span>"@
    } else {
        spec_error_box("unparsed"@, message, None)
    }
}

/// The HTML of a subtree; `inline` says whether it stands in inline context (in a
/// `<p>`, a heading, an inline element).
pub open spec fn spec_node(t: TreeV, inline: bool) -> Seq<char>
    decreases t,
{
    match t {
        TreeV::Cut => Seq::empty(),
        TreeV::Node { data, children } => match data {
            NodeKind::Document => spec_nodes(children, false),
            NodeKind::Paragraph => spec_container("p"@, "nm-p"@, spec_nodes(children, true)),
            NodeKind::Heading { level } => spec_container(
                "h"@ + spec_decimal(level as nat),
                "nm-h"@ + spec_decimal(level as nat),
                spec_nodes(children, true),
            ),
            NodeKind::Instance { name, params } => spec_instance(
                name@,
                params@,
                inline,
                spec_nodes(children, inline),
            ),
            NodeKind::Emphasis => spec_container("em"@, "nm-em"@, spec_nodes(children, true)),
            NodeKind::Strong => spec_container(
                "strong"@,
                "nm-strong"@,
                spec_nodes(children, true),
            ),
            NodeKind::Strikethrough => spec_container(
                "del"@,
                "nm-del"@,
                spec_nodes(children, true),
            ),
            NodeKind::Subscript => spec_container("sub"@, "nm-sub"@, spec_nodes(children, true)),
            NodeKind::Superscript => spec_container(
                "sup"@,
                "nm-sup"@,
                spec_nodes(children, true),
            ),
            NodeKind::Mark => spec_container("mark"@, "nm-mark"@, spec_nodes(children, true)),
            NodeKind::Code => spec_container(
                "code"@,
                "nm-code-inline"@,
                spec_nodes(children, true),
            ),
            NodeKind::Math => "<span class=\"nm-math\">\\("@ + spec_nodes(children, true)
                + "\\)</span>"@,
            NodeKind::Emoji(name) => spec_icon(name@),
            NodeKind::Link { target } => "<a class=\"nm-link\" href=\""@ + spec_escape_attr(target@)
                + "\">"@ + spec_nodes(children, true) + "</a>"@,
            NodeKind::LineBreak => "<br>"@,
            NodeKind::Element { tag, attrs } => spec_element(
                tag@,
                attrs@,
                spec_nodes(children, inline),
            ),
            NodeKind::Text(text) => spec_escape_text(text@),
            NodeKind::Error(e) => spec_error(e, inline),
            NodeKind::Unparsed(b) => spec_unparsed(b, inline),
        },
    }
}

/// The HTML of some subtrees, one after the other.
pub open spec fn spec_nodes(ts: Seq<TreeV>, inline: bool) -> Seq<char>
    decreases ts,
{
    if ts.len() == 0 {
        Seq::empty()
    } else {
        spec_nodes(ts.subrange(0, ts.len() - 1), inline) + spec_node(ts[ts.len() - 1], inline)
    }
}

/// The top-level blocks, separated by newlines.
pub open spec fn spec_blocks(ts: Seq<TreeV>) -> Seq<char>
    decreases ts.len(),
{
    if ts.len() == 0 {
        Seq::empty()
    } else if ts.len() == 1 {
        spec_node(ts[0], false)
    } else {
        spec_blocks(ts.drop_last()) + seq!['\n'] + spec_node(ts.last(), false)
    }
}

/// The HTML fragment of a whole tree.
pub open spec fn spec_render(t: TreeV) -> Seq<char> {
    match t {
        TreeV::Node { children, .. } => spec_blocks(children),
        TreeV::Cut => Seq::empty(),
    }
}

/// The HTML fragment of a tree: every node under the document root. A parent chain
/// in a tree of `n` nodes is shorter than `n`, so `n` levels reach every node.
pub open spec fn spec_render_ast(m: Map<NodeId, Entry>, doc: NodeId) -> Seq<char> {
    spec_render(tree_of(m, doc, m.dom().len()))
}

/// Rendering one more subtree appends its HTML.
proof fn lemma_nodes_push(ts: Seq<TreeV>, t: TreeV, inline: bool)
    ensures
        spec_nodes(ts.push(t), inline) == spec_nodes(ts, inline) + spec_node(t, inline),
{
    assert(ts.push(t).subrange(0, ts.len() as int) =~= ts);
}

/// Renders the whole tree as an HTML fragment, without `<html>` and `<body>`.
pub fn render(ast: &Ast) -> (r: String)
    requires
        ast.wf(),
    ensures
        r@ == spec_render_ast(ast.nodes(), ast.doc()),
{
    let mut out: Vec<char> = Vec::new();
    let fuel = ast.len();
    let document = ast.document();
    if fuel == 0 {
        return String::new();
    }
    let roots = ast.children(document);
    let ghost m = ast.nodes();
    let ghost ts = trees_of(m, roots@, (fuel - 1) as nat);
    let mut i: usize = 0;
    while i < roots.len()
        invariant
            m == ast.nodes(),
            m.dom().contains(document),
            1 <= fuel,
            roots@ == m[document].children,
            ts == trees_of(m, roots@, (fuel - 1) as nat),
            i <= roots.len(),
            out@ == spec_blocks(trees_of(m, roots@.take(i as int), (fuel - 1) as nat)),
        decreases roots.len() - i,
    {
        proof {
            lemma_trees_of_take(m, roots@, (fuel - 1) as nat, i as int);
            lemma_trees_of_len(m, roots@.take(i + 1), (fuel - 1) as nat);
        }
        let ghost prev = trees_of(m, roots@.take(i as int), (fuel - 1) as nat);
        let ghost next = trees_of(m, roots@.take(i + 1), (fuel - 1) as nat);
        if i > 0 {
            out.push('\n');
        }
        write_node(ast, roots[i], false, &mut out, fuel - 1);
        proof {
            assert(next.drop_last() =~= prev);
            assert(next.len() == i + 1);
        }
        i += 1;
    }
    proof {
        assert(roots@.take(roots.len() as int) =~= roots@);
    }
    chars_to_string(out.as_slice())
}

/// The HTML of one node and its subtree, `fuel` levels deep.
#[verifier::rlimit(40)]
fn write_node(ast: &Ast, id: NodeId, inline: bool, out: &mut Vec<char>, fuel: usize)
    ensures
        final(out)@ == old(out)@ + spec_node(tree_of(ast.nodes(), id, fuel as nat), inline),
    decreases fuel, 1nat,
{
    if fuel == 0 {
        return;
    }
    let kind = match ast.kind(id) {
        Some(k) => k,
        None => {
            return;
        },
    };
    let f = fuel - 1;
    match kind {
        NodeKind::Document => {
            write_children(ast, id, false, out, f);
        },
        NodeKind::Paragraph => {
            container(ast, id, &str_chars("p"), &str_chars("nm-p"), out, f);
        },
        NodeKind::Heading { level } => {
            let mut tag = str_chars("h");
            push_decimal(&mut tag, *level);
            let mut class = str_chars("nm-h");
            push_decimal(&mut class, *level);
            container(ast, id, &tag, &class, out, f);
        },
        NodeKind::Instance { name, params } => {
            write_instance(ast, id, name.as_str(), params.entries(), inline, out, f);
        },
        NodeKind::Emphasis => {
            container(ast, id, &str_chars("em"), &str_chars("nm-em"), out, f);
        },
        NodeKind::Strong => {
            container(ast, id, &str_chars("strong"), &str_chars("nm-strong"), out, f);
        },
        NodeKind::Strikethrough => {
            container(ast, id, &str_chars("del"), &str_chars("nm-del"), out, f);
        },
        NodeKind::Subscript => {
            container(ast, id, &str_chars("sub"), &str_chars("nm-sub"), out, f);
        },
        NodeKind::Superscript => {
            container(ast, id, &str_chars("sup"), &str_chars("nm-sup"), out, f);
        },
        NodeKind::Mark => {
            container(ast, id, &str_chars("mark"), &str_chars("nm-mark"), out, f);
        },
        NodeKind::Code => {
            container(ast, id, &str_chars("code"), &str_chars("nm-code-inline"), out, f);
        },
        NodeKind::Math => {
            push_str(out, "<span class=\"nm-math\">\\(");
            write_children(ast, id, true, out, f);
            push_str(out, "\\)</span>");
        },
        NodeKind::Emoji(name) => {
            write_icon(name.as_str(), out);
        },
        NodeKind::Link { target } => {
            push_str(out, "<a class=\"nm-link\" href=\"");
            let chars = str_chars(target.as_str());
            escape_attr(&chars, out);
            push_str(out, "\">");
            write_children(ast, id, true, out, f);
            push_str(out, "</a>");
        },
        NodeKind::LineBreak => {
            push_str(out, "<br>");
        },
        NodeKind::Element { tag, attrs } => {
            write_element(ast, id, tag.as_str(), attrs.as_slice(), inline, out, f);
        },
        NodeKind::Text(text) => {
            let chars = str_chars(text.as_str());
            escape_text(&chars, out);
        },
        NodeKind::Error(e) => {
            write_error(e, inline, out);
        },
        NodeKind::Unparsed(b) => {
            write_unparsed(b, inline, out);
        },
    }
}

/// A template instance around the children of `id`.
fn write_instance(
    ast: &Ast,
    id: NodeId,
    name: &str,
    entries: &[(String, String)],
    inline: bool,
    out: &mut Vec<char>,
    fuel: usize,
)
    requires
        ast.nodes().dom().contains(id),
    ensures
        final(out)@ == old(out)@ + spec_instance(
            name@,
            entries@.map_values(|e: (String, String)| (e.0@, e.1@)),
            inline,
            spec_nodes(trees_of(ast.nodes(), ast.nodes()[id].children, fuel as nat), inline),
        ),
    decreases fuel, 3nat,
{
    let tag = if inline {
        "span"
    } else {
        "div"
    };
    let name_chars = str_chars(name);
    push_str(out, "<");
    push_str(out, tag);
    push_str(out, " class=\"nm-instance nm-instance-");
    escape_attr(&name_chars, out);
    push_str(out, "\" data-name=\"");
    escape_attr(&name_chars, out);
    push_str(out, "\"");
    write_data_attrs(entries, out);
    push_str(out, ">");
    write_children(ast, id, inline, out, fuel);
    push_str(out, "</");
    push_str(out, tag);
    push_str(out, ">");
}

/// A generic element around the children of `id`.
fn write_element(
    ast: &Ast,
    id: NodeId,
    tag: &str,
    attrs: &[Attr],
    inline: bool,
    out: &mut Vec<char>,
    fuel: usize,
)
    requires
        ast.nodes().dom().contains(id),
    ensures
        final(out)@ == old(out)@ + spec_element(
            tag@,
            attrs@,
            spec_nodes(trees_of(ast.nodes(), ast.nodes()[id].children, fuel as nat), inline),
        ),
    decreases fuel, 3nat,
{
    let tag_chars = str_chars(tag);
    if !is_valid_attr_name(&tag_chars) {
        write_children(ast, id, inline, out, fuel);
    } else {
        push_str(out, "<");
        extend_chars(out, &tag_chars);
        write_attrs(attrs, out);
        push_str(out, ">");
        if !is_void(&tag_chars) {
            write_children(ast, id, inline, out, fuel);
            push_str(out, "</");
            extend_chars(out, &tag_chars);
            push_str(out, ">");
        }
    }
}

/// The HTML of the children of `parent`, each `fuel` levels deep.
fn write_children(ast: &Ast, parent: NodeId, inline: bool, out: &mut Vec<char>, fuel: usize)
    requires
        ast.nodes().dom().contains(parent),
    ensures
        final(out)@ == old(out)@ + spec_nodes(
            trees_of(ast.nodes(), ast.nodes()[parent].children, fuel as nat),
            inline,
        ),
    decreases fuel, 2nat,
{
    let children = ast.children(parent);
    let ghost m = ast.nodes();
    let mut i: usize = 0;
    while i < children.len()
        invariant
            m == ast.nodes(),
            children@ == m[parent].children,
            i <= children.len(),
            out@ == old(out)@ + spec_nodes(
                trees_of(m, children@.take(i as int), fuel as nat),
                inline,
            ),
        decreases children.len() - i,
    {
        proof {
            lemma_trees_of_take(m, children@, fuel as nat, i as int);
            lemma_nodes_push(
                trees_of(m, children@.take(i as int), fuel as nat),
                tree_of(m, children@[i as int], fuel as nat),
                inline,
            );
        }
        write_node(ast, children[i], inline, out, fuel);
        i += 1;
    }
    proof {
        assert(children@.take(children.len() as int) =~= children@);
    }
}

/// A tag with a class around the children of `id`, which are in inline context.
fn container(
    ast: &Ast,
    id: NodeId,
    tag: &[char],
    class: &[char],
    out: &mut Vec<char>,
    fuel: usize,
)
    requires
        ast.nodes().dom().contains(id),
    ensures
        final(out)@ == old(out)@ + spec_container(
            tag@,
            class@,
            spec_nodes(trees_of(ast.nodes(), ast.nodes()[id].children, fuel as nat), true),
        ),
    decreases fuel, 3nat,
{
    push_str(out, "<");
    extend_chars(out, tag);
    push_str(out, " class=\"");
    extend_chars(out, class);
    push_str(out, "\">");
    write_children(ast, id, true, out, fuel);
    push_str(out, "</");
    extend_chars(out, tag);
    push_str(out, ">");
}

/// Appends the decimal digits of a number.
fn push_decimal(out: &mut Vec<char>, n: u8)
    ensures
        final(out)@ == old(out)@ + spec_decimal(n as nat),
{
    assert(spec_decimal((n % 10) as nat) == seq![(48 + n % 10) as char]);
    if n >= 100 {
        let a: u8 = n / 100;
        let b: u8 = (n / 10) % 10;
        let c: u8 = n % 10;
        out.push(((48 + a) as u8) as char);
        out.push(((48 + b) as u8) as char);
        out.push(((48 + c) as u8) as char);
        proof {
            assert(spec_decimal((n / 100) as nat) == seq![(48 + n / 100) as char]);
            assert((n / 10) / 10 == n / 100);
            assert(spec_decimal((n / 10) as nat) == spec_decimal((n / 100) as nat).push(
                (48 + (n / 10) % 10) as char,
            ));
        }
    } else if n >= 10 {
        let b: u8 = n / 10;
        let c: u8 = n % 10;
        out.push(((48 + b) as u8) as char);
        out.push(((48 + c) as u8) as char);
        proof {
            assert(spec_decimal((n / 10) as nat) == seq![(48 + n / 10) as char]);
        }
    } else {
        out.push(((48 + n) as u8) as char);
    }
    assert(final(out)@ =~= old(out)@ + spec_decimal(n as nat));
}

/// The attributes of a generic element.
fn write_attrs(attrs: &[Attr], out: &mut Vec<char>)
    ensures
        final(out)@ == old(out)@ + spec_attrs(attrs@),
{
    let mut i: usize = 0;
    while i < attrs.len()
        invariant
            i <= attrs.len(),
            out@ == old(out)@ + spec_attrs(attrs@.take(i as int)),
        decreases attrs.len() - i,
    {
        let a = &attrs[i];
        let name = str_chars(a.name.as_str());
        if is_valid_attr_name(&name) {
            push_str(out, " ");
            extend_chars(out, &name);
            match &a.value {
                Some(v) => {
                    let vc = str_chars(v.as_str());
                    push_str(out, "=\"");
                    escape_attr(&vc, out);
                    push_str(out, "\"");
                },
                None => {},
            }
        }
        proof {
            assert(attrs@.take(i + 1).drop_last() =~= attrs@.take(i as int));
        }
        i += 1;
    }
    proof {
        assert(attrs@.take(attrs.len() as int) =~= attrs@);
    }
}

/// The parameters of an instance as `data-` attributes.
fn write_data_attrs(entries: &[(String, String)], out: &mut Vec<char>)
    ensures
        final(out)@ == old(out)@ + spec_data_attrs(
            entries@.map_values(|e: (String, String)| (e.0@, e.1@)),
        ),
{
    let ghost ps = entries@.map_values(|e: (String, String)| (e.0@, e.1@));
    let mut i: usize = 0;
    while i < entries.len()
        invariant
            i <= entries.len(),
            ps == entries@.map_values(|e: (String, String)| (e.0@, e.1@)),
            out@ == old(out)@ + spec_data_attrs(ps.take(i as int)),
        decreases entries.len() - i,
    {
        let key = str_chars(entries[i].0.as_str());
        if is_valid_attr_name(&key) {
            let value = str_chars(entries[i].1.as_str());
            push_str(out, " data-");
            extend_chars(out, &key);
            push_str(out, "=\"");
            escape_attr(&value, out);
            push_str(out, "\"");
        }
        proof {
            assert(ps.take(i + 1).drop_last() =~= ps.take(i as int));
            assert(ps.take(i + 1).last() == ps[i as int]);
        }
        i += 1;
    }
    proof {
        assert(ps.take(entries.len() as int) =~= ps);
    }
}

/// A shortcode: looked up here, echoed as `:name:` when unknown.
fn write_icon(name: &str, out: &mut Vec<char>)
    ensures
        final(out)@ == old(out)@ + spec_icon(name@),
{
    let name_chars = str_chars(name);
    match lookup(name) {
        Some(value) => {
            push_str(out, "<span class=\"nm-icon\" data-alias=\"");
            escape_attr(&name_chars, out);
            push_str(out, "\">");
            let vc = str_chars(value);
            escape_text(&vc, out);
            push_str(out, "</span>");
        },
        None => {
            push_str(out, ":");
            escape_text(&name_chars, out);
            push_str(out, ":");
        },
    }
}

/// An error node.
fn write_error(e: &ErrorNode, inline: bool, out: &mut Vec<char>)
    ensures
        final(out)@ == old(out)@ + spec_error(*e, inline),
{
    if e.inline || inline {
        write_inline_error(e, out);
    } else {
        let modifier = str_chars(e.kind.as_str());
        let message = str_chars(e.message.as_str());
        let content = str_chars(e.content.as_str());
        write_error_box(&modifier, &message, Some(&content), out);
    }
}

/// An error in inline position.
fn write_inline_error(e: &ErrorNode, out: &mut Vec<char>)
    ensures
        final(out)@ == old(out)@ + spec_inline_error(*e),
{
    let kind = str_chars(e.kind.as_str());
    let message = str_chars(e.message.as_str());
    let content = str_chars(e.content.as_str());
    push_str(out, "<span class=\"nm-error-inline nm-error-");
    extend_chars(out, &kind);
    push_str(out, "\" data-kind=\"");
    escape_attr(&kind, out);
    push_str(out, "\" title=\"");
    escape_attr(&message, out);
    push_str(out, "\">");
    if content.len() == 0 {
        escape_text(&message, out);
    } else {
        escape_text(&content, out);
    }
    push_str(out, "</span>");
}

/// An unparsed block.
fn write_unparsed(b: &Block, inline: bool, out: &mut Vec<char>)
    ensures
        final(out)@ == old(out)@ + spec_unparsed(*b, inline),
{
    let mut message: Vec<char> = Vec::new();
    match b {
        Block::Call(c) => {
            push_str(&mut message, "未解析的调用块 ::");
            let name = str_chars(c.name.as_str());
            extend_chars(&mut message, &name);
        },
        Block::Natural(_) => {
            push_str(&mut message, "未解析的自然块");
        },
    }
    if inline {
        push_str(
            out,
            "<span class=\"nm-error-inline nm-error-unparsed\" data-kind=\"unparsed\" title=\"",
        );
        escape_attr(&message, out);
        push_str(out, "\">");
        escape_text(&message, out);
        push_str(out, "</span>");
    } else {
        let modifier = str_chars("unparsed");
        write_error_box(&modifier, &message, None, out);
    }
}

/// A message box with an optional echo of the source.
fn write_error_box(modifier: &[char], message: &[char], content: Option<&[char]>, out: &mut Vec<char>)
    ensures
        final(out)@ == old(out)@ + spec_error_box(
            modifier@,
            message@,
            match content {
                Some(c) => Some(c@),
                None => None,
            },
        ),
{
    push_str(out, "<div class=\"nm-error nm-error-");
    extend_chars(out, modifier);
    push_str(out, "\" data-kind=\"");
    escape_attr(modifier, out);
    push_str(out, "\"><p class=\"nm-error-message\">");
    escape_text(message, out);
    push_str(out, "</p>");
    match content {
        Some(c) => {
            push_str(out, "<pre class=\"nm-error-content\"><code>");
            escape_text(c, out);
            push_str(out, "</code></pre>");
        },
        None => {},
    }
    push_str(out, "</div>");
}

} // verus!
