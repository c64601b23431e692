use neomark::html::render;
use neomark::{
    parse, parse_call_header, register_defaults, Ast, Attr, Builtin, Context, Dispatcher,
    ErrorKind, ErrorNode, Params, Registry, Span,
};

fn render_source(source: &str) -> String {
    let mut ast = parse(source);
    let mut registry: Registry<Builtin> = Registry::new();
    register_defaults(&mut registry);
    let mut ctx = Context::new(source);
    assert!(Dispatcher::new(registry).run(&mut ast, &mut ctx));
    render(&ast)
}

fn params(pairs: &[(&str, &str)]) -> Params {
    let mut p = Params::new();
    for (k, v) in pairs {
        p.push(k, v);
    }
    p
}

#[test]
fn paragraphs_are_wrapped_and_escaped() {
    assert_eq!(
        render_source("a < b & c > d"),
        "<p class=\"nm-p\">a &lt; b &amp; c &gt; d</p>"
    );
}

#[test]
fn top_level_blocks_are_separated_by_newlines() {
    assert_eq!(
        render_source("第一段\n\n第二段"),
        "<p class=\"nm-p\">第一段</p>\n<p class=\"nm-p\">第二段</p>"
    );
}

#[test]
fn error_nodes_become_a_message_box_with_their_content() {
    let html = render_source("::nope a=1:\n  body");

    assert!(html.starts_with("<div class=\"nm-error nm-error-no-handler\""));
    assert!(html.contains("<p class=\"nm-error-message\">未注册的调用块 ::nope</p>"));
    assert!(
        html.contains("<pre class=\"nm-error-content\"><code>::nope a=1:\n  body</code></pre>")
    );
}

#[test]
fn error_kinds_map_to_their_own_class_modifier() {
    let mut ast = Ast::new();
    let error = ast.new_error(ErrorNode::new(
        ErrorKind::ExpandFailed,
        "炸了",
        Span::new(1, 1, 0, 0),
        "原文",
    ));
    ast.push_block(error);

    let html = render(&ast);
    assert!(html.starts_with("<div class=\"nm-error nm-error-expand-failed\""));
    assert!(html.contains("<p class=\"nm-error-message\">炸了</p>"));
}

#[test]
fn an_unparsed_node_is_drawn_rather_than_dropped() {
    let ast = parse("::code:\n  x");
    let html = render(&ast);

    assert!(html.contains("nm-error-unparsed"));
    assert!(html.contains("未解析的调用块 ::code"));
}

#[test]
fn icon_names_are_looked_up_in_the_table_here() {
    let mut ast = Ast::new();
    let id = ast.new_emoji("rocket");
    ast.push_block(id);

    assert_eq!(
        render(&ast),
        "<span class=\"nm-icon\" data-alias=\"rocket\">🚀</span>"
    );
}

#[test]
fn unknown_icon_names_are_echoed_verbatim() {
    let mut ast = Ast::new();
    let id = ast.new_emoji("nope");
    ast.push_block(id);

    assert_eq!(render(&ast), ":nope:");
}

#[test]
fn a_line_break_is_a_void_br() {
    let mut ast = Ast::new();
    let id = ast.new_line_break();
    ast.push_block(id);

    assert_eq!(render(&ast), "<br>");
}

#[test]
fn instances_get_a_generic_mapping_with_params_as_data_attributes() {
    let mut ast = Ast::new();
    let instance = ast.new_instance("notice", params(&[("type", "warning")]));
    let text = ast.new_text("小心");
    ast.append(instance, text);
    ast.push_block(instance);

    assert_eq!(
        render(&ast),
        "<div class=\"nm-instance nm-instance-notice\" data-name=\"notice\" data-type=\"warning\">小心</div>"
    );
}

#[test]
fn param_keys_that_are_not_valid_attribute_names_are_dropped() {
    let mut ast = Ast::new();
    let id = ast.new_instance(
        "notice",
        params(&[("type", "warning"), ("bad name", "x"), ("bad\"key", "y")]),
    );
    ast.push_block(id);

    let html = render(&ast);
    assert!(html.contains(" data-type=\"warning\""));
    assert!(!html.contains("bad"));
}

#[test]
fn raw_elements_are_emitted_verbatim() {
    let mut ast = Ast::new();
    let pre = ast.new_element("pre", vec![Attr::new("class", "code")]);
    let code = ast.new_element("code", Vec::new());
    let text = ast.new_text("fn main() {}");
    ast.append(code, text);
    ast.append(pre, code);
    ast.push_block(pre);

    assert_eq!(
        render(&ast),
        "<pre class=\"code\"><code>fn main() {}</code></pre>"
    );
}

#[test]
fn void_raw_elements_get_no_closing_tag() {
    let mut ast = Ast::new();
    let id = ast.new_element(
        "img",
        vec![Attr::new("src", "a.png"), Attr::boolean("lazy")],
    );
    ast.push_block(id);

    assert_eq!(render(&ast), "<img src=\"a.png\" lazy>");
}

#[test]
fn raw_element_attributes_are_escaped_and_invalid_names_dropped() {
    let mut ast = Ast::new();
    let id = ast.new_element(
        "div",
        vec![Attr::new("title", "a\"b&c"), Attr::new("bad name", "x")],
    );
    ast.push_block(id);

    assert_eq!(render(&ast), "<div title=\"a&quot;b&amp;c\"></div>");
}

#[test]
fn a_raw_element_with_an_invalid_tag_keeps_only_its_children() {
    let mut ast = Ast::new();
    let id = ast.new_element("bad tag", Vec::new());
    let text = ast.new_text("内容还在");
    ast.append(id, text);
    ast.push_block(id);

    assert_eq!(render(&ast), "内容还在");
}

#[test]
fn headings_of_any_level_get_their_number_in_tag_and_class() {
    let mut ast = Ast::new();
    let h = ast.new_node(neomark::NodeKind::Heading { level: 12 });
    let text = ast.new_text("x");
    ast.append(h, text);
    ast.push_block(h);

    assert_eq!(render(&ast), "<h12 class=\"nm-h12\">x</h12>");
}

#[test]
fn inline_errors_show_the_failing_source_or_the_message() {
    let mut ast = Ast::new();
    let p = ast.new_paragraph();
    let e1 = ast.new_error(ErrorNode::new(ErrorKind::NoHandler, "没人认领", Span::new(1, 1, 0, 0), "{{x}}"));
    let e2 = ast.new_error(ErrorNode::new(ErrorKind::NoHandler, "没人认领", Span::new(1, 1, 0, 0), ""));
    ast.append(p, e1);
    ast.append(p, e2);
    ast.push_block(p);

    assert_eq!(
        render(&ast),
        "<p class=\"nm-p\"><span class=\"nm-error-inline nm-error-no-handler\" data-kind=\"no-handler\" title=\"没人认领\">{{x}}</span><span class=\"nm-error-inline nm-error-no-handler\" data-kind=\"no-handler\" title=\"没人认领\">没人认领</span></p>"
    );
}

#[test]
fn an_instance_in_inline_context_is_a_span() {
    let mut ast = Ast::new();
    let p = ast.new_paragraph();
    let i = ast.new_instance("badge", Params::new());
    ast.append(p, i);
    ast.push_block(p);

    assert_eq!(
        render(&ast),
        "<p class=\"nm-p\"><span class=\"nm-instance nm-instance-badge\" data-name=\"badge\"></span></p>"
    );
}

#[test]
fn echoed_headers_still_parse_the_same_names() {
    let header = parse_call_header("\"my name\" \"k 1\"=\"v 1\"");
    assert_eq!(header.name, "my name");
    assert_eq!(header.params.get("k 1"), Some("v 1"));
}
