use neomark::html::{render_page, DEFAULT_CSS};
use neomark::{parse, register_defaults, Builtin, Context, Dispatcher, Registry};

fn page(source: &str, title: &str) -> String {
    let mut ast = parse(source);
    let mut registry: Registry<Builtin> = Registry::new();
    register_defaults(&mut registry);
    let mut ctx = Context::new(source);
    assert!(Dispatcher::new(registry).run(&mut ast, &mut ctx));
    render_page(&ast, title)
}

#[test]
fn the_page_is_self_contained() {
    let html = page("你好", "标题");

    assert!(html.starts_with("<!DOCTYPE html>"));
    assert!(html.contains("<meta charset=\"utf-8\">"));
    assert!(html.contains("<title>标题</title>"));
    assert!(html.contains("<style>"));
    assert!(html.contains(".nm-document"));
    assert!(!html.contains("<link "));
    assert!(html.ends_with("</html>\n"));
}

#[test]
fn the_title_is_escaped() {
    let html = page("x", "a<b>&c");
    assert!(html.contains("<title>a&lt;b&gt;&amp;c</title>"));
}

#[test]
fn the_body_only_contains_the_rendered_dom() {
    let html = page("一段话", "t");
    assert!(html.contains("<div class=\"nm-document\">\n<p class=\"nm-p\">一段话</p>\n</div>"));
}

#[test]
fn the_default_css_is_inlined_whole() {
    let html = page("", "t");
    assert!(html.contains(&format!("<style>\n{DEFAULT_CSS}</style>\n")));
    assert!(html.contains("<div class=\"nm-document\">\n\n</div>"));
}
