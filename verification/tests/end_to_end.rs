use neomark::handlers::{NaturalExpander, Wrap};
use neomark::{
    html, parse, register_defaults, Ast, Builtin, Context, Dispatcher, FromBuiltin, Handler, Key,
    Matched, NodeId, Registry,
};

/// The built-in expanders and one of these tests' own.
enum H {
    Builtin(Builtin),
    /// Writes the call name and parameters as they were parsed.
    Echo,
}

impl FromBuiltin for H {
    fn spec_from_builtin(b: Builtin) -> Self {
        H::Builtin(b)
    }

    fn from_builtin(b: Builtin) -> Self {
        H::Builtin(b)
    }
}

impl Handler for H {
    fn expand(&self, node: NodeId, ast: &mut Ast, ctx: &mut Context, matched: &Matched) -> Vec<NodeId> {
        match self {
            H::Builtin(b) => b.expand(node, ast, ctx, matched),
            H::Echo => {
                let call = ast.call(node).unwrap();
                let mut text = format!("[{}", call.name);
                for (key, value) in call.params.entries() {
                    text.push_str(&format!(" {key}={value}"));
                }
                text.push(']');
                let paragraph = ast.new_paragraph();
                let text = ast.new_text(&text);
                ast.append(paragraph, text);
                vec![paragraph]
            }
        }
    }
}

fn render_with(source: &str, extra: impl FnOnce(&mut Registry<H>)) -> String {
    let mut ast = parse(source);
    let mut registry = Registry::new();
    register_defaults(&mut registry);
    extra(&mut registry);
    let mut ctx = Context::new(source);
    assert!(Dispatcher::new(registry).run(&mut ast, &mut ctx));
    html::render(&ast)
}

fn render(source: &str) -> String {
    render_with(source, |_| {})
}

fn render_page(source: &str, title: &str) -> String {
    let mut ast = parse(source);
    let mut registry: Registry<Builtin> = Registry::new();
    register_defaults(&mut registry);
    let mut ctx = Context::new(source);
    assert!(Dispatcher::new(registry).run(&mut ast, &mut ctx));
    html::render_page(&ast, title)
}

fn wrap(w: Wrap) -> H {
    H::Builtin(Builtin::Wrap(w))
}

#[test]
fn a_plain_document_becomes_paragraphs() {
    assert_eq!(
        render("第一段\n\n第二段"),
        "<p class=\"nm-p\">第一段</p>\n<p class=\"nm-p\">第二段</p>"
    );
}

#[test]
fn markup_that_looks_like_html_is_escaped() {
    let html = render("if a < b && c > d { <script>alert(1)</script> }");

    assert!(!html.contains("<script>"));
    assert!(html.contains("&lt;script&gt;"));
    assert!(html.contains("a &lt; b &amp;&amp; c &gt; d"));
}

#[test]
fn an_unknown_call_block_becomes_a_notice_box_without_stopping_the_rest() {
    let html = render("前面\n\n::notcie type=warning:\n  正文\n\n后面");

    assert!(html.contains("<p class=\"nm-p\">前面</p>"));
    assert!(html.contains("<p class=\"nm-p\">后面</p>"));
    assert!(html.contains("nm-error-no-handler"));
    assert!(html.contains("未注册的调用块 ::notcie"));
    assert!(html.contains(
        "<pre class=\"nm-error-content\"><code>::notcie type=warning:\n  正文</code></pre>"
    ));
}

#[test]
fn the_full_page_is_self_contained() {
    let page = render_page("你好", "示例");

    assert!(page.starts_with("<!DOCTYPE html>"));
    assert!(page.contains("<title>示例</title>"));
    assert!(page.contains("<style>"));
    assert!(page.contains(".nm-p {"));
    assert!(page.contains("<p class=\"nm-p\">你好</p>"));
    assert!(page.ends_with("</html>\n"));
    assert!(!page.contains("<link "));
    assert!(!page.contains("<script"));
}

#[test]
fn crlf_input_compiles_the_same_as_lf() {
    assert_eq!(render("甲\r\n\r\n乙"), render("甲\n\n乙"));
}

#[test]
fn inline_markup_is_rendered_inside_paragraphs() {
    assert_eq!(
        render("**粗**、*斜*、~~删~~、`码`、==亮==、2^10^、~下~。"),
        "<p class=\"nm-p\"><strong class=\"nm-strong\">粗</strong>、<em class=\"nm-em\">斜</em>、<del class=\"nm-del\">删</del>、<code class=\"nm-code-inline\">码</code>、<mark class=\"nm-mark\">亮</mark>、2<sup class=\"nm-sup\">10</sup>、<sub class=\"nm-sub\">下</sub>。</p>"
    );
}

#[test]
fn math_is_verbatim_so_its_markers_are_not_reinterpreted() {
    assert_eq!(
        render("$a^b$"),
        "<p class=\"nm-p\"><span class=\"nm-math\">\\(a^b\\)</span></p>"
    );
    assert_eq!(
        render("`**a**`"),
        "<p class=\"nm-p\"><code class=\"nm-code-inline\">**a**</code></p>"
    );
}

#[test]
fn entities_icons_escapes_and_font_punctuation() {
    assert_eq!(
        render("&amp; &hellip; :rocket: \\*不斜\\* ..."),
        "<p class=\"nm-p\">&amp; … <span class=\"nm-icon\" data-alias=\"rocket\">🚀</span> *不斜* …</p>"
    );
}

#[test]
fn icon_lookup_happens_in_the_renderer_not_the_parser() {
    assert_eq!(
        render(":smile: 和 :nope:"),
        "<p class=\"nm-p\"><span class=\"nm-icon\" data-alias=\"smile\">😄</span> 和 :nope:</p>"
    );
}

#[test]
fn quoting_survives_all_the_way_to_the_expander() {
    let html = render_with("::echo \"k 1\"=\"v 1\" \"k:2\"=\"v:2\"", |registry| {
        registry.register(Key::name("echo"), H::Echo);
    });

    assert_eq!(html, "<p class=\"nm-p\">[echo k 1=v 1 k:2=v:2]</p>");
}

#[test]
fn an_escaped_quote_stays_a_straight_quote() {
    assert_eq!(render("\\\"原文\\\""), "<p class=\"nm-p\">\"原文\"</p>");
    assert_eq!(render("\"原文\""), "<p class=\"nm-p\">“原文”</p>");
}

#[test]
fn a_lone_dollar_sign_is_written_with_two_dollars() {
    assert_eq!(
        render("$$ $ $$"),
        "<p class=\"nm-p\"><span class=\"nm-math\">\\($\\)</span></p>"
    );
    assert_eq!(
        render("`` ` ``"),
        "<p class=\"nm-p\"><code class=\"nm-code-inline\">`</code></p>"
    );
}

#[test]
fn names_keys_and_values_may_all_be_quoted() {
    let html = render_with("::\"my name\" \"k 1\"=v", |registry| {
        registry.register(Key::name("my name"), H::Echo);
    });

    assert_eq!(html, "<p class=\"nm-p\">[my name k 1=v]</p>");
}

#[test]
fn headings_are_registered_through_a_wildcard_pattern() {
    assert_eq!(
        render("::h1: 一级**标题**"),
        "<h1 class=\"nm-h1\">一级<strong class=\"nm-strong\">标题</strong></h1>"
    );
    assert_eq!(render("::h6: 六级"), "<h6 class=\"nm-h6\">六级</h6>");
}

#[test]
fn a_name_that_is_not_a_heading_falls_through_to_the_generic_error() {
    let html = render("::ha: x");
    assert!(html.contains("nm-error-no-handler"), "{html}");
    assert!(html.contains("未注册的调用块 ::ha"), "{html}");
}

#[test]
fn a_wrapper_registration_puts_the_body_inside_an_element() {
    let html = render_with("::notice: **注意**", |registry| {
        registry.register(Key::name("notice"), wrap(Wrap::tag("div").class("nm-notice")));
    });

    assert_eq!(
        html,
        "<div class=\"nm-notice\"><p class=\"nm-p\"><strong class=\"nm-strong\">注意</strong></p></div>"
    );
}

#[test]
fn a_wrapper_can_derive_a_class_from_the_call_name() {
    let html = render_with("::note-warning: 小心", |registry| {
        registry.register(
            Key::pattern("^note-").unwrap(),
            wrap(Wrap::tag("aside").class("note").class_from_name()),
        );
    });

    assert_eq!(
        html,
        "<aside class=\"note note-warning\"><p class=\"nm-p\">小心</p></aside>"
    );
}

#[test]
fn a_wrapper_still_expands_nested_blocks() {
    let html = render_with("::box:\n  ::h2: 标题", |registry| {
        registry.register(Key::name("box"), wrap(Wrap::tag("section").class("box")));
    });

    assert_eq!(
        html,
        "<section class=\"box\"><h2 class=\"nm-h2\">标题</h2></section>"
    );
}

#[test]
fn headings_really_are_just_a_wrapper_now() {
    assert_eq!(render("::h3: 三级"), "<h3 class=\"nm-h3\">三级</h3>");
}

#[test]
fn the_common_derivations_need_no_closure_at_all() {
    let html = render_with("::h2: 标题", |registry| {
        registry.register(
            Key::pattern("^h[1-6]$").unwrap(),
            wrap(
                Wrap::tag_from_match()
                    .class_prefix("nm-")
                    .class_from_match()
                    .inline(NaturalExpander::default()),
            ),
        );
    });

    assert_eq!(html, "<h2 class=\"nm-h2\">标题</h2>");
}

#[test]
fn the_first_line_content_is_trimmed_on_both_ends() {
    let html = render_with("::echo   \"k\"=v   ", |registry| {
        registry.register(Key::name("echo"), H::Echo);
    });

    assert_eq!(html, "<p class=\"nm-p\">[echo k=v]</p>");
}

#[test]
fn a_hard_break_uses_a_backslash_but_a_soft_break_stays_a_newline() {
    assert_eq!(render("硬\\\n换行"), "<p class=\"nm-p\">硬<br>换行</p>");
    assert_eq!(render("软\n换行"), "<p class=\"nm-p\">软\n换行</p>");
}

#[test]
fn code_blocks_keep_their_body_verbatim() {
    assert_eq!(
        render("::code language=rust:\n  fn main() { *x* }"),
        "<pre class=\"nm-code-block\"><code class=\"language-rust\">fn main() { *x* }</code></pre>"
    );
    assert_eq!(
        render("::code:\n  ::notice:\n    <b>"),
        "<pre class=\"nm-code-block\"><code>::notice:\n  &lt;b&gt;</code></pre>"
    );
}

#[test]
fn quotations_carry_their_origin_only_when_given() {
    assert_eq!(
        render("::quote origin=书:\n  话"),
        "<blockquote class=\"nm-quote\" data-origin=\"书\"><p class=\"nm-p\">话</p></blockquote>"
    );
    assert_eq!(
        render("::quote:\n  话"),
        "<blockquote class=\"nm-quote\"><p class=\"nm-p\">话</p></blockquote>"
    );
}

/// Renders with only the natural-block expander registered.
fn render_natural_only(source: &str) -> String {
    let mut ast = parse(source);
    let mut registry: Registry<Builtin> = Registry::new();
    registry.register_natural(Builtin::Natural(NaturalExpander::default()));
    let mut ctx = Context::new(source);
    assert!(Dispatcher::new(registry).run(&mut ast, &mut ctx));
    html::render(&ast)
}

#[test]
fn a_call_block_swallows_its_subtree_into_one_box() {
    let source = "::code lang=neomark:\n  ::notice:\n    内层\n";
    let html = render_natural_only(source);

    assert_eq!(html.matches("nm-error-no-handler").count(), 1);
    assert!(html.contains("内层"));
}

#[test]
fn a_call_block_still_swallows_its_subtree_into_one_box() {
    let source = "::code lang=neomark:\n  ::notice:\n    内层 **没有** 行内解析\n";
    let html = render_natural_only(source);

    assert_eq!(html.matches("nm-error-no-handler").count(), 1);
    assert!(html.contains("内层 **没有** 行内解析"));
}

#[test]
fn a_quoted_link_target_may_contain_spaces() {
    assert_eq!(
        render("[[文本 => \"a b\"]]"),
        "<p class=\"nm-p\"><a class=\"nm-link\" href=\"a b\">文本</a></p>"
    );
}

#[test]
fn a_quoted_link_target_may_contain_an_arrow() {
    assert_eq!(
        render("[[a => \"b => c\"]]"),
        "<p class=\"nm-p\"><a class=\"nm-link\" href=\"b =&gt; c\">a</a></p>"
    );
}

#[test]
fn links_render_end_to_end() {
    assert_eq!(
        render("看 [[**粗体** 文本 => https://a.com]] 这里"),
        [
            "<p class=\"nm-p\">看 ",
            "<a class=\"nm-link\" href=\"https://a.com\">",
            "<strong class=\"nm-strong\">粗体</strong> 文本",
            "</a> 这里</p>",
        ]
        .concat()
    );
}

#[test]
fn the_last_arrow_wins_so_targets_may_follow_text_containing_arrows() {
    assert_eq!(
        render("[[a => b => /x]]"),
        "<p class=\"nm-p\"><a class=\"nm-link\" href=\"/x\">a =&gt; b</a></p>"
    );
}

#[test]
fn a_link_inside_a_code_span_stays_literal() {
    assert_eq!(
        render("`[[a => b]]`"),
        "<p class=\"nm-p\"><code class=\"nm-code-inline\">[[a =&gt; b]]</code></p>"
    );
}

#[test]
fn a_malformed_link_stays_literal_text() {
    assert_eq!(render("[[没有箭头]]"), "<p class=\"nm-p\">[[没有箭头]]</p>");
}
