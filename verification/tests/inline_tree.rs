use neomark::html::render;
use neomark::inline::parse;
use neomark::Ast;

fn html(text: &str) -> String {
    let mut ast = Ast::new();
    let wrapper = ast.new_element("p", Vec::new());
    for id in parse(&mut ast, text) {
        ast.append(wrapper, id);
    }
    ast.push_block(wrapper);

    render(&ast)
        .strip_prefix("<p>")
        .and_then(|inner| inner.strip_suffix("</p>"))
        .expect("the renderer writes exactly this <p>")
        .to_string()
}

#[test]
fn escapes_and_hard_breaks() {
    assert_eq!(html("\\*不是强调\\*"), "*不是强调*");
    assert_eq!(html("上\\\n下"), "上<br>下");
    assert_eq!(html("上\n下"), "上\n下");
}

#[test]
fn emphasis_and_strong_use_asterisks_only() {
    assert_eq!(html("*a*"), "<em class=\"nm-em\">a</em>");
    assert_eq!(html("**a**"), "<strong class=\"nm-strong\">a</strong>");
    assert_eq!(
        html("***a***"),
        "<em class=\"nm-em\"><strong class=\"nm-strong\">a</strong></em>"
    );
    assert_eq!(html("_a_"), "_a_");
    assert_eq!(html("__a__"), "__a__");
}

#[test]
fn code_spans_are_verbatim() {
    assert_eq!(html("`*a*`"), "<code class=\"nm-code-inline\">*a*</code>");
    assert_eq!(html("``a`b``"), "<code class=\"nm-code-inline\">a`b</code>");
    assert_eq!(
        html("`&amp;`"),
        "<code class=\"nm-code-inline\">&amp;amp;</code>"
    );
}

#[test]
fn math_wraps_like_backticks() {
    assert_eq!(html("$x^2$"), "<span class=\"nm-math\">\\(x^2\\)</span>");
    assert_eq!(html("$$a$b$$"), "<span class=\"nm-math\">\\(a$b\\)</span>");
}

#[test]
fn entities_and_shortcodes_in_the_tree() {
    assert_eq!(html("&amp;"), "&amp;");
    assert_eq!(html("&#35;"), "#");
    assert_eq!(html("&hellip;"), "…");
    assert_eq!(html(":smile:"), "<span class=\"nm-icon\" data-alias=\"smile\">😄</span>");
    assert_eq!(html(":rocket: 发射"), "<span class=\"nm-icon\" data-alias=\"rocket\">🚀</span> 发射");
    assert_eq!(html("&nope; :nope:"), "&amp;nope; :nope:");
    assert_eq!(html("12:30:45"), "12:30:45");
}

#[test]
fn strikethrough_subscript_superscript_highlight() {
    assert_eq!(html("~~a~~"), "<del class=\"nm-del\">a</del>");
    assert_eq!(html("~a~"), "<sub class=\"nm-sub\">a</sub>");
    assert_eq!(html("2^10^"), "2<sup class=\"nm-sup\">10</sup>");
    assert_eq!(html("==a=="), "<mark class=\"nm-mark\">a</mark>");
}

#[test]
fn smart_punctuation() {
    assert_eq!(html("等一下..."), "等一下…");
    assert_eq!(html("2010--2020"), "2010–2020");
    assert_eq!(html("他说\"好\""), "他说“好”");
    assert_eq!(html("don't"), "don’t");
}

#[test]
fn inline_html_is_plain_text() {
    assert_eq!(html("<div>hi</div>"), "&lt;div&gt;hi&lt;/div&gt;");
    assert_eq!(html("<span>a</span>"), "&lt;span&gt;a&lt;/span&gt;");
}

#[test]
fn smart_punctuation_also_touches_html_lookalikes() {
    assert_eq!(html("<a href=\"x\">y</a>"), "&lt;a href=“x”&gt;y&lt;/a&gt;");
}

#[test]
fn nesting_works_across_constructs() {
    assert_eq!(
        html("**粗 *斜* 体**"),
        "<strong class=\"nm-strong\">粗 <em class=\"nm-em\">斜</em> 体</strong>"
    );
    assert_eq!(
        html("*a `b` c*"),
        "<em class=\"nm-em\">a <code class=\"nm-code-inline\">b</code> c</em>"
    );
}

#[test]
fn unpaired_delimiters_become_text_nodes() {
    assert_eq!(html("**a"), "**a");
    assert_eq!(html("a ~~ b"), "a ~~ b");
}
