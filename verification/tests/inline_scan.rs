use neomark::ast::NodeKind;
use neomark::inline::scan::scan;
use neomark::inline::Piece;

fn kind_name(kind: &NodeKind) -> &'static str {
    match kind {
        NodeKind::Code => "code",
        NodeKind::Math => "math",
        NodeKind::Emphasis => "emphasis",
        NodeKind::Strong => "strong",
        _ => "other",
    }
}

fn texts(pieces: &[Piece]) -> Vec<String> {
    pieces
        .iter()
        .map(|piece| match piece {
            Piece::Text(text) => format!("T({text})"),
            Piece::Node { kind, children } => {
                format!("[{} {}]", kind_name(kind), texts(children).join(""))
            }
            Piece::Emoji(name) => format!("E({name})"),
            Piece::LineBreak => "<br>".to_string(),
            Piece::Delim { ch, count, .. } => format!("D({ch}{count})"),
            Piece::Link { target, children } => format!("L({target}: {})", texts(children).join("")),
        })
        .collect()
}

fn show(text: &str) -> String {
    texts(&scan(text)).join("")
}

#[test]
fn backslash_escapes() {
    assert_eq!(show("\\*不是强调\\*"), "T(*不是强调*)");
    assert_eq!(show("\\中"), "T(\\中)");
}

#[test]
fn backslash_at_end_of_line_is_a_hard_break() {
    assert_eq!(show("上\\\n下"), "T(上)<br>T(下)");
    assert_eq!(show("上\n下"), "T(上\n下)");
}

#[test]
fn code_spans_bind_tightest() {
    assert_eq!(show("`*x*`"), "[code T(*x*)]");
    assert_eq!(show("``a`b``"), "[code T(a`b)]");
    assert_eq!(show("``a`"), "T(``a`)");
    assert_eq!(show("` a `"), "[code T(a)]");
    assert_eq!(show("`  `"), "[code T(  )]");
}

#[test]
fn math_is_marked_as_math_with_raw_content() {
    assert_eq!(show("$x^2$"), "[math T(x^2)]");
    assert_eq!(show("$$a$b$$"), "[math T(a$b)]");
    assert_eq!(show("$x"), "T($x)");
}

#[test]
fn emoji_becomes_a_name_only_piece() {
    assert_eq!(show("&amp; :smile:"), "T(& )E(smile)");
    assert_eq!(show(":nope:"), "E(nope)");
}

#[test]
fn entities_emoji_and_markers_do_not_leak_into_code() {
    assert_eq!(show("`&amp;`"), "[code T(&amp;)]");
    assert_eq!(show("`:smile:`"), "[code T(:smile:)]");
    assert_eq!(show("`*x*`"), "[code T(*x*)]");
}

#[test]
fn delimiter_runs_are_left_for_the_matcher() {
    assert_eq!(show("*x*"), "D(*1)T(x)D(*1)");
    assert_eq!(show("**x**"), "D(*2)T(x)D(*2)");
    assert_eq!(show("~~x~~"), "D(~2)T(x)D(~2)");
    assert_eq!(show("~x~"), "D(~1)T(x)D(~1)");
    assert_eq!(show("==x=="), "D(=2)T(x)D(=2)");
    assert_eq!(show("a=b"), "T(a=b)");
}

#[test]
fn smart_punctuation_runs_on_plain_text_only() {
    assert_eq!(show("等一下..."), "T(等一下…)");
    assert_eq!(show("`...`"), "[code T(...)]");
}

#[test]
fn an_escaped_quote_bypasses_smart_punctuation() {
    assert_eq!(show("\\\"原文\\\""), "T(\")T(原文)T(\")");
    assert_eq!(show("\"原文\""), "T(“原文”)");
}

#[test]
fn a_lone_backtick_is_written_with_two_backticks() {
    assert_eq!(show("`` ` ``"), "[code T(`)]");
    assert_eq!(show("``` `` ```"), "[code T(``)]");
    assert_eq!(show("$$ $ $$"), "[math T($)]");
}

#[test]
fn links_take_their_text_and_target() {
    assert_eq!(show("看[[文字 => /x]]了"), "T(看)L(/x: T(文字))T(了)");
    assert_eq!(show("[[a => b => /x]]"), "L(/x: T(a => b))");
    assert_eq!(show("[[a =>   \"b c\"  ]]"), "L(b c: T(a))");
    assert_eq!(show("[[没有箭头]]"), "T([[没有箭头]])");
    assert_eq!(show("[[a => b"), "T([[a => b)");
}
