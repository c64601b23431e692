use neomark::ast::NodeKind;
use neomark::inline::delim::resolve;
use neomark::inline::scan::scan;
use neomark::inline::Piece;

fn tag(kind: &NodeKind) -> &'static str {
    match kind {
        NodeKind::Emphasis => "em",
        NodeKind::Strong => "strong",
        NodeKind::Strikethrough => "del",
        NodeKind::Subscript => "sub",
        NodeKind::Superscript => "sup",
        NodeKind::Mark => "mark",
        NodeKind::Code => "code",
        NodeKind::Math => "math",
        _ => "?",
    }
}

fn render(pieces: &[Piece]) -> String {
    pieces
        .iter()
        .map(|piece| match piece {
            Piece::Text(text) => text.clone(),
            Piece::Node { kind, children } => {
                format!("<{}>{}</{}>", tag(kind), render(children), tag(kind))
            }
            Piece::Emoji(name) => format!(":{name}:"),
            Piece::LineBreak => "<br>".to_string(),
            Piece::Delim { ch, count, .. } => format!("{ch}{count}"),
            Piece::Link { target, children } => format!("<a {target}>{}</a>", render(children)),
        })
        .collect()
}

fn show(text: &str) -> String {
    render(&resolve(scan(text)))
}

#[test]
fn emphasis_and_strong() {
    assert_eq!(show("*a*"), "<em>a</em>");
    assert_eq!(show("**a**"), "<strong>a</strong>");
    assert_eq!(show("***a***"), "<em><strong>a</strong></em>");
    assert_eq!(show("**a *b* c**"), "<strong>a <em>b</em> c</strong>");
}

#[test]
fn intraword_asterisks_work_which_is_why_underscores_were_dropped() {
    assert_eq!(show("a*b*c"), "a<em>b</em>c");
}

#[test]
fn unmatched_delimiters_fall_back_to_literal() {
    assert_eq!(show("*a"), "*1a");
    assert_eq!(show("a*"), "a*1");
}

#[test]
fn spaces_inside_prevent_matching() {
    assert_eq!(show("* a *"), "*1 a *1");
}

#[test]
fn strikethrough_subscript_superscript_and_highlight() {
    assert_eq!(show("~~a~~"), "<del>a</del>");
    assert_eq!(show("~a~"), "<sub>a</sub>");
    assert_eq!(show("2^10^"), "2<sup>10</sup>");
    assert_eq!(show("==a=="), "<mark>a</mark>");
}

#[test]
fn delimiters_do_not_cross_kinds() {
    assert_eq!(show("*a~"), "*1a~1");
}

#[test]
fn underscores_are_not_emphasis() {
    assert_eq!(show("_a_"), "_a_");
    assert_eq!(show("__a__"), "__a__");
}

fn texts(pieces: &[Piece], out: &mut Vec<String>) {
    for piece in pieces {
        match piece {
            Piece::Text(text) => out.push(text.clone()),
            Piece::Node { children, .. } | Piece::Link { children, .. } => texts(children, out),
            _ => {}
        }
    }
}

#[test]
fn pairing_keeps_every_text_in_order() {
    let scanned = scan("甲 *a* b **c ~~d~~** *e");
    let mut before = Vec::new();
    texts(&scanned, &mut before);
    let mut after = Vec::new();
    texts(&resolve(scanned), &mut after);
    assert_eq!(after, before);
    assert_eq!(after, vec!["甲 ", "a", " b ", "c ", "d", " ", "e"]);
}

fn delims(pieces: &[Piece]) -> usize {
    pieces
        .iter()
        .map(|piece| match piece {
            Piece::Delim { count, .. } => *count,
            Piece::Node { kind, children } => {
                let paired = match kind {
                    NodeKind::Strong | NodeKind::Strikethrough | NodeKind::Mark => 4,
                    NodeKind::Emphasis | NodeKind::Subscript | NodeKind::Superscript => 2,
                    _ => 0,
                };
                paired + delims(children)
            }
            Piece::Link { children, .. } => delims(children),
            _ => 0,
        })
        .sum()
}

#[test]
fn pairing_accounts_for_every_delimiter_character() {
    let scanned = scan("**a** *b* ~c~ x* ==d==");
    let before = delims(&scanned);
    let resolved = resolve(scanned);
    assert_eq!(before, 13);
    assert_eq!(delims(&resolved), 13);
    assert_eq!(render(&resolved), "<strong>a</strong> <em>b</em> <sub>c</sub> x*1 <mark>d</mark>");
}
