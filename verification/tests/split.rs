use neomark::{parse_blocks, Block, Span};

/// The shape of a block: text, or name, parameters and body.
#[derive(Debug, PartialEq)]
enum Shape {
    N(String),
    C(String, Vec<(String, String)>, Vec<Shape>),
}

fn shape(blocks: &[Block]) -> Vec<Shape> {
    blocks
        .iter()
        .map(|b| match b {
            Block::Natural(n) => Shape::N(n.text.clone()),
            Block::Call(c) => Shape::C(
                c.name.clone(),
                c.params.entries().to_vec(),
                shape(&c.body),
            ),
        })
        .collect()
}

fn natural(text: &str) -> Shape {
    Shape::N(text.to_string())
}

fn call(name: &str, params: &[(&str, &str)], body: Vec<Shape>) -> Shape {
    Shape::C(
        name.to_string(),
        params
            .iter()
            .map(|(k, v)| (k.to_string(), v.to_string()))
            .collect(),
        body,
    )
}

#[test]
fn empty_input_has_no_blocks() {
    assert!(parse_blocks("").is_empty());
    assert!(parse_blocks("\n\n   \n").is_empty());
}

#[test]
fn natural_blocks_split_on_blank_lines() {
    let blocks = parse_blocks("第一段\n仍然第一段\n\n\n第二段");
    assert_eq!(
        shape(&blocks),
        vec![natural("第一段\n仍然第一段"), natural("第二段")]
    );
}

#[test]
fn crlf_is_supported() {
    let blocks = parse_blocks("a\r\n\r\n::x:\r\n  b\r\n");
    assert_eq!(
        shape(&blocks),
        vec![natural("a"), call("x", &[], vec![natural("b")])]
    );
}

#[test]
fn call_line_starts_a_block_without_a_preceding_blank_line() {
    let blocks = parse_blocks("正文\n::notice:\n  内容");
    assert_eq!(
        shape(&blocks),
        vec![natural("正文"), call("notice", &[], vec![natural("内容")])]
    );
}

#[test]
fn dedent_ends_a_call_block_without_a_blank_line() {
    let blocks = parse_blocks("::a:\n  x\n下一块");
    assert_eq!(
        shape(&blocks),
        vec![call("a", &[], vec![natural("x")]), natural("下一块")]
    );
}

#[test]
fn blank_lines_inside_a_call_body_do_not_end_it() {
    let blocks = parse_blocks("::a:\n  x\n\n  y\n\n结尾");
    assert_eq!(
        shape(&blocks),
        vec![
            call("a", &[], vec![natural("x"), natural("y")]),
            natural("结尾"),
        ]
    );
}

#[test]
fn trailing_blank_lines_are_not_part_of_the_body() {
    let blocks = parse_blocks("::a:\n  x\n\n\n");
    assert_eq!(shape(&blocks), vec![call("a", &[], vec![natural("x")])]);
}

#[test]
fn call_block_without_a_body() {
    let blocks = parse_blocks("::a:\n::b:\n");
    assert_eq!(
        shape(&blocks),
        vec![call("a", &[], vec![]), call("b", &[], vec![])]
    );
}

#[test]
fn call_blocks_nest_by_indentation() {
    let blocks = parse_blocks("::outer:\n  ::inner:\n    deep\n  tail");
    assert_eq!(
        shape(&blocks),
        vec![call(
            "outer",
            &[],
            vec![call("inner", &[], vec![natural("deep")]), natural("tail")]
        )]
    );
}

#[test]
fn indented_call_line_interrupts_a_natural_block() {
    let blocks = parse_blocks("文字\n  ::x:\n    y\n后续");
    assert_eq!(
        shape(&blocks),
        vec![
            natural("文字"),
            call("x", &[], vec![natural("y")]),
            natural("后续"),
        ]
    );
}

#[test]
fn body_keeps_relative_indentation() {
    let blocks = parse_blocks("::a:\n    deep\n  shallow");
    assert_eq!(
        shape(&blocks),
        vec![call("a", &[], vec![natural("  deep\nshallow")])]
    );
}

#[test]
fn the_specification_example() {
    let source = "\
::code lang=neomark:
  ::notice type=warning:
    这是一个通知调用块，参数 type 的值为 \"warning\"

  ::notice title=\"Be Careful!\":
    需要缩进表示属于调用体

  ::image width=300 height=200 lazy:
    path/to/image.jpg
  图片调用块，包含三个参数：width、height 和 lazy（等同于 lazy=true）

  ::quote author=\"张三\" source=\"《文章标题》\":
    这里是引用内容
    可以有多行";

    let blocks = parse_blocks(source);
    assert_eq!(
        shape(&blocks),
        vec![call(
            "code",
            &[("lang", "neomark")],
            vec![
                call(
                    "notice",
                    &[("type", "warning")],
                    vec![natural("这是一个通知调用块，参数 type 的值为 \"warning\"")],
                ),
                call(
                    "notice",
                    &[("title", "Be Careful!")],
                    vec![natural("需要缩进表示属于调用体")],
                ),
                call(
                    "image",
                    &[("width", "300"), ("height", "200"), ("lazy", "true")],
                    vec![natural("path/to/image.jpg")],
                ),
                natural("图片调用块，包含三个参数：width、height 和 lazy（等同于 lazy=true）"),
                call(
                    "quote",
                    &[("author", "张三"), ("source", "《文章标题》")],
                    vec![natural("这里是引用内容\n可以有多行")],
                ),
            ]
        )]
    );
}

#[test]
fn spans_point_into_the_original_input() {
    let source = "::nope a=1:\n  body\n";
    let blocks = parse_blocks(source);
    let Block::Call(call) = &blocks[0] else { panic!("a call block") };
    assert_eq!(call.span, Span::new(1, 2, 0, source.trim_end().len()));
    assert_eq!(call.span.slice(source), "::nope a=1:\n  body");
    assert_eq!(call.raw_body, "body");
    let Block::Natural(inner) = &call.body[0] else { panic!("a natural block") };
    assert_eq!(inner.span.slice(source), "  body");
}

#[test]
fn the_first_line_after_the_separator_opens_the_body() {
    let source = "::h1: 一级**标题**";
    let blocks = parse_blocks(source);
    let Block::Call(call) = &blocks[0] else { panic!("a call block") };
    assert_eq!(call.name, "h1");
    assert_eq!(call.raw_body, "一级**标题**");
    let Block::Natural(inner) = &call.body[0] else { panic!("a natural block") };
    assert_eq!(inner.span.slice(source), "一级**标题**");
    assert_eq!(inner.span.start_line, 1);
}

#[test]
fn a_verbatim_body_keeps_nested_headers_as_text() {
    let blocks = parse_blocks("::code lang=neomark:\n  ::notice type=warning:\n    小心\n");
    let Block::Call(call) = &blocks[0] else { panic!("a call block") };
    assert_eq!(call.raw_body, "::notice type=warning:\n  小心");
}

#[test]
fn a_natural_span_covers_its_lines() {
    let source = "甲\n乙\n\n丙";
    let blocks = parse_blocks(source);
    let Block::Natural(first) = &blocks[0] else { panic!("a natural block") };
    assert_eq!(first.span.slice(source), "甲\n乙");
    assert_eq!((first.span.start_line, first.span.end_line), (1, 2));
    let Block::Natural(second) = &blocks[1] else { panic!("a natural block") };
    assert_eq!(second.span.start_line, 4);
}

#[test]
fn lines_are_cut_at_each_line_break() {
    let text: Vec<char> = "a\r\nb\n\n  c".chars().collect();
    let lines = neomark::parse::line::scan_lines(&text);
    assert_eq!(lines.len(), 4);
    let texts: Vec<String> = lines.iter().map(|l| l.text.iter().collect()).collect();
    assert_eq!(texts, vec!["a", "b", "", "  c"]);
    let numbers: Vec<usize> = lines.iter().map(|l| l.line_no).collect();
    assert_eq!(numbers, vec![1, 2, 3, 4]);
    assert!(lines[2].blank);
    assert_eq!(lines[3].indent, 2);
    assert_eq!((lines[1].start, lines[1].end), (3, 4));

    let ended: Vec<char> = "x\n".chars().collect();
    assert_eq!(neomark::parse::line::scan_lines(&ended).len(), 1);
    assert!(neomark::parse::line::scan_lines(&[]).is_empty());
}

#[test]
fn white_space_alone_gives_no_block() {
    assert!(parse_blocks("").is_empty());
    assert!(parse_blocks("\n\n   \n").is_empty());
    assert!(parse_blocks(" \t\r\n").is_empty());
}

#[test]
fn natural_texts_hold_only_content_lines() {
    let blocks = parse_blocks("甲\n乙\n\n::x:\n  丙\n\n  丁\n::y\n");
    let mut texts: Vec<String> = Vec::new();
    fn gather(blocks: &[Block], texts: &mut Vec<String>) {
        for b in blocks {
            match b {
                Block::Natural(n) => texts.push(n.text.clone()),
                Block::Call(c) => gather(&c.body, texts),
            }
        }
    }
    gather(&blocks, &mut texts);
    assert_eq!(texts, vec!["甲\n乙", "丙", "丁"]);
    for t in &texts {
        assert!(!t.is_empty());
        for line in t.split('\n') {
            assert!(!line.trim().is_empty());
            assert!(!line.trim_start().starts_with("::"));
        }
    }
}

#[test]
fn line_offsets_count_bytes_of_the_input() {
    let source = "甲\r\n乙丙\n";
    let text: Vec<char> = source.chars().collect();
    let lines = neomark::parse::line::scan_lines(&text);
    assert_eq!(lines.len(), 2);
    assert_eq!((lines[0].start, lines[0].end), (0, 3));
    assert_eq!((lines[1].start, lines[1].end), (5, 11));
    assert_eq!(&source[lines[1].start..lines[1].end], "乙丙");
}
