use neomark::ast::{Element, Node};
use neomark::handlers::ParagraphHandler;
use neomark::{html, parse, parse_blocks, Block, Context, Dispatcher, NaturalBlock, Params, Registry, Span};

#[test]
fn seeding_keeps_a_block_unexpanded() {
    let natural = NaturalBlock { text: "正文".to_string(), span: Span::new(1, 1, 0, 6) };
    let node = Node::seed(Block::Natural(natural.clone()));

    assert_eq!(node, Node::Natural(natural));
    assert!(node.is_unexpanded());
}

#[test]
fn seeding_many_blocks_keeps_their_order() {
    let blocks = parse_blocks("甲\n\n::notice:\n  乙\n\n丙\n");
    let nodes = Node::seed_all(blocks);

    assert_eq!(nodes.len(), 3);
    assert!(matches!(&nodes[0], Node::Natural(n) if n.text == "甲"));
    assert!(matches!(&nodes[1], Node::Call(c) if c.name == "notice"));
    assert!(matches!(&nodes[2], Node::Natural(n) if n.text == "丙"));
    assert!(nodes.iter().all(Node::is_unexpanded));
}

#[test]
fn expanded_nodes_are_not_unexpanded() {
    let element = Node::Element(Element { tag: "p".to_string(), attrs: Vec::new(), children: Vec::new() });

    assert!(!element.is_unexpanded());
    assert!(!Node::Text("x".to_string()).is_unexpanded());
    assert!(!Node::Fragment(Vec::new()).is_unexpanded());
}

#[test]
fn params_are_walked_in_written_order() {
    let mut params = Params::new();
    params.push("b", "2");
    params.push("a", "1");
    params.push("b", "3");

    let seen: Vec<(String, String)> = params.iter().cloned().collect();

    assert_eq!(
        seen,
        vec![
            ("b".to_string(), "2".to_string()),
            ("a".to_string(), "1".to_string()),
            ("b".to_string(), "3".to_string()),
        ]
    );
}

#[test]
fn the_paragraph_handler_keeps_the_text_as_it_is() {
    let source = "一行\n*第二行*\n";
    let mut ast = parse(source);
    let mut registry: Registry<ParagraphHandler> = Registry::new();
    registry.register_natural(ParagraphHandler);
    let mut ctx = Context::new(source);

    assert!(Dispatcher::new(registry).run(&mut ast, &mut ctx));
    assert_eq!(html::render(&ast), "<p class=\"nm-p\">一行\n*第二行*</p>");
}

#[test]
fn dispatching_a_fully_expanded_tree_again_changes_nothing() {
    let source = "# 标题\n\n::h2: 小节\n\n::quote:\n  引文 *强调*\n\n::code lang=rust:\n  fn main() {}\n";
    let mut ast = parse(source);
    let mut ctx = Context::new(source);
    let mut registry: Registry<neomark::Builtin> = Registry::new();
    neomark::register_defaults(&mut registry);
    let dispatcher = Dispatcher::new(registry);

    assert!(dispatcher.run(&mut ast, &mut ctx));
    let once = html::render(&ast);
    let live = ast.len();

    assert!(dispatcher.run(&mut ast, &mut ctx));
    assert_eq!(html::render(&ast), once);
    assert_eq!(ast.len(), live);
}

/// Every node under `id`, depth first.
fn all_under(ast: &neomark::Ast, id: neomark::NodeId, out: &mut Vec<neomark::NodeId>) {
    out.push(id);
    for child in ast.children(id) {
        all_under(ast, child, out);
    }
}

#[test]
fn a_completed_run_leaves_no_block_unexpanded() {
    let source = "段落\n\n::quote:\n  ::h2: 嵌套\n\n  ::nope:\n    ::h3: 更深\n\n::code:\n  ::h1: 原样\n";
    let mut ast = parse(source);
    let mut ctx = Context::new(source);
    let mut registry: Registry<neomark::Builtin> = Registry::new();
    neomark::register_defaults(&mut registry);

    assert!(Dispatcher::new(registry).run(&mut ast, &mut ctx));

    let mut nodes = Vec::new();
    all_under(&ast, ast.document(), &mut nodes);
    assert!(nodes.len() > 5);
    assert!(nodes.iter().all(|&id| !ast.is_unparsed(id)));
}

#[test]
fn with_every_option_off_the_text_comes_back_as_it_is() {
    let text = "**粗** `码` $x$ &amp; :smile: ~~删~~ \"引\" ...";
    let mut ast = neomark::Ast::new();
    let nodes = neomark::inline::parse_with(&mut ast, text, neomark::inline::Options::none());

    assert_eq!(nodes.len(), 1);
    assert_eq!(ast.text(nodes[0]), Some(text));
    assert!(neomark::inline::parse_with(&mut ast, "", neomark::inline::Options::none()).is_empty());
}

fn spans_of(blocks: &[Block], out: &mut Vec<Span>) {
    for block in blocks {
        match block {
            Block::Natural(n) => out.push(n.span),
            Block::Call(c) => {
                out.push(c.span);
                spans_of(&c.body, out);
            }
        }
    }
}

#[test]
fn every_span_cuts_the_input_between_characters() {
    let source = "你好，世界\r\n\r\n::注意 标题=\"重要\": 第一行内容　\n  嵌套的段落\n\n  ::引用:\n    更深的一层 🚀\n\n结尾 ✓";
    let mut spans = Vec::new();
    spans_of(&parse_blocks(source), &mut spans);

    assert!(spans.len() >= 5);
    for span in spans {
        assert!(span.start_byte <= span.end_byte && span.end_byte <= source.len());
        assert!(source.is_char_boundary(span.start_byte));
        assert!(source.is_char_boundary(span.end_byte));
        assert!(span.get(source).is_some());
    }
}

/// A block with its byte offsets left out.
fn shape(block: &Block) -> String {
    match block {
        Block::Natural(n) => format!("N[{}-{}]{:?}", n.span.start_line, n.span.end_line, n.text),
        Block::Call(c) => {
            let body: Vec<String> = c.body.iter().map(shape).collect();
            format!(
                "C[{}-{}]{}{:?}{:?}({})",
                c.span.start_line,
                c.span.end_line,
                c.name,
                c.params.entries(),
                c.raw_body,
                body.join(",")
            )
        }
    }
}

#[test]
fn crlf_breaks_give_the_same_blocks_as_lf_breaks() {
    let lf = "甲\n\n::注 k=v: 首行\n  乙\n\n  ::深:\n    丙\n丁\n";
    let crlf = lf.replace('\n', "\r\n");
    let a: Vec<String> = parse_blocks(lf).iter().map(shape).collect();
    let b: Vec<String> = parse_blocks(&crlf).iter().map(shape).collect();

    assert_eq!(a, b);
    assert_eq!(a.len(), 3);
}

#[test]
fn mixed_breaks_give_the_same_blocks_as_lf_breaks() {
    let lf = "甲\n\n::注 k=v: 首行\n  乙\n\n  ::深:\n    丙\n丁\n";
    let mixed = "甲\r\n\n::注 k=v: 首行\n  乙\r\n\r\n  ::深:\n    丙\r\n丁\n";
    let a: Vec<String> = parse_blocks(lf).iter().map(shape).collect();
    let b: Vec<String> = parse_blocks(mixed).iter().map(shape).collect();

    assert_eq!(a, b);
    assert_eq!(a.len(), 3);
}

#[test]
fn a_payload_can_be_changed_in_place() {
    let mut ast = neomark::Ast::new();
    let id = ast.new_text("旧");
    if let Some(kind) = ast.kind_mut(id) {
        *kind = neomark::NodeKind::Text("新".to_string());
    }
    assert_eq!(ast.text(id), Some("新"));
    assert!(ast.validate());
    let doc = ast.document();
    assert!(ast.kind_mut(doc).is_some());
}
