use neomark::handlers::NaturalExpander;
use neomark::{
    parse, Ast, Attr, Block, Context, Dispatcher, ErrorKind, ErrorNode, Handler, Key, Matched,
    NodeId, NodeKind, Registry, Span,
};

/// The forest under the document root as one compact s-expression.
fn sexpr(ast: &Ast) -> String {
    let roots = ast.children(ast.document());
    roots.iter().map(|&id| node(ast, id)).collect::<Vec<_>>().join(" ")
}

fn node(ast: &Ast, id: NodeId) -> String {
    let head = head(ast, id);
    let children: Vec<String> = ast.children(id).iter().map(|&c| node(ast, c)).collect();
    if children.is_empty() {
        head
    } else {
        format!("({head} {})", children.join(" "))
    }
}

fn head(ast: &Ast, id: NodeId) -> String {
    match ast.kind(id) {
        Some(NodeKind::Text(text)) => format!("text({text:?})"),
        Some(NodeKind::Error(error)) => format!("error({:?})", error.message),
        Some(NodeKind::Unparsed(Block::Natural(n))) => format!("natural({:?})", n.text),
        Some(NodeKind::Unparsed(Block::Call(c))) => {
            let mut out = format!("call {}", c.name);
            for (k, v) in c.params.entries() {
                out.push_str(&format!(" {k}={v}"));
            }
            out
        }
        Some(NodeKind::Instance { name, params }) => {
            let mut out = format!("instance {name}");
            for (k, v) in params.entries() {
                out.push_str(&format!(" {k}={v}"));
            }
            out
        }
        Some(NodeKind::Element { tag, attrs }) => {
            let mut out = format!("element {tag}");
            for attr in attrs {
                match &attr.value {
                    Some(value) => out.push_str(&format!(" {}={value}", attr.name)),
                    None => out.push_str(&format!(" {}!", attr.name)),
                }
            }
            out
        }
        Some(NodeKind::Paragraph) => "paragraph".to_string(),
        Some(NodeKind::Strong) => "strong".to_string(),
        Some(NodeKind::Emphasis) => "emphasis".to_string(),
        Some(_) => "other".to_string(),
        None => "<gone>".to_string(),
    }
}

/// The expanders these tests register.
enum Test {
    /// Replaces a call with a template instance and moves the children over.
    Notice,
    /// Writes its own HTML element instead of a semantic node.
    RawElement,
    /// Writes who it is, to tell which registration claimed a name.
    Marker(&'static str),
    /// Natural blocks only: a paragraph of the plain text.
    Paragraph,
    /// Keeps the raw body only: nested blocks are never expanded.
    Verbatim,
    /// Expands into two siblings.
    Split,
    /// Decides on its own that it cannot expand.
    Picky,
    /// The real natural-block expander.
    Natural(NaturalExpander),
}

impl Handler for Test {
    fn expand_call(&self, node: NodeId, ast: &mut Ast, ctx: &mut Context, matched: &Matched) -> Vec<NodeId> {
        match self {
            Test::Notice => {
                let (name, params) = {
                    let call = ast.call(node).unwrap();
                    (call.name.clone(), call.params.clone())
                };
                let instance = ast.new_instance(&name, params);
                for child in ast.children(node) {
                    ast.append(instance, child);
                }
                vec![instance]
            }
            Test::RawElement => {
                let aside = ast.new_element("aside", vec![Attr::new("class", "tip")]);
                for child in ast.children(node) {
                    ast.append(aside, child);
                }
                vec![aside]
            }
            Test::Marker(who) => {
                let name = ast.call(node).unwrap().name.clone();
                let text = ast.new_text(&format!("{who}:{name}"));
                vec![text]
            }
            Test::Verbatim => {
                let (name, params, raw) = {
                    let call = ast.call(node).unwrap();
                    (call.name.clone(), call.params.clone(), call.raw_body.clone())
                };
                let instance = ast.new_instance(&name, params);
                let text = ast.new_text(&raw);
                ast.append(instance, text);
                vec![instance]
            }
            Test::Split => {
                let (name, raw) = {
                    let call = ast.call(node).unwrap();
                    (call.name.clone(), call.raw_body.clone())
                };
                let head = ast.new_text(&format!("[{name}]"));
                let body = ast.new_text(&raw);
                vec![head, body]
            }
            Test::Picky => {
                let call = ast.call(node).unwrap();
                let (span, raw) = (call.span, call.raw_body.clone());
                vec![ast.new_error(ErrorNode::new(ErrorKind::ExpandFailed, "参数不全", span, &raw))]
            }
            Test::Natural(n) => n.expand_call(node, ast, ctx, matched),
            Test::Paragraph => neomark::dispatch::handler::fallback_call(node, ast, ctx),
        }
    }

    fn expand_natural(&self, node: NodeId, ast: &mut Ast, ctx: &mut Context) -> Vec<NodeId> {
        match self {
            Test::Paragraph => {
                let text = ast.natural(node).unwrap().text.clone();
                let paragraph = ast.new_paragraph();
                let text = ast.new_text(&text);
                ast.append(paragraph, text);
                vec![paragraph]
            }
            Test::Natural(n) => n.expand_natural(node, ast, ctx),
            _ => neomark::dispatch::handler::fallback_natural(node, ast, ctx),
        }
    }
}

fn run(source: &str, registry: Registry<Test>) -> Ast {
    let mut ast = parse(source);
    let mut ctx = Context::new(source);
    assert!(Dispatcher::new(registry).run(&mut ast, &mut ctx));
    assert!(ast.validate(), "the tree stays consistent after expansion");
    ast
}

#[test]
fn a_registered_natural_handler_is_used() {
    let mut registry = Registry::new();
    registry.register_natural(Test::Paragraph);

    let ast = run("正文\n", registry);

    assert_eq!(sexpr(&ast), r#"(paragraph text("正文"))"#);
}

#[test]
fn an_unhandled_natural_block_falls_back_with_its_content() {
    let source = "正文\n";
    let ast = run(source, Registry::new());

    let root = ast.children(ast.document())[0];
    let error = ast.error(root).unwrap();
    assert_eq!(error.kind, ErrorKind::NoHandler);
    assert_eq!(error.content, "正文");
    assert_eq!(error.span.slice(source), "正文");
    assert_eq!(sexpr(&ast), r#"error("没有注册自然块展开器")"#);
}

#[test]
fn an_unhandled_call_block_falls_back_with_its_content() {
    let source = "::nope a=1:\n  body\n";
    let ast = run(source, Registry::new());

    let root = ast.children(ast.document())[0];
    let error = ast.error(root).unwrap();
    assert_eq!(error.kind, ErrorKind::NoHandler);
    assert!(error.message.contains("::nope"));
    assert_eq!(error.content, "::nope a=1:\n  body");
    assert_eq!(error.span, Span::new(1, 2, 0, source.trim_end().len()));
}

#[test]
fn unclaimed_blocks_become_errors_in_their_order() {
    let source = "正文\n\n::nope a=1:\n  body\n\n后记\n";
    let ast = run(source, Registry::new());

    let roots = ast.children(ast.document());
    assert_eq!(roots.len(), 3);
    let first = ast.error(roots[0]).unwrap();
    let second = ast.error(roots[1]).unwrap();
    let third = ast.error(roots[2]).unwrap();
    assert_eq!(first.content, "正文");
    assert_eq!(second.message, "未注册的调用块 ::nope");
    assert_eq!(second.content, "::nope a=1:\n  body");
    assert_eq!(third.content, "后记");
    assert!(ast.children(roots[1]).is_empty());
}

#[test]
fn natural_and_call_blocks_are_dispatched_independently() {
    let mut registry = Registry::new();
    registry.register(Key::name("notice"), Test::Notice);
    registry.register_natural(Test::Paragraph);

    let ast = run("正文\n\n::notice type=warning:\n  小心\n", registry);

    assert_eq!(
        sexpr(&ast),
        r#"(paragraph text("正文")) (instance notice type=warning (paragraph text("小心")))"#
    );
}

#[test]
fn the_fallback_can_be_replaced() {
    let mut registry = Registry::new();
    registry.set_fallback(Test::Notice);

    let ast = run("::nope:\n", registry);

    assert_eq!(sexpr(&ast), "instance nope");
}

#[test]
fn handing_over_the_body_keeps_expanding_the_subtree() {
    let mut registry = Registry::new();
    registry.register(Key::name("notice"), Test::Notice);
    registry.register_natural(Test::Paragraph);

    let ast = run("::notice type=warning:\n  ::notice:\n    内层\n", registry);

    assert_eq!(
        sexpr(&ast),
        r#"(instance notice type=warning (instance notice (paragraph text("内层"))))"#
    );
}

#[test]
fn a_verbatim_handler_swallows_its_children() {
    let mut registry = Registry::new();
    registry.register(Key::name("notice"), Test::Notice);
    registry.register(Key::name("code"), Test::Verbatim);
    registry.register_natural(Test::Paragraph);

    let ast = run(
        "::code lang=neomark:\n  ::notice type=warning:\n    小心\n",
        registry,
    );

    assert_eq!(
        sexpr(&ast),
        r#"(instance code lang=neomark text("::notice type=warning:\n  小心"))"#
    );
}

#[test]
fn a_handler_may_expand_into_several_siblings() {
    let mut registry = Registry::new();
    registry.register(Key::name("twice"), Test::Split);

    let ast = run("::twice:\n  hi\n", registry);

    assert_eq!(sexpr(&ast), r#"text("[twice]") text("hi")"#);
}

#[test]
fn a_handler_may_emit_raw_elements_instead_of_semantic_nodes() {
    let mut registry = Registry::new();
    registry.register(Key::name("tip"), Test::RawElement);
    registry.register_natural(Test::Paragraph);

    let ast = run("::tip:\n  正文\n", registry);

    assert_eq!(
        sexpr(&ast),
        r#"(element aside class=tip (paragraph text("正文")))"#
    );
}

#[test]
fn exact_names_beat_patterns_and_later_patterns_beat_earlier_ones() {
    let build = || {
        let mut registry = Registry::new();
        registry.register(Key::pattern("^h.*$").unwrap(), Test::Marker("star"));
        registry.register(Key::pattern("^h.$").unwrap(), Test::Marker("question"));
        registry.register(Key::name("h1"), Test::Marker("exact"));
        registry
    };

    assert_eq!(sexpr(&run("::h1:\n", build())), r#"text("exact:h1")"#);
    assert_eq!(sexpr(&run("::h2:\n", build())), r#"text("question:h2")"#);
    assert_eq!(sexpr(&run("::hello:\n", build())), r#"text("star:hello")"#);
    assert_eq!(
        sexpr(&run("::nope:\n", build())),
        r#"error("未注册的调用块 ::nope")"#
    );
}

#[test]
fn a_pattern_registered_twice_keeps_only_the_last_handler() {
    let mut registry = Registry::new();
    registry.register(Key::pattern("^h.$").unwrap(), Test::Marker("first"));
    registry.register(Key::pattern("^h.$").unwrap(), Test::Marker("second"));

    assert_eq!(registry.patterns().len(), 1);
    assert_eq!(sexpr(&run("::h3:\n", registry)), r#"text("second:h3")"#);
}

#[test]
fn a_handler_may_fail_on_its_own() {
    let mut registry = Registry::new();
    registry.register(Key::name("picky"), Test::Picky);

    let ast = run("::picky:\n", registry);

    assert_eq!(sexpr(&ast), r#"error("参数不全")"#);
}

#[test]
fn the_real_natural_expander_parses_inline_content() {
    let mut registry = Registry::new();
    registry.register_natural(Test::Natural(NaturalExpander::default()));

    let ast = run("**新** 字\n", registry);

    assert_eq!(sexpr(&ast), r#"(paragraph (strong text("新")) text(" 字"))"#);
}

#[test]
fn a_replacement_that_cannot_take_the_place_of_its_block_is_reported() {
    struct Parent;
    impl Handler for Parent {
        fn expand_call(&self, node: NodeId, ast: &mut Ast, _ctx: &mut Context, _m: &Matched) -> Vec<NodeId> {
            // The node's own parent cannot become its sibling.
            vec![ast.parent(node).unwrap()]
        }
    }
    let source = "::x:\n";
    let mut ast = parse(source);
    let mut registry = Registry::new();
    registry.register(Key::name("x"), Parent);
    let mut ctx = Context::new(source);
    assert!(!Dispatcher::new(registry).run(&mut ast, &mut ctx));
}

#[test]
fn claiming_an_unknown_call_gives_the_fallback_error() {
    let source = "::nope:\n";
    let mut ast = parse(source);
    let mut ctx = Context::new(source);
    let block = ast.children(ast.document())[0];
    let dispatcher = Dispatcher::new(Registry::<Test>::new());

    let made = dispatcher.claim(&mut ast, block, &mut ctx);

    assert_eq!(made.len(), 1);
    let error = ast.error(made[0]).unwrap();
    assert_eq!(error.kind, ErrorKind::NoHandler);
    assert_eq!(error.message, "未注册的调用块 ::nope");
    assert_eq!(head(&ast, block), "call nope");
}

#[test]
fn claiming_a_named_call_hands_it_to_its_expander() {
    let source = "::notice type=warning:\n";
    let mut ast = parse(source);
    let mut ctx = Context::new(source);
    let block = ast.children(ast.document())[0];
    let mut registry = Registry::new();
    registry.register(Key::name("notice"), Test::Notice);
    let dispatcher = Dispatcher::new(registry);

    let made = dispatcher.claim(&mut ast, block, &mut ctx);

    assert_eq!(made.len(), 1);
    assert_eq!(head(&ast, made[0]), "instance notice type=warning");
}

#[test]
fn a_parsed_document_has_only_blocks_at_its_top() {
    let ast = parse("正文\n\n::nope a=1:\n  body\n\n::x:\n");
    let roots = ast.children(ast.document());
    assert_eq!(roots.len(), 3);
    for root in roots {
        assert!(matches!(ast.kind(root), Some(NodeKind::Unparsed(_))));
    }
}

#[test]
fn with_no_expander_other_top_nodes_keep_their_place() {
    let source = "::nope:\n  body\n";
    let mut ast = parse(source);
    let rule = ast.new_element("hr", Vec::new());
    let document = ast.document();
    ast.append(document, rule);
    let mut ctx = Context::new(source);

    assert!(Dispatcher::new(Registry::<Test>::new()).run(&mut ast, &mut ctx));

    let roots = ast.children(ast.document());
    assert_eq!(roots.len(), 2);
    assert_eq!(ast.error(roots[0]).unwrap().content, "::nope:\n  body");
    assert_eq!(roots[1], rule);
    assert_eq!(head(&ast, rule), "element hr");
}
