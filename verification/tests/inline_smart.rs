use neomark::inline::smart::Converter;

fn apply(text: &str) -> String {
    Converter::new(true).apply(text)
}

#[test]
fn ellipsis_and_dashes() {
    assert_eq!(apply("等一下..."), "等一下…");
    assert_eq!(apply("2010--2020"), "2010–2020");
    assert_eq!(apply("他说---真的"), "他说—真的");
    assert_eq!(apply("----"), "—-");
}

#[test]
fn double_quotes_alternate_open_and_close() {
    assert_eq!(apply("\"你好\""), "“你好”");
    assert_eq!(apply("他说\"你好\"。"), "他说“你好”。");
    assert_eq!(apply("\"甲\" 和 \"乙\""), "“甲” 和 “乙”");
}

#[test]
fn apostrophes_are_not_opening_quotes() {
    assert_eq!(apply("don't"), "don’t");
    assert_eq!(apply("'单引号'"), "‘单引号’");
}

#[test]
fn quote_state_persists_across_segments() {
    let mut converter = Converter::new(true);
    assert_eq!(converter.apply("他说\""), "他说“");
    assert_eq!(converter.apply("你好\""), "你好”");
}

#[test]
fn plain_text_is_untouched() {
    assert_eq!(
        apply("普通文本，没有特殊符号。"),
        "普通文本，没有特殊符号。"
    );
    assert_eq!(apply("a-b"), "a-b");
}

#[test]
fn a_disabled_converter_changes_nothing() {
    let mut converter = Converter::new(false);
    assert_eq!(converter.apply("\"a\" -- b..."), "\"a\" -- b...");
}
