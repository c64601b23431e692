use neomark::parse::header::unquote_str;
use neomark::{parse_call_header, Params};

fn params(pairs: &[(&str, &str)]) -> Params {
    let mut p = Params::new();
    for (k, v) in pairs {
        p.push(k, v);
    }
    p
}

#[test]
fn name_and_key_value_params() {
    let header = parse_call_header("::code lang=neomark:");
    assert_eq!(header.name, "code");
    assert_eq!(header.params, params(&[("lang", "neomark")]));
}

#[test]
fn trailing_colon_is_optional() {
    assert_eq!(
        parse_call_header("::code lang=neomark"),
        parse_call_header("::code lang=neomark:")
    );
}

#[test]
fn bare_flag_becomes_true() {
    let header = parse_call_header("::image width=300 height=200 lazy:");
    assert_eq!(
        header.params,
        params(&[("width", "300"), ("height", "200"), ("lazy", "true")])
    );
}

#[test]
fn quoted_value_may_contain_spaces() {
    let header = parse_call_header("::notice title=\"Be Careful!\":");
    assert_eq!(header.name, "notice");
    assert_eq!(header.params.get("title"), Some("Be Careful!"));
}

#[test]
fn quoted_value_may_contain_unicode_and_punctuation() {
    let header = parse_call_header("::quote author=\"张三\" source=\"《文章标题》\":");
    assert_eq!(
        header.params,
        params(&[("author", "张三"), ("source", "《文章标题》")])
    );
}

#[test]
fn escapes_inside_quotes() {
    let header = parse_call_header("::a t=\"a\\\"b\\\\c\"");
    assert_eq!(header.params.get("t"), Some("a\"b\\c"));
}

#[test]
fn equals_sign_inside_quotes_is_part_of_the_value() {
    let header = parse_call_header("::a t=\"x=y\"");
    assert_eq!(header.params.get("t"), Some("x=y"));
}

#[test]
fn quoted_key_may_contain_spaces_and_colons() {
    let header = parse_call_header("::a \"my key\"=v");
    assert_eq!(header.params.get("my key"), Some("v"));

    let header = parse_call_header("::a \"kind:type\"=v");
    assert_eq!(header.params.get("kind:type"), Some("v"));
}

#[test]
fn key_and_value_may_both_be_quoted() {
    let header = parse_call_header("::a \"k 1\"=\"v 1\" \"k:2\"=\"v:2\"");
    assert_eq!(header.params, params(&[("k 1", "v 1"), ("k:2", "v:2")]));
    assert_eq!(header.content, None);
}

#[test]
fn escapes_work_in_quoted_keys_too() {
    let header = parse_call_header("::a \"k\\\"1\"=v");
    assert_eq!(header.params.get("k\"1"), Some("v"));
}

#[test]
fn a_quoted_key_still_needs_a_value_after_the_equals() {
    let header = parse_call_header("::a \"k\"=");
    assert_eq!(header.params.get("k"), Some(""));
}

#[test]
fn names_may_be_quoted_too() {
    let header = parse_call_header("::\"my name\" k=v");
    assert_eq!(header.name, "my name");
    assert_eq!(header.params.get("k"), Some("v"));

    let header = parse_call_header("::\"a:b\": 内容");
    assert_eq!(header.name, "a:b");
    assert_eq!(header.content.as_deref(), Some("内容"));

    let header = parse_call_header("::\"a\\\"b\"");
    assert_eq!(header.name, "a\"b");
}

#[test]
fn extra_equals_signs_stay_in_the_value() {
    let header = parse_call_header("::a b=c=d");
    assert_eq!(header.params.get("b"), Some("c=d"));
}

#[test]
fn a_lone_double_colon_has_an_empty_name() {
    let header = parse_call_header("::");
    assert_eq!(header.name, "");
    assert!(header.params.is_empty());
}

#[test]
fn malformed_input_is_parsed_leniently() {
    let header = parse_call_header("::a t=\"未闭合");
    assert_eq!(header.params.get("t"), Some("未闭合"));

    let header = parse_call_header("::a =x");
    assert_eq!(header.params.get("=x"), Some("true"));
}

#[test]
fn repeated_keys_are_all_kept_and_get_returns_the_first() {
    let header = parse_call_header("::a x=1 x=2");
    assert_eq!(header.params.len(), 2);
    assert_eq!(header.params.get("x"), Some("1"));
}

#[test]
fn a_colon_right_after_the_name_starts_the_first_line_instead_of_tolerating_a_param() {
    let header = parse_call_header("::a: b=1");
    assert_eq!(header.name, "a");
    assert!(header.params.is_empty());
    assert_eq!(header.content.as_deref(), Some("b=1"));
}

#[test]
fn the_separator_colon_splits_off_the_first_line() {
    let header = parse_call_header("::a b=1: 首行");
    assert_eq!(header.name, "a");
    assert_eq!(header.params.get("b"), Some("1"));
    assert_eq!(header.content.as_deref(), Some("首行"));
}

#[test]
fn a_colon_inside_a_value_is_not_the_separator() {
    let header = parse_call_header("::a url=http://x");
    assert_eq!(header.params.get("url"), Some("http://x"));
    assert_eq!(header.content, None);

    let header = parse_call_header("::a url=http://x: 首行");
    assert_eq!(header.params.get("url"), Some("http://x"));
    assert_eq!(header.content.as_deref(), Some("首行"));
}

#[test]
fn a_colon_inside_quotes_is_not_the_separator() {
    let header = parse_call_header("::a title=\"x: y\": 首行");
    assert_eq!(header.params.get("title"), Some("x: y"));
    assert_eq!(header.content.as_deref(), Some("首行"));
}

#[test]
fn the_first_line_may_itself_contain_colons() {
    let header = parse_call_header("::a: 看 http://x 说完");
    assert_eq!(header.content.as_deref(), Some("看 http://x 说完"));
}

#[test]
fn no_separator_or_an_empty_first_line_means_no_content() {
    assert_eq!(parse_call_header("::a b=1").content, None);
    assert_eq!(parse_call_header("::a b=1:").content, None);
    assert_eq!(parse_call_header("::a b=1:   ").content, None);
}

#[test]
fn no_leading_whitespace_survives() {
    let header = parse_call_header("::a   b=1\t c=2");
    assert_eq!(header.params, params(&[("b", "1"), ("c", "2")]));
}

#[test]
fn unquote_keeps_unquoted_text_and_resolves_escapes() {
    assert_eq!(unquote_str("plain"), "plain");
    assert_eq!(unquote_str("\"a\\nb\\tc\\rd\""), "a\nb\tc\rd");
    assert_eq!(unquote_str("\"closed\"tail"), "closedtail");
    assert_eq!(unquote_str("\"end\\"), "end\\");
}

#[test]
fn quoted_plain_text_unquotes_to_its_inside() {
    assert_eq!(unquote_str("\"a b\""), "a b");
    assert_eq!(unquote_str("\"a b"), "a b");
    assert_eq!(unquote_str("\"\""), "");
    assert_eq!(unquote_str("a\"b\""), "a\"b\"");
    assert_eq!(unquote_str("\"a\\\"b\\nc\""), "a\"b\nc");
}
