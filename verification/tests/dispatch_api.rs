use neomark::handlers::wrap::sanitize_class;
use neomark::handlers::Wrap;
use neomark::stdlib::heading::PATTERN;
use neomark::{Attr, Builtin, Invocation, Key, Matched, Params, Pattern, Registry};

/// A hit of `pattern` on `name`, as the dispatcher builds it.
fn hit(pattern: &str, name: &str) -> Matched {
    let p = Pattern::new(pattern).unwrap();
    Matched::new(name, p.captures(name).map(|groups| (groups, p.capture_names())))
}

fn m(pattern: &str, name: &str) -> bool {
    Pattern::new(pattern).expect("test patterns compile").captures(name).is_some()
}

#[test]
fn strings_become_exact_names() {
    assert_eq!(Key::name("notice").as_str(), "notice");
    assert!(Key::name("notice").is_name());
}

#[test]
fn regexes_become_patterns() {
    let key = Key::pattern("^h[1-6]$").unwrap();

    assert_eq!(key.as_str(), "^h[1-6]$");
    assert!(!key.is_name());
}

#[test]
fn the_string_pattern_constructor_reports_bad_patterns() {
    assert!(Key::pattern("h[1-6]").is_ok());
    assert!(Key::pattern("h[").is_err());
}

#[test]
fn an_exact_hit_has_no_captures_but_still_reports_group_zero() {
    let matched = Matched::new("notice", None);

    assert_eq!(matched.name(), "notice");
    assert_eq!(matched.matched(), "notice");
    assert_eq!(matched.capture(0), Some("notice"));
    assert_eq!(matched.capture(1), None);
}

#[test]
fn a_regex_hit_reports_what_actually_matched() {
    let matched = hit("^note-", "note-warning");

    assert_eq!(matched.name(), "note-warning");
    assert_eq!(matched.matched(), "note-");
}

#[test]
fn numbered_and_named_groups_are_both_reachable() {
    let matched = hit(r"^h(?P<level>[1-6])$", "h3");

    assert_eq!(matched.matched(), "h3");
    assert_eq!(matched.capture(1), Some("3"));
    assert_eq!(matched.capture_named("level"), Some("3"));
    assert_eq!(matched.capture_named("nope"), None);
}

#[test]
fn groups_are_enumerable_in_order_including_unmatched_ones() {
    let matched = hit(r"^figure-(?P<kind>\w+)-v(?P<version>\d+)$", "figure-chart-v2");

    assert_eq!(matched.group_count(), 3);
    assert_eq!(
        matched.groups(),
        vec![Some("figure-chart-v2"), Some("chart"), Some("2")]
    );

    let matched = hit(r"^figure-(?P<kind>\w+)(?:-v(?P<version>\d+))?$", "figure-chart");

    assert_eq!(
        matched.groups(),
        vec![Some("figure-chart"), Some("chart"), None]
    );
}

#[test]
fn unnamed_is_what_natural_blocks_get() {
    let matched = Matched::unnamed();

    assert_eq!(matched.name(), "");
    assert_eq!(matched.matched(), "");
    assert_eq!(matched.group_count(), 1);
}

#[test]
fn it_exposes_both_the_match_and_the_parameters() {
    let matched = hit(r"^h(?P<level>[1-6])$", "h3");

    let mut params = Params::new();
    params.push("language", "rust");

    let call = Invocation::new(&matched, &params);

    assert_eq!(call.name(), "h3");
    assert_eq!(call.matched(), "h3");
    assert_eq!(call.capture(1), Some("3"));
    assert_eq!(call.capture_named("level"), Some("3"));
    assert_eq!(call.group_count(), 2);
    assert_eq!(call.param("language"), Some("rust"));
    assert_eq!(call.param("nope"), None);
    assert_eq!(call.params().len(), 1);
}

#[test]
fn an_exact_hit_still_works() {
    let matched = Matched::new("quote", None);
    let params = Params::new();

    let call = Invocation::new(&matched, &params);

    assert_eq!(call.matched(), "quote");
    assert_eq!(call.capture(1), None);
    assert_eq!(call.param("origin"), None);
}

#[test]
fn the_default_heading_pattern_is_anchored_and_covers_h1_to_h6() {
    for level in 1..=6 {
        assert!(m(PATTERN, &format!("h{level}")), "{PATTERN} should match h{level}");
    }
    for name in ["h0", "h7", "h10", "h", "ha", "xh1", "h1y", "H1"] {
        assert!(!m(PATTERN, name), "{PATTERN} should not match {name}");
    }
}

#[test]
fn patterns_are_plain_regexes() {
    assert!(m("^note-(info|warning)$", "note-warning"));
    assert!(!m("^note-(info|warning)$", "note-error"));
    assert!(m("^badge-\\w+$", "badge-new"));
    assert!(m("^(?i)h[1-6]$", "H3"), "inline flags work as usual");
    assert!(m("h[1-6]", "xh1y"));
}

#[test]
fn the_pattern_covers_exactly_h1_to_h6() {
    for name in ["h1", "h2", "h3", "h4", "h5", "h6"] {
        assert!(m(PATTERN, name), "{name}");
    }
    for name in ["h0", "h7", "ha", "h", "h1x", "xh1"] {
        assert!(!m(PATTERN, name), "{name}");
    }
}

#[test]
fn lookups_prefer_exact_names_then_the_last_pattern() {
    let mut registry: Registry<u8> = Registry::new();
    registry.register(Key::pattern("^h.*$").unwrap(), 1);
    registry.register(Key::pattern("^h.$").unwrap(), 2);
    registry.register(Key::name("h1"), 3);

    assert_eq!(registry.get("h1"), Some(&3));
    assert_eq!(registry.get("h2"), Some(&2));
    assert_eq!(registry.get("hello"), Some(&1));
    assert_eq!(registry.get("nope"), None);
    assert!(registry.contains("hx"));
    assert!(!registry.contains("x"));
    assert_eq!(registry.names(), vec!["h1"]);
    assert_eq!(registry.patterns(), vec!["^h.*$", "^h.$"]);

    registry.register(Key::name("h1"), 4);
    assert_eq!(registry.get("h1"), Some(&4));
    assert_eq!(registry.names(), vec!["h1"]);

    match registry.find("h2") {
        Some((h, Some((groups, names)))) => {
            assert_eq!(*h, 2);
            assert_eq!(groups, vec![Some("h2".to_string())]);
            assert_eq!(names, vec![None]);
        }
        _ => panic!("a pattern hit carries its groups"),
    }
    assert!(matches!(registry.find("h1"), Some((_, None))));
}

#[test]
fn classes_are_collected_into_one_attribute_in_order() {
    let (matched, params) = (Matched::unnamed(), Params::new());
    let wrap = Wrap::tag("div").class("a").class("b");
    let (tag, attrs) = wrap.build(&Invocation::new(&matched, &params));

    assert_eq!(tag, "div");
    assert_eq!(attrs, vec![Attr::new("class", "a b")]);
}

#[test]
fn name_as_class_is_appended_last() {
    let matched = Matched::new("note-warning", None);
    let params = Params::new();

    let wrap = Wrap::tag("div").class("note").class_from_name();
    let (_, attrs) = wrap.build(&Invocation::new(&matched, &params));

    assert_eq!(attrs, vec![Attr::new("class", "note note-warning")]);
}

#[test]
fn name_as_class_is_sanitized_because_class_names_cannot_contain_spaces() {
    let (unnamed, empty) = (Matched::unnamed(), Params::new());
    let wrap = Wrap::tag("div").class_from_name();

    let matched = Matched::new("note 警告", None);
    let (_, attrs) = wrap.build(&Invocation::new(&matched, &Params::new()));
    assert_eq!(attrs, vec![Attr::new("class", "note---")]);

    let (_, attrs) = wrap.build(&Invocation::new(&unnamed, &empty));
    assert!(attrs.is_empty());
}

#[test]
fn extra_attributes_survive_and_class_comes_first() {
    let (matched, params) = (Matched::unnamed(), Params::new());
    let wrap = Wrap::tag("img").attr("src", "a.png").flag("lazy").class("pic");
    let (_, attrs) = wrap.build(&Invocation::new(&matched, &params));

    assert_eq!(
        attrs,
        vec![
            Attr::new("class", "pic"),
            Attr::new("src", "a.png"),
            Attr::boolean("lazy"),
        ]
    );
}

#[test]
fn tag_and_prefixed_class_come_from_what_was_matched() {
    let matched = hit("^h[1-6]$", "h3");
    let params = Params::new();
    let wrap = Wrap::tag_from_match().class_prefix("nm-").class_from_match();
    let (tag, attrs) = wrap.build(&Invocation::new(&matched, &params));

    assert_eq!(tag, "h3");
    assert_eq!(attrs, vec![Attr::new("class", "nm-h3")]);
}

#[test]
fn attributes_from_parameters_are_left_out_when_absent_or_empty() {
    let matched = Matched::new("quote", None);
    let wrap = Wrap::tag("blockquote").attr_from_param("origin", "data-origin");

    let mut params = Params::new();
    params.push("origin", "书");
    let (_, attrs) = wrap.build(&Invocation::new(&matched, &params));
    assert_eq!(attrs, vec![Attr::new("data-origin", "书")]);

    let mut empty = Params::new();
    empty.push("origin", "");
    let (_, attrs) = wrap.build(&Invocation::new(&matched, &empty));
    assert!(attrs.is_empty());

    let (_, attrs) = wrap.build(&Invocation::new(&matched, &Params::new()));
    assert!(attrs.is_empty());
}

#[test]
fn class_names_keep_only_ascii_letters_digits_dash_and_underscore() {
    assert_eq!(sanitize_class("a b_c-d.e"), "a-b_c-d-e");
    assert_eq!(sanitize_class(""), "");
}

#[test]
fn the_builtin_registry_holds_the_standard_expanders() {
    let mut registry: Registry<Builtin> = Registry::new();
    neomark::register_defaults(&mut registry);
    assert!(registry.contains("quote"));
    assert!(registry.contains("code"));
    assert!(registry.contains("h4"));
    assert!(!registry.contains("h7"));
    assert!(registry.natural().is_some());
}

#[test]
fn a_pattern_that_does_not_compile_says_why() {
    let error = Pattern::new("h[").unwrap_err();
    assert!(!error.message().is_empty());
    assert!(Key::pattern("(").is_err());
}
