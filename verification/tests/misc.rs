use neomark::handlers::Headings;
use neomark::html::DEFAULT_CSS;
use neomark::stdlib::code::language_class;

#[test]
fn only_h1_to_h6_are_heading_names() {
    assert_eq!(Headings::level("h1"), Some(1));
    assert_eq!(Headings::level("h6"), Some(6));
    assert_eq!(Headings::level("h0"), None);
    assert_eq!(Headings::level("h7"), None);
    assert_eq!(Headings::level("ha"), None);
    assert_eq!(Headings::level("h"), None);
    assert_eq!(Headings::level("h10"), None);
    assert_eq!(Headings::level("h01"), None);
    assert_eq!(Headings::level("h+1"), None);
}

#[test]
fn language_names_keep_the_characters_highlighters_use() {
    assert_eq!(language_class("rust"), "language-rust");
    assert_eq!(language_class("c++"), "language-c++");
    assert_eq!(language_class("c#"), "language-c#");
    assert_eq!(language_class("objective-c"), "language-objective-c");
}

#[test]
fn a_dirty_language_name_cannot_break_out_of_the_class_attribute() {
    assert_eq!(
        language_class("ru st\"><script>"),
        "language-ru-st---script-"
    );
}

#[test]
fn the_default_css_styles_every_class_our_blocks_emit() {
    for class in [
        ".nm-document",
        ".nm-p",
        ".nm-h1",
        ".nm-h6",
        ".nm-quote",
        ".nm-quote-origin",
        ".nm-code-block",
        ".nm-code-inline",
        ".nm-instance",
        ".nm-error",
        ".nm-error-inline",
        ".nm-icon",
        ".nm-link",
        ".nm-mark",
        ".nm-math",
    ] {
        assert!(DEFAULT_CSS.contains(class), "missing {class}");
    }
}

#[test]
fn padded_boxes_control_their_own_inner_spacing() {
    assert!(DEFAULT_CSS.contains(".nm-quote > * + *"));
    assert!(DEFAULT_CSS.contains(".nm-quote > .nm-quote-origin"));
    assert!(DEFAULT_CSS.contains(".nm-document > :first-child"));
}
