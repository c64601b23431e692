use neomark::inline::{emoji, entities};

fn entity(text: &str) -> Option<(String, usize)> {
    entities::parse_str(text)
}

fn shortcode(text: &str) -> Option<(String, usize)> {
    emoji::parse_str(text)
}

#[test]
fn numeric_entities() {
    assert_eq!(entity("&#35;").unwrap().0, "#");
    assert_eq!(entity("&#x22;").unwrap().0, "\"");
    assert_eq!(entity("&#x1F600;").unwrap().0, "😀");
    assert_eq!(entity("&#35;").unwrap().1, 5);
}

#[test]
fn named_entities() {
    assert_eq!(entity("&amp;").unwrap().0, "&");
    assert_eq!(entity("&hellip;").unwrap().0, "…");
    assert_eq!(entity("&alpha;").unwrap().0, "α");
}

#[test]
fn unknown_and_malformed_entities_are_left_alone() {
    assert!(entity("&nope;").is_none());
    assert!(entity("&amp").is_none());
    assert!(entity("& #35;").is_none());
    assert!(entity("&#xZZ;").is_none());
}

#[test]
fn invalid_code_points_become_the_replacement_character() {
    assert_eq!(entity("&#0;").unwrap().0, "\u{fffd}");
    assert_eq!(entity("&#xD800;").unwrap().0, "\u{fffd}");
    assert_eq!(entity("&#x110000;").unwrap().0, "\u{fffd}");
}

#[test]
fn numeric_entities_that_overflow_are_left_alone() {
    assert!(entity("&#99999999999;").is_none());
    assert_eq!(entity("&#+65;").unwrap().0, "A");
}

#[test]
fn common_shortcodes() {
    assert_eq!(shortcode(":smile:").unwrap().0, "😄");
    assert_eq!(shortcode(":thumbsup:").unwrap().0, "👍");
    assert_eq!(shortcode(":rocket:").unwrap().0, "🚀");
    assert_eq!(shortcode(":smile:x").unwrap().1, 7);
}

#[test]
fn plus_minus_and_digits_in_names() {
    assert_eq!(shortcode(":+1:").unwrap().0, "👍");
    assert_eq!(shortcode(":-1:").unwrap().0, "👎");
}

#[test]
fn unknown_shortcodes_and_lookalikes_are_left_alone() {
    assert!(shortcode(":nope:").is_none());
    assert!(shortcode(":30:").is_none());
    assert!(shortcode(":Smile:").is_none());
    assert!(shortcode(":smile").is_none());
    assert!(shortcode(":").is_none());
    assert!(shortcode("::x::").is_none());
}
