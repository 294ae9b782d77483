use linediag::text::dedent;
use linediag::text::dislay_width;
use linediag::text::grapheme_width;

#[test]
pub fn test_dedent() {
    assert_eq!(dedent("  dedent this"), (2, 2, "dedent this"));
    assert_eq!(dedent("\tdedent this"), (1, 4, "dedent this"));
    assert_eq!(dedent("\t dedent this"), (2, 5, "dedent this"));
    assert_eq!(
        dedent(" \t   \t \t dedent this"),
        (9, 1 + 4 + 3 + 4 + 1 + 4 + 1, "dedent this")
    );
    assert_eq!(dedent(""), (0, 0, ""));
    assert_eq!(dedent(" "), (1, 1, ""));
    assert_eq!(dedent(" \t"), (2, 5, ""));
}

#[test]
fn test_grapheme_width_tab_is_four() {
    assert_eq!(grapheme_width("\t"), 4);
}

#[test]
fn test_grapheme_width_ascii() {
    assert_eq!(grapheme_width("a"), 1);
    assert_eq!(grapheme_width(" "), 1);
}

#[test]
fn test_grapheme_width_zero_width() {
    assert_eq!(grapheme_width("\u{200d}"), 0);
    assert_eq!(grapheme_width("\u{fe0f}"), 0);
}

#[test]
fn test_grapheme_width_joined_emoji() {
    // family emoji: a zero width joiner sequence counts two columns
    assert_eq!(grapheme_width("\u{1f468}\u{200d}\u{1f469}\u{200d}\u{1f466}"), 2);
}

#[test]
fn test_grapheme_width_skin_tone() {
    // waving hand with a medium skin tone modifier
    assert_eq!(grapheme_width("\u{1f44b}\u{1f3fd}"), 2);
}

#[test]
fn test_display_width_plain() {
    assert_eq!(dislay_width(""), 0);
    assert_eq!(dislay_width("abc"), 3);
    assert_eq!(dislay_width("a\tb"), 6);
}

#[test]
fn test_display_width_wide() {
    // a fullwidth character spans two columns
    assert_eq!(dislay_width("\u{65e5}\u{672c}"), 4);
    assert_eq!(dislay_width("a\u{65e5}b"), 4);
}
