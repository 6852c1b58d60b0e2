use airs::server::{floor_char, make_snippet};

#[test]
fn floor_char_keeps_boundaries() {
    let s = "aé";
    assert_eq!(floor_char(s, 0), 0);
    assert_eq!(floor_char(s, 1), 1);
    assert_eq!(floor_char(s, 3), 3);
}

#[test]
fn floor_char_moves_back_inside_a_character() {
    let s = "aé";
    assert_eq!(floor_char(s, 2), 1);
    let t = "𝄞x";
    assert_eq!(floor_char(t, 3), 0);
    assert_eq!(floor_char(t, 4), 4);
}

#[test]
fn floor_char_past_the_end_goes_to_the_end() {
    assert_eq!(floor_char("aé", 10), 3);
    assert_eq!(floor_char("", 5), 0);
}

#[test]
fn short_text_is_shown_whole() {
    assert_eq!(make_snippet("Hello World", "world", 120), "Hello World");
}

#[test]
fn long_text_is_cut_on_both_sides() {
    let text = format!("{}needle{}", "a".repeat(100), "b".repeat(100));
    let snippet = make_snippet(&text, "needle", 120);
    let expected = format!("\u{2026}{}\u{2026}", &text[70..190]);
    assert_eq!(snippet, expected);
}

#[test]
fn match_near_start_gets_no_leading_ellipsis() {
    let text = format!("xx needle {}", "c".repeat(200));
    let snippet = make_snippet(&text, "needle", 120);
    assert_eq!(snippet, format!("{}\u{2026}", &text[0..120]));
}

#[test]
fn missing_needle_anchors_at_start() {
    let text = "z".repeat(130);
    let snippet = make_snippet(&text, "q", 120);
    assert_eq!(snippet, format!("{}\u{2026}", &text[0..120]));
}

#[test]
fn cut_moves_back_to_character_boundary() {
    // 25 two-byte characters, then the match: the window starts at byte 50 - 30 = 20
    // (a boundary) and its end, byte 140, falls inside a character.
    let text = format!("{}needle!{}", "é".repeat(25), "ü".repeat(60));
    let snippet = make_snippet(&text, "needle", 120);
    let start = 20;
    let end = floor_char(&text, start + 120);
    assert_eq!(end, 139);
    assert_eq!(snippet, format!("\u{2026}{}\u{2026}", &text[start..end]));
}

#[test]
fn match_is_found_case_insensitively() {
    let text = format!("{}NEEDLE{}", "a".repeat(100), "b".repeat(100));
    let snippet = make_snippet(&text, "needle", 120);
    assert!(snippet.contains("NEEDLE"));
    assert!(snippet.starts_with('\u{2026}'));
}
