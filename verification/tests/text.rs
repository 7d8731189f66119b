use timers::text::{decimal_string, format_elapsed, int_string, is_white_space, normalize_description,
    normalize_name, parse_i64, same_text, strip_prefix, trim, truncate};

#[test]
fn trim_matches_std() {
    for s in ["", "  ", "abc", "  abc  ", "\t\n a b \r\n", "\u{3000}x\u{2009}", "\u{a0}", "a\u{85}"] {
        assert_eq!(trim(s), s.trim(), "{:?}", s);
    }
}

#[test]
fn white_space_matches_std() {
    for v in 0u32..0x3100 {
        if let Some(c) = char::from_u32(v) {
            assert_eq!(is_white_space(c), c.is_whitespace(), "{:x}", v);
        }
    }
}

#[test]
fn normalize_inputs() {
    assert_eq!(normalize_name("  Write docs "), "Write docs");
    assert_eq!(normalize_description(Some("  ")), None);
    assert_eq!(normalize_description(Some(" x ")), Some("x".to_string()));
    assert_eq!(normalize_description(None), None);
}

#[test]
fn truncate_short_and_long() {
    assert_eq!(truncate("hello", 5), "hello");
    assert_eq!(truncate("hello!", 5), "hell\u{2026}");
    assert_eq!(truncate("", 0), "");
    assert_eq!(truncate("\u{e9}t\u{e9}s", 3), "\u{e9}t\u{2026}");
    assert_eq!(truncate("ab", 1), "\u{2026}");
    let long = "x".repeat(50);
    let t = truncate(&long, 40);
    assert_eq!(t.chars().count(), 40);
    assert!(t.ends_with('\u{2026}'));
}

#[test]
fn format_elapsed_values() {
    assert_eq!(format_elapsed(0), "0:00");
    assert_eq!(format_elapsed(-5), "0:00");
    assert_eq!(format_elapsed(59), "0:59");
    assert_eq!(format_elapsed(61), "1:01");
    assert_eq!(format_elapsed(3599), "59:59");
    assert_eq!(format_elapsed(3600), "1:00:00");
    assert_eq!(format_elapsed(3725), "1:02:05");
    assert_eq!(format_elapsed(360000), "100:00:00");
    let m = i64::MAX;
    assert_eq!(format_elapsed(m), format!("{}:{:02}:{:02}", m / 3600, (m % 3600) / 60, m % 60));
}

#[test]
fn numbers_match_display() {
    for n in [0i64, 7, 10, 99, 12345, -1, -90, i64::MAX, i64::MIN] {
        assert_eq!(int_string(n), n.to_string());
    }
    assert_eq!(decimal_string(u64::MAX), u64::MAX.to_string());
}

#[test]
fn parse_matches_std() {
    for s in ["0", "42", "-42", "+42", "", "-", "+", "4x", " 4", "9223372036854775807", "9223372036854775808",
        "-9223372036854775808", "-9223372036854775809", "00012", "99999999999999999999999", "--1", "\u{664}"] {
        assert_eq!(parse_i64(s), s.parse::<i64>().ok(), "{:?}", s);
    }
}

#[test]
fn comparing_text() {
    assert!(same_text("abc", "abc"));
    assert!(!same_text("abc", "abd"));
    assert!(!same_text("ab", "abc"));
    assert_eq!(strip_prefix("start_12", "start_"), Some("12"));
    assert_eq!(strip_prefix("star", "start_"), None);
    assert_eq!(strip_prefix("stop", "start_"), None);
}
