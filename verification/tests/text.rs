use clipstack::text::{blank, chars_of, format_i64, like_contains, like_matches, parse_i64, same_text, string_of};

fn cs(s: &str) -> Vec<char> {
    s.chars().collect()
}

#[test]
fn like_is_ascii_case_insensitive() {
    assert!(like_contains(&cs("Hello World"), &cs("world")));
    assert!(like_contains(&cs("hello world"), &cs("WORLD")));
    assert!(!like_contains(&cs("hello"), &cs("help")));
}

#[test]
fn like_folds_only_ascii() {
    assert!(!like_contains(&cs("ÄPFEL"), &cs("äpfel")));
    assert!(like_contains(&cs("剪贴板历史"), &cs("贴板")));
}

#[test]
fn like_wildcards_in_query() {
    assert!(like_contains(&cs("abcdef"), &cs("b%e")));
    assert!(like_contains(&cs("abcdef"), &cs("a_c")));
    assert!(!like_contains(&cs("abcdef"), &cs("a_d")));
    assert!(like_contains(&cs(""), &cs("")));
    assert!(like_contains(&cs("anything"), &cs("")));
}

#[test]
fn like_full_patterns() {
    assert!(like_matches(&cs("a%"), &cs("abc")));
    assert!(!like_matches(&cs("a%"), &cs("bac")));
    assert!(like_matches(&cs("_"), &cs("x")));
    assert!(!like_matches(&cs("_"), &cs("")));
    assert!(like_matches(&cs("%%"), &cs("")));
}

#[test]
fn parse_i64_like_std() {
    for s in ["0", "500", "-7", "+42", "007", "9223372036854775807", "-9223372036854775808", "",
        "-", "+", " 5", "5 ", "1e3", "9223372036854775808", "-9223372036854775809", "12a", "٣"] {
        assert_eq!(parse_i64(s), s.parse::<i64>().ok(), "input {s:?}");
    }
}

#[test]
fn format_i64_like_std() {
    for n in [0i64, 1, 9, 10, 500, -1, -500, i64::MAX, i64::MIN] {
        assert_eq!(format_i64(n), n.to_string());
        assert_eq!(parse_i64(&format_i64(n)), Some(n));
    }
}

#[test]
fn blank_means_trim_is_empty() {
    for s in ["", "   ", "\t\n\r", "\u{3000}\u{a0}", "a", " x ", "\u{200b}"] {
        assert_eq!(blank(s), s.trim().is_empty(), "input {s:?}");
    }
}

#[test]
fn char_round_trip() {
    let v = chars_of("héllo 剪贴");
    assert_eq!(v.len(), 8);
    assert_eq!(string_of(&v), "héllo 剪贴");
    assert!(same_text("abc", "abc"));
    assert!(!same_text("abc", "abd"));
    assert!(!same_text("abc", "ab"));
}
