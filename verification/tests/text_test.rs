use osunbitdb::text::{str_eq, strip_prefix};

#[test]
fn str_eq_compares_whole_texts() {
    assert!(str_eq("", ""));
    assert!(str_eq("abc", "abc"));
    assert!(!str_eq("abc", "abd"));
    assert!(!str_eq("abc", "ab"));
    assert!(!str_eq("ab", "abc"));
    assert!(!str_eq("", "a"));
    assert!(str_eq("\u{e9}\u{4e2d}", "\u{e9}\u{4e2d}"));
    assert!(!str_eq("\u{e9}", "e"));
}

#[test]
fn strip_prefix_cuts_a_prefix_that_is_there() {
    assert_eq!(strip_prefix("users:u1", "users:"), "u1");
    assert_eq!(strip_prefix("users:", "users:"), "");
    assert_eq!(strip_prefix("abc", ""), "abc");
    assert_eq!(strip_prefix("", ""), "");
    assert_eq!(strip_prefix("\u{e9}\u{e9}x", "\u{e9}"), "\u{e9}x");
}

#[test]
fn strip_prefix_keeps_a_text_that_starts_otherwise() {
    assert_eq!(strip_prefix("users:u1", "user:"), "users:u1");
    assert_eq!(strip_prefix("ab", "abc"), "ab");
    assert_eq!(strip_prefix("", "a"), "");
    assert_eq!(strip_prefix("xusers:u1", "users:"), "xusers:u1");
    assert_eq!(strip_prefix("e\u{301}", "\u{e9}"), "e\u{301}");
}
