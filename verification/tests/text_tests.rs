use reasons_core::text::{
    contains_str, decimal_string, join, owned, push_decimal, split_on, split_words, str_eq,
    string_from_range, trim, truncate,
};

#[test]
fn truncate_keeps_short_text() {
    assert_eq!(truncate("short", 10), "short");
    assert_eq!(truncate("exactly10!", 10), "exactly10!");
}

#[test]
fn truncate_cuts_long_text_with_ellipsis() {
    assert_eq!(truncate("abcdefghijkl", 10), "abcdefg...");
    let long = "x".repeat(100);
    assert_eq!(truncate(&long, 80).chars().count(), 80);
    assert!(truncate(&long, 80).ends_with("..."));
}

#[test]
fn truncate_counts_characters_not_bytes() {
    assert_eq!(truncate("\u{e9}\u{e9}\u{e9}\u{e9}\u{e9}", 4), "\u{e9}...");
    assert_eq!(truncate("\u{e9}\u{e9}\u{e9}", 3), "\u{e9}\u{e9}\u{e9}");
}

#[test]
fn truncate_below_three_keeps_a_prefix() {
    assert_eq!(truncate("abcdef", 2), "ab");
    assert_eq!(truncate("abcdef", 0), "");
}

#[test]
fn split_words_uses_unicode_whitespace() {
    assert_eq!(
        split_words("  alpha\tbeta\ngamma\u{3000}delta  "),
        vec!["alpha".to_string(), "beta".to_string(), "gamma".to_string(), "delta".to_string()]
    );
    assert!(split_words("   ").is_empty());
    assert!(split_words("").is_empty());
}

#[test]
fn trim_strips_both_ends() {
    assert_eq!(trim("  a b  "), "a b");
    assert_eq!(trim("\t\n"), "");
    assert_eq!(trim("x"), "x");
}

#[test]
fn split_on_keeps_empty_fields() {
    assert_eq!(
        split_on("a,,b,", ','),
        vec!["a".to_string(), String::new(), "b".to_string(), String::new()]
    );
    assert_eq!(split_on("", ','), vec![String::new()]);
}

#[test]
fn join_places_separator_between_parts() {
    let parts = vec!["a".to_string(), "b".to_string(), "c".to_string()];
    assert_eq!(join(&parts, ", "), "a, b, c");
    assert_eq!(join(&vec![], ", "), "");
    assert_eq!(join(&vec!["only".to_string()], "; "), "only");
}

#[test]
fn decimals_have_no_leading_zeros() {
    assert_eq!(decimal_string(0), "0");
    assert_eq!(decimal_string(7), "7");
    assert_eq!(decimal_string(6519), "6519");
    assert_eq!(decimal_string(usize::MAX), usize::MAX.to_string());
    let mut s = String::from("n=");
    push_decimal(&mut s, 42);
    assert_eq!(s, "n=42");
}

#[test]
fn small_string_helpers() {
    assert!(str_eq("abc", "abc"));
    assert!(!str_eq("abc", "abd"));
    assert_eq!(owned("x"), "x".to_string());
    let v = vec!["a".to_string(), "b".to_string()];
    assert!(contains_str(&v, "b"));
    assert!(!contains_str(&v, "c"));
    let cs: Vec<char> = "hello".chars().collect();
    assert_eq!(string_from_range(&cs, 1, 4), "ell");
}
