use xinlan_clip::like::{escape_like, matches_search};
use xinlan_clip::text::{i64_to_string, parse_i64, str_starts_with, trim_str, u64_to_string};

#[test]
fn escape_like_escapes_wildcards_and_backslash() {
    assert_eq!(escape_like("100%"), "100\\%");
    assert_eq!(escape_like("a_b\\c"), "a\\_b\\\\c");
    assert_eq!(escape_like("plain"), "plain");
}

#[test]
fn search_is_literal_and_case_insensitive() {
    assert!(matches_search("Hello World", "hello"));
    assert!(matches_search("100% done", "100%"));
    assert!(!matches_search("no percent here", "100%"));
    assert!(!matches_search("abc", "_"));
    assert!(matches_search("a_c", "_"));
    assert!(matches_search("anything", ""));
    assert!(matches_search("ÄBC", "äbc"));
    assert!(matches_search("Straße 5", "STRASSE"));
    assert!(matches_search("ΟΔΟΣ", "οδος"));
    assert!(matches_search("ΟΔΟΣ", "ΟΔΟς"));
    assert!(!matches_search("Ä", "a"));
    assert!(matches_search("path\\to", "\\T"));
}

#[test]
fn integers_render_and_parse() {
    assert_eq!(i64_to_string(0), "0");
    assert_eq!(i64_to_string(-42), "-42");
    assert_eq!(i64_to_string(i64::MIN), "-9223372036854775808");
    assert_eq!(u64_to_string(u64::MAX), "18446744073709551615");
    assert_eq!(parse_i64("500"), Some(500));
    assert_eq!(parse_i64("-9223372036854775808"), Some(i64::MIN));
    assert_eq!(parse_i64("9223372036854775808"), None);
    assert_eq!(parse_i64("+7"), Some(7));
    assert_eq!(parse_i64("-"), None);
    assert_eq!(parse_i64(""), None);
    assert_eq!(parse_i64(" 5"), None);
    assert_eq!(parse_i64("1x"), None);
}

#[test]
fn trimming_and_prefixes() {
    assert_eq!(trim_str("\u{3000} a b \t\n"), "a b");
    assert_eq!(trim_str("   "), "");
    assert!(str_starts_with("cancelled: no", "cancelled"));
    assert!(!str_starts_with("can", "cancelled"));
}
