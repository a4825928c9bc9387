use probing::text::{i64_to_string, parse_i32, split_ws, str_eq, strip_prefix, trim, u64_to_string};

#[test]
fn integers_parse_like_std() {
    for s in ["0", "42", "-7", "+9", "2147483647", "-2147483648", "", "-", "+", "12a", "2147483648", "-2147483649", " 1", "007"] {
        assert_eq!(parse_i32(s), s.parse::<i32>().ok(), "input {:?}", s);
    }
    assert_eq!(parse_i32("99999999999999999999"), None);
}

#[test]
fn integers_render_in_decimal() {
    assert_eq!(u64_to_string(0), "0");
    assert_eq!(u64_to_string(u64::MAX), u64::MAX.to_string());
    assert_eq!(i64_to_string(i64::MIN), i64::MIN.to_string());
    assert_eq!(i64_to_string(-15), "-15");
}

#[test]
fn whitespace_splitting_matches_std() {
    for s in ["a b", "  a\t\tb  c ", "", "   ", "x\u{a0}y\u{3000}z", "one"] {
        let expected: Vec<String> = s.split_whitespace().map(|x| x.to_string()).collect();
        assert_eq!(split_ws(s), expected, "input {:?}", s);
        assert_eq!(trim(s), s.trim(), "input {:?}", s);
    }
}

#[test]
fn prefixes_and_equality() {
    assert_eq!(strip_prefix("probing://x", "probing://"), Some("x"));
    assert_eq!(strip_prefix("http://x", "probing://"), None);
    assert!(str_eq("abc", "abc"));
    assert!(!str_eq("abc", "abd"));
}
