use line_slice::bound::parse_bound;

#[test]
fn parse_bound_accepts_digits() {
    assert_eq!(parse_bound("0"), Some(0));
    assert_eq!(parse_bound("42"), Some(42));
    assert_eq!(parse_bound("007"), Some(7));
    assert_eq!(parse_bound("+9"), Some(9));
    assert_eq!(parse_bound("18446744073709551615"), Some(usize::MAX));
}

#[test]
fn parse_bound_rejects_others() {
    assert_eq!(parse_bound(""), None);
    assert_eq!(parse_bound("+"), None);
    assert_eq!(parse_bound("-1"), None);
    assert_eq!(parse_bound("1a"), None);
    assert_eq!(parse_bound(" 1"), None);
    assert_eq!(parse_bound("++1"), None);
    assert_eq!(parse_bound("18446744073709551616"), None);
    assert_eq!(parse_bound("99999999999999999999x"), None);
}

#[test]
fn parse_bound_agrees_with_std() {
    for t in ["0", "12", "+5", "", "-0", "x", "1_000", "184467440737095516150"] {
        assert_eq!(parse_bound(t), t.parse::<usize>().ok(), "{}", t);
    }
}
