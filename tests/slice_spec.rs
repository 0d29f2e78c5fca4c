use line_slice::slice::{split_path, SliceSpec};

fn check(path: &str, filename: &str, start: Option<usize>, end: Option<usize>) {
    let result = SliceSpec::from(path);
    let expected = SliceSpec {
        filename: filename.to_string(),
        start,
        end,
    };
    assert_eq!(result, expected)
}

#[test]
fn from_empty() {
    check("", "", None, None);
}

#[test]
fn from_empty_with_empty_bounds() {
    check("::", "", None, None);
}

#[test]
fn from_empty_with_bounds() {
    check(":1:5", "", Some(1), Some(5));
}

#[test]
fn from_empty_with_colon() {
    check(":::", ":", None, None);
}

#[test]
fn from_empty_with_two_colons() {
    check("::::", "::", None, None);
}

#[test]
fn from_name_only() {
    check("foo", "foo", None, None);
}

#[test]
fn from_empty_slice_bounds() {
    check("foo::", "foo", None, None);
}

#[test]
fn from_lower_slice_bound() {
    check("foo:1:", "foo", Some(1), None);
}

#[test]
fn from_upper_slice_bound() {
    check("foo::5", "foo", None, Some(5));
}

#[test]
fn from_both_slice_bounds() {
    check("foo:2:6", "foo", Some(2), Some(6));
}

#[test]
fn from_long_and_messy() {
    check(
        "~/Strange:path-name:345:5/Directory Name/file.txt:567:1078",
        "~/Strange:path-name:345:5/Directory Name/file.txt",
        Some(567),
        Some(1078),
    );
}

#[test]
fn plain_names_have_no_bounds() {
    check("notes.txt", "notes.txt", None, None);
    check("a b/c-d", "a b/c-d", None, None);
}

#[test]
fn name_with_both_numeric_bounds() {
    check("f:0:0", "f", Some(0), Some(0));
    check("f:3:17", "f", Some(3), Some(17));
    check("f:18446744073709551615:18446744073709551615", "f", Some(usize::MAX), Some(usize::MAX));
}

#[test]
fn non_numeric_candidates_round_trip() {
    check("foo:bar", "foo:bar", None, None);
    check("foo:bar:baz", "foo:bar:baz", None, None);
    check("C:x:y:z", "C:x:y:z", None, None);
}

#[test]
fn fallback_keeps_left_to_right_order() {
    check("foo:x:7", "foo:x", None, Some(7));
    check("foo:7:x", "foo:x", Some(7), None);
    check("foo:x:", "foo:x", None, None);
    check("foo::x", "foo:x", None, None);
    check("a:b:x:y", "a:b:x:y", None, None);
}

#[test]
fn bounds_that_are_not_usize_fall_back() {
    check("f:-1:2", "f:-1", None, Some(2));
    check("f:1: 2", "f: 2", Some(1), None);
    check("f:18446744073709551616", "f:18446744073709551616", None, None);
    check("f:+", "f:+", None, None);
    check("f:1.5", "f:1.5", None, None);
}

#[test]
fn plus_sign_is_accepted_as_usize_parses_it() {
    check("f:+3:+4", "f", Some(3), Some(4));
}

#[test]
fn lower_bound_scenario() {
    check("foo:1:", "foo", Some(1), None);
}

#[test]
fn colon_in_name_with_numeric_bounds() {
    check("a/b:c:2:9", "a/b:c", Some(2), Some(9));
}

#[test]
fn non_ascii_names() {
    check("żółw:ü:2", "żółw:ü", None, Some(2));
    check("日本:3:4", "日本", Some(3), Some(4));
}

#[test]
fn split_path_pieces() {
    assert_eq!(split_path("foo"), ("foo".to_string(), None, None));
    assert_eq!(split_path("foo:1"), ("foo".to_string(), Some("1"), None));
    assert_eq!(split_path("a:b:c:d"), ("a:b".to_string(), Some("c"), Some("d")));
    assert_eq!(split_path("::"), ("".to_string(), Some(""), Some("")));
}
