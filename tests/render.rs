use line_slice::render::{render_line, InvalidRange, LineRange, LineRenderer};
use line_slice::slice::SliceSpec;

fn run(spec: &str, lines: &[Option<&str>], number: bool) -> Vec<String> {
    let range = SliceSpec::from(spec).resolve().unwrap();
    let mut renderer = LineRenderer::new(range, number);
    let mut out = Vec::new();
    for line in lines {
        if renderer.is_done() {
            break;
        }
        if let Some(text) = renderer.feed(*line) {
            out.push(text);
        }
    }
    out
}

#[test]
fn resolve_defaults_to_whole_file() {
    let range = SliceSpec::from("f").resolve();
    assert_eq!(range, Ok(LineRange { start: 1, end: usize::MAX }));
}

#[test]
fn resolve_rejects_inverted_range() {
    let range = SliceSpec::from("f:3:2").resolve();
    assert_eq!(range, Err(InvalidRange { start: 3, end: 2 }));
}

#[test]
fn resolve_fills_one_bound() {
    assert_eq!(SliceSpec::from("f:4").resolve(), Ok(LineRange { start: 4, end: usize::MAX }));
    assert_eq!(SliceSpec::from("f::4").resolve(), Ok(LineRange { start: 1, end: 4 }));
    assert_eq!(SliceSpec::from("f::0").resolve(), Err(InvalidRange { start: 1, end: 0 }));
}

#[test]
fn numbered_output() {
    let lines = [Some("a"), Some("b"), Some("c")];
    assert_eq!(run("f", &lines, true), vec!["1\ta", "2\tb", "3\tc"]);
}

#[test]
fn bare_output() {
    let lines = [Some("a"), Some("b"), Some("c")];
    assert_eq!(run("f", &lines, false), vec!["a", "b", "c"]);
}

#[test]
fn open_end_prints_to_the_last_line() {
    let lines = [Some("1"), Some("2"), Some("3"), Some("4"), Some("5")];
    assert_eq!(run("foo:1:", &lines, false), vec!["1", "2", "3", "4", "5"]);
}

#[test]
fn range_is_inclusive() {
    let lines = [Some("a"), Some("b"), Some("c"), Some("d"), Some("e")];
    assert_eq!(run("f:2:4", &lines, true), vec!["2\tb", "3\tc", "4\td"]);
}

#[test]
fn failed_lines_are_skipped_but_counted() {
    let lines = [Some("a"), None, Some("c"), Some("d")];
    assert_eq!(run("f:2:3", &lines, true), vec!["3\tc"]);
    assert_eq!(run("f", &lines, false), vec!["a", "c", "d"]);
}

#[test]
fn renderer_stops_after_end() {
    let mut renderer = LineRenderer::new(LineRange { start: 1, end: 2 }, false);
    assert!(!renderer.is_done());
    assert_eq!(renderer.feed(Some("x")), Some("x".to_string()));
    assert!(!renderer.is_done());
    assert_eq!(renderer.feed(Some("y")), Some("y".to_string()));
    assert!(renderer.is_done());
}

#[test]
fn start_zero_keeps_first_line() {
    let lines = [Some("a"), Some("b")];
    assert_eq!(run("f:0:1", &lines, false), vec!["a"]);
}

#[test]
fn render_line_numbers() {
    assert_eq!(render_line(1, "a", true), "1\ta");
    assert_eq!(render_line(120, "", true), "120\t");
    assert_eq!(render_line(7, "text", false), "text");
}
