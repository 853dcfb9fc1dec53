use attest::diagnostics::{find_line_in_source, parse_bracket_expr, parse_xtrace_failure, BracketExpr, SourceMatch};
use attest::diff::{mark_changes, render_bracket_diff, render_changes, Change};
use attest::path::UnixPath;
use attest::snippet::{failure_report, render_snippet, snippet_window};

#[test]
fn parse_bracket_equality() {
    let expr = parse_bracket_expr("'[' ABC = DEF ']'").unwrap();
    assert_eq!(expr.left, "ABC");
    assert_eq!(expr.op, "=");
    assert_eq!(expr.right, "DEF");
}

#[test]
fn parse_bracket_inequality() {
    let expr = parse_bracket_expr("'[' foo != bar ']'").unwrap();
    assert_eq!(expr.left, "foo");
    assert_eq!(expr.op, "!=");
    assert_eq!(expr.right, "bar");
}

#[test]
fn parse_bracket_numeric() {
    let expr = parse_bracket_expr("'[' 1 -eq 2 ']'").unwrap();
    assert_eq!(expr.left, "1");
    assert_eq!(expr.op, "-eq");
    assert_eq!(expr.right, "2");
}

#[test]
fn parse_bracket_not_a_bracket() {
    assert!(parse_bracket_expr("echo hello").is_none());
}

#[test]
fn parse_bracket_edges() {
    // The right operand keeps its spaces; an unknown operator and a missing operand do not parse.
    let expr = parse_bracket_expr("'[' a = b c ']'").unwrap();
    assert_eq!(expr.right, "b c");
    assert!(parse_bracket_expr("'[' -f x ']'").is_none());
    assert!(parse_bracket_expr("'[' a == b ']'").is_none());
    assert!(parse_bracket_expr("'[' ']'").is_none());
    assert!(parse_bracket_expr("'[' a = b").is_none());
    for op in ["=", "!=", "-eq", "-ne", "-lt", "-le", "-gt", "-ge"] {
        let expr = parse_bracket_expr(&format!("'[' l {op} r r ']'")).unwrap();
        assert_eq!((expr.left.as_str(), expr.op.as_str(), expr.right.as_str()), ("l", op, "r r"));
    }
}

#[test]
fn parse_xtrace_finds_last_command() {
    let info = parse_xtrace_failure("+3: echo hello\n+4: echo world\n+5: '[' ABC = DEF ']'\n").unwrap();
    assert_eq!(info.lineno, 5);
    assert_eq!(info.command, "'[' ABC = DEF ']'");
}

#[test]
fn parse_xtrace_skips_subshell() {
    let info = parse_xtrace_failure("+3: echo hello\n++4: subshell_cmd\n+5: false\n").unwrap();
    assert_eq!(info.lineno, 5);
    assert_eq!(info.command, "false");
}

#[test]
fn parse_xtrace_skips_other_lines() {
    let info = parse_xtrace_failure("+2: a: b\nnoise\n+x: y\n+7 no colon\n++9: sub\n").unwrap();
    assert_eq!(info.lineno, 2);
    assert_eq!(info.command, "a: b");
    assert!(parse_xtrace_failure("").is_none());
    assert!(parse_xtrace_failure("+99999999999999999999999: x\n").is_none());
}

#[test]
fn find_line_in_function() {
    let source =
        "helper() {\n  echo setup\n}\n\ntest_foo() {\n  echo hello\n  [ ABC = DEF ]\n}\n";
    let m = find_line_in_source(source, "test_foo", "[ ABC = DEF ]").unwrap();
    assert_eq!(&source[m.byte_start..m.byte_end], "[ ABC = DEF ]");
    assert_eq!(m.func_start_line, 4); // 0-based: "test_foo() {"
    assert_eq!(m.func_end_line, 7); // 0-based: "}"
}

#[test]
fn find_line_not_in_wrong_function() {
    let source = "test_a() {\n  echo hello\n}\n\ntest_b() {\n  echo world\n}\n";
    assert!(find_line_in_source(source, "test_b", "echo hello").is_none());
}

#[test]
fn find_line_counts_bytes() {
    let source = "é() {\n :\n}\ntest_x () {\n\techo ü;\n\t{ true; }\n\tfalse\n}\n";
    let m = find_line_in_source(source, "test_x", "echo ü").unwrap();
    assert_eq!(&source[m.byte_start..m.byte_end], "echo ü;");
    assert_eq!(m.func_start_line, 3);
    assert_eq!(m.func_end_line, 7);
    let m = find_line_in_source(source, "test_x", "false").unwrap();
    assert_eq!(&source[m.byte_start..m.byte_end], "false");
}

#[test]
fn window_is_clamped_to_the_function() {
    let source = "a() {\n 1\n}\ntest_w() {\n  one\n  two\n  bad\n  three\n  four\n  five\n  six\n}\nb() {\n}\n";
    let m = find_line_in_source(source, "test_w", "bad").unwrap();
    let w = snippet_window(source, &m).unwrap();
    assert_eq!(w.first_line, 3);
    assert_eq!(w.text, "test_w() {\n  one\n  two\n  bad\n  three\n  four\n  five");
    assert_eq!(&w.text[w.start..w.end], "bad");
    let m = find_line_in_source(source, "test_w", "six").unwrap();
    let w = snippet_window(source, &m).unwrap();
    assert_eq!(w.text, "  three\n  four\n  five\n  six\n}");
    assert_eq!(&w.text[w.start..w.end], "six");
}

#[test]
fn window_needs_the_place_in_it() {
    let source = "test_w() {\n  bad\n}\n";
    let past = SourceMatch { byte_start: 100, byte_end: 101, func_start_line: 0, func_end_line: 2 };
    assert!(snippet_window(source, &past).is_none());
    let wide = SourceMatch { byte_start: 13, byte_end: 99, func_start_line: 0, func_end_line: 2 };
    assert!(snippet_window(source, &wide).is_none());
    let split = SourceMatch { byte_start: 1, byte_end: 2, func_start_line: 0, func_end_line: 0 };
    assert!(snippet_window("é", &split).is_none());
}

#[test]
fn snippet_names_file_and_line() {
    let source = "x\ntest_s() {\n  false\n}\n";
    let m = find_line_in_source(source, "test_s", "false").unwrap();
    let text = render_snippet(&UnixPath::new("dir/my.test"), source, &m).unwrap();
    assert!(text.contains("command failed"));
    assert!(text.contains("my.test"));
    assert!(!text.contains("dir/my.test"));
    assert!(text.contains("false"));
    assert!(text.contains('^'));
    assert_ne!(text, source);
}

#[test]
fn changes_are_marked() {
    let changes = vec![
        Change::Equal("a".to_string()),
        Change::Delete("b".to_string()),
        Change::Insert("c".to_string()),
    ];
    let (left, right) = mark_changes(&changes);
    assert_eq!(left, "a\x1b[31mb\x1b[0m");
    assert_eq!(right, "a\x1b[32mc\x1b[0m");
    assert_eq!(
        render_changes(&changes),
        "  diff: \"a\x1b[31mb\x1b[0m\"\n        \"a\x1b[32mc\x1b[0m\"\n"
    );
}

fn expr(left: &str, op: &str, right: &str) -> BracketExpr {
    BracketExpr { left: left.to_string(), op: op.to_string(), right: right.to_string() }
}

#[test]
fn operands_are_compared() {
    assert_eq!(
        render_bracket_diff(&expr("ABC", "=", "ABD")),
        "\n  left: \"ABC\"\n right: \"ABD\"\n  diff: \"AB\x1b[31mC\x1b[0m\"\n        \"AB\x1b[32mD\x1b[0m\"\n"
    );
    assert_eq!(render_bracket_diff(&expr("1", "-eq", "2")), "\n  left: \"1\"\n right: \"2\"\n");
    assert_eq!(render_bracket_diff(&expr("x", "!=", "x")), "\n  left: \"x\"\n right: \"x\"\n");
}

#[test]
fn failure_is_reported() {
    let source = "test_f() {\n  [ \"$x\" = 2 ]\n}\n";
    let functions = "test_f () \n{ \n    [ \"$x\" = 2 ];\n}\n";
    let path = UnixPath::new("f.test");
    let report = failure_report("test_f", &path, Some("+3: '[' 1 = 2 ']'\n"), Some(functions), Some(source));
    assert!(report.contains("command failed"));
    assert!(report.ends_with("        \"\x1b[32m2\x1b[0m\"\n"));
    assert!(report.contains("  left: \"1\"\n right: \"2\"\n"));
    // Without a log, the functions or the source there is nothing to show.
    assert_eq!(failure_report("test_f", &path, None, Some(functions), Some(source)), "");
    assert_eq!(failure_report("test_f", &path, Some("+3: x\n"), None, Some(source)), "");
    assert_eq!(failure_report("test_f", &path, Some("+3: x\n"), Some(functions), None), "");
    assert_eq!(failure_report("test_f", &path, Some("+99: x\n"), Some(functions), Some(source)), "");
    assert_eq!(failure_report("test_f", &path, Some("+0: x\n"), Some(functions), Some(source)), "");
}

#[test]
fn a_snippet_of_lines_that_end_with_crlf() {
    // Offsets count one byte for each line end, and so do the lines of the window.
    let source = "test_c() {\r\n  bad\r\n}\r\n";
    let m = find_line_in_source(source, "test_c", "bad").unwrap();
    assert_eq!((m.byte_start, m.byte_end), (13, 16));
    let w = snippet_window(source, &m).unwrap();
    assert_eq!(&w.text[w.start..w.end], "bad");
    // However far down the line is.
    let source = format!("{}test_c() {{\r\n  one\r\n  bad\r\n}}\r\n", "# x\r\n".repeat(50));
    let m = find_line_in_source(&source, "test_c", "bad").unwrap();
    let w = snippet_window(&source, &m).unwrap();
    assert_eq!((w.first_line, w.text.as_str()), (50, "test_c() {\n  one\n  bad\n}"));
    assert_eq!(&w.text[w.start..w.end], "bad");
}

#[test]
fn lines_after_a_function_on_one_line_are_outside() {
    let source = "test_a() { true; }\necho hello\n";
    assert!(find_line_in_source(source, "test_a", "echo hello").is_none());
    let source = "test_a() { true; }\n\ntest_a()\n{\n\techo hello\n}\necho bye\n";
    let m = find_line_in_source(source, "test_a", "echo hello").unwrap();
    assert_eq!((m.func_start_line, m.func_end_line), (2, 5));
    assert!(find_line_in_source(source, "test_a", "echo bye").is_none());
    let m = find_line_in_source("test_a() {\n\tx }\ny\n", "test_a", "x }").unwrap();
    assert_eq!((m.func_start_line, m.func_end_line), (0, 1));
    let source = "test_a() {\n\tx\n} }\ntest_a() {\n\ty\n\tz\n}\n";
    let m = find_line_in_source(source, "test_a", "z").unwrap();
    assert_eq!((m.func_start_line, m.func_end_line), (3, 6));
}
