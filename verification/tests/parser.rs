use attest::parser::{parse_test_file, script_tests, wildcard_match, TestCase, TestFile, TestFileError, TestPattern};
use attest::path::UnixPath;
use attest::shell::{check_descriptors, check_padding, check_settled, pad, read_script, separate_descriptors, Position, ShellToken, Span};
use attest::syntax::{extract_functions, AndOr, AndOrList, Command, CompoundCommand, CompoundList, ElseClause, FunctionDefinition, IfClause, Pipeline, Script};
use brush_parser::ast;

fn script_of(p: ast::Program) -> Script {
    Script { complete_commands: p.complete_commands.into_iter().map(list_of).collect() }
}

fn list_of(l: ast::CompoundList) -> CompoundList {
    CompoundList(l.0.into_iter().map(|item| and_or_of(item.0)).collect())
}

fn and_or_of(a: ast::AndOrList) -> AndOrList {
    AndOrList {
        first: pipeline_of(a.first),
        additional: a
            .additional
            .into_iter()
            .map(|x| match x {
                ast::AndOr::And(p) => AndOr::And(pipeline_of(p)),
                ast::AndOr::Or(p) => AndOr::Or(pipeline_of(p)),
            })
            .collect(),
    }
}

fn pipeline_of(p: ast::Pipeline) -> Pipeline {
    Pipeline { seq: p.seq.into_iter().map(command_of).collect() }
}

fn command_of(c: ast::Command) -> Command {
    match c {
        ast::Command::Simple(_) => Command::Simple,
        ast::Command::Compound(c, _) => Command::Compound(compound_of(c)),
        ast::Command::Function(f) => {
            let text = f.to_string();
            Command::Function(FunctionDefinition { name: f.fname.value, text })
        }
        ast::Command::ExtendedTest(_) => Command::ExtendedTest,
    }
}

fn compound_of(c: ast::CompoundCommand) -> CompoundCommand {
    match c {
        ast::CompoundCommand::Arithmetic(_) => CompoundCommand::Arithmetic,
        ast::CompoundCommand::ArithmeticForClause(a) => {
            CompoundCommand::ArithmeticForClause(list_of(a.body.list))
        }
        ast::CompoundCommand::BraceGroup(b) => CompoundCommand::BraceGroup(list_of(b.list)),
        ast::CompoundCommand::Subshell(s) => CompoundCommand::Subshell(list_of(s.list)),
        ast::CompoundCommand::ForClause(f) => CompoundCommand::ForClause(list_of(f.body.list)),
        ast::CompoundCommand::CaseClause(c) => CompoundCommand::CaseClause(
            c.cases.into_iter().map(|i| i.cmd.map(list_of)).collect(),
        ),
        ast::CompoundCommand::IfClause(i) => CompoundCommand::IfClause(IfClause {
            condition: list_of(i.condition),
            body: list_of(i.then),
            elses: i.elses.map(|v| {
                v.into_iter()
                    .map(|e| ElseClause { condition: e.condition.map(list_of), body: list_of(e.body) })
                    .collect()
            }),
        }),
        ast::CompoundCommand::WhileClause(w) => {
            CompoundCommand::WhileClause(list_of(w.0), list_of(w.1.list))
        }
        ast::CompoundCommand::UntilClause(w) => {
            CompoundCommand::UntilClause(list_of(w.0), list_of(w.1.list))
        }
    }
}

fn parse(name: &str, content: &str) -> TestFile {
    parse_test_file(&UnixPath::new(name), Some(content), script_of).unwrap()
}

fn names(f: &TestFile) -> Vec<&str> {
    f.tests.iter().map(|t| t.name.as_str()).collect()
}

fn make_case(file: &str, name: &str) -> TestCase {
    TestCase { file: UnixPath::new(file), name: name.to_string() }
}

fn file_is(p: &TestPattern, expected: &str) -> bool {
    match &p.file {
        Some(f) => f.same_as(&UnixPath::new(expected)),
        None => false,
    }
}

#[test]
fn pattern_parse_name_only() {
    let p = TestPattern::parse("test_foo");
    assert!(p.file.is_none());
    assert_eq!(p.name.as_deref(), Some("test_foo"));
}

#[test]
fn pattern_parse_file_and_name() {
    let p = TestPattern::parse("foo.sh/test_bar");
    assert!(file_is(&p, "foo.sh"));
    assert_eq!(p.name.as_deref(), Some("test_bar"));
}

#[test]
fn pattern_parse_file_only() {
    let p = TestPattern::parse("foo.sh/");
    assert!(file_is(&p, "foo.sh"));
    assert!(p.name.is_none());

    let p = TestPattern::parse("./foo.sh");
    assert!(file_is(&p, "foo.sh"));
    assert!(p.name.is_none());
}

#[test]
fn pattern_parse_edges() {
    let p = TestPattern::parse("");
    assert!(p.file.is_none() && p.name.is_none());
    let p = TestPattern::parse("/test_a");
    assert!(p.file.is_none());
    assert_eq!(p.name.as_deref(), Some("test_a"));
    let p = TestPattern::parse("./");
    assert!(file_is(&p, "."));
    assert!(p.name.is_none());
    let p = TestPattern::parse("a/b.sh/test_*");
    assert!(file_is(&p, "a/b.sh"));
    assert_eq!(p.name.as_deref(), Some("test_*"));
}

#[test]
fn pattern_prefix_match() {
    let p = TestPattern::parse("test_foo");
    assert!(p.matches(&make_case("/any/file.sh", "test_foo")));
    assert!(p.matches(&make_case("/any/file.sh", "test_foo_bar")));
    assert!(!p.matches(&make_case("/any/file.sh", "test_baz")));
}

#[test]
fn pattern_wildcard_match() {
    let p = TestPattern::parse("test_*_end");
    assert!(p.matches(&make_case("f.sh", "test_foo_end")));
    assert!(!p.matches(&make_case("f.sh", "test_foo_end_extra")));
}

#[test]
fn pattern_file_filter() {
    let p = TestPattern::parse("foo.sh/test_");
    assert!(p.matches(&make_case("/path/to/foo.sh", "test_bar")));
    assert!(!p.matches(&make_case("/path/to/bar.sh", "test_bar")));
}

#[test]
fn pattern_file_subpath() {
    let p = TestPattern::parse("tests/foo.sh/test_");
    assert!(p.matches(&make_case("/repo/tests/foo.sh", "test_bar")));
    assert!(!p.matches(&make_case("/repo/other/foo.sh", "test_bar")));
}

#[test]
fn wildcard_segments() {
    assert!(wildcard_match("*", ""));
    assert!(wildcard_match("*", "anything"));
    assert!(wildcard_match("a*b*c", "aXbXbYc"));
    assert!(!wildcard_match("a*b*c", "acb"));
    assert!(wildcard_match("a**c", "ac"));
    assert!(wildcard_match("*ab*ab", "abab"));
    assert!(!wildcard_match("*ab*ab", "ab"));
    assert!(!wildcard_match("ab*b", "ab"));
    assert!(wildcard_match("", "test"));
    assert!(wildcard_match("é*ü", "éaü"));
}

#[test]
fn parse_file_with_test_functions() {
    let result = parse(
        "example.test",
        "test_hello() {\n  echo hello\n}\n\ntest_world() {\n  echo world\n}\n",
    );
    assert_eq!(result.tests.len(), 2);
    assert_eq!(result.tests[0].name, "test_hello");
    assert_eq!(result.tests[1].name, "test_world");
    assert_eq!(result.functions.len(), 2);
}

#[test]
fn parse_file_with_helpers_and_tests() {
    let result = parse(
        "example.test",
        "setup() {\n  mkdir -p /tmp/test\n}\n\ntest_foo() {\n  setup\n  echo foo\n}\n",
    );
    assert_eq!(result.tests.len(), 1);
    assert_eq!(result.tests[0].name, "test_foo");
    assert_eq!(result.functions.len(), 2);
}

#[test]
fn parse_file_with_no_functions() {
    let result = parse("plain.sh", "echo hello\necho world\n");
    assert!(result.tests.is_empty());
    assert!(result.functions.is_empty());
}

#[test]
fn parse_file_with_no_test_functions() {
    let result = parse(
        "helpers.sh",
        "helper_one() {\n  echo one\n}\n\nhelper_two() {\n  echo two\n}\n",
    );
    assert!(result.tests.is_empty());
    assert_eq!(result.functions.len(), 2);
}

#[test]
fn parse_file_preserves_path() {
    let result = parse("my.test", "test_a() {\n  true\n}\n");
    assert_eq!(result.tests[0].file.bytes, b"my.test".to_vec());
}

#[test]
fn parse_nonexistent_file_errors() {
    let path = UnixPath::new("/nonexistent/file.test");
    let result = parse_test_file(&path, None, script_of);
    assert!(result.is_err());
    match result {
        Err(TestFileError::Unreadable(p)) => assert_eq!(p.bytes, path.bytes),
        other => panic!("unexpected outcome: {other:?}"),
    }
    let e = TestFileError::Unreadable(path);
    assert_eq!(e.message(), "reading /nonexistent/file.test");
}

#[test]
fn parse_broken_file_errors() {
    let path = UnixPath::new("bad.test");
    let result = parse_test_file(&path, Some("if true; then\n"), script_of);
    match result {
        Err(TestFileError::Syntax(p, message)) => {
            assert_eq!(p.bytes, b"bad.test".to_vec());
            let e = TestFileError::Syntax(p, message.clone());
            assert_eq!(e.message(), format!("parse error in bad.test: {message}"));
            assert!(!message.is_empty());
        }
        other => panic!("unexpected outcome: {other:?}"),
    }
}

#[test]
fn test_prefix_is_strict() {
    let result = parse(
        "example.test",
        "testing() {\n  echo nope\n}\n\ntest_real() {\n  true\n}\n\nmy_test() {\n  echo no\n}\n",
    );
    // "testing" starts with "test" so it is a test; "my_test" does not start with "test"
    let names = names(&result);
    assert!(names.contains(&"testing"));
    assert!(names.contains(&"test_real"));
    assert!(!names.contains(&"my_test"));
}

#[test]
fn extract_functions_from_nested_blocks() {
    let result = parse(
        "nested.sh",
        "if true; then\n  test_inside_if() {\n    true\n  }\nfi\n\nfor x in 1; do\n  test_inside_for() {\n    true\n  }\ndone\n",
    );
    let names = names(&result);
    assert!(names.contains(&"test_inside_if"));
    assert!(names.contains(&"test_inside_for"));
}

#[test]
fn parse_empty_file() {
    let result = parse("empty.sh", "");
    assert!(result.tests.is_empty());
    assert!(result.functions.is_empty());
}

#[test]
fn functions_of_every_compound_are_found_in_order() {
    let result = parse(
        "all.sh",
        "{ test_a() { true; }; }\n( test_b() { true; } )\nwhile test_c() { true; }; do test_d() { true; }; done\nuntil test_e() { true; }; do test_f() { true; }; done\ncase x in x) test_g() { true; } ;; y) ;; esac\nif test_h() { true; }; then test_i() { true; }; elif test_j() { true; }; then test_k() { true; }; else test_l() { true; }; fi\ntrue && test_m() { true; } || test_n() { true; }\ntest_o() { test_inner() { true; }; }\n",
    );
    assert_eq!(
        names(&result),
        vec![
            "test_a", "test_b", "test_c", "test_d", "test_e", "test_f", "test_g", "test_h", "test_i",
            "test_j", "test_k", "test_l", "test_m", "test_n", "test_o"
        ]
    );
}

#[test]
fn the_definition_is_kept_as_text() {
    let result = parse("t.sh", "test_a() {\n  echo hi\n}\n");
    let text = &result.functions[0].text;
    assert!(text.starts_with("test_a ()"));
    assert!(text.contains("echo hi"));
}

#[test]
fn script_tests_from_a_tree() {
    let f = |name: &str| {
        Command::Function(FunctionDefinition { name: name.to_string(), text: format!("{name}() {{ :; }}") })
    };
    let list = |c: Command| CompoundList(vec![AndOrList { first: Pipeline { seq: vec![c] }, additional: vec![] }]);
    let script = Script {
        complete_commands: vec![
            list(f("helper")),
            list(Command::Compound(CompoundCommand::BraceGroup(list(f("test_x"))))),
            list(Command::Simple),
            list(Command::ExtendedTest),
            list(Command::Compound(CompoundCommand::Arithmetic)),
        ],
    };
    let all = extract_functions(&script);
    assert_eq!(all.len(), 2);
    let file = script_tests(&UnixPath::new("x.test"), &script);
    assert_eq!(names(&file), vec!["test_x"]);
    assert_eq!(file.functions[0].name, "helper");
    assert_eq!(file.functions[0].text, "helper() { :; }");
}

fn span(start: usize, end: usize) -> Span {
    Span {
        start: Position { index: start, line: 1, column: start + 1 },
        end: Position { index: end, line: 1, column: end + 1 },
    }
}

fn redirected(word: &str, operator: &str, gap: usize) -> Vec<ShellToken> {
    let n = word.len();
    vec![
        ShellToken::Word("echo".to_string(), span(0, 4)),
        ShellToken::Word(word.to_string(), span(5, 5 + n)),
        ShellToken::Operator(operator.to_string(), span(5 + n + gap, 6 + n + gap)),
        ShellToken::Word("x".to_string(), span(6 + n + gap, 7 + n + gap)),
    ]
}

#[test]
fn descriptors_beyond_the_type_are_noticed() {
    assert!(check_descriptors(&redirected("2", ">&", 0)));
    assert!(check_descriptors(&redirected("2147483647", ">", 0)));
    assert!(!check_descriptors(&redirected("2147483648", ">", 0)));
    assert!(!check_descriptors(&redirected("99999999999999999999999", "<", 0)));
    assert!(!check_descriptors(&redirected("", "<", 0)));
    assert!(check_descriptors(&redirected("99999999999", ">", 1)));
    assert!(check_descriptors(&redirected("00000000000000000000001", ">", 0)));
    assert!(check_descriptors(&redirected("a99999999999", ">", 0)));
    assert!(check_descriptors(&redirected("99999999999", "|", 0)));
}

#[test]
fn descriptors_beyond_the_type_are_words() {
    let tokens = redirected("2147483648", ">", 0);
    let apart = separate_descriptors(&tokens);
    assert!(check_descriptors(&apart));
    assert_eq!(apart.len(), 4);
    match (&apart[1], &apart[2]) {
        (ShellToken::Word(w, at), ShellToken::Operator(o, next)) => {
            assert_eq!((w.as_str(), o.as_str()), ("2147483648", ">"));
            assert_eq!(at.start, span(5, 15).start);
            assert_ne!(at.end.index, next.start.index);
        }
        other => panic!("unexpected tokens: {other:?}"),
    }
}

#[test]
fn large_numbers_before_redirections_are_read() {
    for text in [
        "echo 2>&1",
        "echo 2147483647>x",
        "echo 2147483648>x",
        "99999999999>x",
        "# c\\\n99999999999>x",
        "# c\\\n99999\\\n99999>x",
        "echo 99999\\\n999999>x",
        "echo 'a 2147483648>x'",
        "echo \"99999999999>x\" # 99999999999>x",
        "echo $((99999999999>1))",
        "((99999999999>1))",
        "cat <<99999999999\nx\n99999999999\n",
    ] {
        let text = format!("test_a() {{ :; }}\n{text}\n");
        let f = parse("x.test", &text);
        assert_eq!(names(&f), vec!["test_a"], "{text}");
    }
    assert!(read_script("echo 99999999999>").is_err());
    assert!(read_script("echo 'open").is_err());
    assert!(read_script("(").is_err());
}

#[test]
fn a_target_selects_its_test() {
    for (file, name) in [("dir/a.test", "test_x"), ("/a", "test*"), ("a//b/", "t")] {
        let target = TestPattern::parse(&format!("{file}/{name}"));
        assert!(target.matches(&make_case(file, name)), "{file} {name}");
    }
    assert!(!TestPattern::parse("dir/a.test/test_x").matches(&make_case("b.test", "test_x")));
}

#[test]
fn texts_that_end_too_early_are_read() {
    for text in [
        "x=$(echo $(cat <<E foo)\nb\nE\n",
        "x=$(echo $(cat <<E foo)\nb\nE",
        "x=${y:-$(cat <<E foo)\nb\nE\n",
        "x=$( ( $(cat <<E foo) $(cat <<F bar)\nb\nE\nF\n",
        "x=$(echo $(cat <<'' foo)",
        "x=$(echo $(cat <<'\n\n' foo) ) )",
        "x=$(a $(b $(c <<E )))\nE\n",
        "cat <<''",
        "<<''<<<<<F;;#a",
    ] {
        let _ = read_script(text);
        for n in 0..40 {
            let _ = read_script(&format!("{text}{}", "\n".repeat(n)));
        }
    }
}

#[test]
fn here_documents_in_substitutions_are_read() {
    for end in ["", "\n", "\n\n# done", "\n# done \\", "\ntest_b() { false; }", "\ntest_b() { false; }\n\n"] {
        let text = format!("test_a() {{\n\tx=$(cat <<E\nb ${{y}}\nE\n)\n}}{end}");
        let expected = if end.contains("test_b") { vec!["test_a", "test_b"] } else { vec!["test_a"] };
        assert_eq!(names(&parse("x.test", &text)), expected, "{text}");
    }
    // The last line may end the document and the text.
    let text = "test_a() { x=$(true); }\ncat <<E\nb\nE";
    assert_eq!(names(&parse("x.test", text)), vec!["test_a"]);
}

#[test]
fn errors_in_texts_with_here_documents() {
    let doc = "x=$(true)\ncat <<E\nb\nE\n";
    let error = |text: &str| read_script(text).err().unwrap();
    assert_eq!(error(&format!("{doc}(")), "syntax error at end of input");
    assert_eq!(error(&format!("{doc}echo >")), "syntax error at end of input");
    assert_eq!(error(&format!("{doc})")), "syntax error near token `)' (line 5 col 1)");
    assert_eq!(error(&format!("{doc}echo \\")), "unterminated escape sequence (detected near line 5 col 7)");
    assert_eq!(error("echo \\"), "unterminated escape sequence (detected near line 1 col 7)");
    assert_eq!(error(&format!("{doc}echo 'a")), "unterminated single quote at line 5 col 6 (detected near line 5 col 8)");
    assert_eq!(error("echo 'a\n"), "unterminated single quote at line 1 col 6 (detected near line 2 col 1)");
    assert_eq!(
        error("x=$(true)\ncat <<E\nb\n"),
        "unterminated here document sequence; tag(s) [E] found at: [line 2 col 8] (detected near line 4 col 1)"
    );
    assert_eq!(error(&format!("{doc}x=$(y")), "unterminated command substitution (detected near line 5 col 6)");
    assert_eq!(error("x=$(echo $(cat <<E foo)\nb\nE\n"), "unexpected end of text (detected near line 4 col 1)");
    assert_eq!(error("cat <<''\nb"), "unexpected end of text (detected near line 2 col 2)");
    // A tag may be a backslash.
    assert!(read_script("cat <<\\\\\nb\n\\").is_ok());
    assert!(read_script("cat <<\\\\\n\\").is_ok());
    assert!(read_script("cat <<\\\\\nb\n\\\n\\").is_err());
}

#[test]
fn padding_settles() {
    let text = "x=$(cat <<E\nb\nE\n)";
    assert!(!check_settled(text));
    let wide = pad(text);
    assert!(check_settled(&wide));
    assert_eq!(wide.len(), text.len() + 4 * (text.len() + 1));
    assert!(wide.starts_with(text) && wide.ends_with("\n\n\n\n"));
    assert!(check_settled("echo $(true) ${x} <y") && !check_settled("cat <<E\nb\nE"));
    let newline = |i: usize| ShellToken::Operator("\n".to_string(), span(i, i + 1));
    let kept: Vec<ShellToken> = (1..9).map(newline).collect();
    assert!(check_padding("x", &kept, 0) && check_padding("x", &kept, 1));
    assert!(!check_padding("x", &(2..9).map(newline).collect(), 0));
    assert!(check_padding("x", &(2..9).map(newline).collect(), 1));
    assert!(!check_padding("x", &(2..10).map(newline).collect(), 0));
}
