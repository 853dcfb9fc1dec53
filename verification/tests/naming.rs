use attest::cli::{bin_dir_error, complete_file, complete_in_file, completion_scope, prints_results, relative_name, split_last, split_path_arg, streams_xtrace, CompletionScope};
use attest::naming::display_base;
use attest::parser::{TestCase, TestFile, TestPattern};
use attest::path::UnixPath;
use attest::selection::{name_tests, none_selected, select_tests, Selected};

fn p(s: &str) -> UnixPath {
    UnixPath::new(s)
}

#[test]
fn display_base_unqualified_when_unique() {
    let mut taken: Vec<String> = Vec::new();
    assert_eq!(display_base("test_a", &p("x.test"), false, &mut taken), "test_a");
}

#[test]
fn display_base_qualifies_duplicates_with_file_name() {
    let mut taken: Vec<String> = Vec::new();
    assert_eq!(display_base("test_dup", &p("dir/a.test"), true, &mut taken), "a.test:test_dup");
    assert_eq!(display_base("test_dup", &p("dir/b.test"), true, &mut taken), "b.test:test_dup");
}

#[test]
fn display_base_breaks_remaining_ties_numerically() {
    let mut taken: Vec<String> = Vec::new();
    assert_eq!(display_base("test_dup", &p("a/x.test"), true, &mut taken), "x.test:test_dup");
    // Same file name in a different directory collides on the qualified
    // form; the numeric suffix disambiguates.
    assert_eq!(display_base("test_dup", &p("b/x.test"), true, &mut taken), "x.test:test_dup:2");
    assert_eq!(display_base("test_dup", &p("c/x.test"), true, &mut taken), "x.test:test_dup:3");
    assert_eq!(taken.len(), 3);
}

#[test]
fn display_base_skips_numbers_that_are_taken() {
    let mut taken = vec!["t".to_string(), "t:2".to_string(), "t:4".to_string()];
    assert_eq!(display_base("t", &p("x"), false, &mut taken), "t:3");
    assert_eq!(display_base("t", &p("x"), false, &mut taken), "t:5");
    assert_eq!(display_base("t", &p(".."), true, &mut taken), ":t");
}

fn test_file(file: &str, names: &[&str]) -> TestFile {
    TestFile {
        tests: names.iter().map(|n| TestCase { file: p(file), name: n.to_string() }).collect(),
        functions: vec![],
    }
}

#[test]
fn selection_keeps_the_order_of_files() {
    let files = vec![test_file("a.test", &["test_x", "test_y"]), test_file("b.test", &["test_x", "test_z"])];
    let all = select_tests(&files, &None);
    let got: Vec<(String, usize)> = all.iter().map(|s| (s.name.clone(), s.file)).collect();
    assert_eq!(
        got,
        vec![
            ("test_x".to_string(), 0),
            ("test_y".to_string(), 0),
            ("test_x".to_string(), 1),
            ("test_z".to_string(), 1)
        ]
    );
    let some = select_tests(&files, &Some(TestPattern::parse("b.test/*x")));
    assert_eq!(some.len(), 1);
    assert_eq!(some[0].file, 1);
    assert!(select_tests(&files, &Some(TestPattern::parse("nope"))).is_empty());
}

#[test]
fn nothing_selected_is_explained() {
    assert_eq!(none_selected(Some("x*"), &p("dir")), "no tests match filter 'x*'");
    assert_eq!(none_selected(None, &p("dir")), "no test functions found in dir");
}

#[test]
fn display_names_are_unique() {
    let selected: Vec<Selected> = [("test_a", 0), ("test_a", 1), ("test_b", 0), ("test_a", 0), ("a:test_a", 2)]
        .iter()
        .map(|(n, f)| Selected { name: n.to_string(), file: *f })
        .collect();
    let files = vec![p("x/a"), p("y/a"), p("z")];
    let once: Vec<String> = name_tests(&selected, &files, 1).iter().map(|t| t.display.clone()).collect();
    assert_eq!(once, vec!["a:test_a", "a:test_a:2", "test_b", "a:test_a:3", "a:test_a:4"]);
    let twice = name_tests(&selected, &files, 2);
    assert_eq!(twice.len(), 10);
    assert_eq!(twice[0].display, "a:test_a#1");
    assert_eq!(twice[1].display, "a:test_a#2");
    assert_eq!((twice[5].name.as_str(), twice[5].file, twice[5].test, twice[5].run), ("test_b", 0, 2, 2));
    for i in 0..twice.len() {
        for j in 0..i {
            assert_ne!(twice[i].display, twice[j].display);
        }
    }
}

#[test]
fn path_arguments_are_split() {
    let is_file = |q: &UnixPath| q.same_as(&UnixPath::new("dir/a.test"));
    let r = split_path_arg("dir/a.test/test_x", is_file);
    assert_eq!(r.path.display(), "dir/a.test");
    assert_eq!(r.filter.as_deref(), Some("dir/a.test/test_x"));
    let r = split_path_arg("dir/a.test/", is_file);
    assert_eq!(r.path.display(), "dir/a.test");
    assert!(r.filter.is_none());
    let r = split_path_arg("dir/a.test", is_file);
    assert_eq!(r.path.display(), "dir/a.test");
    assert!(r.filter.is_none());
    let r = split_path_arg("plain", |_q: &UnixPath| true);
    assert_eq!(r.path.display(), "plain");
    assert_eq!(split_last("a/b/c"), Some(("a/b".to_string(), "c".to_string())));
    assert_eq!(split_last("abc"), None);
}

#[test]
fn arguments_are_completed() {
    let tests = test_file("a.test", &["test_x", "test_y", "testy"]).tests;
    assert_eq!(complete_in_file("d/a.test", "test_", &tests), vec!["d/a.test/test_x", "d/a.test/test_y"]);
    assert_eq!(complete_file("a.t", "a.test", &vec![]), vec!["a.test"]);
    assert_eq!(complete_file("a.test/testy", "a.test", &tests), vec!["a.test/testy"]);
    assert_eq!(complete_file("a", "a.test", &tests).len(), 4);
    assert!(complete_file("b", "a.test", &tests).is_empty());
    match completion_scope("d/a.test/te", |_q: &UnixPath| true) {
        CompletionScope::InFile { file, prefix } => assert_eq!((file.as_str(), prefix.as_str()), ("d/a.test", "te")),
        other => panic!("unexpected scope: {other:?}"),
    }
    assert!(matches!(completion_scope("d/x", |_q: &UnixPath| false), CompletionScope::Everywhere));
    assert!(matches!(completion_scope("d", |_q: &UnixPath| true), CompletionScope::Everywhere));
}

#[test]
fn relative_names() {
    assert_eq!(relative_name(&p("./a/b.test")), "a/b.test");
    assert_eq!(relative_name(&p("a/b.test")), "a/b.test");
    assert_eq!(relative_name(&p("/a")), "/a");
    assert_eq!(bin_dir_error(&p("x y"), "not found"), "--bin-dir: x y (not found)");
}

#[test]
fn verbosity() {
    assert!(!prints_results(0) && prints_results(1) && prints_results(2));
    assert!(!streams_xtrace(1) && streams_xtrace(2));
}

#[test]
fn contexts_of_different_tests_differ() {
    let contexts = p("/tmp/run/");
    let selected: Vec<Selected> =
        ["test_a", "test_a", "test_b"].iter().map(|n| Selected { name: n.to_string(), file: 0 }).collect();
    let dirs: Vec<UnixPath> = name_tests(&selected, &vec![p("x.test")], 2)
        .iter()
        .map(|t| contexts.join(&t.display))
        .collect();
    assert_eq!(dirs[0].display(), "/tmp/run/x.test:test_a#1");
    assert_eq!(dirs.len(), 6);
    for i in 0..dirs.len() {
        assert!(dirs[i].starts_with(&contexts));
        for j in 0..i {
            assert!(!dirs[i].same_as(&dirs[j]));
        }
    }
}
