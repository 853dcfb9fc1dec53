use attest::discovery::{discover_test_files, get_script_shell, hidden, is_shell_interpreter, is_shell_script, read_first_line, shebang_interpreter, DiscoveryError, Listing, Node, Slot, Start};
use attest::path::UnixPath;

fn file(name: &str, content: &str) -> Slot {
    let mut head = content.as_bytes().to_vec();
    head.truncate(256);
    Slot::Entry(name.as_bytes().to_vec(), Node::File(Some(head)))
}

fn dir(name: &str, slots: Vec<Slot>) -> Slot {
    Slot::Entry(name.as_bytes().to_vec(), Node::Directory(Listing(Some(slots))))
}

fn discover(slots: Vec<Slot>) -> Result<Vec<String>, DiscoveryError> {
    let start = Start::Directory(Listing(Some(slots)));
    discover_test_files(&UnixPath::new("/t"), &start)
        .map(|v| v.iter().map(|p| p.display()).collect())
}

#[test]
fn discover_single_file() {
    let path = UnixPath::new("/t/example.sh");
    let found = discover_test_files(&path, &Start::File).unwrap();
    assert_eq!(found.len(), 1);
    assert_eq!(found[0].bytes, path.bytes);
}

#[test]
fn discover_directory_finds_shell_files() {
    let found = discover(vec![
        file("a.sh", "#!/bin/bash\n"),
        file("b.test", "#!/bin/bash\n"),
        file("c.txt", "not a script\n"),
    ])
    .unwrap();
    assert_eq!(found.len(), 2);
    assert!(found.iter().any(|f| f.ends_with("a.sh")));
    assert!(found.iter().any(|f| f.ends_with("b.test")));
}

#[test]
fn discover_directory_recursive() {
    let found = discover(vec![
        dir("sub", vec![file("nested.bash", "#!/bin/bash\n")]),
        file("top.sh", "#!/bin/bash\n"),
    ])
    .unwrap();
    assert_eq!(found.len(), 2);
    assert_eq!(found, vec!["/t/sub/nested.bash", "/t/top.sh"]);
}

#[test]
fn discover_empty_directory_errors() {
    let e = discover(vec![]);
    assert!(e.is_err());
    assert_eq!(e.unwrap_err().message(), "no script files found in /t");
}

#[test]
fn discover_nonexistent_path_errors() {
    let e = discover_test_files(&UnixPath::new("/nonexistent/path/xyz"), &Start::Missing);
    assert!(e.is_err());
    assert_eq!(e.unwrap_err().message(), "path does not exist: /nonexistent/path/xyz");
}

#[test]
fn discover_results_are_sorted() {
    let found = discover(vec![
        file("z.sh", "#!/bin/bash\n"),
        file("a.sh", "#!/bin/bash\n"),
        file("m.sh", "#!/bin/bash\n"),
    ])
    .unwrap();
    assert_eq!(found, vec!["/t/a.sh", "/t/m.sh", "/t/z.sh"]);
}

#[test]
fn discover_errors_of_directories() {
    let e = discover(vec![Slot::Failed("boom".to_string())]).unwrap_err();
    assert_eq!(e.message(), "boom");
    let locked = Slot::Entry(b"locked".to_vec(), Node::Directory(Listing(None)));
    assert_eq!(discover(vec![file("a.sh", ""), locked]).unwrap_err().message(), "reading /t/locked");
}

#[test]
fn discover_passes_over_what_is_hidden() {
    let found = discover(vec![
        dir(".git", vec![Slot::Failed("never seen".to_string())]),
        file(".x.sh", ""),
        file("y.sh", ""),
    ])
    .unwrap();
    assert_eq!(found, vec!["/t/y.sh"]);
    assert!(hidden(&UnixPath::new("a/.b")));
    assert!(!hidden(&UnixPath::new("a/b.")));
    // A name that is not UTF-8 does not count as hidden.
    assert!(!hidden(&UnixPath { bytes: vec![46, 0xff] }));
}

#[test]
fn shell_script_by_extension() {
    for ext in ["sh", "bash", "test"] {
        let path = UnixPath::new(&format!("file.{ext}"));
        let head = Some(b"no shebang\n".to_vec());
        assert!(is_shell_script(&path, &head), "expected {ext} to be recognized");
    }
}

#[test]
fn shell_script_detected_by_shebang() {
    let script = |name: &str, content: &str| is_shell_script(&UnixPath::new(name), &Some(content.as_bytes().to_vec()));
    assert!(script("direct", "#!/bin/bash\necho hi\n"));
    assert!(script("env_style", "#!/usr/bin/env bash\necho hi\n"));
    assert!(!script("not_shell", "#!/usr/bin/python3\nprint('hi')\n"));
    assert!(!is_shell_script(&UnixPath::new("unreadable"), &None));
}

#[test]
fn script_shell_from_shebang() {
    let shell = |content: &str| get_script_shell(&Some(content.as_bytes().to_vec()));
    assert_eq!(shell("#!/bin/bash\necho hi\n"), "/bin/bash");
    assert_eq!(shell("#!/usr/bin/env bash\necho hi\n"), "bash");
    assert_eq!(shell("#!/bin/sh\necho hi\n"), "/bin/sh");
    assert_eq!(shell("echo hi\n"), "bash");
    assert_eq!(shell("#!/usr/bin/python3\nprint('hi')\n"), "bash");
    assert_eq!(get_script_shell(&None), "bash");
}

#[test]
fn interpreter_detection() {
    assert!(is_shell_interpreter("#!/bin/sh"));
    assert!(is_shell_interpreter("#!/bin/bash"));
    assert!(is_shell_interpreter("#!/usr/bin/env bash"));
    assert!(is_shell_interpreter("#!/usr/bin/env zsh"));
    assert!(is_shell_interpreter("#!/bin/dash"));
    assert!(is_shell_interpreter("#!/bin/ash"));
    assert!(is_shell_interpreter("#!/usr/bin/env ksh"));
    assert!(!is_shell_interpreter("#!/usr/bin/python3"));
    assert!(!is_shell_interpreter("#!/usr/bin/env ruby"));
    assert!(!is_shell_interpreter("#!/usr/bin/env node"));
}

#[test]
fn shebang_edges() {
    assert_eq!(shebang_interpreter("#! /bin/sh -e").as_deref(), Some("/bin/sh"));
    assert_eq!(shebang_interpreter("#!/usr/bin/env"), None);
    assert_eq!(shebang_interpreter("#!"), None);
    assert_eq!(shebang_interpreter("# !/bin/sh"), None);
    assert_eq!(read_first_line(b"one\r\ntwo"), "one");
    assert_eq!(read_first_line(b""), "");
    assert_eq!(read_first_line(&[0xff, 10]), "");
    assert_eq!(read_first_line("é\n".as_bytes()), "é");
}
