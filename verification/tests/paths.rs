use attest::number::{decimal_chars, parse_number};
use attest::order::{sort, Ordered};
use attest::path::UnixPath;
use attest::text::{chars_of, find_text, join_strings, split_on, string_of};
use attest::utf8::{byte_len, width};
use attest::words::{lines_of, trimmed, white, words_of};
use std::path::{Path, PathBuf};

const SAMPLES: [&str; 34] = [
    "", ".", "..", "/", "//", "///a", "a", "a/", "a//b", "a/./b", "./a", "././a", "/.", "/./a", "/a/.",
    "/a/b/", "/a//b/./c/", "../a", "a/..", "/..", "a.txt", "a.", ".a", "a.b.c", "a..", "...", "/tmp",
    "/var/tmp", "x/.hidden", "x/y.test/", "é/ü.sh", "/sys/fs/cgroup", "/sys/fs/cgroup/a/b", "a/.b.c",
];

fn text(v: &[u8]) -> String {
    String::from_utf8(v.to_vec()).unwrap()
}

#[test]
fn components_agree_with_std() {
    for s in SAMPLES {
        let ours: Vec<String> = UnixPath::new(s).components().iter().map(|c| text(c)).collect();
        let std: Vec<String> = Path::new(s)
            .components()
            .map(|c| c.as_os_str().to_str().unwrap().to_string())
            .collect();
        assert_eq!(ours, std, "components of {s:?}");
    }
}

#[test]
fn names_agree_with_std() {
    for s in SAMPLES {
        let p = UnixPath::new(s);
        let q = Path::new(s);
        let name = p.file_name().map(|n| text(&n));
        assert_eq!(name.as_deref(), q.file_name().map(|n| n.to_str().unwrap()), "file name of {s:?}");
        let ext = p.extension().map(|n| text(&n));
        assert_eq!(ext.as_deref(), q.extension().map(|n| n.to_str().unwrap()), "extension of {s:?}");
        let parent = p.parent().map(|n| text(&n.bytes));
        assert_eq!(parent.map(PathBuf::from), q.parent().map(|n| n.to_path_buf()), "parent of {s:?}");
        assert_eq!(p.absolute(), q.is_absolute());
        assert_eq!(p.display(), s);
    }
}

#[test]
fn relations_agree_with_std() {
    for a in SAMPLES {
        for b in SAMPLES {
            let (p, q) = (UnixPath::new(a), UnixPath::new(b));
            let (x, y) = (Path::new(a), Path::new(b));
            assert_eq!(p.same_as(&q), x == y, "{a:?} == {b:?}");
            assert_eq!(p.starts_with(&q), x.starts_with(y), "{a:?} starts with {b:?}");
            assert_eq!(p.ends_with(&q), x.ends_with(y), "{a:?} ends with {b:?}");
            assert_eq!(p.precedes(&q), x < y, "{a:?} < {b:?}");
            assert_eq!(text(&p.join(b).bytes), x.join(y).to_str().unwrap(), "{a:?} joined {b:?}");
        }
    }
}

#[test]
fn below_root_agrees_with_std() {
    for s in SAMPLES {
        if let Ok(rest) = Path::new(s).strip_prefix("/") {
            assert_eq!(text(&UnixPath::new(s).below_root().bytes), rest.to_str().unwrap(), "{s:?}");
        }
    }
}

#[test]
fn sorting_is_stable() {
    let v: Vec<UnixPath> = ["b", "a/", "c", "a", "/"].iter().map(|s| UnixPath::new(s)).collect();
    let sorted: Vec<String> = sort(v).iter().map(|p| p.display()).collect();
    assert_eq!(sorted, vec!["/", "a/", "a", "b", "c"]);
}

#[test]
fn invalid_bytes_are_replaced() {
    let p = UnixPath { bytes: vec![47, 0xff, 97] };
    assert_eq!(p.display(), "/\u{fffd}a");
}

#[test]
fn white_space_agrees_with_std() {
    for n in 0..0x3100u32 {
        if let Some(c) = char::from_u32(n) {
            assert_eq!(white(c), c.is_whitespace(), "{n:x}");
        }
    }
    assert!(!white('\u{feff}'));
}

#[test]
fn words_and_lines_agree_with_std() {
    for s in ["", "a", " a  b\tc\n", "a\r\nb\n\nc", "x\r", "\n", "\r\n", " \u{2003}é ü ", "a\n\r\nb\r\n"] {
        let v = chars_of(s);
        let words: Vec<String> = words_of(&v).iter().map(|w| string_of(w)).collect();
        assert_eq!(words, s.split_whitespace().collect::<Vec<_>>());
        let lines: Vec<String> = lines_of(&v).iter().map(|w| string_of(w)).collect();
        assert_eq!(lines, s.lines().collect::<Vec<_>>(), "{s:?}");
        assert_eq!(string_of(&trimmed(&v)), s.trim());
    }
}

#[test]
fn text_helpers() {
    let v = chars_of("a::b::");
    assert_eq!(find_text(&v, &chars_of("::"), 0), Some(1));
    assert_eq!(find_text(&v, &chars_of("::"), 2), Some(4));
    assert_eq!(find_text(&v, &chars_of("x"), 0), None);
    assert_eq!(split_on(&chars_of("a,,b"), ',').len(), 3);
    assert_eq!(join_strings(&vec!["a".to_string(), "b".to_string()], ", "), "a, b");
    assert_eq!(width('a') + width('é') + width('€') + width('😀'), 10);
    assert_eq!(byte_len(&chars_of("aé€😀")), 10);
}

#[test]
fn numbers_are_read_as_written() {
    for n in [0u64, 1, 9, 10, 99, 100, 4294967295, u64::MAX] {
        let s = string_of(&decimal_chars(n as u128));
        assert_eq!(s, n.to_string());
        assert_eq!(parse_number(&chars_of(&s), u64::MAX), Some(n));
    }
    assert_eq!(parse_number(&chars_of("+7"), u64::MAX), Some(7));
    assert_eq!(parse_number(&chars_of("18446744073709551616"), u64::MAX), None);
    assert_eq!(parse_number(&chars_of("256"), 255), None);
    assert_eq!(parse_number(&chars_of("-1"), 255), None);
    assert_eq!(parse_number(&chars_of("+"), 255), None);
    assert_eq!(parse_number(&chars_of(""), 255), None);
}
