use attest::cgroup::ResourceStats;
use attest::json::{json_escape, test_result_json, StraceLog};
use attest::output::{byte_unit, format_bytes, format_duration, resource_line, result_line, run_failed, summary, test_list, ByteUnit, ResourceTexts};
use attest::parser::TestCase;
use attest::path::UnixPath;
use attest::runner::TestResult;
use attest::status::{RunningTest, StatusDisplay, BAR_WIDTH, GREEN, RED, RESET};

fn display_with(total: usize, results: Vec<bool>) -> StatusDisplay {
    StatusDisplay { visible: false, total, results }
}

#[test]
fn render_blocks_zero_total_is_blank() {
    assert_eq!(display_with(0, vec![]).render_blocks(), "");
}

#[test]
fn render_blocks_one_block_per_test_when_small() {
    // Fewer tests than BAR_WIDTH: one block each, colored by outcome.
    let s = display_with(2, vec![true, false]).render_blocks();
    assert_eq!(s, format!("{GREEN}█{RESET}{RED}█{RESET}"));
}

#[test]
fn render_blocks_scales_to_bar_width() {
    // Many more tests than blocks: the strip stays at BAR_WIDTH blocks and
    // spans the whole run rather than growing per-test.
    let total = BAR_WIDTH * 5;
    let s = display_with(total, vec![true; total]).render_blocks();
    assert_eq!(s.matches('█').count(), BAR_WIDTH);
}

#[test]
fn render_blocks_block_is_red_if_any_of_its_tests_failed() {
    // 5 tests per block; fail the first test -> only the first block is red.
    let total = BAR_WIDTH * 5;
    let mut results = vec![true; total];
    results[0] = false;
    let s = display_with(total, results).render_blocks();
    assert!(s.starts_with(&format!("{RED}█")));
    assert_eq!(s.matches(RED).count(), 1);
}

#[test]
fn render_blocks_pending_blocks_are_unfilled() {
    // Only the first block's tests have finished; the rest are unfilled.
    let total = BAR_WIDTH * 2;
    let s = display_with(total, vec![true; 2]).render_blocks();
    assert!(s.contains('░'));
    assert!(s.matches('█').count() >= 1);
}

#[test]
fn render_blocks_of_an_uneven_run() {
    // 33 tests in 32 blocks: the last block stands for two.
    let mut results = vec![true; 33];
    results[32] = false;
    let s = display_with(33, results).render_blocks();
    assert_eq!(s.matches('█').count(), 32);
    assert!(s.ends_with(&format!("{RED}█{RESET}")));
    assert_eq!(s.matches(RED).count(), 1);
}

#[test]
fn status_line() {
    let mut s = StatusDisplay::new(2, false, false);
    assert!(s.visible);
    let running = vec![
        RunningTest { name: "a".to_string(), elapsed: "5ms".to_string() },
        RunningTest { name: "b".to_string(), elapsed: "1.00s".to_string() },
    ];
    assert_eq!(s.update(&running).unwrap(), "░░  a(5ms), b(1.00s)");
    s.record(true);
    assert_eq!(s.update(&vec![]).unwrap(), format!("{GREEN}█{RESET}░"));
    assert_eq!(StatusDisplay::new(0, false, false).update(&running).unwrap(), "a(5ms), b(1.00s)");
    assert!(StatusDisplay::new(2, true, false).update(&running).is_none());
    assert!(StatusDisplay::new(2, false, true).update(&running).is_none());
}

#[test]
fn json_strings_are_escaped() {
    assert_eq!(json_escape("a\"b\\c\n\r\t\u{1}\u{1f}é"), "a\\\"b\\\\c\\n\\r\\t\\u0001\\u001fé");
    assert_eq!(json_escape(""), "");
}

fn result(name: &str, passed: bool, timed_out: bool) -> TestResult {
    TestResult {
        name: name.to_string(),
        passed,
        timed_out,
        duration: 1_999_999,
        context: UnixPath::new("/c"),
        source_path: UnixPath::new("d/\"t\".sh"),
        resources: None,
    }
}

#[test]
fn json_of_a_result() {
    let mut r = result("n\"1", true, false);
    let logs = vec![
        StraceLog { name: b"ls.log".to_vec(), content: "z\n".to_string() },
        StraceLog { name: b"cat".to_vec(), content: "c".to_string() },
    ];
    assert_eq!(
        test_result_json(&r, b"out\n", &[0xff], logs),
        "{\"name\":\"n\\\"1\",\"file\":\"d/\\\"t\\\".sh\",\"status\":\"pass\",\"duration_ms\":1,\"stdout\":\"out\\n\",\"xtrace\":\"\u{fffd}\",\"strace\":{\"cat\":\"c\",\"ls\":\"z\\n\"},\"resources\":null}"
    );
    r.resources = Some(ResourceStats {
        cpu_user_usec: Some(1),
        cpu_system_usec: None,
        memory_peak: Some(2),
        io_read_bytes: None,
        io_write_bytes: Some(3),
        pids_peak: Some(4),
    });
    r.passed = false;
    let s = test_result_json(&r, b"", b"", vec![]);
    assert!(s.contains("\"status\":\"fail\""));
    assert!(s.ends_with(
        "\"strace\":{},\"resources\":{\"cpu_user_usec\":1,\"memory_peak\":2,\"io_write_bytes\":3,\"pids_peak\":4}}"
    ));
    r.timed_out = true;
    assert!(test_result_json(&r, b"", b"", vec![]).contains("\"status\":\"timeout\""));
    r.resources = Some(ResourceStats::default());
    assert!(test_result_json(&r, b"", b"", vec![]).ends_with("\"resources\":{}}"));
}

#[test]
fn result_lines() {
    assert_eq!(
        result_line(&result("t", true, false), "1ms"),
        format!("{GREEN}PASS{RESET}  {:<40} (1ms)\n", "t")
    );
    assert_eq!(
        result_line(&result("é", false, true), "2ms"),
        format!("{RED}TIME{RESET}  {:<40} (2ms)\n", "é")
    );
    let long = "x".repeat(41);
    assert_eq!(
        result_line(&result(&long, false, false), "3s"),
        format!("{RED}FAIL{RESET}  {long} (3s)\n")
    );
}

#[test]
fn resource_lines() {
    let t = ResourceTexts { user: "1.0", system: "2.5", memory: "3B", read: "4B", written: "5.0KiB" };
    let mut r = ResourceStats::default();
    assert!(resource_line(&r, &t).is_none());
    r.cpu_user_usec = Some(1000);
    assert_eq!(resource_line(&r, &t).unwrap(), "      cpu=1.0ms\n");
    r.cpu_system_usec = Some(2500);
    r.memory_peak = Some(3);
    r.io_read_bytes = Some(4);
    r.io_write_bytes = Some(5120);
    r.pids_peak = Some(6);
    assert_eq!(resource_line(&r, &t).unwrap(), "      cpu=1.0ms+2.5ms  mem=3B  io=4B/5.0KiB  pids=6\n");
    r.cpu_user_usec = None;
    r.io_read_bytes = None;
    assert_eq!(resource_line(&r, &t).unwrap(), "      cpu=sys:2.5ms  mem=3B  io=5.0KiBw  pids=6\n");
    r.io_write_bytes = None;
    r.io_read_bytes = Some(4);
    assert_eq!(resource_line(&r, &t).unwrap(), "      cpu=sys:2.5ms  mem=3B  io=4Br  pids=6\n");
}

#[test]
fn sizes_and_durations() {
    assert_eq!(byte_unit(1023), ByteUnit::Bytes);
    assert_eq!(byte_unit(1024), ByteUnit::Kib);
    assert_eq!(byte_unit(1048576), ByteUnit::Mib);
    assert_eq!(byte_unit(1073741824), ByteUnit::Gib);
    for b in [0u64, 1023, 1024, 1536, 1048575, 5 << 20, 3 << 30] {
        let unit = byte_unit(b);
        let scaled = format!("{:.*}", unit.decimals(), b as f64 / unit.bytes() as f64);
        let expected = if b >= 1 << 30 {
            format!("{:.2}GiB", b as f64 / (1u64 << 30) as f64)
        } else if b >= 1 << 20 {
            format!("{:.1}MiB", b as f64 / (1u64 << 20) as f64)
        } else if b >= 1 << 10 {
            format!("{:.1}KiB", b as f64 / 1024.0)
        } else {
            format!("{b}B")
        };
        assert_eq!(format_bytes(b, &scaled), expected);
    }
    assert_eq!(format_duration(999_999_999, "1.00"), "999ms");
    assert_eq!(format_duration(1_000_000_000, "1.00"), "1.00s");
    assert_eq!(format_duration(0, "0.00"), "0ms");
}

#[test]
fn runs_are_summed_up() {
    let ok = vec![result("a", true, false), result("b", true, false)];
    assert_eq!(summary(&ok, "9ms"), format!("\nResults: {GREEN}2 passed{RESET}, 2 total\nTime:   9ms\n"));
    assert!(!run_failed(&ok));
    let bad = vec![result("a", true, false), result("b", false, false)];
    assert_eq!(
        summary(&bad, "9ms"),
        format!("\nResults: {GREEN}1 passed{RESET}, {RED}1 failed{RESET}, 2 total\nTime:   9ms\n")
    );
    assert!(run_failed(&bad));
    assert!(!run_failed(&vec![]));
}

#[test]
fn tests_are_listed() {
    let tests = vec![
        TestCase { file: UnixPath::new("d/a.test"), name: "test_x".to_string() },
        TestCase { file: UnixPath::new("/"), name: "test_y".to_string() },
    ];
    assert_eq!(test_list(&tests), "a.test/test_x\n//test_y\n");
}

#[test]
fn a_result_takes_one_line() {
    let logs = vec![StraceLog { name: b"a\nb".to_vec(), content: "x\r\ny\n".to_string() }];
    let s = test_result_json(&result("t\n1", false, true), b"out\nput\n", b"+ [ a ]\n", logs);
    assert!(!s.contains('\n') && !s.contains('\r'));
    assert!(s.starts_with("{\"name\":\"t\\n1\",") && s.ends_with('}'));
}
