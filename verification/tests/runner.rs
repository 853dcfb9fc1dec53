use attest::path::UnixPath;
use attest::processes::{children_file, fuzz_pick, next_random, parse_children, process_state, stat_file, Descent, Process};
use attest::runner::{build_result, build_runner_script, choose_shell, functions_script, interrupted, override_missing, override_target, plan_overrides, plan_spawn, resolve_shell, running_time, save_plan, script_name, sh_quote, spawn_error, strace_dirs, strace_wrapper, OverrideSpec};
use attest::scheduler::{Exit, Outcome, Scheduler};
use attest::submounts::Submount;
use attest::syntax::FunctionDefinition;
use attest::xtrace::XtraceStreamer;

fn p(s: &str) -> UnixPath {
    UnixPath::new(s)
}

fn names(v: &[&str]) -> Vec<String> {
    v.iter().map(|s| s.to_string()).collect()
}

/// Runs the scheduler to its end; `passes` says which tests succeed. Every round ends the
/// processes at the given places.
fn run(s: &mut Scheduler, passes: &dyn Fn(&str) -> bool) -> usize {
    let mut most = s.running.len();
    while !s.running.is_empty() {
        let exits: Vec<Exit> = s
            .running
            .iter()
            .enumerate()
            .map(|(i, r)| Exit { position: i, success: passes(&r.name) })
            .collect();
        s.reap(&exits);
        while !s.batch.is_empty() {
            s.record();
        }
        most = most.max(s.running.len());
    }
    most
}

#[test]
fn run_all_tests_serial() {
    let mut s = Scheduler::new(names(&["test_a", "test_b"]), 1, false);
    let most = run(&mut s, &|_| true);
    assert_eq!(most, 1);
    assert_eq!(s.results.len(), 2);
    assert!(s.results.iter().all(|r| r.passed));
}

#[test]
fn bail_stops_after_first_failure() {
    let mut s = Scheduler::new(names(&["test_fail", "test_pass"]), 1, true);
    run(&mut s, &|n| n == "test_pass");
    // Only the failing test ran; bail stopped execution
    assert_eq!(s.results.len(), 1);
    assert!(!s.results[0].passed);
}

#[test]
fn run_all_tests_parallel() {
    let mut s = Scheduler::new(names(&["test_x", "test_y"]), 0, false);
    let most = run(&mut s, &|n| n == "test_x");
    assert_eq!(most, 1);
    assert_eq!(s.results.len(), 2);
    assert!(s.results.iter().any(|r| r.passed));
    assert!(s.results.iter().any(|r| !r.passed));
}

#[test]
fn timeout_kills_slow_test() {
    let mut s = Scheduler::new(names(&["test_slow"]), 1, false);
    assert!(s.time_out(&vec![200_000_000], 200_000_000).is_empty());
    assert_eq!(s.time_out(&vec![200_000_001], 200_000_000), vec![0]);
    assert!(s.time_out(&vec![300_000_000], 200_000_000).is_empty());
    run(&mut s, &|_| true);
    assert_eq!(s.results.len(), 1);
    assert!(!s.results[0].passed);
    assert!(s.results[0].timed_out);
}

#[test]
fn every_test_is_reported_once() {
    let all: Vec<String> = (0..20).map(|i| format!("t{i}")).collect();
    let mut s = Scheduler::new(all, 3, false);
    assert_eq!(s.running.len(), 3);
    let most = run(&mut s, &|n| n.len() == 2);
    assert_eq!(most, 3);
    let mut seen: Vec<usize> = s.results.iter().map(|r| r.index).collect();
    seen.sort();
    assert_eq!(seen, (0..20).collect::<Vec<usize>>());
}

#[test]
fn a_round_is_reported_in_the_order_of_names() {
    let mut s = Scheduler::new(names(&["c", "a", "b", "d"]), 3, false);
    let reaped = s.reap(&vec![Exit { position: 0, success: true }, Exit { position: 1, success: false }, Exit { position: 2, success: true }]);
    assert_eq!(reaped.iter().map(|r| r.index).collect::<Vec<_>>(), vec![2, 1, 0]);
    assert!(reaped.iter().all(|r| r.kept));
    assert!(s.running.is_empty());
    assert_eq!(s.record(), Some(3));
    assert_eq!(s.record(), None);
    assert_eq!(s.record(), None);
    assert_eq!(s.results.iter().map(|r| r.name.as_str()).collect::<Vec<_>>(), vec!["a", "b", "c"]);
    assert!(!s.results[0].passed);
    assert_eq!(s.running.len(), 1);
}

#[test]
fn after_bailing_out_results_are_dropped() {
    let mut s = Scheduler::new(names(&["a", "b", "c"]), 2, true);
    s.reap(&vec![Exit { position: 0, success: false }]);
    assert_eq!(s.record(), None);
    assert!(s.bailed);
    let reaped = s.reap(&vec![Exit { position: 0, success: true }]);
    assert!(!reaped[0].kept);
    assert!(s.batch.is_empty());
    assert_eq!(s.dropped, vec![1]);
    assert_eq!(s.results.len(), 1);
}

#[test]
fn override_forms() {
    let o = OverrideSpec::parse("/usr/bin/example").unwrap();
    assert_eq!((o.name.as_str(), o.source.display().as_str()), ("example", "/usr/bin/example"));
    let o: OverrideSpec = "./bin/example".parse().unwrap();
    assert_eq!((o.name.as_str(), o.source.display().as_str()), ("example", "./bin/example"));
    let o = OverrideSpec::parse("example=/usr/bin/override=x").unwrap();
    assert_eq!((o.name.as_str(), o.source.display().as_str()), ("example", "/usr/bin/override=x"));
    assert_eq!(OverrideSpec::parse("=x").unwrap_err(), "invalid override mapping: =x");
    assert_eq!(OverrideSpec::parse("x=").unwrap_err(), "invalid override mapping: x=");
    assert_eq!(OverrideSpec::parse("a/b=c").unwrap_err(), "override name must not contain '/': a/b");
    assert_eq!(
        OverrideSpec::parse("ls").unwrap_err(),
        "override `ls` must be a path (e.g. `/usr/bin/ls`) or a mapping (e.g. `ls=/path/to/bin`)"
    );
    assert_eq!(OverrideSpec::parse("/").unwrap_err(), "invalid override path: /");
    assert_eq!(o.clone().name, "example");
    assert_eq!(override_target(&p("/c"), &o).display(), "/c/bin/example");
    assert_eq!(override_missing(&p("/x y")), "--override: source path does not exist: /x y");
}

#[test]
fn paths_are_quoted() {
    assert_eq!(sh_quote(&p("/a b")), "'/a b'");
    assert_eq!(sh_quote(&p("it's")), "'it'\\''s'");
    assert_eq!(sh_quote(&p("$x;`y`\"")), "'$x;`y`\"'");
    assert_eq!(sh_quote(&p("")), "''");
}

#[test]
fn runner_script() {
    let s = build_runner_script("test_a", &p("/c/functions.sh"), &p("/c"), &vec![p("/b1"), p("/b2")], &names(&["ls"]));
    assert_eq!(
        s,
        "export PATH='/b1':\"$PATH\"\nexport PATH='/b2':\"$PATH\"\nexport PATH='/c/bin':\"$PATH\"\nexport PATH='/c/strace_bin':\"$PATH\"\nexec 1>'/c/stdout.log' 2>'/c/xtrace.log'\nset -e\n. '/c/functions.sh'\nPS4='+$LINENO: '\nset -x\ntest_a\n"
    );
    let s = build_runner_script("t", &p("f"), &p("w"), &vec![], &vec![]);
    assert_eq!(
        s,
        "export PATH='w/bin':\"$PATH\"\nexec 1>'w/stdout.log' 2>'w/xtrace.log'\nset -e\n. 'f'\nPS4='+$LINENO: '\nset -x\nt\n"
    );
}

fn function(name: &str, text: &str) -> FunctionDefinition {
    FunctionDefinition { name: name.to_string(), text: text.to_string() }
}

#[test]
fn spawn_is_planned() {
    let fs = vec![function("a", "a () \n{ :; }"), function("b", "b () \n{ :; }")];
    assert_eq!(functions_script(&fs), "a () \n{ :; }\nb () \n{ :; }\n");
    let plan = plan_spawn("b", &fs, &p("/src/x.test"), &p("/c"), &vec![], &vec![]);
    assert_eq!(plan.functions_path.display(), "/c/functions.sh");
    assert_eq!(plan.functions, functions_script(&fs));
    assert!(plan.runner.ends_with("set -x\nb\n"));
    assert_eq!(plan.script_name, "/src/x.test");
    assert_eq!(script_name(&UnixPath { bytes: vec![0xff] }), "bash");
}

#[test]
fn create_strace_wrappers_creates_scripts() {
    let w = strace_wrapper(&p("/ctx"), "ls", Some(&p("/bin/ls"))).unwrap();
    assert_eq!(w.wrapper.display(), "/ctx/strace_bin/ls");
    assert!(w.script.starts_with("#!/bin/sh\n"));
    assert!(w.script.contains("strace"));
    assert!(w.script.contains("\"$@\""));
    assert_eq!(w.script, "#!/bin/sh\nexec strace -f -o '/ctx/strace/ls.log' '/bin/ls' \"$@\"\n");
    let (bin, logs) = strace_dirs(&p("/ctx"));
    assert_eq!((bin.display().as_str(), logs.display().as_str()), ("/ctx/strace_bin", "/ctx/strace"));
}

#[test]
fn create_strace_wrappers_unknown_command_errors() {
    let result = strace_wrapper(&p("/ctx"), "nonexistent_cmd_xyz", None);
    assert!(result.is_err());
    assert_eq!(result.unwrap_err(), "--strace: command not found: nonexistent_cmd_xyz");
}

#[test]
fn shells_are_resolved() {
    assert_eq!(resolve_shell("/bin/zsh", |_s: &str| true, |_s: &str| false), "/bin/zsh");
    assert_eq!(resolve_shell("/bin/zsh", |_s: &str| false, |_s: &str| true), "/bin/sh");
    assert_eq!(resolve_shell("zsh", |_s: &str| false, |_s: &str| true), "zsh");
    assert_eq!(resolve_shell("zsh", |_s: &str| true, |_s: &str| false), "/bin/sh");
    let head = Some(b"#!/usr/bin/env zsh\n".to_vec());
    assert_eq!(choose_shell(None, &head, |_s: &str| true, |_s: &str| true), "zsh");
    assert_eq!(choose_shell(Some("/x/dash"), &head, |_s: &str| true, |_s: &str| true), "/x/dash");
    assert_eq!(choose_shell(None, &None, |_s: &str| true, |s: &str| s != "bash"), "/bin/sh");
}

#[test]
fn messages_of_a_run() {
    assert_eq!(spawn_error("t", "boom", false), "spawn failed for t: boom");
    assert_eq!(
        spawn_error("t", "boom", true),
        "spawn failed for t: boom (isolation was active for this test; --no-overlay disables it)"
    );
    assert_eq!(interrupted(3), "interrupted; killed 3 running test(s)");
    assert_eq!(running_time(Some(5), 7), 5000);
    assert_eq!(running_time(None, 7), 7);
}

#[test]
fn results_are_built() {
    let o = Outcome { index: 4, name: "t".to_string(), passed: false, timed_out: true };
    let r = build_result(&o, 9, p("/c"), p("/s"), None);
    assert_eq!((r.name.as_str(), r.passed, r.timed_out, r.duration), ("t", false, true, 9));
    assert_eq!((r.context.display().as_str(), r.source_path.display().as_str()), ("/c", "/s"));
    assert!(r.resources.is_none());
}

#[test]
fn contexts_are_saved() {
    let sms = vec![
        Submount { source: p("/dev"), is_dir: true, ephemeral: false },
        Submount { source: p("/tmp"), is_dir: true, ephemeral: true },
        Submount { source: p("/w/x"), is_dir: true, ephemeral: true },
    ];
    let plan = save_plan("t1", &p("/c"), &p("/save"), &sms);
    assert_eq!(plan.dst.display(), "/save/t1");
    assert_eq!(plan.upper.display(), "/c/upper");
    let deltas: Vec<(String, String, String)> =
        plan.deltas.iter().map(|d| (d.upper.display(), d.dst.display(), d.source.display())).collect();
    assert_eq!(
        deltas,
        vec![
            ("/c/sub0-upper".to_string(), "/save/t1/tmp".to_string(), "/tmp".to_string()),
            ("/c/sub1-upper".to_string(), "/save/t1/w/x".to_string(), "/w/x".to_string()),
        ]
    );
    assert_eq!(plan.logs[0].0.display(), "/c/stdout.log");
    assert_eq!(plan.logs[1].1.display(), "/save/t1/xtrace.log");
}

#[test]
fn processes_are_found() {
    assert_eq!(parse_children("12 34 x 99999999999 5 "), vec![12, 34, 5]);
    let mut d = Descent::new(1);
    assert_eq!(d.next_pid(), Some(1));
    d.add_children("2 3");
    assert_eq!(d.next_pid(), Some(3));
    d.add_children("4");
    assert_eq!(d.next_pid(), Some(4));
    assert_eq!(d.next_pid(), Some(2));
    assert_eq!(d.next_pid(), None);
    assert_eq!(d.found, vec![1, 2, 3, 4]);
    assert_eq!(children_file(7), "/proc/7/task/7/children");
    assert_eq!(stat_file(7), "/proc/7/stat");
    assert_eq!(process_state(Some("7 (a) b)) T 1 2")), Some('T'));
    assert_eq!(process_state(Some("7 (a)")), None);
    assert_eq!(process_state(Some("")), None);
    assert_eq!(process_state(None), None);
}

#[test]
fn fuzzing_picks_processes() {
    let mut x: u64 = 88172645463325252;
    x ^= x << 13;
    x ^= x >> 7;
    x ^= x << 17;
    assert_eq!(next_random(88172645463325252), x);
    let ps = vec![
        Process { pid: 1, state: Some('S') },
        Process { pid: 2, state: Some('T') },
        Process { pid: 3, state: None },
        Process { pid: 4, state: Some('R') },
    ];
    let pick = fuzz_pick(5, true, 1, &ps);
    assert_eq!((pick.rng, pick.target), (next_random(5), Some(2)));
    let pick = fuzz_pick(5, false, 1, &ps);
    let expected = [3, 4][(next_random(5) as usize) % 2];
    assert_eq!((pick.rng, pick.target), (next_random(5), Some(expected)));
    let pick = fuzz_pick(5, true, 2, &ps);
    assert_eq!((pick.rng, pick.target), (5, None));
}

#[test]
fn traces_are_streamed_one_at_a_time() {
    let mut x = XtraceStreamer::new();
    assert!(x.try_acquire("a", false).is_none());
    assert_eq!(x.try_acquire("a", true).unwrap(), "\x1b[2m--- xtrace: a ---\x1b[0m");
    assert!(x.try_acquire("b", true).is_none());
    assert!(x.is_holder("a") && !x.is_holder("b"));
    assert!(x.has_new(Some(1)) && !x.has_new(Some(0)) && !x.has_new(None));
    assert!(x.flush_new(10));
    assert!(!x.flush_new(0));
    assert!(!x.has_new(Some(10)) && x.has_new(Some(11)));
    assert!(x.dump_missed("a", Some(5)).is_none());
    assert_eq!(x.dump_missed("b", Some(5)).unwrap(), "\x1b[2m--- xtrace: b ---\x1b[0m");
    assert!(x.dump_missed("b", Some(0)).is_none() && x.dump_missed("b", None).is_none());
    x.release();
    assert!(!x.is_holder("a") && !x.has_new(Some(5)) && !x.flush_new(3));
}

#[test]
fn overrides_are_planned_in_order() {
    let specs: Vec<OverrideSpec> =
        ["/usr/bin/a", "b=/opt/c", "./d"].iter().map(|s| OverrideSpec::parse(s).unwrap()).collect();
    let copies = plan_overrides(&p("/ctx"), &specs, &vec![true, true, true]).unwrap();
    let shown: Vec<(String, String)> = copies.iter().map(|c| (c.from.display(), c.to.display())).collect();
    let pair = |a: &str, b: &str| (a.to_string(), b.to_string());
    assert_eq!(
        shown,
        vec![pair("/usr/bin/a", "/ctx/bin/a"), pair("/opt/c", "/ctx/bin/b"), pair("./d", "/ctx/bin/d")]
    );
    assert_eq!(
        plan_overrides(&p("/ctx"), &specs, &vec![true, false, false]).unwrap_err(),
        "--override: source path does not exist: /opt/c"
    );
    assert!(plan_overrides(&p("/ctx"), &vec![], &vec![]).unwrap().is_empty());
}
