use attest::mounts::{parse_mount_points, unescape_octal};
use attest::overlay::{cstr, id_map, join_abs, overlay_opts, submount_upper_dir, submount_work_dir, upper_dir, work_dir, merged_dir, Mode, OverlayError};
use attest::path::UnixPath;
use attest::root::{MountStep, RootOverlay};
use attest::setup::{after_step, copy_action, probe_context, probe_support, setup_root, AfterStep, CopyAction, ProbeStep, SetupStep};
use attest::submounts::{compute_submounts, mount_of, plan_submounts, Submount};

fn p(s: &str) -> UnixPath {
    UnixPath::new(s)
}

fn mounts(v: &[&str]) -> Vec<UnixPath> {
    v.iter().map(|s| p(s)).collect()
}

#[test]
fn unescape_handles_known_escapes() {
    assert_eq!(unescape_octal(b"/mnt/a\\040b"), b"/mnt/a b");
    assert_eq!(unescape_octal(b"/tab\\011x"), b"/tab\tx");
    assert_eq!(unescape_octal(b"/back\\134slash"), b"/back\\slash");
    assert_eq!(unescape_octal(b"/plain"), b"/plain");
}

#[test]
fn unescape_preserves_non_ascii_bytes() {
    // Raw multibyte UTF-8 passes through untouched...
    assert_eq!(unescape_octal("/na\u{ef}ve".as_bytes()), "/na\u{ef}ve".as_bytes());
    // ...and escaped high bytes decode to the byte, not a mangled char.
    assert_eq!(unescape_octal(b"/x\\303\\257y"), b"/x\xc3\xafy");
}

#[test]
fn unescape_leaves_invalid_escapes_alone() {
    assert_eq!(unescape_octal(b"/a\\9zz"), b"/a\\9zz");
    assert_eq!(unescape_octal(b"/a\\777"), b"/a\\777"); // > 255
    assert_eq!(unescape_octal(b"/trunc\\04"), b"/trunc\\04");
}

#[test]
fn unescape_undoes_the_escapes_of_mountinfo() {
    let path = b"/a b\tc\nd\\e\\040";
    let mut escaped: Vec<u8> = Vec::new();
    for b in path {
        match b {
            b' ' => escaped.extend(b"\\040"),
            b'\t' => escaped.extend(b"\\011"),
            b'\n' => escaped.extend(b"\\012"),
            b'\\' => escaped.extend(b"\\134"),
            _ => escaped.push(*b),
        }
    }
    assert_eq!(unescape_octal(&escaped), path.to_vec());
}

#[test]
fn parse_mountinfo_extracts_mount_points() {
    let data = b"36 35 98:0 / / rw shared:1 - ext4 /dev/sda rw\n\
                 37 36 0:5 / /proc rw - proc proc rw\n\
                 38 36 0:6 / /mnt/a\\040b rw - tmpfs tmpfs rw\n";
    let points: Vec<String> = parse_mount_points(data).iter().map(|m| m.display()).collect();
    assert_eq!(points, vec!["/", "/proc", "/mnt/a b"]);
}

#[test]
fn plan_marks_project_and_scratch_ephemeral() {
    let plan = plan_submounts(mounts(&["/", "/proc", "/tmp", "/workspace"]), &p("/workspace/proj"), |_: &UnixPath| true);
    let get = |s: &str| plan.iter().find(|m| m.source.same_as(&p(s))).unwrap();
    assert!(!plan.iter().any(|m| m.source.same_as(&p("/"))));
    assert!(!get("/proc").ephemeral);
    assert!(get("/tmp").ephemeral);
    assert!(get("/workspace").ephemeral);
}

#[test]
fn plan_prunes_children_of_live_mounts_only() {
    let m = mounts(&[
        "/",
        "/proc",
        "/proc/sys/fs/binfmt_misc", // carried by /proc's recursive bind
        "/workspace",
        "/workspace/nested", // under an overlay: must be re-established
    ]);
    let plan = plan_submounts(m, &p("/workspace"), |_: &UnixPath| true);
    let paths: Vec<String> = plan.iter().map(|s| s.source.display()).collect();
    assert!(!paths.contains(&"/proc/sys/fs/binfmt_misc".to_string()));
    assert!(paths.contains(&"/workspace/nested".to_string()));
    assert!(!plan.iter().find(|s| s.source.same_as(&p("/workspace/nested"))).unwrap().ephemeral);
}

#[test]
fn plan_sorts_parents_first_and_dedups() {
    let m = mounts(&["/", "/a/b", "/a", "/tmp", "/a", "/etc/resolv.conf"]);
    let plan = plan_submounts(m, &p("/x"), |q: &UnixPath| !q.same_as(&UnixPath::new("/etc/resolv.conf")));
    // /a appears once, before /a/b would (which is pruned as a live child).
    assert_eq!(plan.iter().filter(|s| s.source.same_as(&p("/a"))).count(), 1);
    for pair in plan.windows(2) {
        assert!(
            pair[0].source.components().len() <= pair[1].source.components().len(),
            "not sorted shallowest-first"
        );
    }
    let resolv = plan.iter().find(|s| s.source.same_as(&p("/etc/resolv.conf"))).unwrap();
    assert!(!resolv.is_dir);
}

#[test]
fn plan_covers_every_mount() {
    let all = ["/", "/dev", "/dev/shm", "/dev/shm/x", "/home", "/home/me/src", "/home/me/src/out", "/var/tmp", "/var"];
    let plan = plan_submounts(mounts(&all), &p("/home/me/src/proj"), |_: &UnixPath| true);
    let names: Vec<String> = plan.iter().map(|s| s.source.display()).collect();
    assert_eq!(names, vec!["/dev", "/home", "/var", "/var/tmp", "/home/me/src", "/home/me/src/out"]);
    let eph: Vec<bool> = plan.iter().map(|s| s.ephemeral).collect();
    assert_eq!(eph, vec![false, false, false, true, true, false]);
    for m in all.iter().skip(1) {
        assert!(plan.iter().any(|s| s.source.same_as(&p(m)) || (!s.ephemeral && p(m).starts_with(&s.source))));
    }
}

#[test]
fn plan_keeps_what_an_overlay_hides() {
    let shown = |all: &[&str]| -> Vec<(String, bool, bool)> {
        plan_submounts(mounts(all), &p("/a/b"), |_: &UnixPath| true)
            .iter()
            .map(|s| (s.source.display(), s.is_dir, s.ephemeral))
            .collect()
    };
    let expected = vec![
        ("/a".to_string(), true, false),
        ("/a/b".to_string(), true, true),
        ("/a/b/c".to_string(), true, false),
    ];
    assert_eq!(shown(&["/", "/a", "/a/b", "/a/b/c"]), expected);
    // The bind of /a/b/c carries what lies below it.
    assert_eq!(shown(&["/", "/a", "/a/b", "/a/b/c", "/a/b/c/d", "/a/x"]), expected);
    // Order and repetitions do not matter.
    assert_eq!(shown(&["/a/b/c", "/a", "/a/b", "/a/b/c", "/", "/a"]), expected);
}

#[test]
fn mount_of_finds_the_longest() {
    let m = mounts(&["/", "/a", "/a/b", "/ab"]);
    assert_eq!(mount_of(&p("/a/b/c"), &m).display(), "/a/b");
    assert_eq!(mount_of(&p("/abc"), &m).display(), "/");
    assert_eq!(mount_of(&p("/x"), &mounts(&["/y"])).display(), "/");
}

#[test]
fn submounts_from_mountinfo() {
    let data = b"1 0 0:1 / / rw - x x rw\n2 1 0:2 / /tmp rw - x x rw\nshort line\n";
    let plan = compute_submounts(data, &p("/w"), |_: &UnixPath| false);
    assert_eq!(plan.len(), 1);
    assert!(plan[0].ephemeral && plan[0].is_dir);
}

#[test]
fn overlay_layout() {
    let c = p("/ctx/t");
    assert_eq!(upper_dir(&c).display(), "/ctx/t/upper");
    assert_eq!(work_dir(&c).display(), "/ctx/t/work");
    assert_eq!(merged_dir(&c).display(), "/ctx/t/merged");
    assert_eq!(submount_upper_dir(&c, 12).display(), "/ctx/t/sub12-upper");
    assert_eq!(submount_work_dir(&c, 0).display(), "/ctx/t/sub0-work");
    assert_eq!(join_abs(&p("/x/merged"), &p("/proc")).display(), "/x/merged/proc");
    assert_eq!(join_abs(&p("/x/merged"), &p("//a/./b/")).display(), "/x/merged/a/./b");
    assert_eq!(join_abs(&p("/x"), &p("rel")).display(), "/x/rel");
    assert_eq!(id_map(1000), "0 1000 1");
}

#[test]
fn overlay_options() {
    let opts = overlay_opts(&p("/"), &p("/u"), &p("/w"), Mode::Privileged).unwrap();
    assert_eq!(opts, "lowerdir=/,upperdir=/u,workdir=/w");
    let opts = overlay_opts(&p("/"), &p("/u"), &p("/w"), Mode::Userns).unwrap();
    assert_eq!(opts, "lowerdir=/,upperdir=/u,workdir=/w,userxattr");
    let e = overlay_opts(&p("/a\0b"), &p("/u"), &p("/w"), Mode::Userns).unwrap_err();
    assert_eq!(e.message(), "overlay options contain NUL");
    assert_eq!(cstr(p("/a\0b")).unwrap_err().message(), "path contains NUL: /a\0b");
    assert!(cstr(p("/ab")).is_ok());
}

fn submounts() -> Vec<Submount> {
    vec![
        Submount { source: p("/dev"), is_dir: true, ephemeral: false },
        Submount { source: p("/tmp"), is_dir: true, ephemeral: true },
        Submount { source: p("/etc/hosts"), is_dir: false, ephemeral: false },
        Submount { source: p("/work"), is_dir: true, ephemeral: true },
    ]
}

#[test]
fn root_is_planned() {
    let b = RootOverlay::build(Mode::Userns, &p("/c"), &p("/work/x"), &submounts(), 7, 8);
    let dirs: Vec<String> = b.dirs.iter().map(|d| d.display()).collect();
    assert_eq!(
        dirs,
        vec!["/c/upper", "/c/work", "/c/merged", "/c/sub0-upper", "/c/sub0-work", "/c/sub1-upper", "/c/sub1-work"]
    );
    let plan = b.plan.unwrap();
    assert_eq!(plan.uid_map, "0 7 1");
    assert_eq!(plan.gid_map, "0 8 1");
    assert_eq!(plan.root_opts, "lowerdir=/,upperdir=/c/upper,workdir=/c/work,userxattr");
    assert_eq!(plan.put_old.display(), "/c/merged/oldroot");
    assert_eq!(plan.context.1.display(), "/c/merged/c");
    assert_eq!(plan.chdir_to.display(), "/work/x");
    match &plan.steps[3] {
        MountStep::Overlay { opts, target } => {
            assert_eq!(target.display(), "/c/merged/work");
            assert_eq!(opts, "lowerdir=/work,upperdir=/c/sub1-upper,workdir=/c/sub1-work,userxattr");
        }
        other => panic!("unexpected step: {other:?}"),
    }
}

#[test]
fn root_of_a_path_with_nul_is_refused() {
    let mut sms = submounts();
    sms[2].source = p("/e\0c");
    let b = RootOverlay::build(Mode::Privileged, &p("/c"), &p("/w"), &sms, 0, 0);
    assert_eq!(b.dirs.len(), 5);
    match b.plan {
        Err(OverlayError::PathHasNul(q)) => assert_eq!(q.display(), "/c/merged/e\0c"),
        other => panic!("unexpected outcome: {other:?}"),
    }
    let b = RootOverlay::build(Mode::Privileged, &p("/c"), &p("/w\0"), &submounts(), 0, 0);
    assert_eq!(b.plan.unwrap_err().message(), "path contains NUL: /w\0");
    let mut sms = submounts();
    sms[1].source = p("t\0p");
    let b = RootOverlay::build(Mode::Privileged, &p("/c"), &p("/w"), &sms, 0, 0);
    assert_eq!(b.dirs.len(), 3);
    assert!(b.plan.is_err());
    let b = RootOverlay::build(Mode::Privileged, &p("/c\0"), &p("/w"), &vec![], 0, 0);
    assert_eq!(b.plan.unwrap_err().message(), "overlay options contain NUL");
}

#[test]
fn setup_takes_the_steps_in_order() {
    let plan = RootOverlay::build(Mode::Privileged, &p("/c"), &p("/work/x"), &submounts(), 0, 0).plan.unwrap();
    let actions = setup_root(&plan);
    assert_eq!(actions.len(), 3 + 8 + 9);
    assert!(matches!(actions[0].step, SetupStep::EnterNamespace { .. }));
    assert!(matches!(actions[1].step, SetupStep::PrivatizeMounts));
    assert!(matches!(actions[2].step, SetupStep::MountOverlay { .. }));
    assert!(matches!(actions[3].step, SetupStep::MakeDir { .. }));
    assert!(matches!(actions[4].step, SetupStep::BindTree { .. }));
    assert!(matches!(actions[7].step, SetupStep::MakeFile { .. }));
    assert!(matches!(actions[15].step, SetupStep::PivotRoot { .. }));
    for a in &actions {
        let isolating = matches!(
            a.step,
            SetupStep::EnterNamespace { .. }
                | SetupStep::PrivatizeMounts
                | SetupStep::MountOverlay { .. }
                | SetupStep::PivotRoot { .. }
        );
        assert!(!isolating || a.fatal);
    }
    match &actions[19].step {
        SetupStep::ChangeDir { path } => assert_eq!(path.display(), "/work/x"),
        other => panic!("unexpected step: {other:?}"),
    }
    assert_eq!(after_step(true, false), AfterStep::Fail);
    assert_eq!(after_step(false, false), AfterStep::Continue);
    assert_eq!(after_step(true, true), AfterStep::Continue);
}

#[test]
fn probing_prefers_the_privileged_mode() {
    let run = |works: fn(Mode) -> bool| {
        let mut probed = Vec::new();
        let mut step = probe_support(None);
        loop {
            match step {
                ProbeStep::Probe(mode) => {
                    probed.push(mode);
                    step = probe_support(Some((mode, works(mode))));
                }
                ProbeStep::Chosen(mode) => return (probed, mode),
            }
        }
    };
    assert_eq!(run(|_m| true), (vec![Mode::Privileged], Some(Mode::Privileged)));
    assert_eq!(run(|m| m == Mode::Userns), (vec![Mode::Privileged, Mode::Userns], Some(Mode::Userns)));
    assert_eq!(run(|_m| false), (vec![Mode::Privileged, Mode::Userns], None));
    assert_eq!(probe_context(&p("/s"), Mode::Privileged).display(), "/s/.attest-probe-priv");
    assert_eq!(probe_context(&p("/s"), Mode::Userns).display(), "/s/.attest-probe-userns");
}

#[test]
fn special_files_are_not_copied() {
    assert_eq!(copy_action(true, false, false), CopyAction::Descend);
    assert_eq!(copy_action(false, true, false), CopyAction::Relink);
    assert_eq!(copy_action(false, false, true), CopyAction::CopyFile);
    assert_eq!(copy_action(false, false, false), CopyAction::Skip);
}
