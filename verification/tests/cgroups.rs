use attest::cgroup::{cgroup_dir_name, check_io, read_io_field, read_single_u64, read_stat_field, CgroupFiles, Cgroups, CreateStep, Created, ResourceStats, TestCgroup};
use attest::hierarchy::{cgroup_type, controllers_to_enable, ensure_domain_cgroup, is_domain, try_parent, BaseSearch, Cleanup, DomainEvent, DomainStep, SearchEvent, SearchState};
use attest::path::UnixPath;

fn p(s: &str) -> UnixPath {
    UnixPath::new(s)
}

#[test]
fn stat_files_are_read() {
    let cpu = "usage_usec 30\nuser_usec 10\nsystem_usec x\nsystem_usec 20\n";
    assert_eq!(read_stat_field(Some(cpu), "user_usec"), Some(10));
    assert_eq!(read_stat_field(Some(cpu), "system_usec"), Some(20));
    assert_eq!(read_stat_field(Some(cpu), "user"), None);
    assert_eq!(read_stat_field(None, "user_usec"), None);
    assert_eq!(read_single_u64(Some(" 42\n")), Some(42));
    assert_eq!(read_single_u64(Some("max\n")), None);
    assert_eq!(read_single_u64(None), None);
    let io = "8:0 rbytes=10 wbytes=1 rios=2\n8:16 rbytes=5 wbytes=x\n";
    assert_eq!(read_io_field(Some(io), "rbytes"), Some(15));
    assert_eq!(read_io_field(Some(io), "wbytes"), Some(1));
    assert_eq!(read_io_field(Some(io), "dbytes"), None);
    assert_eq!(read_io_field(None, "rbytes"), None);
    assert!(check_io(Some(io)));
    assert!(!check_io(Some("8:0 rbytes=18446744073709551615 rbytes=1")));
}

#[test]
fn stats_of_a_test() {
    let cg = TestCgroup { path: p("/sys/fs/cgroup/attest/t_0") };
    assert_eq!(cg.procs_path().display(), "/sys/fs/cgroup/attest/t_0/cgroup.procs");
    let cpu = Some("user_usec 7\nsystem_usec 3\n");
    assert_eq!(cg.read_cpu_time(cpu), Some(10));
    assert_eq!(cg.read_cpu_time(Some("user_usec 7\n")), Some(7));
    assert_eq!(cg.read_cpu_time(Some("system_usec 7\n")), None);
    assert_eq!(cg.read_cpu_time(None), None);
    let stats = cg.read_stats(&CgroupFiles {
        cpu_stat: cpu,
        memory_peak: None,
        memory_current: Some("9"),
        io_stat: Some("8:0 rbytes=4"),
        pids_peak: Some("2\n"),
    });
    assert_eq!(
        stats,
        ResourceStats {
            cpu_user_usec: Some(7),
            cpu_system_usec: Some(3),
            memory_peak: Some(9),
            io_read_bytes: Some(4),
            io_write_bytes: None,
            pids_peak: Some(2),
        }
    );
    let none = CgroupFiles { cpu_stat: None, memory_peak: None, memory_current: None, io_stat: None, pids_peak: None };
    assert_eq!(cg.read_stats(&none), ResourceStats::default());
}

#[test]
fn cgroups_are_named_and_created() {
    assert_eq!(cgroup_dir_name("a.test:té-1_x#2", 7), "a_test_té-1_x_2_7");
    let mut cgroups = Cgroups::new(Some(p("/b")));
    let first = TestCgroup::try_create(&mut cgroups, "t").unwrap();
    let second = TestCgroup::try_create(&mut cgroups, "../t").unwrap();
    assert_eq!(first.path.display(), "/b/t_0");
    assert_eq!(second.path.display(), "/b/___t_1");
    assert!(matches!(first.after(Created::Created), CreateStep::Made(c) if c.path.display() == "/b/t_0"));
    assert!(matches!(second.after(Created::Failed), CreateStep::GiveUp));
    let mut none = Cgroups::new(None);
    assert!(TestCgroup::try_create(&mut none, "t").is_none());
    assert_eq!(none.next, 0);
}

/// Runs a creation; the outcomes are those of the attempts. Gives what was done.
fn created(outcomes: &[Created]) -> (Vec<&'static str>, bool) {
    let mut creation = TestCgroup::try_create(&mut Cgroups::new(Some(p("/b"))), "t").unwrap();
    let mut done = Vec::new();
    for outcome in outcomes {
        done.push("create");
        match creation.after(*outcome) {
            CreateStep::Made(c) => {
                assert_eq!(c.procs_path().display(), "/b/t_0/cgroup.procs");
                return (done, true);
            }
            CreateStep::RemoveThenCreate(again) => {
                assert_eq!(again.path.display(), "/b/t_0");
                done.push("remove");
                creation = again;
            }
            CreateStep::GiveUp => return (done, false),
        }
    }
    panic!("not done after {done:?}");
}

#[test]
fn stale_cgroups_are_replaced() {
    assert_eq!(created(&[Created::Exists, Created::Created]), (vec!["create", "remove", "create"], true));
    assert_eq!(created(&[Created::Exists, Created::Exists]), (vec!["create", "remove", "create"], false));
    assert_eq!(created(&[Created::Exists, Created::Failed]), (vec!["create", "remove", "create"], false));
    assert_eq!(created(&[Created::Created]), (vec!["create"], true));
    assert_eq!(created(&[Created::Failed]), (vec!["create"], false));
}

#[test]
fn domains() {
    assert!(is_domain(None) && is_domain(Some("domain\n")));
    assert!(!is_domain(Some("domain threaded\n")));
    assert_eq!(cgroup_type(Some(" threaded\n")), "threaded");
}

/// Runs the steps to a domain cgroup. Gives what was done.
fn ensured(created: &[Created], domain: &[bool]) -> (Vec<&'static str>, bool) {
    let (mut created, mut domain) = (created.iter(), domain.iter());
    let mut done = Vec::new();
    let mut step = DomainStep::Create;
    loop {
        let event = match step {
            DomainStep::Create => {
                done.push("create");
                DomainEvent::Created(*created.next().unwrap())
            }
            DomainStep::PurgeThenCreate => {
                done.push("purge");
                done.push("create");
                DomainEvent::Created(*created.next().unwrap())
            }
            DomainStep::CheckExisting | DomainStep::CheckMade => {
                done.push("check");
                DomainEvent::Checked(*domain.next().unwrap())
            }
            DomainStep::Usable => return (done, true),
            DomainStep::RemoveAndGiveUp => {
                done.push("remove");
                return (done, false);
            }
            DomainStep::GiveUp => return (done, false),
        };
        step = ensure_domain_cgroup(step, event);
    }
}

#[test]
fn domain_cgroups_are_recovered() {
    assert_eq!(ensured(&[Created::Created], &[true]), (vec!["create", "check"], true));
    assert_eq!(ensured(&[Created::Created], &[false]), (vec!["create", "check", "remove"], false));
    assert_eq!(ensured(&[Created::Failed], &[]), (vec!["create"], false));
    assert_eq!(ensured(&[Created::Exists], &[true, true]), (vec!["create", "check", "check"], true));
    assert_eq!(
        ensured(&[Created::Exists, Created::Created], &[false, true]),
        (vec!["create", "check", "purge", "create", "check"], true)
    );
    assert_eq!(
        ensured(&[Created::Exists, Created::Created], &[false, false]),
        (vec!["create", "check", "purge", "create", "check", "remove"], false)
    );
    assert_eq!(
        ensured(&[Created::Exists, Created::Exists], &[false]),
        (vec!["create", "check", "purge", "create"], false)
    );
}

#[test]
fn parents_stay_below_the_root() {
    let mut a = p("/sys/fs/cgroup/x/y");
    assert!(try_parent(&mut a));
    assert_eq!(a.display(), "/sys/fs/cgroup/x");
    assert!(!try_parent(&mut a));
    assert_eq!(a.display(), "/sys/fs/cgroup/x");
    let mut root = p("/sys/fs/cgroup");
    assert!(!try_parent(&mut root));
    let mut other = p("/a/b/c/d/e");
    assert!(!try_parent(&mut other));
}

#[test]
fn the_search_walks_up() {
    assert!(BaseSearch::start(None).is_none());
    assert!(BaseSearch::start(Some("1:cpu:/x\n")).is_none());
    let mut s = BaseSearch::start(Some("1:cpu:/x\n0::/u/v \n")).unwrap();
    assert_eq!(s.ancestor.display(), "/sys/fs/cgroup/u/v");
    assert_eq!(s.state, SearchState::CheckAncestor);
    assert!(s.step(SearchEvent::No).is_empty());
    assert_eq!(s.ancestor.display(), "/sys/fs/cgroup/u");
    for state in [SearchState::EnsureBase, SearchState::EnsureMain, SearchState::EnterMain, SearchState::Probe] {
        assert!(s.step(SearchEvent::Yes).is_empty());
        assert_eq!(s.state, state);
    }
    assert_eq!(s.base().display(), "/sys/fs/cgroup/u/attest");
    assert_eq!(s.main().display(), "/sys/fs/cgroup/u/attest/main");
    let cleanup: Vec<String> = s
        .step(SearchEvent::No)
        .iter()
        .map(|c| match c {
            Cleanup::RemoveDir(d) => format!("rm {}", d.display()),
            Cleanup::WritePid(d) => format!("pid {}", d.display()),
        })
        .collect();
    assert_eq!(
        cleanup,
        vec![
            "pid /sys/fs/cgroup/u/cgroup.procs",
            "rm /sys/fs/cgroup/u/attest/main",
            "rm /sys/fs/cgroup/u/attest"
        ]
    );
    assert_eq!(s.state, SearchState::NotFound);
}

#[test]
fn the_search_ends() {
    let mut s = BaseSearch::start(Some("0::/a/b/c\n")).unwrap();
    for _ in 0..5 {
        s.step(SearchEvent::Yes);
    }
    assert_eq!(s.state, SearchState::Found);
    let mut s = BaseSearch::start(Some("0::/a/b/c\n")).unwrap();
    for _ in 0..3 {
        s.step(SearchEvent::Yes);
    }
    assert_eq!(s.step(SearchEvent::Unsupported).len(), 2);
    assert_eq!(s.state, SearchState::NotFound);
    let mut s = BaseSearch::start(Some("0::/a/b/c\n")).unwrap();
    s.step(SearchEvent::Yes);
    s.step(SearchEvent::Yes);
    assert_eq!(s.step(SearchEvent::No).len(), 1);
    assert_eq!(s.ancestor.display(), "/sys/fs/cgroup/a/b");
}

#[test]
fn controllers() {
    assert_eq!(controllers_to_enable("cpuset cpu io memory hugetlb\n"), vec!["+cpu", "+memory", "+io"]);
    assert_eq!(controllers_to_enable("pids"), vec!["+pids"]);
    assert!(controllers_to_enable("").is_empty());
}

#[test]
fn cgroups_of_one_test_differ() {
    assert_eq!(cgroup_dir_name("t:1", 0), "t_1_0");
    assert_eq!(cgroup_dir_name("t", 10), "t_10");
    assert_ne!(cgroup_dir_name("t_1", 0), cgroup_dir_name("t", 10));
    assert_ne!(cgroup_dir_name("t", 1), cgroup_dir_name("t_1", 11));
}
