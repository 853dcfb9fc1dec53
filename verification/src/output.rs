//! What is printed of tests and their results.

use vstd::prelude::*;

use crate::cgroup::ResourceStats;
use crate::number::{decimal, decimal_chars};
use crate::parser::{case_views, CaseView, TestCase};
use crate::runner::TestResult;
use crate::snippet::file_label;
use crate::status::{GREEN, RED, RESET};
use crate::text::{chars_of, extend, extend_str, join, join_strings, starts_with, string_of, texts};
use crate::words::{lemma_lines_are_read_one_by_one, lines};

verus! {

/// A duration in words: milliseconds below a second, else the seconds, which `seconds`
/// holds as text.
pub open spec fn duration_text(nanos: u128, seconds: Seq<char>) -> Seq<char> {
    if nanos < 1_000_000_000 {
        decimal((nanos / 1_000_000) as nat) + "ms"@
    } else {
        seconds + "s"@
    }
}

/// A duration in words; `seconds` holds its seconds with two decimals.
pub fn format_duration(nanos: u128, seconds: &str) -> (r: String)
    ensures
        r@ == duration_text(nanos, seconds@),
{
    let mut v: Vec<char>;
    if nanos < 1_000_000_000 {
        v = decimal_chars(nanos / 1_000_000);
        extend_str(&mut v, "ms");
    } else {
        v = chars_of(seconds);
        extend_str(&mut v, "s");
    }
    string_of(v.as_slice())
}

/// A unit in which a number of bytes is shown.
#[derive(Clone, Copy, PartialEq, Eq, Structural, Debug)]
pub enum ByteUnit {
    Bytes,
    Kib,
    Mib,
    Gib,
}

/// The largest unit that the number reaches.
pub open spec fn unit_of(b: u64) -> ByteUnit {
    if b >= 1073741824 {
        ByteUnit::Gib
    } else if b >= 1048576 {
        ByteUnit::Mib
    } else if b >= 1024 {
        ByteUnit::Kib
    } else {
        ByteUnit::Bytes
    }
}

/// The unit in which a number of bytes is shown.
pub fn byte_unit(b: u64) -> (r: ByteUnit)
    ensures
        r == unit_of(b),
{
    if b >= 1073741824 {
        ByteUnit::Gib
    } else if b >= 1048576 {
        ByteUnit::Mib
    } else if b >= 1024 {
        ByteUnit::Kib
    } else {
        ByteUnit::Bytes
    }
}

impl ByteUnit {
    /// How many bytes the unit has.
    pub open spec fn size(self) -> u64 {
        match self {
            ByteUnit::Bytes => 1,
            ByteUnit::Kib => 1024,
            ByteUnit::Mib => 1048576,
            ByteUnit::Gib => 1073741824,
        }
    }

    /// How many bytes the unit has.
    pub fn bytes(self) -> (r: u64)
        ensures
            r == self.size(),
    {
        match self {
            ByteUnit::Bytes => 1,
            ByteUnit::Kib => 1024,
            ByteUnit::Mib => 1048576,
            ByteUnit::Gib => 1073741824,
        }
    }

    /// How many decimals are shown.
    pub fn decimals(self) -> (r: usize)
        ensures
            r == (match self {
                ByteUnit::Bytes => 0usize,
                ByteUnit::Kib => 1,
                ByteUnit::Mib => 1,
                ByteUnit::Gib => 2,
            }),
    {
        match self {
            ByteUnit::Bytes => 0,
            ByteUnit::Kib => 1,
            ByteUnit::Mib => 1,
            ByteUnit::Gib => 2,
        }
    }
}

/// A number is shown in the largest unit of which it has at least one.
pub proof fn lemma_unit_fits(b: u64)
    ensures
        b > 0 ==> unit_of(b).size() <= b,
        unit_of(b) != ByteUnit::Gib ==> b < 1024 * unit_of(b).size(),
{
}

/// A number of bytes in words; `scaled` holds it in its unit as text.
pub open spec fn bytes_text(b: u64, scaled: Seq<char>) -> Seq<char> {
    match unit_of(b) {
        ByteUnit::Bytes => decimal(b as nat) + "B"@,
        ByteUnit::Kib => scaled + "KiB"@,
        ByteUnit::Mib => scaled + "MiB"@,
        ByteUnit::Gib => scaled + "GiB"@,
    }
}

/// A number of bytes in words; `scaled` holds it divided by the size of its unit, with
/// the decimals of the unit.
pub fn format_bytes(b: u64, scaled: &str) -> (r: String)
    ensures
        r@ == bytes_text(b, scaled@),
{
    let mut v: Vec<char>;
    match byte_unit(b) {
        ByteUnit::Bytes => {
            v = decimal_chars(b as u128);
            extend_str(&mut v, "B");
        },
        ByteUnit::Kib => {
            v = chars_of(scaled);
            extend_str(&mut v, "KiB");
        },
        ByteUnit::Mib => {
            v = chars_of(scaled);
            extend_str(&mut v, "MiB");
        },
        ByteUnit::Gib => {
            v = chars_of(scaled);
            extend_str(&mut v, "GiB");
        },
    }
    string_of(v.as_slice())
}

/// `n` spaces.
pub open spec fn spaces(n: nat) -> Seq<char> {
    Seq::new(n, |_i: int| ' ')
}

/// `s` with spaces after it up to `width` characters.
pub open spec fn padded(s: Seq<char>, width: nat) -> Seq<char> {
    if s.len() < width {
        s + spaces((width - s.len()) as nat)
    } else {
        s
    }
}

/// The width of the column of test names.
pub const NAME_WIDTH: usize = 40;

/// How a test ended, in four letters and a colour.
pub open spec fn label(passed: bool, timed_out: bool) -> Seq<char> {
    if passed {
        GREEN@ + "PASS"@
    } else if timed_out {
        RED@ + "TIME"@
    } else {
        RED@ + "FAIL"@
    }
}

/// The line of a test's result.
pub open spec fn result_text(r: TestResult, duration: Seq<char>) -> Seq<char> {
    label(r.passed, r.timed_out) + RESET@ + "  "@ + padded(r.name@, NAME_WIDTH as nat) + " ("@ + duration
        + ")\n"@
}

/// The line of a test's result; `duration` is the text of its duration.
pub fn result_line(result: &TestResult, duration: &str) -> (r: String)
    ensures
        r@ == result_text(*result, duration@),
{
    let mut v: Vec<char>;
    if result.passed {
        v = chars_of(GREEN);
        extend_str(&mut v, "PASS");
    } else {
        v = chars_of(RED);
        if result.timed_out {
            extend_str(&mut v, "TIME");
        } else {
            extend_str(&mut v, "FAIL");
        }
    }
    extend_str(&mut v, RESET);
    extend_str(&mut v, "  ");
    let mut name = chars_of(result.name.as_str());
    let ghost short = name@;
    while name.len() < NAME_WIDTH
        invariant
            short == result.name@,
            short.len() <= name@.len(),
            name@.len() <= NAME_WIDTH || name@ == short,
            name@ == short + spaces((name@.len() - short.len()) as nat),
        decreases NAME_WIDTH - name@.len(),
    {
        let ghost before = name@;
        name.push(' ');
        assert(name@ =~= short + spaces((name@.len() - short.len()) as nat));
    }
    assert(name@ =~= padded(short, NAME_WIDTH as nat));
    extend(&mut v, name.as_slice());
    extend_str(&mut v, " (");
    extend_str(&mut v, duration);
    extend_str(&mut v, ")\n");
    assert(v@ =~= result_text(*result, duration@));
    string_of(v.as_slice())
}

/// The numbers of a test's resources as text: CPU times in milliseconds, sizes with
/// their units.
#[derive(Debug)]
pub struct ResourceTexts<'a> {
    pub user: &'a str,
    pub system: &'a str,
    pub memory: &'a str,
    pub read: &'a str,
    pub written: &'a str,
}

/// The CPU times.
pub open spec fn cpu_part(r: ResourceStats, user: Seq<char>, system: Seq<char>) -> Seq<Seq<char>> {
    match (r.cpu_user_usec, r.cpu_system_usec) {
        (Some(_), Some(_)) => seq!["cpu="@ + user + "ms+"@ + system + "ms"@],
        (Some(_), None) => seq!["cpu="@ + user + "ms"@],
        (None, Some(_)) => seq!["cpu=sys:"@ + system + "ms"@],
        (None, None) => Seq::empty(),
    }
}

/// The memory.
pub open spec fn memory_part(r: ResourceStats, memory: Seq<char>) -> Seq<Seq<char>> {
    if r.memory_peak is Some {
        seq!["mem="@ + memory]
    } else {
        Seq::empty()
    }
}

/// The bytes read and written.
pub open spec fn io_part(r: ResourceStats, read: Seq<char>, written: Seq<char>) -> Seq<Seq<char>> {
    match (r.io_read_bytes, r.io_write_bytes) {
        (Some(_), Some(_)) => seq!["io="@ + read + "/"@ + written],
        (Some(_), None) => seq!["io="@ + read + "r"@],
        (None, Some(_)) => seq!["io="@ + written + "w"@],
        (None, None) => Seq::empty(),
    }
}

/// The processes.
pub open spec fn pids_part(r: ResourceStats) -> Seq<Seq<char>> {
    match r.pids_peak {
        Some(p) => seq!["pids="@ + decimal(p as nat)],
        None => Seq::empty(),
    }
}

/// All that is known of the resources.
pub open spec fn resource_parts(r: ResourceStats, t: ResourceTexts) -> Seq<Seq<char>> {
    cpu_part(r, t.user@, t.system@) + memory_part(r, t.memory@) + io_part(r, t.read@, t.written@)
        + pids_part(r)
}

fn push_part(parts: &mut Vec<String>, v: Vec<char>)
    ensures
        texts(final(parts)@) == texts(old(parts)@).push(v@),
{
    let ghost before = parts@;
    let s = string_of(v.as_slice());
    parts.push(s);
    assert(texts(parts@) =~= texts(before).push(s@));
}

/// The line of a test's resources, where anything is known of them.
pub fn resource_line(r: &ResourceStats, t: &ResourceTexts) -> (line: Option<String>)
    ensures
        line is Some <==> resource_parts(*r, *t).len() > 0,
        line matches Some(s) ==> s@ == "      "@ + join(resource_parts(*r, *t), "  "@) + "\n"@,
{
    let mut parts: Vec<String> = Vec::new();
    let ghost none = texts(parts@);
    assert(none =~= Seq::<Seq<char>>::empty());
    match (r.cpu_user_usec, r.cpu_system_usec) {
        (Some(_), Some(_)) => {
            let mut v = chars_of("cpu=");
            extend_str(&mut v, t.user);
            extend_str(&mut v, "ms+");
            extend_str(&mut v, t.system);
            extend_str(&mut v, "ms");
            push_part(&mut parts, v);
        },
        (Some(_), None) => {
            let mut v = chars_of("cpu=");
            extend_str(&mut v, t.user);
            extend_str(&mut v, "ms");
            push_part(&mut parts, v);
        },
        (None, Some(_)) => {
            let mut v = chars_of("cpu=sys:");
            extend_str(&mut v, t.system);
            extend_str(&mut v, "ms");
            push_part(&mut parts, v);
        },
        (None, None) => {},
    }
    assert(texts(parts@) =~= cpu_part(*r, t.user@, t.system@));
    let ghost p1 = texts(parts@);
    if r.memory_peak.is_some() {
        let mut v = chars_of("mem=");
        extend_str(&mut v, t.memory);
        push_part(&mut parts, v);
    }
    assert(texts(parts@) =~= p1 + memory_part(*r, t.memory@));
    let ghost p2 = texts(parts@);
    match (r.io_read_bytes, r.io_write_bytes) {
        (Some(_), Some(_)) => {
            let mut v = chars_of("io=");
            extend_str(&mut v, t.read);
            extend_str(&mut v, "/");
            extend_str(&mut v, t.written);
            push_part(&mut parts, v);
        },
        (Some(_), None) => {
            let mut v = chars_of("io=");
            extend_str(&mut v, t.read);
            extend_str(&mut v, "r");
            push_part(&mut parts, v);
        },
        (None, Some(_)) => {
            let mut v = chars_of("io=");
            extend_str(&mut v, t.written);
            extend_str(&mut v, "w");
            push_part(&mut parts, v);
        },
        (None, None) => {},
    }
    assert(texts(parts@) =~= p2 + io_part(*r, t.read@, t.written@));
    let ghost p3 = texts(parts@);
    if let Some(p) = r.pids_peak {
        let mut v = chars_of("pids=");
        let n = decimal_chars(p as u128);
        extend(&mut v, n.as_slice());
        push_part(&mut parts, v);
    }
    assert(texts(parts@) =~= p3 + pids_part(*r));
    assert(texts(parts@) == resource_parts(*r, *t));
    assert(texts(parts@).len() == parts@.len());
    if parts.len() == 0 {
        return None;
    }
    let mut v = chars_of("      ");
    let all = join_strings(&parts, "  ");
    extend_str(&mut v, all.as_str());
    extend_str(&mut v, "\n");
    Some(string_of(v.as_slice()))
}

/// How many of the tests have passed.
pub open spec fn passed_count(s: Seq<TestResult>) -> nat
    decreases s.len(),
{
    if s.len() == 0 {
        0
    } else {
        passed_count(s.drop_last()) + if s.last().passed {
            1nat
        } else {
            0
        }
    }
}

/// The lines that sum a run up.
pub open spec fn summary_lines(passed: nat, total: nat, duration: Seq<char>) -> Seq<char> {
    "\nResults: "@ + GREEN@ + decimal(passed) + " passed"@ + RESET@ + (if total > passed {
        ", "@ + RED@ + decimal((total - passed) as nat) + " failed"@ + RESET@
    } else {
        ""@
    }) + ", "@ + decimal(total) + " total\nTime:   "@ + duration + "\n"@
}

/// The lines that sum a run up; `duration` is the text of its duration.
pub fn summary(results: &Vec<TestResult>, duration: &str) -> (r: String)
    ensures
        r@ == summary_lines(passed_count(results@), results@.len(), duration@),
{
    let mut passed: usize = 0;
    let mut i: usize = 0;
    assert(results@.take(0) =~= Seq::<TestResult>::empty());
    while i < results.len()
        invariant
            passed <= i <= results@.len(),
            passed == passed_count(results@.take(i as int)),
        decreases results@.len() - i,
    {
        assert(results@.take(i + 1).drop_last() =~= results@.take(i as int));
        if results[i].passed {
            passed = passed + 1;
        }
        i = i + 1;
    }
    assert(results@.take(i as int) =~= results@);
    let total: usize = results.len();
    let failed: usize = total - passed;
    let mut v = chars_of("\nResults: ");
    extend_str(&mut v, GREEN);
    let n = decimal_chars(passed as u128);
    extend(&mut v, n.as_slice());
    extend_str(&mut v, " passed");
    extend_str(&mut v, RESET);
    let mut f: Vec<char>;
    if failed > 0 {
        f = chars_of(", ");
        extend_str(&mut f, RED);
        let n = decimal_chars(failed as u128);
        extend(&mut f, n.as_slice());
        extend_str(&mut f, " failed");
        extend_str(&mut f, RESET);
    } else {
        f = chars_of("");
    }
    extend(&mut v, f.as_slice());
    extend_str(&mut v, ", ");
    let n = decimal_chars(total as u128);
    extend(&mut v, n.as_slice());
    extend_str(&mut v, " total\nTime:   ");
    extend_str(&mut v, duration);
    extend_str(&mut v, "\n");
    assert(v@ =~= summary_lines(passed_count(results@), results@.len(), duration@));
    string_of(v.as_slice())
}

/// Whether a test has failed.
pub fn run_failed(results: &Vec<TestResult>) -> (r: bool)
    ensures
        r == exists|i: int| 0 <= i < results@.len() && !(#[trigger] results@[i]).passed,
{
    let mut i: usize = 0;
    while i < results.len()
        invariant
            i <= results@.len(),
            forall|k: int| 0 <= k < i ==> (#[trigger] results@[k]).passed,
        decreases results@.len() - i,
    {
        if !results[i].passed {
            return true;
        }
        i = i + 1;
    }
    false
}

/// The line of a test in a list: the name of its file and its own.
pub open spec fn list_line(c: CaseView) -> Seq<char> {
    file_label(c.file) + "/"@ + c.name + "\n"@
}

/// The lines of a list of tests.
pub open spec fn list_text(cs: Seq<CaseView>) -> Seq<char>
    decreases cs.len(),
{
    if cs.len() == 0 {
        Seq::empty()
    } else {
        list_text(cs.drop_last()) + list_line(cs.last())
    }
}

/// The lines of a list of tests.
pub fn test_list(tests: &Vec<TestCase>) -> (r: String)
    ensures
        r@ == list_text(case_views(tests@)),
{
    let mut v: Vec<char> = Vec::new();
    let ghost all = case_views(tests@);
    let mut i: usize = 0;
    assert(v@ =~= list_text(all.take(0)));
    while i < tests.len()
        invariant
            i <= tests@.len(),
            all == case_views(tests@),
            v@ == list_text(all.take(i as int)),
        decreases tests@.len() - i,
    {
        assert(all.take(i + 1).drop_last() =~= all.take(i as int));
        assert(all.take(i + 1).last() == tests@[i as int]@);
        let ghost before = v@;
        let name = crate::snippet::label_of(&tests[i].file);
        extend_str(&mut v, name.as_str());
        extend_str(&mut v, "/");
        extend_str(&mut v, tests[i].name.as_str());
        extend_str(&mut v, "\n");
        i = i + 1;
        assert(v@ =~= before + list_line(tests@[i - 1]@));
    }
    assert(all.take(i as int) =~= all);
    string_of(v.as_slice())
}

/// The tests that are counted as passed are those that have passed, and all have where none
/// has failed: every other one is among the failed.
pub proof fn lemma_passed_and_failed_are_all(s: Seq<TestResult>)
    ensures
        passed_count(s) == s.filter(|r: TestResult| r.passed).len(),
        passed_count(s) + s.filter(|r: TestResult| !r.passed).len() == s.len(),
        passed_count(s) == s.len() <==> forall|i: int| 0 <= i < s.len() ==> (#[trigger] s[i]).passed,
    decreases s.len(),
{
    reveal(Seq::filter);
    if s.len() > 0 {
        let t = s.drop_last();
        lemma_passed_and_failed_are_all(t);
        let n = s.len() - 1;
        if forall|i: int| 0 <= i < s.len() ==> (#[trigger] s[i]).passed {
            assert forall|i: int| 0 <= i < t.len() implies (#[trigger] t[i]).passed by {
                assert(s[i].passed);
            }
            assert(s[n].passed);
        }
        if passed_count(s) == s.len() {
            assert forall|i: int| 0 <= i < s.len() implies (#[trigger] s[i]).passed by {
                if i < n {
                    assert(t[i].passed);
                }
            }
        }
    }
}

proof fn lemma_list_from_front(cs: Seq<CaseView>)
    requires
        cs.len() > 0,
    ensures
        list_text(cs) == list_line(cs[0]) + list_text(cs.drop_first()),
    decreases cs.len(),
{
    let rest = cs.drop_first();
    if cs.len() == 1 {
        assert(cs.drop_last() =~= Seq::<CaseView>::empty());
        assert(list_text(cs.drop_last()) =~= Seq::<char>::empty());
        assert(list_text(rest) =~= Seq::<char>::empty());
        assert(list_text(cs) =~= list_line(cs[0]) + list_text(rest));
    } else {
        let front = cs.drop_last();
        lemma_list_from_front(front);
        assert(front.drop_first() =~= rest.drop_last());
        assert(rest.last() == cs.last());
        assert(list_text(cs) =~= list_line(cs[0]) + list_text(rest));
    }
}

/// A list of tests has a line for each of them, in their order: the name of its file, a slash
/// and its own name.
pub proof fn lemma_list_has_a_line_for_each(cs: Seq<CaseView>)
    requires
        forall|i: int|
            0 <= i < cs.len() ==> !file_label((#[trigger] cs[i]).file).contains('\n')
                && !cs[i].name.contains('\n') && (cs[i].name.len() > 0 ==> cs[i].name.last() != '\r'),
    ensures
        lines(list_text(cs)).len() == cs.len(),
        forall|i: int|
            0 <= i < cs.len() ==> #[trigger] lines(list_text(cs))[i] == file_label(cs[i].file) + seq!['/']
                + cs[i].name,
    decreases cs.len(),
{
    if cs.len() == 0 {
        crate::words::lemma_last_line(list_text(cs));
    } else {
        let rest = cs.drop_first();
        assert forall|i: int| 0 <= i < rest.len() implies !file_label((#[trigger] rest[i]).file).contains('\n')
            && !rest[i].name.contains('\n') && (rest[i].name.len() > 0 ==> rest[i].name.last() != '\r') by {
            assert(rest[i] == cs[i + 1]);
        }
        lemma_list_has_a_line_for_each(rest);
        lemma_list_from_front(cs);
        let c = cs[0];
        let line = file_label(c.file) + seq!['/'] + c.name;
        assert("/"@ =~= seq!['/'] && "\n"@ =~= seq!['\n']) by {
            reveal_strlit("/");
            reveal_strlit("\n");
        }
        assert(!line.contains('\n')) by {
            let f = file_label(c.file);
            assert forall|i: int| 0 <= i < line.len() implies line[i] != '\n' by {
                if i < f.len() {
                    assert(f.contains(f[i]));
                } else if i > f.len() {
                    assert(c.name.contains(c.name[i - f.len() - 1]));
                }
            }
        }
        lemma_lines_are_read_one_by_one(line, list_text(rest));
        assert(list_text(cs) =~= line + seq!['\n'] + list_text(rest));
        let ls = lines(list_text(cs));
        assert(ls =~= seq![line] + lines(list_text(rest)));
        assert forall|i: int| 0 <= i < cs.len() implies #[trigger] ls[i] == file_label(cs[i].file) + seq!['/']
            + cs[i].name by {
            if i > 0 {
                assert(ls[i] == lines(list_text(rest))[i - 1]);
                assert(rest[i - 1] == cs[i]);
            }
        }
    }
}

/// A name keeps all its characters in its column, and has spaces alone after it, up to the
/// width of the column.
pub proof fn lemma_names_are_not_cut(s: Seq<char>, width: nat)
    ensures
        starts_with(padded(s, width), s),
        padded(s, width).len() == (if s.len() < width {
            width
        } else {
            s.len()
        }),
        forall|i: int| s.len() <= i < padded(s, width).len() ==> #[trigger] padded(s, width)[i] == ' ',
{
    assert(padded(s, width).take(s.len() as int) =~= s);
}

/// The line of a result says in the four letters after the colour how the test ended, in green
/// only where it has passed, and goes on with the whole name of the test in its column and the
/// duration after it.
pub proof fn lemma_line_says_how_it_ended(r: TestResult, duration: Seq<char>)
    ensures
        ({
            let s = result_text(r, duration);
            let color = s.take(5);
            let word = s.subrange(5, 9);
            &&& color == GREEN@ <==> r.passed
            &&& color == RED@ <==> !r.passed
            &&& word == "PASS"@ <==> r.passed
            &&& word == "TIME"@ <==> !r.passed && r.timed_out
            &&& word == "FAIL"@ <==> !r.passed && !r.timed_out
            &&& starts_with(s.skip(15), r.name@)
            &&& s.skip(
                15 + if r.name@.len() < 40 {
                    40
                } else {
                    r.name@.len() as int
                },
            ) == " ("@ + duration + ")\n"@
        }),
{
    let s = result_text(r, duration);
    let l = label(r.passed, r.timed_out);
    let c = if r.passed {
        GREEN@
    } else {
        RED@
    };
    let w = if r.passed {
        "PASS"@
    } else if r.timed_out {
        "TIME"@
    } else {
        "FAIL"@
    };
    assert(GREEN@.len() == 5 && RED@.len() == 5 && GREEN@[3] == '2' && RED@[3] == '1' && RESET@.len() == 4) by {
        reveal_strlit("\x1b[32m");
        reveal_strlit("\x1b[31m");
        reveal_strlit("\x1b[0m");
    }
    assert("PASS"@.len() == 4 && "TIME"@.len() == 4 && "FAIL"@.len() == 4 && "PASS"@[0] == 'P' && "TIME"@[0]
        == 'T' && "FAIL"@[0] == 'F' && "  "@.len() == 2) by {
        reveal_strlit("PASS");
        reveal_strlit("TIME");
        reveal_strlit("FAIL");
        reveal_strlit("  ");
    }
    assert(l == c + w);
    let name = padded(r.name@, NAME_WIDTH as nat);
    let end = name + " ("@ + duration + ")\n"@;
    assert(s =~= c + w + (RESET@ + "  "@) + end);
    assert(s.take(5) =~= c);
    assert(s.subrange(5, 9) =~= w);
    assert(s.skip(15) =~= end);
    lemma_names_are_not_cut(r.name@, NAME_WIDTH as nat);
    let n = r.name@.len() as int;
    assert(end.take(n) =~= name.take(n));
    let k = name.len() as int;
    assert(s.skip(15 + k) =~= " ("@ + duration + ")\n"@);
}

/// The parts of the line of resources tell which of them are known.
pub proof fn lemma_known_resources_are_shown(r: ResourceStats, t: ResourceTexts)
    ensures
        ({
            let parts = resource_parts(r, t);
            &&& r.memory_peak is Some ==> parts.contains("mem="@ + t.memory@)
            &&& r.pids_peak matches Some(p) ==> parts.contains("pids="@ + decimal(p as nat))
            &&& r.cpu_user_usec is Some && r.cpu_system_usec is Some ==> parts.contains(
                "cpu="@ + t.user@ + "ms+"@ + t.system@ + "ms"@,
            )
            &&& r.io_read_bytes is Some && r.io_write_bytes is Some ==> parts.contains(
                "io="@ + t.read@ + "/"@ + t.written@,
            )
            &&& r.io_read_bytes is Some && r.io_write_bytes is None ==> parts.contains(
                "io="@ + t.read@ + "r"@,
            )
            &&& r.io_read_bytes is None && r.io_write_bytes is Some ==> parts.contains(
                "io="@ + t.written@ + "w"@,
            )
            &&& parts.len() == 0 <==> r.memory_peak is None && r.pids_peak is None && r.cpu_user_usec is None
                && r.cpu_system_usec is None && r.io_read_bytes is None && r.io_write_bytes is None
        }),
{
    let parts = resource_parts(r, t);
    let a = cpu_part(r, t.user@, t.system@);
    let b = memory_part(r, t.memory@);
    let c = io_part(r, t.read@, t.written@);
    let d = pids_part(r);
    if a.len() > 0 {
        assert(parts[0] == a[0]);
        assert(parts.contains(a[0]));
    }
    if b.len() > 0 {
        assert(parts[a.len() as int] == b[0]);
        assert(parts.contains(b[0]));
    }
    if c.len() > 0 {
        assert(parts[(a.len() + b.len()) as int] == c[0]);
        assert(parts.contains(c[0]));
    }
    if d.len() > 0 {
        assert(parts[(a.len() + b.len() + c.len()) as int] == d[0]);
        assert(parts.contains(d[0]));
    }
}

/// The lines that sum a run up tell how many tests have passed, how many have failed where
/// any has, and how many there were: no test is left out, and none is counted twice.
pub proof fn lemma_summary_counts_every_test(s: Seq<TestResult>, duration: Seq<char>)
    ensures
        ({
            let passed = s.filter(|r: TestResult| r.passed).len();
            let failed = s.filter(|r: TestResult| !r.passed).len();
            let first = "\nResults: "@ + GREEN@ + decimal(passed) + " passed"@ + RESET@;
            let second = if failed > 0 {
                ", "@ + RED@ + decimal(failed) + " failed"@ + RESET@
            } else {
                Seq::empty()
            };
            let third = ", "@ + decimal(passed + failed) + " total\nTime:   "@ + duration + "\n"@;
            summary_lines(passed_count(s), s.len(), duration) == first + second + third
        }),
{
    lemma_passed_and_failed_are_all(s);
    let passed = s.filter(|r: TestResult| r.passed).len();
    let failed = s.filter(|r: TestResult| !r.passed).len();
    let first = "\nResults: "@ + GREEN@ + decimal(passed) + " passed"@ + RESET@;
    let second = if failed > 0 {
        ", "@ + RED@ + decimal(failed) + " failed"@ + RESET@
    } else {
        Seq::empty()
    };
    let third = ", "@ + decimal(passed + failed) + " total\nTime:   "@ + duration + "\n"@;
    assert(""@ =~= Seq::<char>::empty()) by {
        reveal_strlit("");
    }
    assert(passed_count(s) == passed && s.len() == passed + failed && s.len() - passed == failed);
    lemma_three_parts(
        first,
        second,
        ", "@,
        decimal(passed + failed),
        " total\nTime:   "@,
        duration,
        "\n"@,
    );
}

proof fn lemma_three_parts(
    a: Seq<char>,
    b: Seq<char>,
    c: Seq<char>,
    d: Seq<char>,
    e: Seq<char>,
    f: Seq<char>,
    g: Seq<char>,
)
    ensures
        a + b + c + d + e + f + g == a + b + (c + d + e + f + g),
{
    assert(a + b + c + d + e + f + g =~= a + b + (c + d + e + f + g));
}

/// A duration below a second is shown in whole milliseconds, fewer than a thousand; a longer one
/// in seconds.
pub proof fn lemma_durations_have_their_unit(nanos: u128, seconds: Seq<char>) -> (millis: nat)
    ensures
        nanos < 1_000_000_000 ==> duration_text(nanos, seconds) == decimal(millis) + "ms"@ && millis < 1000
            && millis * 1_000_000 <= nanos < (millis + 1) * 1_000_000,
        nanos >= 1_000_000_000 ==> duration_text(nanos, seconds) == seconds + "s"@,
{
    (nanos / 1_000_000) as nat
}

/// The summary of a run that has failed tells how many tests have, and that of another does not
/// speak of any.
pub proof fn lemma_summary_agrees_with_the_outcome(results: &Vec<TestResult>, duration: &str, s: String, failed: bool)
    requires
        call_ensures(summary, (results, duration), s),
        call_ensures(run_failed, (results,), failed),
    ensures
        ({
            let good = results@.filter(|r: TestResult| r.passed).len();
            let bad = results@.filter(|r: TestResult| !r.passed).len();
            let first = "\nResults: "@ + GREEN@ + decimal(good) + " passed"@ + RESET@;
            let third = ", "@ + decimal(results@.len()) + " total\nTime:   "@ + duration@ + "\n"@;
            &&& failed <==> bad > 0
            &&& failed ==> s@ == first + (", "@ + RED@ + decimal(bad) + " failed"@ + RESET@) + third
            &&& !failed ==> s@ == first + third
        }),
{
    lemma_summary_counts_every_test(results@, duration@);
    lemma_passed_and_failed_are_all(results@);
    let good = results@.filter(|r: TestResult| r.passed).len();
    let first = "\nResults: "@ + GREEN@ + decimal(good) + " passed"@ + RESET@;
    assert(first + Seq::<char>::empty() =~= first);
}

} // verus!
