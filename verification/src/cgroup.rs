//! Resource usage of a test, as cgroup v2 accounts for it.

use vstd::prelude::*;
use vstd::utf8::{encode_utf8, encode_utf8_decode_utf8};

use crate::diagnostics::lemma_len_bound;
use crate::number::{decimal, decimal_chars, lemma_decimal_injective, lemma_decimal_round_trip, parse_at_most, parse_number};
use crate::path::{components, joined, lemma_joined_name, same_path, UnixPath};
use crate::text::{chars_of, copy_range, equal, extend, extend_str, find_text, first_at, has_prefix, lemma_first_at, occurs_at, rows, starts_with, string_of};
use crate::utf8::lemma_no_slash;
use crate::words::{is_whitespace, lemma_a_word_is_itself, lemma_last_line, lemma_lines_are_read_one_by_one, lemma_trim_leaves_the_word, lemma_trim_takes_all, lemma_white_space_parts_words, lines, lines_of, trim, trimmed, words, words_of};

verus! {

/// Resource usage captured from cgroup v2 for a single test run.
/// Fields are `None` when the corresponding controller is unavailable.
#[derive(Debug, Clone, Copy, PartialEq, Eq, Structural)]
pub struct ResourceStats {
    pub cpu_user_usec: Option<u64>,
    pub cpu_system_usec: Option<u64>,
    pub memory_peak: Option<u64>,
    pub io_read_bytes: Option<u64>,
    pub io_write_bytes: Option<u64>,
    pub pids_peak: Option<u64>,
}

impl Default for ResourceStats {
    fn default() -> (r: Self)
        ensures
            r == (ResourceStats {
                cpu_user_usec: None,
                cpu_system_usec: None,
                memory_peak: None,
                io_read_bytes: None,
                io_write_bytes: None,
                pids_peak: None,
            }),
    {
        ResourceStats {
            cpu_user_usec: None,
            cpu_system_usec: None,
            memory_peak: None,
            io_read_bytes: None,
            io_write_bytes: None,
            pids_peak: None,
        }
    }
}

/// The cgroups of a run: the base in which they are made, where there is one, and how many
/// were asked for.
pub struct Cgroups {
    pub base: Option<UnixPath>,
    pub next: u64,
    /// The tests for which they were asked for, in that order.
    pub asked: Ghost<Seq<Seq<char>>>,
}

/// The way to the cgroup of a test: where it is to be, and whether one that was there
/// already was removed.
#[derive(Debug)]
pub struct Creation {
    pub path: UnixPath,
    pub retried: bool,
}

/// What comes after an attempt to create a cgroup.
#[derive(Debug)]
pub enum CreateStep {
    /// The cgroup is there.
    Made(TestCgroup),
    /// One was there already: remove it, and create it again.
    RemoveThenCreate(Creation),
    /// There will be none.
    GiveUp,
}

/// A cgroup directory created for a single test. The forked child places itself inside
/// it; the parent reads stats after the child exits.
#[derive(Debug)]
pub struct TestCgroup {
    pub path: UnixPath,
}

/// A letter or a number, as `char::is_alphanumeric` has it.
pub uninterp spec fn alphanumeric(c: char) -> bool;

/// Calls `char::is_alphanumeric`. Claims that the answer depends on the character
/// alone, and which ASCII characters are letters or digits; of other characters the
/// Unicode tables decide.
#[verifier::external_body]
pub(crate) fn is_alphanumeric(c: char) -> (r: bool)
    ensures
        r == alphanumeric(c),
        c as u32 <= 0x7f ==> r == ('a' <= c <= 'z' || 'A' <= c <= 'Z' || '0' <= c <= '9'),
{
    c.is_alphanumeric()
}

/// A letter or a number: of the ASCII characters those that one knows, of the others as
/// `char::is_alphanumeric` has it.
pub open spec fn is_word_char(c: char) -> bool {
    if c as u32 <= 0x7f {
        'a' <= c <= 'z' || 'A' <= c <= 'Z' || '0' <= c <= '9'
    } else {
        alphanumeric(c)
    }
}

/// The character where it may stand in the name of a cgroup, else an underscore.
pub open spec fn safe_char(c: char) -> char {
    if is_word_char(c) || c == '_' || c == '-' {
        c
    } else {
        '_'
    }
}

/// The name of a test's cgroup.
pub open spec fn cgroup_name(test_id: Seq<char>, count: nat) -> Seq<char> {
    test_id.map_values(|c: char| safe_char(c)) + "_"@ + decimal(count)
}

/// The name of a test's cgroup; `count` tells the cgroups of one run apart.
pub fn cgroup_dir_name(test_id: &str, count: u64) -> (r: String)
    ensures
        r@ == cgroup_name(test_id@, count as nat),
{
    let v = chars_of(test_id);
    let ghost safe = test_id@.map_values(|c: char| safe_char(c));
    let mut name: Vec<char> = Vec::new();
    let mut i: usize = 0;
    while i < v.len()
        invariant
            i <= v@.len(),
            v@ == test_id@,
            safe == test_id@.map_values(|c: char| safe_char(c)),
            name@ == safe.take(i as int),
        decreases v@.len() - i,
    {
        let c = v[i];
        if is_alphanumeric(c) || c == '_' || c == '-' {
            name.push(c);
        } else {
            name.push('_');
        }
        i = i + 1;
        assert(safe.take(i as int) =~= safe.take(i - 1).push(safe[i - 1]));
    }
    assert(safe.take(i as int) =~= safe);
    name.push('_');
    proof {
        reveal_strlit("_");
        assert(name@ =~= safe + "_"@);
    }
    let n = decimal_chars(count as u128);
    extend(&mut name, n.as_slice());
    string_of(name.as_slice())
}

/// How the creation of a directory went.
#[derive(Clone, Copy, PartialEq, Eq, Structural, Debug)]
pub enum Created {
    Created,
    Exists,
    Failed,
}

/// The number that a file holds.
pub open spec fn single_value(content: Option<Seq<char>>) -> Option<int> {
    match content {
        Some(s) => parse_at_most(trim(s), u64::MAX as int),
        None => None,
    }
}

/// What a line `key value` says of `field`.
pub open spec fn stat_line(line: Seq<char>, field: Seq<char>) -> Option<int> {
    match first_at(line, " "@, 0) {
        Some(i) => if line.take(i) == field {
            parse_at_most(trim(line.skip(i + 1)), u64::MAX as int)
        } else {
            None
        },
        None => None,
    }
}

/// What the first line that says something of `field` says, from line `i` on.
pub open spec fn stat_from(ls: Seq<Seq<char>>, field: Seq<char>, i: int) -> Option<int>
    decreases ls.len() - i,
{
    if i >= ls.len() {
        None
    } else {
        match stat_line(ls[i], field) {
            Some(n) => Some(n),
            None => stat_from(ls, field, i + 1),
        }
    }
}

/// The value of a field of a stat file.
pub open spec fn stat_value(content: Option<Seq<char>>, field: Seq<char>) -> Option<int> {
    match content {
        Some(s) => stat_from(lines(s), field, 0),
        None => None,
    }
}

/// What a word `field=value` adds to the sum of the field.
pub open spec fn io_word(word: Seq<char>, field: Seq<char>) -> int {
    let prefix = field + "="@;
    if starts_with(word, prefix) {
        match parse_at_most(word.skip(prefix.len() as int), u64::MAX as int) {
            Some(n) => n,
            None => 0,
        }
    } else {
        0
    }
}

/// The sum of a field over the words.
pub open spec fn io_sum(ws: Seq<Seq<char>>, field: Seq<char>) -> int
    decreases ws.len(),
{
    if ws.len() == 0 {
        0
    } else {
        io_sum(ws.drop_last(), field) + io_word(ws.last(), field)
    }
}

/// The sum of a field over all devices of `io.stat`.
pub open spec fn io_total(content: Option<Seq<char>>, field: Seq<char>) -> int {
    match content {
        Some(s) => io_sum(words(s), field),
        None => 0,
    }
}

/// The sum, where it is not zero.
pub open spec fn io_value(content: Option<Seq<char>>, field: Seq<char>) -> Option<int> {
    if io_total(content, field) > 0 {
        Some(io_total(content, field))
    } else {
        None
    }
}

/// The text of a file that could be read.
pub open spec fn text_of(s: Option<&str>) -> Option<Seq<char>> {
    match s {
        Some(t) => Some(t@),
        None => None,
    }
}

/// A number as contracts have it.
pub open spec fn number_of(n: Option<u64>) -> Option<int> {
    match n {
        Some(k) => Some(k as int),
        None => None,
    }
}

/// The number that a file holds.
pub fn read_single_u64(content: Option<&str>) -> (r: Option<u64>)
    ensures
        number_of(r) == single_value(text_of(content)),
{
    match content {
        Some(s) => {
            let v = chars_of(s);
            let t = trimmed(v.as_slice());
            parse_number(t.as_slice(), u64::MAX)
        },
        None => None,
    }
}

fn read_stat_line(line: &[char], field: &[char]) -> (r: Option<u64>)
    ensures
        number_of(r) == stat_line(line@, field@),
{
    let space = chars_of(" ");
    proof {
        reveal_strlit(" ");
    }
    match find_text(line, space.as_slice(), 0) {
        Some(i) => {
            let total: usize = line.len();
            let key = copy_range(line, 0, i);
            assert(key@ =~= line@.take(i as int));
            if equal(key.as_slice(), field) {
                let value = copy_range(line, i + 1, total);
                assert(value@ =~= line@.skip(i + 1));
                let value = trimmed(value.as_slice());
                parse_number(value.as_slice(), u64::MAX)
            } else {
                None
            }
        },
        None => None,
    }
}

/// Parse a `key value` line from a stat file (e.g. `cpu.stat`).
pub fn read_stat_field(content: Option<&str>, field: &str) -> (r: Option<u64>)
    ensures
        number_of(r) == stat_value(text_of(content), field@),
{
    let s = match content {
        Some(s) => s,
        None => {
            return None;
        },
    };
    let v = chars_of(s);
    let f = chars_of(field);
    let ls = lines_of(v.as_slice());
    let ghost all = lines(s@);
    let mut i: usize = 0;
    while i < ls.len()
        invariant
            i <= ls@.len(),
            all == rows(ls@),
            all == lines(s@),
            text_of(content) == Some(s@),
            f@ == field@,
            stat_from(all, f@, 0) == stat_from(all, f@, i as int),
        decreases ls@.len() - i,
    {
        assert(all[i as int] == ls@[i as int]@);
        let r = read_stat_line(ls[i].as_slice(), f.as_slice());
        if r.is_some() {
            return r;
        }
        i = i + 1;
    }
    None
}

proof fn lemma_io_word_bound(word: Seq<char>, field: Seq<char>)
    ensures
        io_word(word, field) <= u64::MAX,
        io_word(word, field) >= 0,
{
    let rest = word.skip((field + "="@).len() as int);
    if let Some(n) = parse_at_most(rest, u64::MAX as int) {
        lemma_parsed_not_negative(rest);
    }
}

proof fn lemma_parsed_not_negative(s: Seq<char>)
    ensures
        crate::number::parse_unsigned(s) matches Some(n) ==> n >= 0,
{
    let digits = if s.len() > 0 && s[0] == '+' {
        s.drop_first()
    } else {
        s
    };
    if crate::number::all_digits(digits) {
        lemma_digits_not_negative(digits);
    }
}

proof fn lemma_digits_not_negative(s: Seq<char>)
    requires
        crate::number::all_digits(s),
    ensures
        crate::number::digits_value(s) >= 0,
    decreases s.len(),
{
    if s.len() > 0 {
        assert(crate::number::is_digit(s[s.len() - 1]));
        assert(crate::number::all_digits(s.drop_last())) by {
            assert forall|i: int| 0 <= i < s.drop_last().len() implies crate::number::is_digit(
                #[trigger] s.drop_last()[i],
            ) by {
                assert(crate::number::is_digit(s[i]));
            }
        }
        lemma_digits_not_negative(s.drop_last());
    }
}

fn read_io_word(word: &[char], prefix: &[char], Ghost(field): Ghost<Seq<char>>) -> (r: u64)
    requires
        prefix@ == field + "="@,
    ensures
        r == io_word(word@, field),
{
    if !has_prefix(word, prefix) {
        return 0;
    }
    let rest = copy_range(word, prefix.len(), word.len());
    assert(rest@ =~= word@.skip(prefix@.len() as int));
    match parse_number(rest.as_slice(), u64::MAX) {
        Some(n) => n,
        None => 0,
    }
}

/// The sum of a field over all devices.
pub fn sum_io_field(content: Option<&str>, field: &str) -> (r: u128)
    ensures
        r == io_total(text_of(content), field@),
{
    let s = match content {
        Some(s) => s,
        None => {
            return 0;
        },
    };
    let v = chars_of(s);
    let mut prefix = chars_of(field);
    extend_str(&mut prefix, "=");
    let ws = words_of(v.as_slice());
    let ghost all = words(s@);
    let mut sum: u128 = 0;
    let mut i: usize = 0;
    assert(all.take(0) =~= Seq::<Seq<char>>::empty());
    while i < ws.len()
        invariant
            i <= ws@.len(),
            all == rows(ws@),
            prefix@ == field@ + "="@,
            sum == io_sum(all.take(i as int), field@),
            sum <= i * u64::MAX,
        decreases ws@.len() - i,
    {
        proof {
            assert(all.take(i + 1).drop_last() =~= all.take(i as int));
            assert(all.take(i + 1).last() == ws@[i as int]@);
            lemma_io_word_bound(ws@[i as int]@, field@);
            assert((i + 1) * u64::MAX == i * u64::MAX + u64::MAX) by (nonlinear_arith);
            assert(i * u64::MAX <= usize::MAX * u64::MAX) by (nonlinear_arith)
                requires
                    i <= usize::MAX,
            ;
        }
        sum = sum + read_io_word(ws[i].as_slice(), prefix.as_slice(), Ghost(field@)) as u128;
        i = i + 1;
    }
    assert(all.take(i as int) =~= all);
    sum
}

/// Sum a named field (e.g. `rbytes`) across all device lines in `io.stat`.
/// Returns `None` when the file is absent or the total is zero.
pub fn read_io_field(content: Option<&str>, field: &str) -> (r: Option<u64>)
    requires
        io_total(text_of(content), field@) <= u64::MAX,
    ensures
        number_of(r) == io_value(text_of(content), field@),
{
    let sum: u128 = sum_io_field(content, field);
    if sum > 0 {
        Some(sum as u64)
    } else {
        None
    }
}

/// The files of a cgroup, each `None` where it could not be read.
#[derive(Debug)]
pub struct CgroupFiles<'a> {
    pub cpu_stat: Option<&'a str>,
    pub memory_peak: Option<&'a str>,
    pub memory_current: Option<&'a str>,
    pub io_stat: Option<&'a str>,
    pub pids_peak: Option<&'a str>,
}

/// The bytes read and written are numbers of 64 bits.
pub open spec fn io_fits(io_stat: Option<Seq<char>>) -> bool {
    io_total(io_stat, "rbytes"@) <= u64::MAX && io_total(io_stat, "wbytes"@) <= u64::MAX
}

/// Whether the bytes read and written are numbers of 64 bits.
pub fn check_io(io_stat: Option<&str>) -> (r: bool)
    ensures
        r == io_fits(text_of(io_stat)),
{
    sum_io_field(io_stat, "rbytes") <= u64::MAX as u128 && sum_io_field(io_stat, "wbytes")
        <= u64::MAX as u128
}

impl TestCgroup {
    /// Path of the `cgroup.procs` file the child writes its pid into to join
    /// this cgroup.
    pub fn procs_path(&self) -> (r: UnixPath)
        ensures
            r@ == procs_of(self.path@),
    {
        self.path.join("cgroup.procs")
    }

    /// Total CPU time (user + system) in microseconds, from the contents of
    /// `cpu.stat`. Returns `None` when the cpu controller is unavailable.
    pub fn read_cpu_time(&self, cpu_stat: Option<&str>) -> (r: Option<u128>)
        ensures
            match stat_value(text_of(cpu_stat), "user_usec"@) {
                None => r is None,
                Some(user) => r matches Some(t) && t == user + match stat_value(
                    text_of(cpu_stat),
                    "system_usec"@,
                ) {
                    Some(system) => system,
                    None => 0,
                },
            },
            r matches Some(t) ==> t <= 2 * u64::MAX,
    {
        let user: u64 = match read_stat_field(cpu_stat, "user_usec") {
            Some(n) => n,
            None => {
                return None;
            },
        };
        let system: u64 = match read_stat_field(cpu_stat, "system_usec") {
            Some(n) => n,
            None => 0,
        };
        Some(user as u128 + system as u128)
    }

    /// Resource stats from the contents of the cgroup's files. The peak of the memory
    /// falls back to what is in use.
    pub fn read_stats(&self, files: &CgroupFiles) -> (r: ResourceStats)
        requires
            io_fits(text_of(files.io_stat)),
        ensures
            number_of(r.cpu_user_usec) == stat_value(text_of(files.cpu_stat), "user_usec"@),
            number_of(r.cpu_system_usec) == stat_value(text_of(files.cpu_stat), "system_usec"@),
            number_of(r.memory_peak) == match single_value(text_of(files.memory_peak)) {
                Some(n) => Some(n),
                None => single_value(text_of(files.memory_current)),
            },
            number_of(r.io_read_bytes) == io_value(text_of(files.io_stat), "rbytes"@),
            number_of(r.io_write_bytes) == io_value(text_of(files.io_stat), "wbytes"@),
            number_of(r.pids_peak) == single_value(text_of(files.pids_peak)),
    {
        let peak = read_single_u64(files.memory_peak);
        ResourceStats {
            cpu_user_usec: read_stat_field(files.cpu_stat, "user_usec"),
            cpu_system_usec: read_stat_field(files.cpu_stat, "system_usec"),
            memory_peak: if peak.is_some() {
                peak
            } else {
                read_single_u64(files.memory_current)
            },
            io_read_bytes: read_io_field(files.io_stat, "rbytes"),
            io_write_bytes: read_io_field(files.io_stat, "wbytes"),
            pids_peak: read_single_u64(files.pids_peak),
        }
    }

    /// Attempt to create a per-test cgroup directory: says where it is to be created.
    /// Returns `None` when cgroups are unavailable.
    pub fn try_create(cgroups: &mut Cgroups, test_id: &str) -> (r: Option<Creation>)
        requires
            old(cgroups).wf(),
            old(cgroups).next < u64::MAX,
        ensures
            final(cgroups).wf(),
            final(cgroups).base == old(cgroups).base,
            match old(cgroups).base {
                None => r is None && *final(cgroups) == *old(cgroups),
                Some(base) => {
                    &&& final(cgroups).next == old(cgroups).next + 1
                    &&& final(cgroups).asked@ == old(cgroups).asked@.push(test_id@)
                    &&& r matches Some(c) && !c.retried && c.path@ == cgroup_path(
                        base@,
                        final(cgroups).asked@,
                        old(cgroups).next as int,
                    )
                },
            },
    {
        let path = match &cgroups.base {
            Some(base) => {
                let name = cgroup_dir_name(test_id, cgroups.next);
                base.join(name.as_str())
            },
            None => {
                return None;
            },
        };
        cgroups.next = cgroups.next + 1;
        cgroups.asked = Ghost(cgroups.asked@.push(test_id@));
        Some(Creation { path, retried: false })
    }
}

impl Cgroups {
    /// Every cgroup that was asked for is counted.
    pub open spec fn wf(self) -> bool {
        self.asked@.len() == self.next
    }

    /// No cgroup was asked for yet.
    pub fn new(base: Option<UnixPath>) -> (r: Self)
        ensures
            r.wf(),
            r.base == base,
            r.next == 0,
    {
        Cgroups { base, next: 0, asked: Ghost(Seq::empty()) }
    }
}

impl Creation {
    /// What comes after an attempt: one that is there already is removed and created
    /// again, but only once.
    pub fn after(self, outcome: Created) -> (r: CreateStep)
        ensures
            match outcome {
                Created::Created => r matches CreateStep::Made(c) && c.path == self.path,
                Created::Exists => if self.retried {
                    r is GiveUp
                } else {
                    r matches CreateStep::RemoveThenCreate(c) && c.path == self.path && c.retried
                },
                Created::Failed => r is GiveUp,
            },
    {
        match outcome {
            Created::Created => CreateStep::Made(TestCgroup { path: self.path }),
            Created::Exists => if self.retried {
                CreateStep::GiveUp
            } else {
                CreateStep::RemoveThenCreate(Creation { path: self.path, retried: true })
            },
            Created::Failed => CreateStep::GiveUp,
        }
    }
}

/// Where the cgroup is that was asked for after `i` others.
pub open spec fn cgroup_path(base: Seq<u8>, asked: Seq<Seq<char>>, i: int) -> Seq<u8> {
    joined(base, encode_utf8(cgroup_name(asked[i], i as nat)))
}

/// The file into which a process writes itself to join a cgroup.
pub open spec fn procs_of(path: Seq<u8>) -> Seq<u8> {
    joined(path, encode_utf8("cgroup.procs"@))
}

proof fn lemma_digits_hold_no_underscore(n: nat)
    ensures
        !decimal(n).contains('_'),
{
    lemma_decimal_round_trip(n);
    assert forall|i: int| 0 <= i < decimal(n).len() implies decimal(n)[i] != '_' by {
        assert(crate::number::is_digit(decimal(n)[i]));
    }
}

/// The cgroups of a run have different names, whatever their tests are called.
pub proof fn lemma_cgroup_names_differ(a: Seq<char>, i: nat, b: Seq<char>, j: nat)
    requires
        i != j,
    ensures
        cgroup_name(a, i) != cgroup_name(b, j),
{
    reveal_strlit("_");
    let x = cgroup_name(a, i);
    let y = cgroup_name(b, j);
    let (p, q) = (a.len() as int, b.len() as int);
    lemma_digits_hold_no_underscore(i);
    lemma_digits_hold_no_underscore(j);
    assert(x[p] == '_' && y[q] == '_');
    if x == y {
        assert(x.len() == p + 1 + decimal(i).len() && y.len() == q + 1 + decimal(j).len());
        lemma_decimal_round_trip(i);
        lemma_decimal_round_trip(j);
        if p < q {
            assert(x[q] == decimal(i)[q - p - 1]);
            assert(decimal(i).contains(decimal(i)[q - p - 1]));
        }
        if q < p {
            assert(y[p] == decimal(j)[p - q - 1]);
            assert(decimal(j).contains(decimal(j)[p - q - 1]));
        }
        assert(x.skip(p + 1) =~= decimal(i));
        assert(y.skip(q + 1) =~= decimal(j));
        lemma_decimal_injective(i, j);
    }
}

/// The name of a cgroup is a single component of a path, whatever the test is called.
proof fn lemma_cgroup_name_is_component(test_id: Seq<char>, count: nat)
    ensures
        ({
            let name = encode_utf8(cgroup_name(test_id, count));
            name.len() > 1 && !name.contains(47u8)
        }),
{
    reveal_strlit("_");
    let name = cgroup_name(test_id, count);
    lemma_decimal_round_trip(count);
    assert forall|i: int| 0 <= i < name.len() implies name[i] != '/' by {
        let n = test_id.len() as int;
        if i < n {
            assert(name[i] == safe_char(test_id[i]));
        } else if i > n {
            assert(name[i] == decimal(count)[i - n - 1]);
            assert(crate::number::is_digit(decimal(count)[i - n - 1]));
        }
    }
    lemma_no_slash(name);
    lemma_len_bound(name);
}

/// No two cgroups of a run are the same, whatever their tests are called: each lies
/// directly in the base, under a name of its own.
pub proof fn lemma_cgroups_never_collide(cgroups: Cgroups, base: UnixPath, i: int, j: int)
    requires
        cgroups.wf(),
        cgroups.base == Some(base),
        0 <= i < cgroups.asked@.len(),
        0 <= j < cgroups.asked@.len(),
        i != j,
    ensures
        ({
            let a = cgroup_path(base@, cgroups.asked@, i);
            let b = cgroup_path(base@, cgroups.asked@, j);
            &&& !same_path(a, b)
            &&& !same_path(procs_of(a), procs_of(b))
            &&& components(a) == components(base@).push(
                encode_utf8(cgroup_name(cgroups.asked@[i], i as nat)),
            )
        }),
{
    let (s, t) = (cgroups.asked@[i], cgroups.asked@[j]);
    let (m, n) = (cgroup_name(s, i as nat), cgroup_name(t, j as nat));
    let (x, y) = (encode_utf8(m), encode_utf8(n));
    let (a, b) = (joined(base@, x), joined(base@, y));
    lemma_cgroup_name_is_component(s, i as nat);
    lemma_cgroup_name_is_component(t, j as nat);
    lemma_joined_name(base@, x);
    lemma_joined_name(base@, y);
    lemma_cgroup_names_differ(s, i as nat, t, j as nat);
    encode_utf8_decode_utf8(m);
    encode_utf8_decode_utf8(n);
    let c = components(base@);
    assert(c.push(x).last() == x && c.push(y).last() == y);
    reveal_strlit("cgroup.procs");
    let procs = "cgroup.procs"@;
    lemma_no_slash(procs);
    lemma_len_bound(procs);
    lemma_joined_name(a, encode_utf8(procs));
    lemma_joined_name(b, encode_utf8(procs));
    let z = encode_utf8(procs);
    assert(components(a).push(z).drop_last() =~= components(a));
    assert(components(b).push(z).drop_last() =~= components(b));
}

/// A stat file with these fields: a line for each, its name and its value with a space between.
pub open spec fn stat_file(fields: Seq<(Seq<char>, nat)>) -> Seq<char>
    decreases fields.len(),
{
    if fields.len() == 0 {
        Seq::empty()
    } else {
        fields[0].0 + seq![' '] + decimal(fields[0].1) + seq!['\n'] + stat_file(fields.drop_first())
    }
}

/// The names of fields hold neither spaces nor newlines, and the values are of 64 bits.
pub open spec fn are_fields(fields: Seq<(Seq<char>, nat)>) -> bool {
    forall|i: int|
        0 <= i < fields.len() ==> !(#[trigger] fields[i]).0.contains(' ') && !fields[i].0.contains('\n')
            && fields[i].1 <= u64::MAX
}

proof fn lemma_digits_are_bare(n: nat)
    ensures
        forall|i: int| 0 <= i < decimal(n).len() ==> !is_whitespace(#[trigger] decimal(n)[i]),
        trim(decimal(n)) == decimal(n),
        !decimal(n).contains('\n'),
{
    lemma_decimal_round_trip(n);
    lemma_bare(decimal(n));
}

/// Digits have no white space among them.
pub proof fn lemma_bare(d: Seq<char>)
    requires
        crate::number::all_digits(d),
        d.len() > 0,
    ensures
        forall|i: int| 0 <= i < d.len() ==> !is_whitespace(#[trigger] d[i]),
        trim(d) == d,
        !d.contains('\n'),
{
    assert forall|i: int| 0 <= i < d.len() implies !is_whitespace(#[trigger] d[i]) && d[i] != '\n' by {
        lemma_digit_is_no_space(d[i]);
    }
    let none = Seq::<char>::empty();
    assert(none + d + none =~= d);
    assert(!is_whitespace(d[0]) && !is_whitespace(d[d.len() - 1]));
    lemma_trim_leaves_the_word(none, d, none);
}

proof fn lemma_digit_is_no_space(c: char)
    requires
        crate::number::is_digit(c),
    ensures
        !is_whitespace(c),
        c != '\n',
{
}

proof fn lemma_stat_line(key: Seq<char>, value: nat, field: Seq<char>)
    requires
        !key.contains(' '),
        value <= u64::MAX,
    ensures
        stat_line(key + seq![' '] + decimal(value), field) == (if key == field {
            Some(value as int)
        } else {
            None
        }),
{
    let line = key + seq![' '] + decimal(value);
    let k = key.len() as int;
    assert(" "@ =~= seq![' ']) by {
        reveal_strlit(" ");
    }
    assert(line.subrange(k, k + 1) =~= " "@);
    assert forall|j: int| 0 <= j < k implies !occurs_at(line, " "@, j) by {
        assert(key.contains(key[j]));
        assert(line.subrange(j, j + 1)[0] == key[j]);
    }
    lemma_first_at(line, " "@, 0, k);
    assert(line.take(k) =~= key);
    assert(line.skip(k + 1) =~= decimal(value));
    lemma_digits_are_bare(value);
    lemma_decimal_round_trip(value);
}

proof fn lemma_stat_rest(ls: Seq<Seq<char>>, field: Seq<char>, i: int)
    requires
        ls.len() > 0,
        1 <= i <= ls.len(),
    ensures
        stat_from(ls, field, i) == stat_from(ls.drop_first(), field, i - 1),
    decreases ls.len() - i,
{
    if i < ls.len() {
        lemma_stat_rest(ls, field, i + 1);
    }
}

/// The value of a field is the one that stands in the file with it, wherever its line is; a
/// field that is not there has none.
pub proof fn lemma_fields_are_read_back(fields: Seq<(Seq<char>, nat)>, field: Seq<char>, k: int)
    requires
        are_fields(fields),
        0 <= k <= fields.len(),
        forall|i: int| 0 <= i < k ==> (#[trigger] fields[i]).0 != field,
        k < fields.len() ==> fields[k].0 == field,
    ensures
        stat_value(Some(stat_file(fields)), field) == (if k < fields.len() {
            Some(fields[k].1 as int)
        } else {
            None
        }),
    decreases fields.len(),
{
    if fields.len() == 0 {
        lemma_last_line(stat_file(fields));
    } else {
        let (key, value) = fields[0];
        let line = key + seq![' '] + decimal(value);
        let rest = fields.drop_first();
        assert(are_fields(rest)) by {
            assert forall|i: int| 0 <= i < rest.len() implies !(#[trigger] rest[i]).0.contains(' ')
                && !rest[i].0.contains('\n') && rest[i].1 <= u64::MAX by {
                assert(rest[i] == fields[i + 1]);
            }
        }
        lemma_digits_are_bare(value);
        lemma_decimal_round_trip(value);
        assert(!line.contains('\n')) by {
            assert forall|i: int| 0 <= i < line.len() implies line[i] != '\n' by {
                if i < key.len() {
                    assert(key.contains(key[i]));
                } else if i > key.len() {
                    assert(decimal(value).contains(decimal(value)[i - key.len() - 1]));
                }
            }
        }
        assert(line.last() == decimal(value).last());
        assert(!is_whitespace(decimal(value)[decimal(value).len() - 1]));
        lemma_lines_are_read_one_by_one(line, stat_file(rest));
        let ls = lines(stat_file(fields));
        assert(ls =~= seq![line] + lines(stat_file(rest)));
        assert(ls.drop_first() =~= lines(stat_file(rest)));
        lemma_stat_line(key, value, field);
        lemma_stat_rest(ls, field, 1);
        if k > 0 {
            assert(fields[0].0 != field);
            assert forall|i: int| 0 <= i < k - 1 implies (#[trigger] rest[i]).0 != field by {
                assert(rest[i] == fields[i + 1]);
            }
            lemma_fields_are_read_back(rest, field, k - 1);
        }
    }
}

/// The sum over two lists of words is that of both sums, a word with the field adds its value,
/// and a word with another field nothing.
pub proof fn lemma_io_is_summed(a: Seq<Seq<char>>, b: Seq<Seq<char>>, field: Seq<char>, other: Seq<char>, n: nat)
    requires
        !field.contains('='),
        !other.contains('='),
        n <= u64::MAX,
    ensures
        io_sum(a + b, field) == io_sum(a, field) + io_sum(b, field),
        io_sum(seq![other + seq!['='] + decimal(n)], field) == (if other == field {
            n as int
        } else {
            0
        }),
    decreases b.len(),
{
    if b.len() == 0 {
        assert(a + b =~= a);
    } else {
        lemma_io_is_summed(a, b.drop_last(), field, other, n);
        assert((a + b).drop_last() =~= a + b.drop_last());
    }
    let word = other + seq!['='] + decimal(n);
    let one = seq![word];
    assert(one.drop_last() =~= Seq::<Seq<char>>::empty());
    assert(io_sum(one.drop_last(), field) == 0);
    assert("="@ =~= seq!['=']) by {
        reveal_strlit("=");
    }
    let prefix = field + "="@;
    if starts_with(word, prefix) {
        let k = field.len() as int;
        assert(word.take(prefix.len() as int)[k] == '=');
        if k < other.len() {
            assert(other.contains(other[k]));
        }
        if k > other.len() {
            assert(word[other.len() as int] == '=');
            assert(word.take(prefix.len() as int)[other.len() as int] == field[other.len() as int]);
            assert(field.contains(field[other.len() as int]));
        }
        assert(other =~= field) by {
            assert forall|i: int| 0 <= i < k implies other[i] == field[i] by {
                assert(word.take(prefix.len() as int)[i] == prefix[i]);
            }
        }
    }
    if other == field {
        assert(word.take(prefix.len() as int) =~= prefix);
        assert(word.skip(prefix.len() as int) =~= decimal(n));
        lemma_decimal_round_trip(n);
    }
}

/// A file that holds a number, with or without a newline after it, is read as that number.
pub proof fn lemma_a_number_is_read_back(n: nat)
    requires
        n <= u64::MAX,
    ensures
        single_value(Some(decimal(n))) == Some(n as int),
        single_value(Some(decimal(n) + seq!['\n'])) == Some(n as int),
{
    lemma_digits_are_bare(n);
    lemma_decimal_round_trip(n);
    let d = decimal(n);
    let s = d + seq!['\n'];
    let (a, b) = lemma_trim_takes_all(s);
    if a > 0 {
        assert(is_whitespace(s[0]));
        assert(s[0] == d[0]);
    }
    assert(s[s.len() - 1] == '\n');
    if b < d.len() {
        assert(is_whitespace(s[d.len() - 1]));
        assert(s[d.len() - 1] == d[d.len() - 1]);
    }
    assert(b == d.len());
    assert(s.subrange(0, d.len() as int) =~= d);
}

/// The name of a cgroup holds letters, digits, underscores and dashes alone, and keeps those
/// of the test's name where they are.
pub proof fn lemma_cgroup_names_are_safe(test_id: Seq<char>, count: nat, i: int)
    requires
        0 <= i < test_id.len(),
    ensures
        ({
            let c = cgroup_name(test_id, count)[i];
            &&& is_word_char(c) || c == '_' || c == '-'
            &&& is_word_char(test_id[i]) || test_id[i] == '_' || test_id[i] == '-' ==> c == test_id[i]
        }),
{
}

/// A cgroup is made where it was asked for, and one that is there is removed at most once: a
/// second attempt that finds one gives up.
pub proof fn lemma_creation_is_tried_twice_at_most(c: Creation, first: Created, a: CreateStep, second: Created, b: CreateStep)
    requires
        call_ensures(Creation::after, (c, first), a),
        a matches CreateStep::RemoveThenCreate(d) && call_ensures(Creation::after, (d, second), b),
    ensures
        !c.retried,
        first == Created::Exists,
        !(b is RemoveThenCreate),
        b is Made <==> second == Created::Created,
        b matches CreateStep::Made(m) ==> m.path == c.path,
{
}

/// The CPU times are those that `cpu.stat` tells of the user and of the system, wherever its
/// lines stand, and the total is their sum.
pub proof fn lemma_cpu_times_are_read_back(
    cg: &TestCgroup,
    files: &CgroupFiles,
    fields: Seq<(Seq<char>, nat)>,
    u: int,
    s: int,
    r: ResourceStats,
    total: Option<u128>,
)
    requires
        call_ensures(TestCgroup::read_stats, (cg, files), r),
        call_ensures(TestCgroup::read_cpu_time, (cg, files.cpu_stat), total),
        text_of(files.cpu_stat) == Some(stat_file(fields)),
        are_fields(fields),
        0 <= u < fields.len(),
        0 <= s < fields.len(),
        fields[u].0 == "user_usec"@,
        fields[s].0 == "system_usec"@,
        forall|i: int| 0 <= i < u ==> (#[trigger] fields[i]).0 != "user_usec"@,
        forall|i: int| 0 <= i < s ==> (#[trigger] fields[i]).0 != "system_usec"@,
    ensures
        r.cpu_user_usec == Some(fields[u].1 as u64),
        r.cpu_system_usec == Some(fields[s].1 as u64),
        total == Some((fields[u].1 + fields[s].1) as u128),
{
    assert(fields[u].1 <= u64::MAX && fields[s].1 <= u64::MAX);
    lemma_fields_are_read_back(fields, "user_usec"@, u);
    lemma_fields_are_read_back(fields, "system_usec"@, s);
}

/// The peaks are those that their files hold; that of the memory falls back to what is in use
/// where it is not told.
pub proof fn lemma_peaks_are_read_back(cg: &TestCgroup, files: &CgroupFiles, m: nat, c: nat, p: nat, r: ResourceStats)
    requires
        call_ensures(TestCgroup::read_stats, (cg, files), r),
        m <= u64::MAX,
        c <= u64::MAX,
        p <= u64::MAX,
        text_of(files.memory_current) == Some(decimal(c) + seq!['\n']),
        text_of(files.pids_peak) == Some(decimal(p) + seq!['\n']),
        files.memory_peak is None || text_of(files.memory_peak) == Some(decimal(m) + seq!['\n']),
    ensures
        r.memory_peak == (if files.memory_peak is None {
            Some(c as u64)
        } else {
            Some(m as u64)
        }),
        r.pids_peak == Some(p as u64),
{
    lemma_a_number_is_read_back(m);
    lemma_a_number_is_read_back(c);
    lemma_a_number_is_read_back(p);
}

proof fn lemma_no_space_in_field(key: Seq<char>, n: nat)
    requires
        forall|i: int| 0 <= i < key.len() ==> 'a' <= #[trigger] key[i] <= 'z',
    ensures
        forall|i: int|
            0 <= i < (key + seq!['='] + decimal(n)).len() ==> !is_whitespace(
                #[trigger] (key + seq!['='] + decimal(n))[i],
            ),
{
    lemma_digits_are_bare(n);
    let w = key + seq!['='] + decimal(n);
    assert forall|i: int| 0 <= i < w.len() implies !is_whitespace(#[trigger] w[i]) by {
        if i < key.len() {
            assert('a' <= key[i] <= 'z');
        } else if i > key.len() {
            assert(!is_whitespace(decimal(n)[i - key.len() - 1]));
        }
    }
}

/// The bytes read and written are those that `io.stat` tells of them, and not the one in place
/// of the other.
pub proof fn lemma_io_is_read_back(cg: &TestCgroup, files: &CgroupFiles, a: nat, b: nat, r: ResourceStats)
    requires
        call_ensures(TestCgroup::read_stats, (cg, files), r),
        0 < a <= u64::MAX,
        0 < b <= u64::MAX,
        text_of(files.io_stat) == Some(
            "rbytes"@ + seq!['='] + decimal(a) + seq![' '] + ("wbytes"@ + seq!['='] + decimal(b)),
        ),
    ensures
        r.io_read_bytes == Some(a as u64),
        r.io_write_bytes == Some(b as u64),
{
    let rd = "rbytes"@;
    let wr = "wbytes"@;
    assert(forall|i: int| 0 <= i < rd.len() ==> 'a' <= #[trigger] rd[i] <= 'z') by {
        reveal_strlit("rbytes");
    }
    assert(forall|i: int| 0 <= i < wr.len() ==> 'a' <= #[trigger] wr[i] <= 'z') by {
        reveal_strlit("wbytes");
    }
    assert(rd[0] == 'r' && wr[0] == 'w') by {
        reveal_strlit("rbytes");
        reveal_strlit("wbytes");
    }
    let x = rd + seq!['='] + decimal(a);
    let y = wr + seq!['='] + decimal(b);
    lemma_no_space_in_field(rd, a);
    lemma_no_space_in_field(wr, b);
    lemma_a_word_is_itself(x);
    lemma_a_word_is_itself(y);
    lemma_white_space_parts_words(x, ' ', y);
    assert(!rd.contains('=')) by {
        assert forall|i: int| 0 <= i < rd.len() implies rd[i] != '=' by {
            assert('a' <= rd[i] <= 'z');
        }
    }
    assert(!wr.contains('=')) by {
        assert forall|i: int| 0 <= i < wr.len() implies wr[i] != '=' by {
            assert('a' <= wr[i] <= 'z');
        }
    }
    lemma_io_is_summed(seq![x], seq![y], rd, rd, a);
    lemma_io_is_summed(seq![x], seq![y], rd, wr, b);
    lemma_io_is_summed(seq![x], seq![y], wr, rd, a);
    lemma_io_is_summed(seq![x], seq![y], wr, wr, b);
}

} // verus!
