//! What is written and started for a test.

use vstd::prelude::*;
use vstd::utf8::{decode_utf8, encode_utf8, valid_utf8};

use crate::cgroup::{text_of, ResourceStats};
use crate::discovery::{bytes_of, get_script_shell, shell_of};
use crate::mounts::paths;
use crate::number::{decimal, decimal_chars};
use crate::overlay::{abs_joined, in_context, join_abs, sub_name, submount_upper_dir, upper_dir};
use crate::path::{components, dot, dot_dot, file_name, is_absolute, joined, lemma_joined_name, lemma_seen_from_base, lemma_slash_in_bytes, slash, UnixPath};
use crate::root::{ephemeral_before, layers_of};
use crate::scheduler::Outcome;
use crate::submounts::Submount;
use crate::syntax::{function_views, FunctionDefinition, FunctionView};
use crate::text::{chars_of, copy_range, extend, extend_str, find_symbol, starts_with, string_of};
use crate::utf8::{lemma_encode_concat, lemma_no_slash, lemma_no_trailing_slash, lossy, lossy_text, strict_text};

verus! {

/// The result of a test.
#[derive(Debug)]
pub struct TestResult {
    pub name: String,
    pub passed: bool,
    pub timed_out: bool,
    /// In nanoseconds.
    pub duration: u128,
    pub context: UnixPath,
    pub source_path: UnixPath,
    pub resources: Option<ResourceStats>,
}

/// A `--override` spec: a binary to copy into the test context's `bin/` dir.
///
/// Accepted CLI forms:
/// - `/usr/bin/example` (absolute path) — copied as `bin/example`
/// - `./bin/example` (relative path) — copied as `bin/example`
/// - `example=/usr/bin/override` — copies `/usr/bin/override` to `bin/example`
#[derive(Debug)]
pub struct OverrideSpec {
    pub name: String,
    pub source: UnixPath,
}

impl Clone for OverrideSpec {
    fn clone(&self) -> (r: Self)
        ensures
            r@ == self@,
    {
        OverrideSpec { name: self.name.as_str().to_owned(), source: self.source.clone() }
    }
}

pub struct OverrideView {
    pub name: Seq<char>,
    pub source: Seq<u8>,
}

impl View for OverrideSpec {
    type V = OverrideView;

    open spec fn view(&self) -> OverrideView {
        OverrideView { name: self.name@, source: self.source@ }
    }
}

/// The first `=` of a text stands at `i`.
pub open spec fn first_equals(s: Seq<char>, i: int) -> bool {
    0 <= i < s.len() && s[i] == '=' && forall|j: int| 0 <= j < i ==> s[j] != '='
}

/// What a mapping `name=path` stands for, or why it stands for nothing.
pub open spec fn override_mapping(s: Seq<char>, name: Seq<char>, path: Seq<char>) -> Result<
    OverrideView,
    Seq<char>,
> {
    if name.len() == 0 || path.len() == 0 {
        Err("invalid override mapping: "@ + s)
    } else if name.contains('/') {
        Err("override name must not contain '/': "@ + name)
    } else {
        Ok(OverrideView { name, source: encode_utf8(path) })
    }
}

/// What a path stands for, or why it stands for nothing.
pub open spec fn override_path(s: Seq<char>) -> Result<OverrideView, Seq<char>> {
    if !s.contains('/') {
        Err(
            "override `"@ + s + "` must be a path (e.g. `/usr/bin/"@ + s + "`) or a mapping (e.g. `"@
                + s + "=/path/to/bin`)"@,
        )
    } else {
        match file_name(encode_utf8(s)) {
            Some(n) => Ok(OverrideView { name: lossy(n), source: encode_utf8(s) }),
            None => Err("invalid override path: "@ + s),
        }
    }
}

fn message2(a: &str, b: &str) -> (r: String)
    ensures
        r@ == a@ + b@,
{
    let mut v = chars_of(a);
    extend_str(&mut v, b);
    string_of(v.as_slice())
}

/// What an override spec stands for, as one of its forms.
pub open spec fn override_outcome(s: Seq<char>, r: Result<OverrideView, Seq<char>>) -> bool {
    if s.contains('=') {
        exists|i: int|
            #[trigger] first_equals(s, i) && r == override_mapping(s, s.take(i), s.skip(i + 1))
    } else {
        r == override_path(s)
    }
}

/// What a result holds.
pub open spec fn override_view(r: Result<OverrideSpec, String>) -> Result<OverrideView, Seq<char>> {
    match r {
        Ok(o) => Ok(o@),
        Err(e) => Err(e@),
    }
}

impl OverrideSpec {
    /// Reads an override spec.
    pub fn parse(s: &str) -> (r: Result<OverrideSpec, String>)
        ensures
            override_outcome(s@, override_view(r)),
    {
        let v = chars_of(s);
        if let Some(i) = find_symbol(v.as_slice(), '=') {
            let total: usize = v.len();
            let name = copy_range(v.as_slice(), 0, i);
            let path = copy_range(v.as_slice(), i + 1, total);
            proof {
                assert(v@.contains(v@[i as int]));
                assert(first_equals(s@, i as int));
                assert(name@ =~= s@.take(i as int));
                assert(path@ =~= s@.skip(i + 1));
            }
            if name.len() == 0 || path.len() == 0 {
                return Err(message2("invalid override mapping: ", s));
            }
            let name_text = string_of(name.as_slice());
            if let Some(k) = find_symbol(name.as_slice(), '/') {
                assert(name@.contains(name@[k as int]));
                return Err(message2("override name must not contain '/': ", name_text.as_str()));
            }
            let path_text = string_of(path.as_slice());
            return Ok(OverrideSpec { name: name_text, source: UnixPath::new(path_text.as_str()) });
        }
        if find_symbol(v.as_slice(), '/').is_none() {
            let mut m = chars_of("override `");
            extend_str(&mut m, s);
            extend_str(&mut m, "` must be a path (e.g. `/usr/bin/");
            extend_str(&mut m, s);
            extend_str(&mut m, "`) or a mapping (e.g. `");
            extend_str(&mut m, s);
            extend_str(&mut m, "=/path/to/bin`)");
            return Err(string_of(m.as_slice()));
        }
        let path = UnixPath::new(s);
        assert(s@.contains('/'));
        match path.file_name() {
            Some(n) => Ok(OverrideSpec { name: lossy_text(n.as_slice()), source: path }),
            None => Err(message2("invalid override path: ", s)),
        }
    }
}

impl std::str::FromStr for OverrideSpec {
    type Err = String;

    fn from_str(s: &str) -> (r: Result<Self, String>)
        ensures
            override_outcome(s@, override_view(r)),
    {
        OverrideSpec::parse(s)
    }
}

/// `t` with every single quote written as `'\''`.
pub open spec fn quotes_escaped(t: Seq<char>) -> Seq<char>
    decreases t.len(),
{
    if t.len() == 0 {
        t
    } else if t[0] == '\'' {
        seq!['\'', '\\', '\'', '\''] + quotes_escaped(t.drop_first())
    } else {
        seq![t[0]] + quotes_escaped(t.drop_first())
    }
}

/// `t` as one word of a shell script.
pub open spec fn quoted(t: Seq<char>) -> Seq<char> {
    seq!['\''] + quotes_escaped(t) + seq!['\'']
}

/// The text that a word of a shell script stands for, where the word is made of parts in
/// single quotes and of characters after a backslash; `None` for any other text.
pub open spec fn word_value(s: Seq<char>, in_quotes: bool) -> Option<Seq<char>>
    decreases s.len(),
{
    if s.len() == 0 {
        if in_quotes {
            None
        } else {
            Some(s)
        }
    } else if in_quotes {
        if s[0] == '\'' {
            word_value(s.drop_first(), false)
        } else {
            match word_value(s.drop_first(), true) {
                Some(t) => Some(seq![s[0]] + t),
                None => None,
            }
        }
    } else if s[0] == '\'' {
        word_value(s.drop_first(), true)
    } else if s[0] == '\\' && s.len() >= 2 {
        match word_value(s.skip(2), false) {
            Some(t) => Some(seq![s[1]] + t),
            None => None,
        }
    } else {
        None
    }
}

proof fn lemma_inside_quotes(t: Seq<char>)
    ensures
        word_value(quotes_escaped(t) + seq!['\''], true) == Some(t),
    decreases t.len(),
{
    let end = seq!['\''];
    let s = quotes_escaped(t) + end;
    if t.len() == 0 {
        assert(s =~= end);
        assert(s.drop_first() =~= Seq::<char>::empty());
        assert(word_value(s.drop_first(), false) == Some(Seq::<char>::empty()));
        assert(t =~= Seq::<char>::empty());
    } else {
        let u = t.drop_first();
        let rest = quotes_escaped(u) + end;
        lemma_inside_quotes(u);
        if t[0] == '\'' {
            let s1 = s.drop_first();
            let s3 = s1.skip(2);
            assert(s3.drop_first() =~= rest);
            assert(s1[0] == '\\' && s1[1] == '\'');
            assert(s3[0] == '\'');
            assert(word_value(s3, false) == Some(u));
            assert(word_value(s1, false) == Some(seq!['\''] + u));
            assert(word_value(s, true) == word_value(s1, false));
        } else {
            assert(s.drop_first() =~= rest);
            assert(s[0] == t[0]);
        }
        assert(seq![t[0]] + u =~= t);
    }
}

/// A quoted text stands for the text itself, whatever characters it holds.
pub proof fn lemma_quoted_text_survives(t: Seq<char>)
    ensures
        word_value(quoted(t), false) == Some(t),
{
    lemma_inside_quotes(t);
    assert(quoted(t).drop_first() =~= quotes_escaped(t) + seq!['\'']);
}

/// Quote a path for literal inclusion in generated sh scripts: single-quoted,
/// with embedded single quotes escaped, so spaces and metacharacters survive.
pub fn sh_quote(path: &UnixPath) -> (r: String)
    ensures
        r@ == quoted(lossy(path@)),
{
    let text = path.display();
    let t = chars_of(text.as_str());
    let mut out: Vec<char> = Vec::new();
    out.push('\'');
    let mut i: usize = 0;
    assert(t@.skip(0) =~= t@);
    assert(seq!['\''] + quotes_escaped(t@) =~= out@ + quotes_escaped(t@.skip(0)));
    while i < t.len()
        invariant
            i <= t@.len(),
            seq!['\''] + quotes_escaped(t@) == out@ + quotes_escaped(t@.skip(i as int)),
        decreases t@.len() - i,
    {
        let ghost rest = t@.skip(i as int);
        assert(rest.drop_first() =~= t@.skip(i + 1));
        if t[i] == '\'' {
            out.push('\'');
            out.push('\\');
            out.push('\'');
            out.push('\'');
        } else {
            out.push(t[i]);
        }
        i = i + 1;
        assert(seq!['\''] + quotes_escaped(t@) =~= out@ + quotes_escaped(t@.skip(i as int)));
    }
    assert(t@.skip(i as int) =~= Seq::<char>::empty());
    out.push('\'');
    assert(out@ =~= quoted(t@));
    string_of(out.as_slice())
}

/// The line that puts a directory first in `PATH`.
pub open spec fn path_line(dir: Seq<u8>) -> Seq<char> {
    "export PATH="@ + quoted(lossy(dir)) + ":\"$PATH\"\n"@
}

/// The lines that put the directories in `PATH`, so that the last comes first.
pub open spec fn path_lines(dirs: Seq<Seq<u8>>) -> Seq<char>
    decreases dirs.len(),
{
    if dirs.len() == 0 {
        Seq::empty()
    } else {
        path_lines(dirs.drop_last()) + path_line(dirs.last())
    }
}

/// A file or directory in the working directory of a test.
pub open spec fn inside(dir: Seq<u8>, name: Seq<char>) -> Seq<u8> {
    joined(dir, encode_utf8(name))
}

/// The directories that a test finds its commands in, above the inherited ones: those
/// that were asked for, above them the overrides, and above those the strace wrappers.
pub open spec fn command_dirs(dir: Seq<u8>, bin_dirs: Seq<Seq<u8>>, traced: bool) -> Seq<Seq<u8>> {
    let dirs = bin_dirs.push(inside(dir, "bin"@));
    if traced {
        dirs.push(inside(dir, "strace_bin"@))
    } else {
        dirs
    }
}

/// The script that runs a test: it sets `PATH`, sends both outputs to log files, stops
/// at the first failure, reads the functions, and calls the test with tracing on.
pub open spec fn runner_script(
    test_name: Seq<char>,
    functions: Seq<u8>,
    dir: Seq<u8>,
    bin_dirs: Seq<Seq<u8>>,
    traced: bool,
) -> Seq<char> {
    path_lines(command_dirs(dir, bin_dirs, traced)) + "exec 1>"@ + quoted(
        lossy(inside(dir, "stdout.log"@)),
    ) + " 2>"@ + quoted(lossy(inside(dir, "xtrace.log"@))) + "\nset -e\n. "@ + quoted(
        lossy(functions),
    ) + "\nPS4='+$LINENO: '\nset -x\n"@ + test_name + "\n"@
}

fn push_path_line(v: &mut Vec<char>, dir: &UnixPath)
    ensures
        final(v)@ == old(v)@ + path_line(dir@),
{
    let q = sh_quote(dir);
    extend_str(v, "export PATH=");
    extend_str(v, q.as_str());
    extend_str(v, ":\"$PATH\"\n");
    assert(v@ =~= old(v)@ + path_line(dir@));
}

/// A word of a shell script at the beginning of a text, and what comes after it: parts in
/// single quotes and characters after a backslash, up to the first character that is
/// neither.
#[verifier::opaque]
pub open spec fn first_word(s: Seq<char>, in_quotes: bool) -> (Seq<char>, Seq<char>)
    decreases s.len(),
{
    if s.len() == 0 {
        (s, s)
    } else if in_quotes {
        if s[0] == '\'' {
            first_word(s.drop_first(), false)
        } else {
            let r = first_word(s.drop_first(), true);
            (seq![s[0]] + r.0, r.1)
        }
    } else if s[0] == '\'' {
        first_word(s.drop_first(), true)
    } else if s[0] == '\\' && s.len() >= 2 {
        let r = first_word(s.skip(2), false);
        (seq![s[1]] + r.0, r.1)
    } else {
        (Seq::empty(), s)
    }
}

proof fn lemma_first_word_inside(t: Seq<char>, rest: Seq<char>)
    requires
        rest.len() > 0,
        rest[0] != '\'' && rest[0] != '\\',
    ensures
        first_word(quotes_escaped(t) + seq!['\''] + rest, true) == (t, rest),
    decreases t.len(),
{
    reveal_with_fuel(first_word, 2);
    let end = seq!['\''];
    let s = quotes_escaped(t) + end + rest;
    if t.len() == 0 {
        assert(s =~= end + rest);
        assert(s.drop_first() =~= rest);
        assert(first_word(rest, false) == (Seq::<char>::empty(), rest));
        assert(t =~= Seq::<char>::empty());
    } else {
        let u = t.drop_first();
        let more = quotes_escaped(u) + end + rest;
        lemma_first_word_inside(u, rest);
        if t[0] == '\'' {
            let s1 = s.drop_first();
            let s3 = s1.skip(2);
            assert(s3.drop_first() =~= more);
            assert(s1[0] == '\\' && s1[1] == '\'');
            assert(s3[0] == '\'');
            assert(first_word(s3, false) == (u, rest));
            assert(first_word(s1, false) == (seq!['\''] + u, rest));
            assert(first_word(s, true) == first_word(s1, false));
        } else {
            assert(s.drop_first() =~= more);
            assert(s[0] == t[0]);
        }
        assert(seq![t[0]] + u =~= t);
    }
}

proof fn lemma_first_word(t: Seq<char>, rest: Seq<char>)
    requires
        rest.len() > 0,
        rest[0] != '\'' && rest[0] != '\\',
    ensures
        first_word(quoted(t) + rest, false) == (t, rest),
{
    reveal_with_fuel(first_word, 2);
    lemma_first_word_inside(t, rest);
    let s = quoted(t) + rest;
    assert(s.drop_first() =~= quotes_escaped(t) + seq!['\''] + rest);
}

/// What comes after a word is no longer than the text.
pub proof fn lemma_first_word_rest(s: Seq<char>, in_quotes: bool)
    ensures
        first_word(s, in_quotes).1.len() <= s.len(),
    decreases s.len(),
{
    reveal_with_fuel(first_word, 2);
    if s.len() > 0 {
        lemma_first_word_rest(s.drop_first(), true);
        lemma_first_word_rest(s.drop_first(), false);
        if s.len() >= 2 {
            lemma_first_word_rest(s.skip(2), false);
        }
    }
}

/// The directories in which a shell looks for commands after it has read the lines at the
/// beginning of a script that set `PATH`, in the order in which it looks: each such line
/// puts its directory before those that were there. And what comes after those lines.
#[verifier::opaque]
pub open spec fn search_order(script: Seq<char>, inherited: Seq<Seq<char>>) -> (
    Seq<Seq<char>>,
    Seq<char>,
)
    decreases script.len(),
{
    let word = first_word(script.skip(12), false);
    if !starts_with(script, "export PATH="@) || !starts_with(word.1, ":\"$PATH\"\n"@) {
        (inherited, script)
    } else {
        proof {
            reveal_strlit("export PATH=");
            reveal_strlit(":\"$PATH\"\n");
            lemma_first_word_rest(script.skip(12), false);
        }
        search_order(word.1.skip(9), seq![word.0] + inherited)
    }
}

proof fn lemma_path_lines_first(dirs: Seq<Seq<u8>>)
    requires
        dirs.len() > 0,
    ensures
        path_lines(dirs) == path_line(dirs[0]) + path_lines(dirs.drop_first()),
    decreases dirs.len(),
{
    let front = dirs.drop_last();
    if front.len() == 0 {
        assert(path_lines(front) =~= Seq::<char>::empty());
        assert(path_lines(dirs.drop_first()) =~= Seq::<char>::empty());
        assert(path_lines(dirs) =~= path_line(dirs[0]) + path_lines(dirs.drop_first()));
    } else {
        lemma_path_lines_first(front);
        assert(dirs.drop_first().drop_last() =~= front.drop_first());
        assert(path_lines(dirs) =~= path_line(dirs[0]) + path_lines(dirs.drop_first()));
    }
}

proof fn lemma_path_line_is_read(dir: Seq<u8>, rest: Seq<char>, inherited: Seq<Seq<char>>)
    ensures
        search_order(path_line(dir) + rest, inherited) == search_order(
            rest,
            seq![lossy(dir)] + inherited,
        ),
{
    reveal_with_fuel(search_order, 2);
    let d = lossy(dir);
    let set = "export PATH="@;
    let end = ":\"$PATH\"\n"@;
    assert(set.len() == 12) by {
        reveal_strlit("export PATH=");
    }
    assert(end.len() == 9 && end[0] == ':') by {
        reveal_strlit(":\"$PATH\"\n");
    }
    let s = path_line(dir) + rest;
    let after = quoted(d) + (end + rest);
    assert(s =~= set + after);
    assert(s.take(12) =~= set);
    assert(s.skip(12) =~= after);
    lemma_first_word(d, end + rest);
    assert((end + rest).take(9) =~= end);
    assert((end + rest).skip(9) =~= rest);
}

/// The directories that the lines name come first, the last of them at the very front.
proof fn lemma_search_order(dirs: Seq<Seq<u8>>, tail: Seq<char>, inherited: Seq<Seq<char>>)
    requires
        !starts_with(tail, "export PATH="@),
    ensures
        search_order(path_lines(dirs) + tail, inherited).0 == Seq::new(
            dirs.len(),
            |k: int| lossy(dirs[dirs.len() - 1 - k]),
        ) + inherited,
        search_order(path_lines(dirs) + tail, inherited).1 == tail,
    decreases dirs.len(),
{
    reveal_with_fuel(search_order, 2);
    let s = path_lines(dirs) + tail;
    if dirs.len() == 0 {
        assert(s =~= tail);
        assert(search_order(s, inherited) == (inherited, tail));
        assert(Seq::new(dirs.len(), |k: int| lossy(dirs[dirs.len() - 1 - k])) + inherited =~= inherited);
    } else {
        lemma_path_lines_first(dirs);
        let rest = path_lines(dirs.drop_first()) + tail;
        let d = lossy(dirs[0]);
        assert(s =~= path_line(dirs[0]) + rest);
        lemma_path_line_is_read(dirs[0], rest, inherited);
        lemma_search_order(dirs.drop_first(), tail, seq![d] + inherited);
        let a = Seq::new(
            dirs.drop_first().len(),
            |k: int| lossy(dirs.drop_first()[dirs.drop_first().len() - 1 - k]),
        );
        let b = Seq::new(dirs.len(), |k: int| lossy(dirs[dirs.len() - 1 - k]));
        assert(a + (seq![d] + inherited) =~= b + inherited);
    }
}

/// What the script does after it has set `PATH`.
spec fn script_rest(test_name: Seq<char>, functions: Seq<u8>, dir: Seq<u8>) -> Seq<char> {
    let end = "\nPS4='+$LINENO: '\nset -x\n"@ + test_name + "\n"@;
    let source = "\nset -e\n. "@ + (quoted(lossy(functions)) + end);
    let err = " 2>"@ + (quoted(lossy(inside(dir, "xtrace.log"@))) + source);
    "exec 1>"@ + (quoted(lossy(inside(dir, "stdout.log"@))) + err)
}

proof fn lemma_script_parts(
    test_name: Seq<char>,
    functions: Seq<u8>,
    dir: Seq<u8>,
    bin_dirs: Seq<Seq<u8>>,
    traced: bool,
)
    ensures
        runner_script(test_name, functions, dir, bin_dirs, traced) == path_lines(
            command_dirs(dir, bin_dirs, traced),
        ) + script_rest(test_name, functions, dir),
        !starts_with(script_rest(test_name, functions, dir), "export PATH="@),
{
    let tail = script_rest(test_name, functions, dir);
    let script = runner_script(test_name, functions, dir, bin_dirs, traced);
    assert(script =~= path_lines(command_dirs(dir, bin_dirs, traced)) + tail);
    let set = "export PATH="@;
    assert("exec 1>"@.len() == 7 && "exec 1>"@[2] == 'e') by {
        reveal_strlit("exec 1>");
    }
    assert(set.len() == 12 && set[2] == 'p') by {
        reveal_strlit("export PATH=");
    }
    assert(tail[2] == 'e');
    if starts_with(tail, set) {
        assert(tail.take(12)[2] == 'p');
    }
}

proof fn lemma_word_after(before: Seq<char>, t: Seq<char>, rest: Seq<char>)
    requires
        rest.len() > 0,
        rest[0] != '\'' && rest[0] != '\\',
    ensures
        ({
            let s = before + (quoted(t) + rest);
            &&& s.take(before.len() as int) == before
            &&& first_word(s.skip(before.len() as int), false) == (t, rest)
        }),
{
    let s = before + (quoted(t) + rest);
    assert(s.take(before.len() as int) =~= before);
    assert(s.skip(before.len() as int) =~= quoted(t) + rest);
    lemma_first_word(t, rest);
}

/// What the script does after it has set `PATH`, as a shell reads it: it sends the output to
/// `stdout.log` and the rest to `xtrace.log`, stops at the first failure from there on,
/// reads the functions, and only after that traces, and calls the test.
pub proof fn lemma_script_logs_and_runs(
    test_name: Seq<char>,
    functions: Seq<u8>,
    dir: Seq<u8>,
    bin_dirs: Seq<Seq<u8>>,
    traced: bool,
    inherited: Seq<Seq<char>>,
)
    ensures
        ({
            let rest = search_order(
                runner_script(test_name, functions, dir, bin_dirs, traced),
                inherited,
            ).1;
            let out = first_word(rest.skip(7), false);
            let err = first_word(out.1.skip(3), false);
            let source = first_word(err.1.skip(10), false);
            &&& rest.take(7) == "exec 1>"@
            &&& out.0 == lossy(joined(dir, encode_utf8("stdout.log"@)))
            &&& out.1.take(3) == " 2>"@
            &&& err.0 == lossy(joined(dir, encode_utf8("xtrace.log"@)))
            &&& err.1.take(10) == "\nset -e\n. "@
            &&& source.0 == lossy(functions)
            &&& source.1 == "\nPS4='+$LINENO: '\nset -x\n"@ + test_name + "\n"@
        }),
{
    let tail = script_rest(test_name, functions, dir);
    lemma_script_parts(test_name, functions, dir, bin_dirs, traced);
    lemma_search_order(command_dirs(dir, bin_dirs, traced), tail, inherited);
    assert("exec 1>"@.len() == 7) by {
        reveal_strlit("exec 1>");
    }
    assert(" 2>"@.len() == 3 && " 2>"@[0] == ' ') by {
        reveal_strlit(" 2>");
    }
    assert("\nset -e\n. "@.len() == 10 && "\nset -e\n. "@[0] == '\n') by {
        reveal_strlit("\nset -e\n. ");
    }
    assert("\nPS4='+$LINENO: '\nset -x\n"@.len() > 0 && "\nPS4='+$LINENO: '\nset -x\n"@[0] == '\n') by {
        reveal_strlit("\nPS4='+$LINENO: '\nset -x\n");
    }
    let end = "\nPS4='+$LINENO: '\nset -x\n"@ + test_name + "\n"@;
    let source = "\nset -e\n. "@ + (quoted(lossy(functions)) + end);
    let err = " 2>"@ + (quoted(lossy(inside(dir, "xtrace.log"@))) + source);
    assert(end[0] == '\n' && source[0] == '\n' && err[0] == ' ');
    lemma_word_after("exec 1>"@, lossy(inside(dir, "stdout.log"@)), err);
    lemma_word_after(" 2>"@, lossy(inside(dir, "xtrace.log"@)), source);
    lemma_word_after("\nset -e\n. "@, lossy(functions), end);
}

/// Where the shell of a test looks for commands: first among the strace wrappers, if there
/// are any, then in `bin/`, where the overrides are, then in the directories that were asked
/// for, the last of them first, and after all those where it would have looked anyway.
pub proof fn lemma_commands_are_found_in_order(
    test_name: Seq<char>,
    functions: Seq<u8>,
    dir: Seq<u8>,
    bin_dirs: Seq<Seq<u8>>,
    traced: bool,
    inherited: Seq<Seq<char>>,
)
    ensures
        ({
            let found = search_order(
                runner_script(test_name, functions, dir, bin_dirs, traced),
                inherited,
            ).0;
            let bin: int = if traced {
                1
            } else {
                0
            };
            &&& traced ==> found[0] == lossy(joined(dir, encode_utf8("strace_bin"@)))
            &&& found[bin] == lossy(joined(dir, encode_utf8("bin"@)))
            &&& forall|k: int|
                bin < k <= bin + bin_dirs.len() ==> #[trigger] found[k] == lossy(
                    bin_dirs[bin + bin_dirs.len() - k],
                )
            &&& found.len() == bin + 1 + bin_dirs.len() + inherited.len()
            &&& found.skip(bin + 1 + bin_dirs.len()) == inherited
        }),
{
    let tail = script_rest(test_name, functions, dir);
    lemma_script_parts(test_name, functions, dir, bin_dirs, traced);
    let dirs = command_dirs(dir, bin_dirs, traced);
    let script = runner_script(test_name, functions, dir, bin_dirs, traced);
    lemma_search_order(dirs, tail, inherited);
    let found = search_order(script, inherited).0;
    let bin: int = if traced {
        1
    } else {
        0
    };
    assert(dirs.len() == bin + 1 + bin_dirs.len());
    assert forall|k: int| bin < k <= bin + bin_dirs.len() implies #[trigger] found[k] == lossy(
        bin_dirs[bin + bin_dirs.len() - k],
    ) by {
        let i = bin + bin_dirs.len() - k;
        assert(dirs[i] == bin_dirs[i]);
    }
    assert(found.skip(bin + 1 + bin_dirs.len()) =~= inherited);
}

/// Build the shell script content that sources the function definitions and
/// runs the named test. Used with `/bin/sh -c <content> <source_path>` so
/// that `$0` inside test functions refers to the original script.
pub fn build_runner_script(
    test_name: &str,
    functions_path: &UnixPath,
    working_dir: &UnixPath,
    bin_dirs: &Vec<UnixPath>,
    strace: &Vec<String>,
) -> (r: String)
    ensures
        r@ == runner_script(
            test_name@,
            functions_path@,
            working_dir@,
            paths(bin_dirs@),
            strace@.len() > 0,
        ),
{
    let mut v: Vec<char> = Vec::new();
    let ghost dirs = paths(bin_dirs@);
    let mut i: usize = 0;
    assert(v@ =~= path_lines(dirs.take(0)));
    while i < bin_dirs.len()
        invariant
            i <= bin_dirs@.len(),
            dirs == paths(bin_dirs@),
            v@ == path_lines(dirs.take(i as int)),
        decreases bin_dirs@.len() - i,
    {
        assert(dirs.take(i + 1).drop_last() =~= dirs.take(i as int));
        assert(dirs.take(i + 1).last() == bin_dirs@[i as int]@);
        push_path_line(&mut v, &bin_dirs[i]);
        i = i + 1;
    }
    assert(dirs.take(i as int) =~= dirs);
    let bin_dir = working_dir.join("bin");
    push_path_line(&mut v, &bin_dir);
    assert(dirs.push(bin_dir@).drop_last() =~= dirs);
    assert(v@ == path_lines(dirs.push(bin_dir@)));
    if strace.len() > 0 {
        let strace_bin = working_dir.join("strace_bin");
        push_path_line(&mut v, &strace_bin);
        assert(dirs.push(bin_dir@).push(strace_bin@).drop_last() =~= dirs.push(bin_dir@));
    }
    assert(v@ == path_lines(command_dirs(working_dir@, dirs, strace@.len() > 0)));
    let stdout = working_dir.join("stdout.log");
    let xtrace = working_dir.join("xtrace.log");
    let q = sh_quote(&stdout);
    extend_str(&mut v, "exec 1>");
    extend_str(&mut v, q.as_str());
    let q = sh_quote(&xtrace);
    extend_str(&mut v, " 2>");
    extend_str(&mut v, q.as_str());
    let q = sh_quote(functions_path);
    extend_str(&mut v, "\nset -e\n. ");
    extend_str(&mut v, q.as_str());
    extend_str(&mut v, "\nPS4='+$LINENO: '\nset -x\n");
    extend_str(&mut v, test_name);
    extend_str(&mut v, "\n");
    string_of(v.as_slice())
}

/// The definitions of all functions, one after the other.
pub open spec fn functions_text(fs: Seq<FunctionView>) -> Seq<char>
    decreases fs.len(),
{
    if fs.len() == 0 {
        Seq::empty()
    } else {
        functions_text(fs.drop_last()) + fs.last().text + "\n"@
    }
}

/// The contents of `functions.sh`: the definitions of all functions.
pub fn functions_script(functions: &Vec<FunctionDefinition>) -> (r: String)
    ensures
        r@ == functions_text(function_views(functions@)),
{
    let mut v: Vec<char> = Vec::new();
    let ghost all = function_views(functions@);
    let mut i: usize = 0;
    assert(v@ =~= functions_text(all.take(0)));
    while i < functions.len()
        invariant
            i <= functions@.len(),
            all == function_views(functions@),
            v@ == functions_text(all.take(i as int)),
        decreases functions@.len() - i,
    {
        assert(all.take(i + 1).drop_last() =~= all.take(i as int));
        assert(all.take(i + 1).last() == functions@[i as int]@);
        extend_str(&mut v, functions[i].text.as_str());
        extend_str(&mut v, "\n");
        i = i + 1;
    }
    assert(all.take(i as int) =~= all);
    string_of(v.as_slice())
}

/// A script that runs a command under strace.
#[derive(Debug)]
pub struct StraceWrapper {
    /// Where the script goes.
    pub wrapper: UnixPath,
    pub script: String,
}

/// The script that runs the command at `command` under strace and logs to `out`.
pub open spec fn strace_text(out: Seq<u8>, command: Seq<u8>) -> Seq<char> {
    "#!/bin/sh\nexec strace -f -o "@ + quoted(lossy(out)) + " "@ + quoted(lossy(command)) + " \"$@\"\n"@
}

/// The wrapper of a command, or that it was not found.
pub open spec fn strace_outcome(
    dir: Seq<u8>,
    cmd: Seq<char>,
    command: Option<Seq<u8>>,
    r: Result<StraceWrapper, String>,
) -> bool {
    match command {
        Some(p) => r matches Ok(w) && w.wrapper@ == inside(inside(dir, "strace_bin"@), cmd)
            && w.script@ == strace_text(inside(inside(dir, "strace"@), cmd + ".log"@), p),
        None => r matches Err(e) && e@ == "--strace: command not found: "@ + cmd,
    }
}

/// The directories of the strace wrappers and of their logs.
pub fn strace_dirs(working_dir: &UnixPath) -> (r: (UnixPath, UnixPath))
    ensures
        r.0@ == inside(working_dir@, "strace_bin"@),
        r.1@ == inside(working_dir@, "strace"@),
{
    (working_dir.join("strace_bin"), working_dir.join("strace"))
}

/// The path as contracts have it.
pub open spec fn path_view(p: Option<&UnixPath>) -> Option<Seq<u8>> {
    match p {
        Some(q) => Some(q@),
        None => None,
    }
}

/// The wrapper that runs a command under strace; `real_path` is where the command was
/// found.
pub fn strace_wrapper(working_dir: &UnixPath, cmd: &str, real_path: Option<&UnixPath>) -> (r: Result<
    StraceWrapper,
    String,
>)
    ensures
        strace_outcome(working_dir@, cmd@, path_view(real_path), r),
{
    let command = match real_path {
        Some(p) => p,
        None => {
            return Err(message2("--strace: command not found: ", cmd));
        },
    };
    let (bin, logs) = strace_dirs(working_dir);
    let wrapper = bin.join(cmd);
    let log = message2(cmd, ".log");
    let out = logs.join(log.as_str());
    let mut v = chars_of("#!/bin/sh\nexec strace -f -o ");
    let q = sh_quote(&out);
    extend_str(&mut v, q.as_str());
    extend_str(&mut v, " ");
    let q = sh_quote(command);
    extend_str(&mut v, q.as_str());
    extend_str(&mut v, " \"$@\"\n");
    assert(v@ =~= strace_text(out@, command@));
    Ok(StraceWrapper { wrapper, script: string_of(v.as_slice()) })
}

/// Resolve a shell name or path to an executable, falling back to `/bin/sh` when the
/// requested shell is not found. `is_file` asks for a path, `on_path` for a command.
pub fn resolve_shell<E: Fn(&str) -> bool, W: Fn(&str) -> bool>(shell: &str, is_file: E, on_path: W) -> (r:
    String)
    requires
        forall|s: &str| #[trigger] call_requires(is_file, (s,)),
        forall|s: &str| #[trigger] call_requires(on_path, (s,)),
    ensures
        shell_fits(shell, is_file, on_path, r@),
{
    let v = chars_of(shell);
    let found = match find_symbol(v.as_slice(), '/') {
        Some(i) => {
            assert(shell@.contains(v@[i as int]));
            is_file(shell)
        },
        None => on_path(shell),
    };
    if found {
        shell.to_owned()
    } else {
        "/bin/sh".to_owned()
    }
}

/// The name under which a script runs, so that `$0` is its path: the path as text, or
/// `bash` where it is not UTF-8.
pub fn script_name(source_path: &UnixPath) -> (r: String)
    ensures
        r@ == (if valid_utf8(source_path@) {
            decode_utf8(source_path@)
        } else {
            "bash"@
        }),
{
    match strict_text(source_path.bytes.as_slice()) {
        Some(s) => s,
        None => "bash".to_owned(),
    }
}

/// Why a test could not be started.
pub fn spawn_error(display_name: &str, error: &str, isolated: bool) -> (r: String)
    ensures
        r@ == "spawn failed for "@ + display_name@ + ": "@ + error@ + if isolated {
            " (isolation was active for this test; --no-overlay disables it)"@
        } else {
            ""@
        },
{
    let mut v = chars_of("spawn failed for ");
    extend_str(&mut v, display_name);
    extend_str(&mut v, ": ");
    extend_str(&mut v, error);
    if isolated {
        extend_str(&mut v, " (isolation was active for this test; --no-overlay disables it)");
    } else {
        extend_str(&mut v, "");
    }
    string_of(v.as_slice())
}

/// The message of an override whose source is not there.
pub open spec fn missing_message(source: Seq<u8>) -> Seq<char> {
    "--override: source path does not exist: "@ + lossy(source)
}

/// Why an override could not be copied.
pub fn override_missing(source: &UnixPath) -> (r: String)
    ensures
        r@ == missing_message(source@),
{
    let text = source.display();
    message2("--override: source path does not exist: ", text.as_str())
}

/// Why a run ended that was interrupted.
pub fn interrupted(running: usize) -> (r: String)
    ensures
        r@ == "interrupted; killed "@ + decimal(running as nat) + " running test(s)"@,
{
    let mut v = chars_of("interrupted; killed ");
    let n = decimal_chars(running as u128);
    extend(&mut v, n.as_slice());
    extend_str(&mut v, " running test(s)");
    string_of(v.as_slice())
}

/// What of a finished test is kept, and where.
#[derive(Debug)]
pub struct SavePlan {
    /// Where all of it goes.
    pub dst: UnixPath,
    /// The upper layer of the root, which goes to `dst`.
    pub upper: UnixPath,
    /// For each ephemeral submount: its upper layer, where that goes, and its mount
    /// point.
    pub deltas: Vec<Delta>,
    /// The logs and where they go.
    pub logs: Vec<(UnixPath, UnixPath)>,
}

#[derive(Debug)]
pub struct Delta {
    pub upper: UnixPath,
    pub dst: UnixPath,
    pub source: UnixPath,
}

pub struct DeltaView {
    pub upper: Seq<u8>,
    pub dst: Seq<u8>,
    pub source: Seq<u8>,
}

impl View for Delta {
    type V = DeltaView;

    open spec fn view(&self) -> DeltaView {
        DeltaView { upper: self.upper@, dst: self.dst@, source: self.source@ }
    }
}

pub open spec fn delta_views(s: Seq<Delta>) -> Seq<DeltaView> {
    s.map(|_i: int, d: Delta| d@)
}

/// The deltas of the ephemeral ones among the first `n` submounts.
pub open spec fn deltas_of(context: Seq<u8>, dst: Seq<u8>, sms: Seq<Submount>, n: int) -> Seq<DeltaView>
    decreases n,
{
    if n <= 0 {
        Seq::empty()
    } else {
        let r = deltas_of(context, dst, sms, n - 1);
        let sm = sms[n - 1];
        if sm.ephemeral {
            r.push(
                DeltaView {
                    upper: in_context(context, sub_name(ephemeral_before(sms, n - 1), "-upper"@)),
                    dst: abs_joined(dst, sm.source@),
                    source: sm.source@,
                },
            )
        } else {
            r
        }
    }
}

/// What of a finished test is kept: the files it created or modified (the upper layers
/// of its root overlay and of each ephemeral submount overlay, laid out by absolute path
/// — a write to `/tmp/x` lands at `<dst>/tmp/x`) plus its logs.
pub fn save_plan(name: &str, context: &UnixPath, save_dir: &UnixPath, submounts: &Vec<Submount>) -> (r:
    SavePlan)
    ensures
        r.dst@ == inside(save_dir@, name@),
        r.upper@ == in_context(context@, "upper"@),
        delta_views(r.deltas@) == deltas_of(
            context@,
            r.dst@,
            submounts@,
            submounts@.len() as int,
        ),
        r.logs@.len() == 2,
        r.logs@[0].0@ == inside(context@, "stdout.log"@),
        r.logs@[0].1@ == inside(r.dst@, "stdout.log"@),
        r.logs@[1].0@ == inside(context@, "xtrace.log"@),
        r.logs@[1].1@ == inside(r.dst@, "xtrace.log"@),
{
    let dst = save_dir.join(name);
    let mut deltas: Vec<Delta> = Vec::new();
    let ghost sms = submounts@;
    let mut eph: usize = 0;
    let mut i: usize = 0;
    assert(delta_views(deltas@) =~= Seq::<DeltaView>::empty());
    while i < submounts.len()
        invariant
            i <= submounts@.len(),
            sms == submounts@,
            eph <= i,
            eph == ephemeral_before(sms, i as int),
            delta_views(deltas@) == deltas_of(context@, dst@, sms, i as int),
        decreases submounts@.len() - i,
    {
        if submounts[i].ephemeral {
            let d = Delta {
                upper: submount_upper_dir(context, eph),
                dst: join_abs(&dst, &submounts[i].source),
                source: submounts[i].source.clone(),
            };
            let ghost before = deltas@;
            deltas.push(d);
            assert(delta_views(deltas@) =~= delta_views(before).push(d@));
            eph = eph + 1;
        }
        i = i + 1;
    }
    let mut logs: Vec<(UnixPath, UnixPath)> = Vec::new();
    logs.push((context.join("stdout.log"), dst.join("stdout.log")));
    logs.push((context.join("xtrace.log"), dst.join("xtrace.log")));
    SavePlan { dst, upper: upper_dir(context), deltas, logs }
}

/// The shell that runs a test: the one that was asked for, else the one that the script
/// names.
pub open spec fn asked_shell(shebang: Option<Seq<char>>, head: Option<Seq<u8>>) -> Seq<char> {
    match shebang {
        Some(s) => s,
        None => shell_of(head),
    }
}

/// The shell `r` stands for the one that was asked for: that one where it was found, else
/// `/bin/sh`.
pub open spec fn shell_fits<E: Fn(&str) -> bool, W: Fn(&str) -> bool>(
    asked: &str,
    is_file: E,
    on_path: W,
    r: Seq<char>,
) -> bool {
    if asked@.contains('/') {
        ||| call_ensures(is_file, (asked,), true) && r == asked@
        ||| call_ensures(is_file, (asked,), false) && r == "/bin/sh"@
    } else {
        ||| call_ensures(on_path, (asked,), true) && r == asked@
        ||| call_ensures(on_path, (asked,), false) && r == "/bin/sh"@
    }
}

/// The shell that runs a test. `shebang` is the one that was asked for, `head` holds the
/// first bytes of the script.
pub fn choose_shell<E: Fn(&str) -> bool, W: Fn(&str) -> bool>(
    shebang: Option<&str>,
    head: &Option<Vec<u8>>,
    is_file: E,
    on_path: W,
) -> (r: String)
    requires
        forall|s: &str| #[trigger] call_requires(is_file, (s,)),
        forall|s: &str| #[trigger] call_requires(on_path, (s,)),
    ensures
        exists|asked: &str|
            asked@ == asked_shell(text_of(shebang), bytes_of(*head)) && #[trigger] shell_fits(
                asked,
                is_file,
                on_path,
                r@,
            ),
{
    match shebang {
        Some(s) => resolve_shell(s, is_file, on_path),
        None => {
            let s = get_script_shell(head);
            let asked = s.as_str();
            let r = resolve_shell(asked, is_file, on_path);
            assert(shell_fits(asked, is_file, on_path, r@));
            r
        },
    }
}

/// What is written and started for a test.
#[derive(Debug)]
pub struct SpawnPlan {
    /// Where the functions go.
    pub functions_path: UnixPath,
    pub functions: String,
    /// The script that runs the test, as the shell's `-c` argument.
    pub runner: String,
    /// The name under which the script runs.
    pub script_name: String,
}

/// What is written and started for a test in its context directory.
pub fn plan_spawn(
    fn_name: &str,
    functions: &Vec<FunctionDefinition>,
    source_path: &UnixPath,
    context: &UnixPath,
    bin_dirs: &Vec<UnixPath>,
    strace: &Vec<String>,
) -> (r: SpawnPlan)
    ensures
        r.functions_path@ == inside(context@, "functions.sh"@),
        r.functions@ == functions_text(function_views(functions@)),
        r.runner@ == runner_script(
            fn_name@,
            r.functions_path@,
            context@,
            paths(bin_dirs@),
            strace@.len() > 0,
        ),
        r.script_name@ == (if valid_utf8(source_path@) {
            decode_utf8(source_path@)
        } else {
            "bash"@
        }),
{
    let functions_path = context.join("functions.sh");
    let runner = build_runner_script(fn_name, &functions_path, context, bin_dirs, strace);
    SpawnPlan {
        functions_path,
        functions: functions_script(functions),
        runner,
        script_name: script_name(source_path),
    }
}

/// Where the copy of an override goes.
pub fn override_target(context: &UnixPath, spec: &OverrideSpec) -> (r: UnixPath)
    ensures
        r@ == inside(inside(context@, "bin"@), spec.name@),
{
    let bin = context.join("bin");
    bin.join(spec.name.as_str())
}

/// Which file is copied where for an override.
pub struct CopyView {
    pub from: Seq<u8>,
    pub to: Seq<u8>,
}

/// A file to copy, and where to.
#[derive(Debug)]
pub struct FileCopy {
    pub from: UnixPath,
    pub to: UnixPath,
}

impl View for FileCopy {
    type V = CopyView;

    open spec fn view(&self) -> CopyView {
        CopyView { from: self.from@, to: self.to@ }
    }
}

/// The source of an override goes to `bin/`, under the name of the override.
pub open spec fn override_copy(context: Seq<u8>, spec: OverrideView) -> CopyView {
    CopyView { from: spec.source, to: inside(inside(context, "bin"@), spec.name) }
}

/// The first that is not there is the one at `i`.
pub open spec fn first_missing(found: Seq<bool>, i: int) -> bool {
    0 <= i < found.len() && !found[i] && forall|j: int| 0 <= j < i ==> #[trigger] found[j]
}

/// The copies that the overrides ask for, in their order, where `found` tells which of their
/// sources are there; the message of the first that is not.
pub fn plan_overrides(context: &UnixPath, specs: &Vec<OverrideSpec>, found: &Vec<bool>) -> (r: Result<
    Vec<FileCopy>,
    String,
>)
    requires
        found@.len() == specs@.len(),
    ensures
        match r {
            Ok(copies) => {
                &&& forall|i: int| 0 <= i < found@.len() ==> #[trigger] found@[i]
                &&& copies@.len() == specs@.len()
                &&& forall|i: int|
                    0 <= i < specs@.len() ==> (#[trigger] copies@[i])@ == override_copy(
                        context@,
                        specs@[i]@,
                    )
            },
            Err(e) => exists|i: int|
                #[trigger] first_missing(found@, i) && e@ == missing_message(specs@[i].source@),
        },
{
    let mut copies: Vec<FileCopy> = Vec::new();
    let mut i: usize = 0;
    while i < specs.len()
        invariant
            i <= specs@.len() == found@.len(),
            copies@.len() == i,
            forall|j: int| 0 <= j < i ==> #[trigger] found@[j],
            forall|j: int|
                0 <= j < i ==> (#[trigger] copies@[j])@ == override_copy(context@, specs@[j]@),
        decreases specs@.len() - i,
    {
        let spec = &specs[i];
        if !found[i] {
            assert(first_missing(found@, i as int));
            return Err(override_missing(&spec.source));
        }
        copies.push(FileCopy { from: spec.source.clone(), to: override_target(context, spec) });
        i = i + 1;
    }
    Ok(copies)
}

/// The result of a test that has ended.
pub fn build_result(
    outcome: &Outcome,
    duration: u128,
    context: UnixPath,
    source_path: UnixPath,
    resources: Option<ResourceStats>,
) -> (r: TestResult)
    ensures
        r.name@ == outcome.name@,
        r.passed == outcome.passed,
        r.timed_out == outcome.timed_out,
        r.duration == duration,
        r.context == context,
        r.source_path == source_path,
        r.resources == resources,
{
    TestResult {
        name: outcome.name.as_str().to_owned(),
        passed: outcome.passed,
        timed_out: outcome.timed_out,
        duration,
        context,
        source_path,
        resources,
    }
}

/// How long a test has run, in nanoseconds, as the status line shows it: its CPU time in
/// microseconds where that is known, else the time since its start.
pub fn running_time(cpu_micros: Option<u128>, elapsed_nanos: u128) -> (r: u128)
    requires
        cpu_micros matches Some(t) ==> t <= 2 * u64::MAX,
    ensures
        r == (match cpu_micros {
            Some(t) => t * 1000,
            None => elapsed_nanos as int,
        }),
{
    match cpu_micros {
        Some(t) => t * 1000,
        None => elapsed_nanos,
    }
}

/// The mapping of a name to a path is read back, and stands for nothing where a part of it is
/// missing or the name is no file name.
pub proof fn lemma_mapping_is_read_back(name: Seq<char>, path: Seq<char>, r: Result<OverrideView, Seq<char>>)
    requires
        !name.contains('='),
        override_outcome(name + seq!['='] + path, r),
    ensures
        r is Ok <==> name.len() > 0 && path.len() > 0 && !name.contains('/'),
        r matches Ok(o) ==> o.name == name && o.source == encode_utf8(path),
{
    let s = name + seq!['='] + path;
    let k = name.len() as int;
    assert(s[k] == '=');
    assert(s.contains('='));
    let i = choose|i: int|
        #[trigger] first_equals(s, i) && r == override_mapping(s, s.take(i), s.skip(i + 1));
    if i < k {
        assert(name.contains(name[i]));
    }
    assert(i == k);
    assert(s.take(k) =~= name);
    assert(s.skip(k + 1) =~= path);
}

/// A path alone is taken under the name of its file; a text without a slash is no path.
pub proof fn lemma_path_is_taken_under_its_name(
    dir: Seq<char>,
    name: Seq<char>,
    r: Result<OverrideView, Seq<char>>,
    q: Result<OverrideView, Seq<char>>,
)
    requires
        dir.len() > 0,
        dir.last() != '/',
        !dir.contains('='),
        !name.contains('='),
        !name.contains('/'),
        name.len() > 0,
        encode_utf8(name) != dot(),
        encode_utf8(name) != dot_dot(),
        override_outcome(dir + seq!['/'] + name, r),
        override_outcome(name, q),
    ensures
        r == Ok::<OverrideView, Seq<char>>(
            OverrideView { name: lossy(encode_utf8(name)), source: encode_utf8(dir + seq!['/'] + name) },
        ),
        q is Err,
{
    let s = dir + seq!['/'] + name;
    assert(!s.contains('=')) by {
        assert forall|i: int| 0 <= i < s.len() implies s[i] != '=' by {
            if i < dir.len() {
                assert(dir.contains(dir[i]));
            } else if i > dir.len() {
                assert(name.contains(name[i - dir.len() - 1]));
            }
        }
    }
    assert(s[dir.len() as int] == '/');
    assert(s.contains('/'));
    let n = encode_utf8(name);
    lemma_slash_in_bytes();
    assert("/"@ =~= seq!['/']) by {
        reveal_strlit("/");
    }
    lemma_encode_concat(dir + seq!['/'], name);
    lemma_encode_concat(dir, seq!['/']);
    lemma_no_trailing_slash(dir);
    lemma_no_slash(name);
    crate::diagnostics::lemma_len_bound(name);
    assert(!is_absolute(n)) by {
        if n[0] == 47 {
            assert(n.contains(n[0]));
        }
    }
    assert(joined(encode_utf8(dir), n) =~= encode_utf8(s));
    lemma_joined_name(encode_utf8(dir), n);
    assert(components(encode_utf8(s)).last() == n);
    if n == slash() {
        assert(n[0] == 47u8);
        assert(n.contains(n[0]));
    }
}

/// The copy of an override lies in `bin/` itself, under its name, so that it is found there.
pub proof fn lemma_override_is_where_it_is_looked_for(context: Seq<u8>, spec: OverrideView)
    requires
        spec.name.len() > 0,
        !spec.name.contains('/'),
        encode_utf8(spec.name) != dot(),
    ensures
        override_copy(context, spec).from == spec.source,
        components(override_copy(context, spec).to) == components(joined(context, encode_utf8("bin"@))).push(
            encode_utf8(spec.name),
        ),
{
    lemma_no_slash(spec.name);
    crate::diagnostics::lemma_len_bound(spec.name);
    lemma_joined_name(inside(context, "bin"@), encode_utf8(spec.name));
}

/// The wrapper of a command stands among the wrappers under the name of the command, and runs
/// the command itself under strace, as a shell reads it, with a log of its own.
pub proof fn lemma_wrapper_runs_the_command(
    dir: Seq<u8>,
    cmd: Seq<char>,
    command: Seq<u8>,
    r: Result<StraceWrapper, String>,
)
    requires
        strace_outcome(dir, cmd, Some(command), r),
        cmd.len() > 0,
        !cmd.contains('/'),
        encode_utf8(cmd) != dot(),
    ensures
        r is Ok,
        components(r->Ok_0.wrapper@) == components(joined(dir, encode_utf8("strace_bin"@))).push(
            encode_utf8(cmd),
        ),
        ({
            let start = "#!/bin/sh\nexec strace -f -o "@;
            let s = r->Ok_0.script@;
            let log = first_word(s.skip(start.len() as int), false);
            let run = first_word(log.1.skip(1), false);
            &&& s.take(start.len() as int) == start
            &&& log.0 == lossy(joined(joined(dir, encode_utf8("strace"@)), encode_utf8(cmd + ".log"@)))
            &&& log.1.len() > 0 && log.1[0] == ' '
            &&& run.0 == lossy(command)
            &&& run.1 == " \"$@\"\n"@
        }),
{
    lemma_no_slash(cmd);
    crate::diagnostics::lemma_len_bound(cmd);
    lemma_joined_name(inside(dir, "strace_bin"@), encode_utf8(cmd));
    let start = "#!/bin/sh\nexec strace -f -o "@;
    let out = lossy(inside(inside(dir, "strace"@), cmd + ".log"@));
    let end = " \"$@\"\n"@;
    let c = lossy(command);
    assert(end.len() > 0 && end[0] == ' ') by {
        reveal_strlit(" \"$@\"\n");
    }
    assert(" "@ =~= seq![' ']) by {
        reveal_strlit(" ");
    }
    let rest = " "@ + (quoted(c) + end);
    assert(rest[0] == ' ');
    lemma_word_after(" "@, c, end);
    lemma_word_after(start, out, rest);
    assert(r->Ok_0.script@ =~= start + (quoted(out) + rest));
}

/// The definitions stand one after the other, each on lines of its own.
pub proof fn lemma_functions_stand_one_by_one(a: Seq<FunctionView>, b: Seq<FunctionView>, f: FunctionView)
    ensures
        functions_text(a + b) == functions_text(a) + functions_text(b),
        functions_text(seq![f]) == f.text + seq!['\n'],
    decreases b.len(),
{
    assert("\n"@ =~= seq!['\n']) by {
        reveal_strlit("\n");
    }
    let none = Seq::<FunctionView>::empty();
    assert(functions_text(none) =~= Seq::<char>::empty());
    assert(seq![f].drop_last() =~= none);
    assert(functions_text(seq![f]) =~= f.text + seq!['\n']);
    if b.len() == 0 {
        assert(a + b =~= a);
        assert(functions_text(a) + functions_text(b) =~= functions_text(a));
    } else {
        lemma_functions_stand_one_by_one(a, b.drop_last(), f);
        assert((a + b).drop_last() =~= a + b.drop_last());
        assert(functions_text(a + b) =~= functions_text(a) + functions_text(b));
    }
}

/// What of a finished test is kept are the upper layers of all its overlays: for each
/// ephemeral submount, in their order, the layer that was mounted for it, and it goes to the
/// path of the submount below the directory for the test.
pub proof fn lemma_all_layers_are_kept(context: Seq<u8>, dst: Seq<u8>, sms: Seq<Submount>, n: int) -> (at:
    Seq<int>)
    requires
        0 <= n <= sms.len(),
        dst.len() > 0,
    ensures
        deltas_of(context, dst, sms, n).len() == at.len(),
        forall|i: int, j: int| 0 <= i < j < at.len() ==> #[trigger] at[i] < #[trigger] at[j],
        forall|k: int| #[trigger] at.contains(k) <==> 0 <= k < n && sms[k].ephemeral,
        forall|i: int|
            0 <= i < at.len() ==> {
                let d = #[trigger] deltas_of(context, dst, sms, n)[i];
                &&& d.upper == layers_of(context, sms, at[i]).0
                &&& d.source == sms[at[i]].source@
                &&& is_absolute(d.source) ==> components(d.dst) == components(dst) + components(
                    d.source,
                ).drop_first()
            },
    decreases n,
{
    if n == 0 {
        Seq::empty()
    } else {
        let before = lemma_all_layers_are_kept(context, dst, sms, n - 1);
        let a = deltas_of(context, dst, sms, n - 1);
        let r = deltas_of(context, dst, sms, n);
        let fits = sms[n - 1].ephemeral;
        let at = if fits {
            before.push(n - 1)
        } else {
            before
        };
        assert forall|i: int| 0 <= i < before.len() implies 0 <= #[trigger] before[i] < n - 1 by {
            assert(before.contains(before[i]));
        }
        assert forall|k: int| #[trigger] at.contains(k) <==> 0 <= k < n && sms[k].ephemeral by {
            if before.contains(k) {
                let i = choose|i: int| 0 <= i < before.len() && before[i] == k;
                assert(at[i] == k);
            }
            if at.contains(k) {
                let i = choose|i: int| 0 <= i < at.len() && at[i] == k;
                if i < before.len() {
                    assert(before.contains(before[i]));
                }
            }
            if k == n - 1 && fits {
                assert(at[before.len() as int] == k);
            }
        }
        assert forall|i: int| 0 <= i < at.len() implies {
            let d = #[trigger] r[i];
            &&& d.upper == layers_of(context, sms, at[i]).0
            &&& d.source == sms[at[i]].source@
            &&& is_absolute(d.source) ==> components(d.dst) == components(dst) + components(
                d.source,
            ).drop_first()
        } by {
            if i < before.len() {
                assert(r[i] == a[i]);
            } else {
                let source = sms[n - 1].source@;
                if is_absolute(source) {
                    lemma_seen_from_base(dst, source);
                }
            }
        }
        at
    }
}

/// A shell other than `/bin/sh` is one that was asked for and found: at its path, where it has
/// a slash, else on the search path. One that is not found is never used.
pub proof fn lemma_shell_was_found<E: Fn(&str) -> bool, W: Fn(&str) -> bool>(
    asked: &str,
    is_file: E,
    on_path: W,
    r: Seq<char>,
)
    requires
        shell_fits(asked, is_file, on_path, r),
    ensures
        r == asked@ || r == "/bin/sh"@,
        r != "/bin/sh"@ ==> r == asked@ && (asked@.contains('/') ==> call_ensures(is_file, (asked,), true)) && (
        !asked@.contains('/') ==> call_ensures(on_path, (asked,), true)),
        asked@ != "/bin/sh"@ && r == "/bin/sh"@ ==> (asked@.contains('/') ==> call_ensures(
            is_file,
            (asked,),
            false,
        )) && (!asked@.contains('/') ==> call_ensures(on_path, (asked,), false)),
{
}

/// The shell that was asked for wins over the one that the script names.
pub proof fn lemma_asked_shell_wins(shebang: Seq<char>, head: Option<Seq<u8>>)
    ensures
        asked_shell(Some(shebang), head) == shebang,
        asked_shell(None, head) == shell_of(head),
{
}

/// What is planned for a test agrees with itself. The script reads the file to which the
/// functions go. It writes the logs that are kept when the test has ended. And the copy of
/// every override lies in the directory in which the script finds commands first, but for the
/// wrappers of strace.
pub proof fn lemma_plans_of_a_test_agree(
    fn_name: &str,
    functions: &Vec<FunctionDefinition>,
    source_path: &UnixPath,
    context: &UnixPath,
    bin_dirs: &Vec<UnixPath>,
    strace: &Vec<String>,
    plan: SpawnPlan,
    name: &str,
    save_dir: &UnixPath,
    submounts: &Vec<Submount>,
    kept: SavePlan,
    specs: &Vec<OverrideSpec>,
    there: &Vec<bool>,
    copies: Vec<FileCopy>,
    i: int,
    inherited: Seq<Seq<char>>,
)
    requires
        call_ensures(plan_spawn, (fn_name, functions, source_path, context, bin_dirs, strace), plan),
        call_ensures(save_plan, (name, context, save_dir, submounts), kept),
        call_ensures(plan_overrides, (context, specs, there), Ok::<Vec<FileCopy>, String>(copies)),
        0 <= i < specs@.len(),
        specs@[i].name@.len() > 0,
        !specs@[i].name@.contains('/'),
        encode_utf8(specs@[i].name@) != dot(),
    ensures
        ({
            let (found, rest) = search_order(plan.runner@, inherited);
            let out = first_word(rest.skip(7), false);
            let err = first_word(out.1.skip(3), false);
            let source = first_word(err.1.skip(10), false);
            let first: int = if strace@.len() > 0 {
                1
            } else {
                0
            };
            let bin = joined(context@, encode_utf8("bin"@));
            &&& source.0 == lossy(plan.functions_path@)
            &&& out.0 == lossy(kept.logs@[0].0@)
            &&& err.0 == lossy(kept.logs@[1].0@)
            &&& found[first] == lossy(bin)
            &&& copies@[i].from@ == specs@[i].source@
            &&& components(copies@[i].to@) == components(bin).push(encode_utf8(specs@[i].name@))
        }),
{
    let dirs = paths(bin_dirs@);
    let traced = strace@.len() > 0;
    lemma_script_logs_and_runs(fn_name@, plan.functions_path@, context@, dirs, traced, inherited);
    lemma_commands_are_found_in_order(fn_name@, plan.functions_path@, context@, dirs, traced, inherited);
    lemma_override_is_where_it_is_looked_for(context@, specs@[i]@);
    assert(copies@[i]@ == override_copy(context@, specs@[i]@));
}

} // verus!
