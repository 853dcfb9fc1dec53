//! Arguments of the command line, and how they are completed.

use vstd::prelude::*;
use vstd::utf8::encode_utf8;

use crate::parser::{case_views, lemma_what_a_target_selects, name_matches, pattern_of, selects, CaseView, TestCase};
use crate::path::{below, below_root, blank, components, dot, lemma_part_below_the_dot, slash, UnixPath};
use crate::text::{after_last, chars_of, copy_range, extend_str, has_prefix, lemma_after_last, rfind_symbol, split, starts_with, string_of, texts};
use crate::utf8::lossy;

verus! {

/// A path argument that was split: the path, and the filter it holds.
#[derive(Debug)]
pub struct PathArg {
    pub path: UnixPath,
    pub filter: Option<String>,
}

/// What stands before the last slash.
pub open spec fn before_last(s: Seq<char>) -> Seq<char> {
    s.take(s.len() - after_last(s, '/').len() - 1)
}

/// The parts before and after the last slash, where there is one.
pub fn split_last(arg: &str) -> (r: Option<(String, String)>)
    ensures
        r is Some <==> arg@.contains('/'),
        r matches Some(p) ==> p.0@ == before_last(arg@) && p.1@ == after_last(arg@, '/') && p.0@ + "/"@
            + p.1@ == arg@,
{
    let v = chars_of(arg);
    match rfind_symbol(v.as_slice(), '/') {
        Some(i) => {
            let total: usize = v.len();
            let a = copy_range(v.as_slice(), 0, i);
            let b = copy_range(v.as_slice(), i + 1, total);
            proof {
                reveal_strlit("/");
                lemma_after_last(v@, '/', i as int);
                assert(v@.contains(v@[i as int]));
                assert(b@ =~= after_last(v@, '/'));
                assert(a@ =~= before_last(v@));
                assert(a@ + "/"@ + b@ =~= v@);
            }
            Some((string_of(a.as_slice()), string_of(b.as_slice())))
        },
        None => None,
    }
}

/// The argument is a path and nothing more.
pub open spec fn is_plain(arg: Seq<char>, r: PathArg) -> bool {
    r.path@ == encode_utf8(arg) && r.filter is None
}

/// The argument is a file and a filter; an empty filter is none.
pub open spec fn is_split(arg: Seq<char>, r: PathArg) -> bool {
    &&& r.path@ == encode_utf8(before_last(arg))
    &&& if after_last(arg, '/').len() == 0 {
        r.filter is None
    } else {
        r.filter matches Some(f) && f@ == arg
    }
}

/// The argument was split as `is_file` says of the part before the last slash.
pub open spec fn arg_fits<F: Fn(&UnixPath) -> bool>(is_file: F, p: UnixPath, arg: Seq<char>, r: PathArg) -> bool {
    &&& p@ == encode_utf8(before_last(arg))
    &&& (call_ensures(is_file, (&p,), true) && is_split(arg, r)) || (call_ensures(
        is_file,
        (&p,),
        false,
    ) && is_plain(arg, r))
}

/// Split a positional argument into a file path and an optional test filter.
///
/// If the argument contains a `/` where the left side is an existing file,
/// it is treated as `file/filter`. Otherwise the whole string is a path. `is_file` says
/// whether there is a file at a path.
pub fn split_path_arg<F: Fn(&UnixPath) -> bool>(arg: &str, is_file: F) -> (r: PathArg)
    requires
        forall|p: &UnixPath| #[trigger] call_requires(is_file, (p,)),
    ensures
        !arg@.contains('/') ==> is_plain(arg@, r),
        arg@.contains('/') ==> exists|p: UnixPath| #[trigger] arg_fits(is_file, p, arg@, r),
{
    if let Some((file_part, name_part)) = split_last(arg) {
        let path = UnixPath::new(file_part.as_str());
        let ghost asked = path;
        if is_file(&path) {
            let n = chars_of(name_part.as_str());
            let filter = if n.len() == 0 {
                None
            } else {
                Some(arg.to_owned())
            };
            let r = PathArg { path, filter };
            assert(arg_fits(is_file, asked, arg@, r));
            return r;
        }
        let r = PathArg { path: UnixPath::new(arg), filter: None };
        assert(arg_fits(is_file, asked, arg@, r));
        return r;
    }
    PathArg { path: UnixPath::new(arg), filter: None }
}

/// A file and a test in it, as one argument.
pub open spec fn target(file: Seq<char>, name: Seq<char>) -> Seq<char> {
    file + "/"@ + name
}

/// The tests of a file whose names begin with `prefix`, each as an argument.
pub open spec fn completions_in(file: Seq<char>, prefix: Seq<char>, cases: Seq<CaseView>) -> Seq<
    Seq<char>,
>
    decreases cases.len(),
{
    if cases.len() == 0 {
        Seq::empty()
    } else {
        let r = completions_in(file, prefix, cases.drop_last());
        if starts_with(cases.last().name, prefix) {
            r.push(target(file, cases.last().name))
        } else {
            r
        }
    }
}

/// Those of a file's arguments, the file and its tests, that begin with `current`.
pub open spec fn completions_of(current: Seq<char>, file: Seq<char>, cases: Seq<CaseView>) -> Seq<
    Seq<char>,
>
    decreases cases.len(),
{
    if cases.len() == 0 {
        if starts_with(file, current) {
            seq![file]
        } else {
            Seq::empty()
        }
    } else {
        let r = completions_of(current, file, cases.drop_last());
        let t = target(file, cases.last().name);
        if starts_with(t, current) {
            r.push(t)
        } else {
            r
        }
    }
}

fn begins_with(s: &str, prefix: &str) -> (r: bool)
    ensures
        r == starts_with(s@, prefix@),
{
    let a = chars_of(s);
    let b = chars_of(prefix);
    has_prefix(a.as_slice(), b.as_slice())
}

fn target_text(file: &str, name: &str) -> (r: String)
    ensures
        r@ == target(file@, name@),
{
    let mut v = chars_of(file);
    extend_str(&mut v, "/");
    extend_str(&mut v, name);
    string_of(v.as_slice())
}

/// The arguments for the tests of a file whose names begin with `prefix`.
pub fn complete_in_file(file: &str, prefix: &str, tests: &Vec<TestCase>) -> (r: Vec<String>)
    ensures
        texts(r@) == completions_in(file@, prefix@, case_views(tests@)),
{
    let mut r: Vec<String> = Vec::new();
    let ghost all = case_views(tests@);
    let mut i: usize = 0;
    assert(texts(r@) =~= completions_in(file@, prefix@, all.take(0)));
    while i < tests.len()
        invariant
            i <= tests@.len(),
            all == case_views(tests@),
            texts(r@) == completions_in(file@, prefix@, all.take(i as int)),
        decreases tests@.len() - i,
    {
        assert(all.take(i + 1).drop_last() =~= all.take(i as int));
        assert(all.take(i + 1).last() == tests@[i as int]@);
        if begins_with(tests[i].name.as_str(), prefix) {
            let t = target_text(file, tests[i].name.as_str());
            let ghost before = r@;
            r.push(t);
            assert(texts(r@) =~= texts(before).push(t@));
        }
        i = i + 1;
    }
    assert(all.take(i as int) =~= all);
    r
}

/// The arguments for a file and its tests that begin with `current`.
pub fn complete_file(current: &str, file: &str, tests: &Vec<TestCase>) -> (r: Vec<String>)
    ensures
        texts(r@) == completions_of(current@, file@, case_views(tests@)),
{
    let mut r: Vec<String> = Vec::new();
    let ghost all = case_views(tests@);
    if begins_with(file, current) {
        r.push(file.to_owned());
    }
    let mut i: usize = 0;
    assert(all.take(0) =~= Seq::<CaseView>::empty());
    assert(texts(r@) =~= completions_of(current@, file@, all.take(0)));
    while i < tests.len()
        invariant
            i <= tests@.len(),
            all == case_views(tests@),
            texts(r@) == completions_of(current@, file@, all.take(i as int)),
        decreases tests@.len() - i,
    {
        assert(all.take(i + 1).drop_last() =~= all.take(i as int));
        assert(all.take(i + 1).last() == tests@[i as int]@);
        let t = target_text(file, tests[i].name.as_str());
        if begins_with(t.as_str(), current) {
            let ghost before = r@;
            let ghost t0 = t@;
            r.push(t);
            assert(texts(r@) =~= texts(before).push(t0));
        }
        i = i + 1;
    }
    assert(all.take(i as int) =~= all);
    r
}

/// A path below the current directory, as it is written without the dot for that.
pub open spec fn relative_text(file: Seq<u8>) -> Seq<char> {
    let t = if below(file, encode_utf8("."@)) {
        lossy(below_root(file))
    } else {
        lossy(file)
    };
    if starts_with(t, "./"@) {
        t.skip(2)
    } else {
        t
    }
}

/// A path below the current directory, as it is written without the dot for that.
pub fn relative_name(file: &UnixPath) -> (r: String)
    ensures
        r@ == relative_text(file@),
{
    let dot = UnixPath::new(".");
    let text = if file.starts_with(&dot) {
        let rest = file.below_root();
        rest.display()
    } else {
        file.display()
    };
    if begins_with(text.as_str(), "./") {
        proof {
            reveal_strlit("./");
        }
        let v = chars_of(text.as_str());
        let rest = copy_range(v.as_slice(), 2, v.len());
        assert(rest@ =~= text@.skip(2));
        return string_of(rest.as_slice());
    }
    text
}

/// Why a directory for `PATH` cannot be used.
pub fn bin_dir_error(dir: &UnixPath, error: &str) -> (r: String)
    ensures
        r@ == "--bin-dir: "@ + lossy(dir@) + " ("@ + error@ + ")"@,
{
    let mut v = chars_of("--bin-dir: ");
    let d = dir.display();
    extend_str(&mut v, d.as_str());
    extend_str(&mut v, " (");
    extend_str(&mut v, error);
    extend_str(&mut v, ")");
    string_of(v.as_slice())
}

/// What an argument is completed from.
#[derive(Debug)]
pub enum CompletionScope {
    /// The tests of a file whose names begin with the prefix.
    InFile { file: String, prefix: String },
    /// All files below the current directory and their tests.
    Everywhere,
}

/// The scope is that of an argument, as `is_file` says of the part before its last slash.
pub open spec fn scope_fits<F: Fn(&UnixPath) -> bool>(
    is_file: F,
    p: UnixPath,
    current: Seq<char>,
    r: CompletionScope,
) -> bool {
    &&& p@ == encode_utf8(before_last(current))
    &&& match r {
        CompletionScope::InFile { file, prefix } => call_ensures(is_file, (&p,), true) && file@
            == before_last(current) && prefix@ == after_last(current, '/'),
        CompletionScope::Everywhere => call_ensures(is_file, (&p,), false),
    }
}

/// What an argument is completed from: where it holds a slash and what stands before the
/// last one is a file, from the tests of that file.
pub fn completion_scope<F: Fn(&UnixPath) -> bool>(current: &str, is_file: F) -> (r: CompletionScope)
    requires
        forall|p: &UnixPath| #[trigger] call_requires(is_file, (p,)),
    ensures
        !current@.contains('/') ==> r is Everywhere,
        current@.contains('/') ==> exists|p: UnixPath| #[trigger] scope_fits(is_file, p, current@, r),
{
    if let Some((file, prefix)) = split_last(current) {
        let path = UnixPath::new(file.as_str());
        if is_file(&path) {
            let r = CompletionScope::InFile { file, prefix };
            assert(scope_fits(is_file, path, current@, r));
            return r;
        }
        assert(scope_fits(is_file, path, current@, CompletionScope::Everywhere));
    }
    CompletionScope::Everywhere
}

/// Whether each test's result is printed as it comes.
pub fn prints_results(verbose: u8) -> (r: bool)
    ensures
        r == (verbose >= 1),
{
    verbose >= 1
}

/// Whether the trace of a test is printed while it runs.
pub fn streams_xtrace(verbose: u8) -> (r: bool)
    ensures
        r == (verbose >= 2),
{
    verbose >= 2
}

/// The arguments that are offered are those of the tests, in their order, that go on from what
/// was typed.
pub proof fn lemma_what_is_offered(file: Seq<char>, prefix: Seq<char>, current: Seq<char>, cases: Seq<CaseView>)
    ensures
        completions_in(file, prefix, cases) == cases.filter(
            |c: CaseView| starts_with(c.name, prefix),
        ).map_values(|c: CaseView| target(file, c.name)),
        completions_of(current, file, cases) == (if starts_with(file, current) {
            seq![file]
        } else {
            Seq::empty()
        }) + cases.map_values(|c: CaseView| target(file, c.name)).filter(
            |t: Seq<char>| starts_with(t, current),
        ),
    decreases cases.len(),
{
    reveal(Seq::filter);
    let f = |c: CaseView| starts_with(c.name, prefix);
    let g = |c: CaseView| target(file, c.name);
    let h = |t: Seq<char>| starts_with(t, current);
    let first = if starts_with(file, current) {
        seq![file]
    } else {
        Seq::empty()
    };
    if cases.len() == 0 {
        assert(completions_in(file, prefix, cases) =~= cases.filter(f).map_values(g));
        assert(completions_of(current, file, cases) =~= first + cases.map_values(g).filter(h));
    } else {
        let front = cases.drop_last();
        lemma_what_is_offered(file, prefix, current, front);
        assert(cases.map_values(g).drop_last() =~= front.map_values(g));
        assert(cases.map_values(g).last() == g(cases.last()));
        assert(completions_in(file, prefix, cases) =~= cases.filter(f).map_values(g));
        assert(completions_of(current, file, cases) =~= first + cases.map_values(g).filter(h));
    }
}

proof fn lemma_same_file_before(file: Seq<char>, a: Seq<char>, b: Seq<char>)
    ensures
        starts_with(target(file, a), target(file, b)) <==> starts_with(a, b),
        !starts_with(file, target(file, b)),
{
    let s = target(file, a);
    let p = target(file, b);
    let n = (file + "/"@).len() as int;
    assert("/"@.len() == 1) by {
        reveal_strlit("/");
    }
    if b.len() <= a.len() {
        assert(s.take(p.len() as int).skip(n) =~= a.take(b.len() as int));
        assert(p.skip(n) =~= b);
        if a.take(b.len() as int) == b {
            assert(s.take(p.len() as int) =~= p);
        }
    }
}

/// In a file that was typed with its slash, the same is offered as for all files: the tests of
/// the file whose names go on from what stands after the slash.
pub proof fn lemma_completion_agrees(file: Seq<char>, prefix: Seq<char>, cases: Seq<CaseView>)
    ensures
        completions_in(file, prefix, cases) == completions_of(target(file, prefix), file, cases),
    decreases cases.len(),
{
    lemma_same_file_before(file, file, prefix);
    if cases.len() > 0 {
        lemma_same_file_before(file, cases.last().name, prefix);
        lemma_completion_agrees(file, prefix, cases.drop_last());
    }
}

/// An argument that was split into a file and a filter selects, of the tests of that file,
/// those that match what stands after the last slash.
pub proof fn lemma_split_argument_selects(file: Seq<char>, n: Seq<char>, r: PathArg, name: Seq<char>)
    requires
        file.len() > 0,
        file != seq!['.'],
        n.len() > 0,
        !n.contains('/'),
        is_split(file + seq!['/'] + n, r),
    ensures
        r.path@ == encode_utf8(file),
        r.filter is Some,
        selects(pattern_of(r.filter->0@), r.path@, name) <==> name_matches(n, name),
{
    let arg = file + seq!['/'] + n;
    let i = file.len() as int;
    assert forall|j: int| i < j < arg.len() implies arg[j] != '/' by {
        assert(n.contains(n[j - i - 1]));
    }
    lemma_after_last(arg, '/', i);
    assert(arg.skip(i + 1) =~= n);
    assert(before_last(arg) =~= file);
    lemma_what_a_target_selects(file, n, r.path@, name);
    let c = components(encode_utf8(file));
    assert(c.skip(c.len() - c.len()) =~= c);
}

/// A path below the current directory is shown without the `./` before it, and one that is not
/// below it as it is.
pub proof fn lemma_paths_are_shown_from_here(rel: Seq<u8>)
    requires
        !blank(split(rel, 47u8)[0]),
        !blank(split(rel, 47u8).last()),
        !starts_with(lossy(rel), "./"@),
    ensures
        relative_text(dot() + slash() + rel) == lossy(rel),
        !below(rel, dot()) ==> relative_text(rel) == lossy(rel),
{
    lemma_part_below_the_dot(rel);
    reveal_strlit(".");
    let s = "."@;
    assert(s =~= seq!['.']);
    assert(46u32 & 0x7f == 46u32) by (bit_vector);
    assert(s.drop_first() =~= Seq::<char>::empty());
    assert(encode_utf8(s.drop_first()) =~= Seq::<u8>::empty());
    let head = vstd::utf8::encode_scalar(s[0] as u32);
    assert(head =~= seq![46u8]);
    assert(encode_utf8(s) == head + encode_utf8(s.drop_first()));
    assert(encode_utf8(s) =~= dot());
}

/// Completion in a file and completion everywhere offer the same for an argument that names the
/// file and begins the name of a test.
pub proof fn lemma_completions_agree(
    current: &str,
    file: &str,
    prefix: &str,
    tests: &Vec<TestCase>,
    a: Vec<String>,
    b: Vec<String>,
)
    requires
        current@ == file@ + seq!['/'] + prefix@,
        call_ensures(complete_in_file, (file, prefix, tests), a),
        call_ensures(complete_file, (current, file, tests), b),
    ensures
        texts(a@) == texts(b@),
{
    assert("/"@ =~= seq!['/']) by {
        reveal_strlit("/");
    }
    lemma_completion_agrees(file@, prefix@, case_views(tests@));
}

/// An argument is split only where what stands before its last slash is a file, and is a path as
/// a whole where it is none.
pub proof fn lemma_only_files_are_split<F: Fn(&UnixPath) -> bool>(
    is_file: F,
    p: UnixPath,
    arg: Seq<char>,
    r: PathArg,
)
    requires
        arg_fits(is_file, p, arg, r),
    ensures
        r.filter is Some ==> call_ensures(is_file, (&p,), true) && r.path@ == p@ && r.filter->0@ == arg,
        !call_ensures(is_file, (&p,), true) ==> r.path@ == encode_utf8(arg) && r.filter is None,
        !call_ensures(is_file, (&p,), false) ==> r.path@ == p@,
{
}

/// More is printed the more is asked for: with the traces the results are printed too.
pub proof fn lemma_more_is_printed(a: u8, b: u8, ra: bool, rb: bool, ta: bool, tb: bool)
    requires
        a <= b,
        call_ensures(prints_results, (a,), ra),
        call_ensures(prints_results, (b,), rb),
        call_ensures(streams_xtrace, (a,), ta),
        call_ensures(streams_xtrace, (b,), tb),
    ensures
        ra ==> rb,
        ta ==> tb,
        ta ==> ra,
        a == 0 ==> !ra,
        a < b && ra ==> tb,
{
}

} // verus!
