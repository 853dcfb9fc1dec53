//! The tests that a command line selects.

use vstd::prelude::*;

use crate::naming::{base_name, display_base, display_text, is_free_name, lemma_display_names_differ, numbered};
use crate::mounts::paths;
use crate::number::{decimal, decimal_chars};
use crate::parser::{case_views, selects, CaseView, PatternView, TestCase, TestFile, TestPattern};
use crate::path::{file_name, UnixPath};
use crate::text::{chars_of, ends_with, extend, extend_str, starts_with, str_equal, string_of, texts};
use crate::utf8::lossy;

verus! {

/// A test that was selected: its name, and the number of its file.
#[derive(Debug)]
pub struct Selected {
    pub name: String,
    pub file: usize,
}

pub struct SelectedView {
    pub name: Seq<char>,
    pub file: int,
}

impl View for Selected {
    type V = SelectedView;

    open spec fn view(&self) -> SelectedView {
        SelectedView { name: self.name@, file: self.file as int }
    }
}

pub open spec fn selected_views(s: Seq<Selected>) -> Seq<SelectedView> {
    s.map(|_i: int, x: Selected| x@)
}

/// The pattern, as contracts have it.
pub open spec fn pattern_view(p: Option<TestPattern>) -> Option<PatternView> {
    match p {
        Some(q) => Some(q@),
        None => None,
    }
}

/// The test is selected by the pattern, or there is none.
pub open spec fn is_picked(pattern: Option<PatternView>, case: CaseView) -> bool {
    pattern matches Some(p) ==> selects(p, case.file, case.name)
}

/// The selected tests of a file, in their order.
pub open spec fn picked_in(cases: Seq<CaseView>, pattern: Option<PatternView>, file: int) -> Seq<
    SelectedView,
>
    decreases cases.len(),
{
    if cases.len() == 0 {
        Seq::empty()
    } else {
        let r = picked_in(cases.drop_last(), pattern, file);
        if is_picked(pattern, cases.last()) {
            r.push(SelectedView { name: cases.last().name, file })
        } else {
            r
        }
    }
}

/// The selected tests of the first `n` files.
pub open spec fn picked(files: Seq<TestFile>, pattern: Option<PatternView>, n: int) -> Seq<SelectedView>
    decreases n,
{
    if n <= 0 {
        Seq::empty()
    } else {
        picked(files, pattern, n - 1) + picked_in(case_views(files[n - 1].tests@), pattern, n - 1)
    }
}

fn matches_pattern(pattern: &Option<TestPattern>, test: &TestCase) -> (r: bool)
    ensures
        r == is_picked(pattern_view(*pattern), test@),
{
    match pattern {
        Some(p) => p.matches(test),
        None => true,
    }
}

fn select_in(file: &TestFile, pattern: &Option<TestPattern>, index: usize, out: &mut Vec<Selected>)
    ensures
        selected_views(final(out)@) == selected_views(old(out)@) + picked_in(
            case_views(file.tests@),
            pattern_view(*pattern),
            index as int,
        ),
{
    let ghost before = selected_views(out@);
    let ghost all = case_views(file.tests@);
    let ghost p = pattern_view(*pattern);
    let mut i: usize = 0;
    assert(before + picked_in(all.take(0), p, index as int) =~= before);
    while i < file.tests.len()
        invariant
            i <= file.tests@.len(),
            all == case_views(file.tests@),
            p == pattern_view(*pattern),
            selected_views(out@) == before + picked_in(all.take(i as int), p, index as int),
        decreases file.tests@.len() - i,
    {
        let ghost next = all.take(i + 1);
        assert(next.drop_last() =~= all.take(i as int));
        assert(next.last() == file.tests@[i as int]@);
        if matches_pattern(pattern, &file.tests[i]) {
            let s = Selected { name: file.tests[i].name.as_str().to_owned(), file: index };
            let ghost o = out@;
            out.push(s);
            assert(selected_views(out@) =~= selected_views(o).push(s@));
            assert(selected_views(out@) =~= before + picked_in(next, p, index as int));
        }
        i = i + 1;
    }
    assert(all.take(i as int) =~= all);
}

/// The selected tests of all files, in the order of the files and of the tests in them.
pub fn select_tests(files: &Vec<TestFile>, pattern: &Option<TestPattern>) -> (out: Vec<Selected>)
    ensures
        selected_views(out@) == picked(files@, pattern_view(*pattern), files@.len() as int),
        forall|i: int| 0 <= i < out@.len() ==> (#[trigger] out@[i]).file < files@.len(),
        exists|at: Seq<(int, int)>| #[trigger]
            is_selection(
                files@,
                pattern_view(*pattern),
                files@.len() as int,
                selected_views(out@),
                at,
            ),
{
    let mut out: Vec<Selected> = Vec::new();
    let mut i: usize = 0;
    assert(selected_views(out@) =~= Seq::<SelectedView>::empty());
    while i < files.len()
        invariant
            i <= files@.len(),
            selected_views(out@) == picked(files@, pattern_view(*pattern), i as int),
        decreases files@.len() - i,
    {
        select_in(&files[i], pattern, i, &mut out);
        i = i + 1;
    }
    proof {
        lemma_picked_files(files@, pattern_view(*pattern), i as int);
        let at = lemma_selection_is_complete(files@, pattern_view(*pattern), i as int);
        assert forall|k: int| 0 <= k < out@.len() implies (#[trigger] out@[k]).file < files@.len() by {
            assert(selected_views(out@)[k] == out@[k]@);
        }
    }
    out
}

proof fn lemma_picked_in_file(cases: Seq<CaseView>, pattern: Option<PatternView>, file: int)
    ensures
        forall|k: int|
            0 <= k < picked_in(cases, pattern, file).len() ==> (#[trigger] picked_in(
                cases,
                pattern,
                file,
            )[k]).file == file,
    decreases cases.len(),
{
    if cases.len() > 0 {
        lemma_picked_in_file(cases.drop_last(), pattern, file);
        let r = picked_in(cases.drop_last(), pattern, file);
        let w = picked_in(cases, pattern, file);
        assert forall|k: int| 0 <= k < w.len() implies (#[trigger] w[k]).file == file by {
            if k < r.len() {
                assert(w[k] == r[k]);
            }
        }
    }
}

proof fn lemma_picked_files(files: Seq<TestFile>, pattern: Option<PatternView>, n: int)
    requires
        0 <= n <= files.len(),
    ensures
        forall|k: int|
            0 <= k < picked(files, pattern, n).len() ==> 0 <= (#[trigger] picked(
                files,
                pattern,
                n,
            )[k]).file < n,
    decreases n,
{
    if n > 0 {
        lemma_picked_files(files, pattern, n - 1);
        let cases = case_views(files[n - 1].tests@);
        lemma_picked_in_file(cases, pattern, n - 1);
        let r = picked(files, pattern, n - 1);
        let w = picked(files, pattern, n);
        assert forall|k: int| 0 <= k < w.len() implies 0 <= (#[trigger] w[k]).file < n by {
            if k < r.len() {
                assert(w[k] == r[k]);
            } else {
                assert(w[k] == picked_in(cases, pattern, n - 1)[k - r.len()]);
            }
        }
    }
}

/// The test at `k` of the file at `f` is one that the pattern selects, or there is no
/// pattern.
pub open spec fn is_wanted(files: Seq<TestFile>, pattern: Option<PatternView>, f: int, k: int) -> bool {
    &&& 0 <= f < files.len()
    &&& 0 <= k < files[f].tests@.len()
    &&& match pattern {
        Some(p) => selects(p, files[f].tests@[k].file@, files[f].tests@[k].name@),
        None => true,
    }
}

/// What was selected stands at these places, each a file and the number of a test in it:
/// they are the places of the wanted tests among the first `n` files, all of them, each
/// once, in the order of the files and of the tests in them.
pub open spec fn is_selection(
    files: Seq<TestFile>,
    pattern: Option<PatternView>,
    n: int,
    out: Seq<SelectedView>,
    at: Seq<(int, int)>,
) -> bool {
    &&& at.len() == out.len()
    &&& forall|i: int|
        0 <= i < out.len() ==> {
            let (f, k) = #[trigger] at[i];
            &&& f < n
            &&& is_wanted(files, pattern, f, k)
            &&& out[i].file == f
            &&& out[i].name == files[f].tests@[k].name@
        }
    &&& forall|i: int, j: int|
        0 <= i < j < at.len() ==> (#[trigger] at[i]).0 < (#[trigger] at[j]).0 || (at[i].0 == at[j].0
            && at[i].1 < at[j].1)
    &&& forall|f: int, k: int| f < n && #[trigger] is_wanted(files, pattern, f, k) ==> at.contains((f, k))
}

/// The places of the tests of one file that were selected.
proof fn lemma_selected_in(files: Seq<TestFile>, pattern: Option<PatternView>, f: int, n: int) -> (ks: Seq<
    int,
>)
    requires
        0 <= f < files.len(),
        0 <= n <= files[f].tests@.len(),
    ensures
        ({
            let out = picked_in(case_views(files[f].tests@).take(n), pattern, f);
            &&& ks.len() == out.len()
            &&& forall|i: int|
                0 <= i < ks.len() ==> 0 <= #[trigger] ks[i] < n && is_wanted(files, pattern, f, ks[i])
                    && out[i].file == f && out[i].name == files[f].tests@[ks[i]].name@
            &&& forall|i: int, j: int| 0 <= i < j < ks.len() ==> #[trigger] ks[i] < #[trigger] ks[j]
            &&& forall|k: int| k < n && #[trigger] is_wanted(files, pattern, f, k) ==> ks.contains(k)
        }),
    decreases n,
{
    let all = case_views(files[f].tests@);
    if n == 0 {
        Seq::empty()
    } else {
        let before = lemma_selected_in(files, pattern, f, n - 1);
        let cases = all.take(n);
        assert(cases.drop_last() =~= all.take(n - 1));
        assert(cases.last() == files[f].tests@[n - 1]@);
        let r = picked_in(all.take(n - 1), pattern, f);
        if is_picked(pattern, cases.last()) {
            let ks = before.push(n - 1);
            assert(is_wanted(files, pattern, f, n - 1));
            let out = picked_in(cases, pattern, f);
            assert forall|i: int| 0 <= i < ks.len() implies 0 <= #[trigger] ks[i] < n && is_wanted(
                files,
                pattern,
                f,
                ks[i],
            ) && out[i].file == f && out[i].name == files[f].tests@[ks[i]].name@ by {
                if i < before.len() {
                    assert(ks[i] == before[i] && out[i] == r[i]);
                }
            }
            assert forall|k: int| k < n && #[trigger] is_wanted(files, pattern, f, k) implies ks.contains(
                k,
            ) by {
                if k < n - 1 {
                    let i = choose|i: int| 0 <= i < before.len() && before[i] == k;
                    assert(ks[i] == k);
                } else {
                    assert(ks[before.len() as int] == k);
                }
            }
            ks
        } else {
            assert(!is_wanted(files, pattern, f, n - 1));
            before
        }
    }
}

/// The selected tests are the wanted ones of all files, each as often as it is there, in the
/// order of the files and of the tests in them.
pub proof fn lemma_selection_is_complete(files: Seq<TestFile>, pattern: Option<PatternView>, n: int) -> (at:
    Seq<(int, int)>)
    requires
        0 <= n <= files.len(),
    ensures
        is_selection(files, pattern, n, picked(files, pattern, n), at),
    decreases n,
{
    if n == 0 {
        Seq::empty()
    } else {
        let f = n - 1;
        let before = lemma_selection_is_complete(files, pattern, f);
        let all = case_views(files[f].tests@);
        let ks = lemma_selected_in(files, pattern, f, all.len() as int);
        assert(all.take(all.len() as int) =~= all);
        let more = Seq::new(ks.len(), |i: int| (f, ks[i]));
        let at = before + more;
        let r = picked(files, pattern, f);
        let out = picked(files, pattern, n);
        assert forall|i: int| 0 <= i < out.len() implies {
            let (g, k) = #[trigger] at[i];
            &&& g < n
            &&& is_wanted(files, pattern, g, k)
            &&& out[i].file == g
            &&& out[i].name == files[g].tests@[k].name@
        } by {
            if i < before.len() {
                assert(at[i] == before[i] && out[i] == r[i]);
            } else {
                assert(at[i] == (f, ks[i - before.len()]));
            }
        }
        assert forall|i: int, j: int| 0 <= i < j < at.len() implies (#[trigger] at[i]).0 < (#[trigger] at[j]).0
            || (at[i].0 == at[j].0 && at[i].1 < at[j].1) by {
            if j < before.len() {
                assert(at[i] == before[i] && at[j] == before[j]);
            } else if i < before.len() {
                assert(at[i] == before[i]);
            } else {
                assert(ks[i - before.len()] < ks[j - before.len()]);
            }
        }
        assert forall|g: int, k: int| g < n && #[trigger] is_wanted(files, pattern, g, k) implies at.contains(
            (g, k),
        ) by {
            if g < f {
                let i = choose|i: int| 0 <= i < before.len() && before[i] == (g, k);
                assert(at[i] == (g, k));
            } else {
                let i = choose|i: int| 0 <= i < ks.len() && ks[i] == k;
                assert(at[before.len() + i] == (g, k));
            }
        }
        at
    }
}

/// Why nothing was selected.
pub open spec fn none_message(filter: Option<Seq<char>>, path: Seq<u8>) -> Seq<char> {
    match filter {
        Some(f) => "no tests match filter '"@ + f + "'"@,
        None => "no test functions found in "@ + lossy(path),
    }
}

/// Why nothing was selected: no test matches the filter, or there is no test.
pub fn none_selected(filter: Option<&str>, path: &UnixPath) -> (r: String)
    ensures
        r@ == none_message(crate::cgroup::text_of(filter), path@),
{
    match filter {
        Some(f) => {
            let mut v = chars_of("no tests match filter '");
            extend_str(&mut v, f);
            extend_str(&mut v, "'");
            string_of(v.as_slice())
        },
        None => {
            let mut v = chars_of("no test functions found in ");
            let p = path.display();
            extend_str(&mut v, p.as_str());
            string_of(v.as_slice())
        },
    }
}

/// How often a name was selected.
pub open spec fn name_count(s: Seq<SelectedView>, name: Seq<char>) -> nat
    decreases s.len(),
{
    if s.len() == 0 {
        0
    } else {
        name_count(s.drop_last(), name) + if s.last().name == name {
            1nat
        } else {
            0
        }
    }
}

fn is_duplicated(selected: &Vec<Selected>, name: &str) -> (r: bool)
    ensures
        r == (name_count(selected_views(selected@), name@) > 1),
{
    let ghost all = selected_views(selected@);
    let mut n: usize = 0;
    let mut i: usize = 0;
    assert(all.take(0) =~= Seq::<SelectedView>::empty());
    while i < selected.len()
        invariant
            n <= i <= selected@.len(),
            all == selected_views(selected@),
            n == name_count(all.take(i as int), name@),
        decreases selected@.len() - i,
    {
        assert(all.take(i + 1).drop_last() =~= all.take(i as int));
        assert(all.take(i + 1).last() == selected@[i as int]@);
        if str_equal(selected[i].name.as_str(), name) {
            n = n + 1;
        }
        i = i + 1;
    }
    assert(all.take(i as int) =~= all);
    n > 1
}

/// A run of a test.
#[derive(Debug)]
pub struct PlannedTest {
    /// The name under which the run is shown.
    pub display: String,
    /// The name of the test function.
    pub name: String,
    /// The number of the test's file.
    pub file: usize,
    /// The number of the test among those that were selected.
    pub test: usize,
    /// The number of the run, from 1 on.
    pub run: u64,
}

/// The first `k` runs of a test.
pub open spec fn runs_of(test: int, k: int) -> Seq<(int, int)>
    decreases k,
{
    if k <= 0 {
        Seq::empty()
    } else {
        runs_of(test, k - 1).push((test, k))
    }
}

/// The runs of the first `n` tests, all those of a test one after the other.
pub open spec fn all_runs(n: int, repeat: int) -> Seq<(int, int)>
    decreases n,
{
    if n <= 0 {
        Seq::empty()
    } else {
        all_runs(n - 1, repeat) + runs_of(n - 1, repeat)
    }
}

/// The tests and runs.
pub open spec fn run_pairs(s: Seq<PlannedTest>) -> Seq<(int, int)> {
    s.map(|_i: int, t: PlannedTest| (t.test as int, t.run as int))
}

/// The bases are the names of the selected tests, each the first choice that is free.
pub open spec fn bases_fit(selected: Seq<SelectedView>, files: Seq<Seq<u8>>, bases: Seq<Seq<char>>) -> bool {
    &&& bases.len() == selected.len()
    &&& forall|i: int|
        0 <= i < bases.len() ==> is_free_name(
            base_name(
                selected[i].name,
                files[selected[i].file],
                name_count(selected, selected[i].name) > 1,
            ),
            bases.take(i),
            #[trigger] bases[i],
        )
}

/// The run is one of a selected test, and is shown under its name.
pub open spec fn run_fits(
    selected: Seq<SelectedView>,
    bases: Seq<Seq<char>>,
    repeat: int,
    t: PlannedTest,
) -> bool {
    &&& t.test < selected.len()
    &&& 1 <= t.run <= repeat
    &&& t.name@ == selected[t.test as int].name
    &&& t.file == selected[t.test as int].file
    &&& t.display@ == display_text(bases[t.test as int], repeat as nat, t.run as nat)
}

/// The runs of the selected tests.
pub open spec fn runs_fit(
    selected: Seq<SelectedView>,
    files: Seq<Seq<u8>>,
    repeat: int,
    out: Seq<PlannedTest>,
) -> bool {
    &&& run_pairs(out) == all_runs(selected.len() as int, repeat)
    &&& exists|bases: Seq<Seq<char>>|
        #[trigger] bases_fit(selected, files, bases) && forall|k: int|
            0 <= k < out.len() ==> run_fits(selected, bases, repeat, #[trigger] out[k])
}

/// The runs are numbered: a later one is of a later test, or a later one of the test.
spec fn in_order(out: Seq<PlannedTest>) -> bool {
    forall|a: int, b: int|
        0 <= a < b < out.len() ==> (#[trigger] out[a]).test < (#[trigger] out[b]).test || (
        out[a].test == out[b].test && out[a].run < out[b].run)
}

spec fn no_two_alike(s: Seq<Seq<char>>) -> bool {
    forall|a: int, b: int| 0 <= a < b < s.len() ==> #[trigger] s[a] != #[trigger] s[b]
}

/// The runs of the selected tests, each under a name of its own: display names key
/// result output, per-test context dirs, and saved context dirs.
pub fn name_tests(selected: &Vec<Selected>, files: &Vec<UnixPath>, repeat: u64) -> (out: Vec<PlannedTest>)
    requires
        repeat >= 1,
        forall|i: int| 0 <= i < selected@.len() ==> (#[trigger] selected@[i]).file < files@.len(),
    ensures
        runs_fit(selected_views(selected@), paths(files@), repeat as int, out@),
        forall|a: int, b: int|
            0 <= a < b < out@.len() ==> (#[trigger] out@[a]).display@ != (#[trigger] out@[b]).display@,
{
    let ghost all = selected_views(selected@);
    let ghost fs = paths(files@);
    let mut taken: Vec<String> = Vec::new();
    let mut out: Vec<PlannedTest> = Vec::new();
    let mut s: usize = 0;
    assert(run_pairs(out@) =~= all_runs(0, repeat as int));
    while s < selected.len()
        invariant
            s <= selected@.len(),
            repeat >= 1,
            all == selected_views(selected@),
            fs == paths(files@),
            forall|i: int| 0 <= i < selected@.len() ==> (#[trigger] selected@[i]).file < files@.len(),
            taken@.len() == s,
            no_two_alike(texts(taken@)),
            forall|i: int|
                0 <= i < s ==> is_free_name(
                    base_name(
                        all[i].name,
                        fs[all[i].file],
                        name_count(all, all[i].name) > 1,
                    ),
                    texts(taken@).take(i),
                    #[trigger] texts(taken@)[i],
                ),
            run_pairs(out@) == all_runs(s as int, repeat as int),
            in_order(out@),
            forall|k: int|
                0 <= k < out@.len() ==> (#[trigger] out@[k]).test < s && run_fits(
                    all,
                    texts(taken@),
                    repeat as int,
                    out@[k],
                ),
        decreases selected@.len() - s,
    {
        let name = selected[s].name.as_str();
        let file: usize = selected[s].file;
        assert(all[s as int] == selected@[s as int]@);
        assert(fs[file as int] == files@[file as int]@);
        let ghost before = texts(taken@);
        let duplicated = is_duplicated(selected, name);
        let base = display_base(name, &files[file], duplicated, &mut taken);
        let ghost bases = texts(taken@);
        proof {
            assert(bases == before.push(base@));
            assert forall|a: int, b: int| 0 <= a < b < bases.len() implies #[trigger] bases[a]
                != #[trigger] bases[b] by {
                if b == s {
                    assert(before.contains(before[a]));
                } else {
                    assert(before[a] != before[b]);
                }
            }
            assert forall|i: int| 0 <= i < s + 1 implies is_free_name(
                base_name(all[i].name, fs[all[i].file], name_count(all, all[i].name) > 1),
                bases.take(i),
                #[trigger] bases[i],
            ) by {
                if i < s {
                    assert(bases.take(i) =~= before.take(i));
                    assert(bases[i] == before[i]);
                } else {
                    assert(bases.take(i) =~= before);
                }
            }
            assert forall|k: int| 0 <= k < out@.len() implies (#[trigger] out@[k]).test < s && run_fits(
                all,
                bases,
                repeat as int,
                out@[k],
            ) by {
                assert(bases[out@[k].test as int] == before[out@[k].test as int]);
            }
            assert(run_pairs(out@) =~= all_runs(s as int, repeat as int) + runs_of(s as int, 0));
        }
        let mut i: u64 = 0;
        while i < repeat
            invariant
                i <= repeat,
                repeat >= 1,
                s < selected@.len(),
                all == selected_views(selected@),
                all[s as int].name == name@,
                all[s as int].file == file,
                bases.len() == s + 1,
                bases[s as int] == base@,
                run_pairs(out@) == all_runs(s as int, repeat as int) + runs_of(s as int, i as int),
                in_order(out@),
                forall|k: int|
                    0 <= k < out@.len() ==> ((#[trigger] out@[k]).test < s || (out@[k].test == s
                        && out@[k].run <= i)) && run_fits(all, bases, repeat as int, out@[k]),
            decreases repeat - i,
        {
            i = i + 1;
            let mut v = chars_of(base.as_str());
            if repeat > 1 {
                extend_str(&mut v, "#");
                let n = decimal_chars(i as u128);
                extend(&mut v, n.as_slice());
            }
            let t = PlannedTest {
                display: string_of(v.as_slice()),
                name: name.to_owned(),
                file,
                test: s,
                run: i,
            };
            let ghost o = out@;
            out.push(t);
            proof {
                assert(run_fits(all, bases, repeat as int, t));
                assert(run_pairs(out@) =~= run_pairs(o).push((s as int, i as int)));
                assert(run_pairs(out@) =~= all_runs(s as int, repeat as int) + runs_of(
                    s as int,
                    i as int,
                ));
            }
        }
        s = s + 1;
    }
    proof {
        assert(bases_fit(all, fs, texts(taken@)));
        assert forall|a: int, b: int| 0 <= a < b < out@.len() implies (#[trigger] out@[a]).display@
            != (#[trigger] out@[b]).display@ by {
            let (x, y) = (out@[a], out@[b]);
            assert(run_fits(all, texts(taken@), repeat as int, x));
            assert(run_fits(all, texts(taken@), repeat as int, y));
            let bases = texts(taken@);
            if x.display@ == y.display@ {
                lemma_display_names_differ(
                    bases[x.test as int],
                    bases[y.test as int],
                    repeat as nat,
                    x.run as nat,
                    y.run as nat,
                );
                if x.test < y.test {
                    assert(bases[x.test as int] != bases[y.test as int]);
                }
            }
        }
    }
    out
}

proof fn lemma_runs_of(test: int, n: int, k: int)
    requires
        0 <= k < n,
    ensures
        runs_of(test, n).len() == n,
        runs_of(test, n)[k] == (test, k + 1),
    decreases n,
{
    if k < n - 1 {
        lemma_runs_of(test, n - 1, k);
    } else if n > 1 {
        lemma_runs_of(test, n - 1, 0);
    } else {
        assert(runs_of(test, 0).len() == 0);
    }
}

proof fn lemma_all_runs(n: int, repeat: int, test: int, run: int)
    requires
        0 <= test < n,
        1 <= run <= repeat,
    ensures
        all_runs(n, repeat).len() == n * repeat,
        0 <= test * repeat + run - 1 < n * repeat,
        all_runs(n, repeat)[test * repeat + run - 1] == (test, run),
    decreases n,
{
    lemma_runs_of(n - 1, repeat, run - 1);
    let before = all_runs(n - 1, repeat);
    assert(before.len() == (n - 1) * repeat) by {
        if n > 1 {
            lemma_all_runs(n - 1, repeat, 0, run);
        } else {
            assert((n - 1) * repeat == 0) by (nonlinear_arith)
                requires
                    n == 1,
            ;
        }
    }
    assert(n * repeat == (n - 1) * repeat + repeat) by (nonlinear_arith);
    if test < n - 1 {
        lemma_all_runs(n - 1, repeat, test, run);
    } else {
        assert(test * repeat == (n - 1) * repeat);
        assert((n - 1) * repeat >= 0) by (nonlinear_arith)
            requires
                n >= 1,
                repeat >= 1,
        ;
    }
}

proof fn lemma_named_once(s: Seq<SelectedView>, name: Seq<char>)
    ensures
        name_count(s, name) == 0 <==> forall|i: int| 0 <= i < s.len() ==> (#[trigger] s[i]).name != name,
        name_count(s, name) <= 1 <==> forall|i: int, j: int|
            0 <= i < j < s.len() ==> (#[trigger] s[i]).name != name || (#[trigger] s[j]).name != name,
    decreases s.len(),
{
    if s.len() > 0 {
        let t = s.drop_last();
        let n = s.len() - 1;
        lemma_named_once(t, name);
        assert(forall|i: int| 0 <= i < n ==> t[i] == s[i]);
        if name_count(s, name) == 0 {
            assert forall|i: int| 0 <= i < s.len() implies (#[trigger] s[i]).name != name by {
                if i < n {
                    assert(t[i].name != name);
                }
            }
        }
        if forall|i: int| 0 <= i < s.len() ==> (#[trigger] s[i]).name != name {
            assert(s[n].name != name);
            assert forall|i: int| 0 <= i < t.len() implies (#[trigger] t[i]).name != name by {
                assert(s[i].name != name);
            }
        }
        if name_count(s, name) <= 1 {
            assert forall|i: int, j: int| 0 <= i < j < s.len() implies (#[trigger] s[i]).name != name || (
            #[trigger] s[j]).name != name by {
                assert(t[i] == s[i]);
                if j < n {
                    assert(t[i].name != name || t[j].name != name);
                } else if s[n].name == name {
                    assert(t[i].name != name);
                }
            }
        }
        if forall|i: int, j: int|
            0 <= i < j < s.len() ==> (#[trigger] s[i]).name != name || (#[trigger] s[j]).name != name {
            assert forall|i: int, j: int| 0 <= i < j < t.len() implies (#[trigger] t[i]).name != name || (
            #[trigger] t[j]).name != name by {
                assert(s[i].name != name || s[j].name != name);
            }
            if s[n].name == name {
                assert forall|i: int| 0 <= i < t.len() implies (#[trigger] t[i]).name != name by {
                    assert(s[i].name != name || s[n].name != name);
                }
            }
        }
    }
}

/// The test at `t` shares its name with another that was selected.
pub open spec fn shares_its_name(selected: Seq<SelectedView>, t: int) -> bool {
    exists|u: int| 0 <= u < selected.len() && u != t && (#[trigger] selected[u]).name == selected[t].name
}

proof fn lemma_shared_is_counted(selected: Seq<SelectedView>, t: int)
    requires
        0 <= t < selected.len(),
    ensures
        shares_its_name(selected, t) <==> name_count(selected, selected[t].name) > 1,
{
    let name = selected[t].name;
    lemma_named_once(selected, name);
    if shares_its_name(selected, t) {
        let u = choose|u: int| 0 <= u < selected.len() && u != t && (#[trigger] selected[u]).name == name;
        let (i, j) = if u < t {
            (u, t)
        } else {
            (t, u)
        };
        assert(selected[i].name == name && selected[j].name == name);
    }
    if name_count(selected, name) > 1 {
        let (i, j) = choose|i: int, j: int|
            0 <= i < j < selected.len() && (#[trigger] selected[i]).name == name && (
            #[trigger] selected[j]).name == name;
        let u = if i == t {
            j
        } else {
            i
        };
        assert(selected[u].name == name);
    }
}

/// Every selected test runs `repeat` times: its runs come one after the other, numbered from
/// one, after those of the tests before it. A run carries the function and the file of its
/// test. It is shown under the name of the function where no other test has that name, else
/// with the name of the file before it; the number of the run follows where there are several.
pub proof fn lemma_every_test_runs(
    selected: Seq<SelectedView>,
    files: Seq<Seq<u8>>,
    repeat: int,
    out: Seq<PlannedTest>,
    t: int,
    run: int,
)
    requires
        runs_fit(selected, files, repeat, out),
        0 <= t < selected.len(),
        1 <= run <= repeat,
    ensures
        out.len() == selected.len() * repeat,
        0 <= t * repeat + run - 1 < out.len(),
        ({
            let o = out[t * repeat + run - 1];
            let last = if repeat == 1 {
                Seq::empty()
            } else {
                "#"@ + decimal(run as nat)
            };
            &&& o.test == t
            &&& o.run == run
            &&& o.name@ == selected[t].name
            &&& o.file == selected[t].file
            &&& !shares_its_name(selected, t) && !selected[t].name.contains(':') ==> o.display@
                == selected[t].name + last
            &&& shares_its_name(selected, t) && file_name(files[selected[t].file]) is Some ==> starts_with(
                o.display@,
                lossy(file_name(files[selected[t].file])->0) + ":"@ + selected[t].name,
            ) && ends_with(o.display@, last)
        }),
{
    lemma_all_runs(selected.len() as int, repeat, t, run);
    let k = t * repeat + run - 1;
    let o = out[k];
    assert(run_pairs(out).len() == out.len());
    assert(run_pairs(out)[k] == (o.test as int, o.run as int));
    let bases = choose|bases: Seq<Seq<char>>|
        #[trigger] bases_fit(selected, files, bases) && forall|k: int|
            0 <= k < out.len() ==> run_fits(selected, bases, repeat, #[trigger] out[k]);
    assert(run_fits(selected, bases, repeat, o));
    let name = selected[t].name;
    let last = if repeat == 1 {
        Seq::empty()
    } else {
        "#"@ + decimal(run as nat)
    };
    assert(o.display@ =~= bases[t] + last);
    assert(o.display@.skip(o.display@.len() - last.len()) =~= last);
    lemma_shared_is_counted(selected, t);
    let dup = shares_its_name(selected, t);
    let first = base_name(name, files[selected[t].file], dup);
    assert(is_free_name(first, bases.take(t), bases[t]));
    lemma_begins_with_base(first, bases.take(t), bases[t]);
    if dup {
        assert(o.display@.take(first.len() as int) =~= bases[t].take(first.len() as int));
    }
    if !dup && !name.contains(':') {
        assert forall|u: int| 0 <= u < t implies bases[u] != name by {
            assert(selected[u].name != name);
            lemma_shared_is_counted(selected, u);
            let b = base_name(selected[u].name, files[selected[u].file], shares_its_name(selected, u));
            assert(is_free_name(b, bases.take(u), bases[u]));
            assert(shares_its_name(selected, u) ==> b.contains(':')) by {
                reveal_strlit(":");
                let n = b.len() - selected[u].name.len() - 1;
                if shares_its_name(selected, u) {
                    assert(b[n] == ':');
                }
            }
            lemma_name_without_colon(b, selected[u].name, bases.take(u), bases[u], shares_its_name(selected, u), name);
        }
        assert(!bases.take(t).contains(name));
    }
}

proof fn lemma_begins_with_base(base: Seq<char>, taken: Seq<Seq<char>>, r: Seq<char>)
    requires
        is_free_name(base, taken, r),
    ensures
        starts_with(r, base),
{
    if taken.contains(base) {
        let k = choose|k: nat|
            2 <= k && r == #[trigger] numbered(base, k) && !taken.contains(r) && forall|j: nat|
                2 <= j < k ==> taken.contains(#[trigger] numbered(base, j));
        assert(r.take(base.len() as int) =~= base);
    } else {
        assert(r.take(base.len() as int) =~= base);
    }
}

/// A name without a colon is that of a test with this name alone.
proof fn lemma_name_without_colon(
    base: Seq<char>,
    other: Seq<char>,
    taken: Seq<Seq<char>>,
    r: Seq<char>,
    dup: bool,
    name: Seq<char>,
)
    requires
        is_free_name(base, taken, r),
        !dup ==> base == other,
        dup ==> base.contains(':'),
        other != name,
        !name.contains(':'),
    ensures
        r != name,
{
    if taken.contains(base) {
        let k = choose|k: nat|
            2 <= k && r == #[trigger] numbered(base, k) && !taken.contains(r) && forall|j: nat|
                2 <= j < k ==> taken.contains(#[trigger] numbered(base, j));
        reveal_strlit(":");
        assert(r[base.len() as int] == ':');
        assert(r.contains(':'));
    }
}

/// Every selected test is planned as often as it is to run, with its function and its file.
pub proof fn lemma_every_selected_test_is_planned(
    files: &Vec<TestFile>,
    pattern: &Option<TestPattern>,
    selected: Vec<Selected>,
    paths_of: &Vec<UnixPath>,
    repeat: u64,
    out: Vec<PlannedTest>,
    f: int,
    k: int,
    run: int,
) -> (t: int)
    requires
        call_ensures(select_tests, (files, pattern), selected),
        call_ensures(name_tests, (&selected, paths_of, repeat), out),
        1 <= run <= repeat,
        is_wanted(files@, pattern_view(*pattern), f, k),
    ensures
        0 <= t < selected@.len(),
        out@.len() == selected@.len() * repeat,
        0 <= t * repeat + run - 1 < out@.len(),
        ({
            let o = out@[t * repeat + run - 1];
            &&& o.file == f
            &&& o.name@ == files@[f].tests@[k].name@
            &&& o.run == run
        }),
{
    let n = files@.len() as int;
    let p = pattern_view(*pattern);
    let all = selected_views(selected@);
    let at = choose|at: Seq<(int, int)>| #[trigger] is_selection(files@, p, n, all, at);
    assert(at.contains((f, k)));
    let t = choose|t: int| 0 <= t < at.len() && at[t] == (f, k);
    assert(at[t] == (f, k));
    assert(all.len() == selected@.len());
    lemma_every_test_runs(all, paths(paths_of@), repeat as int, out@, t, run);
    t
}

} // verus!
