//! Which tests run, in which order, and when a run is over.

use vstd::prelude::*;

use crate::order::{sort, stably_sorted, text_before, text_less, lemma_text_order, Ordered};
use crate::text::chars_of;

verus! {

/// A test that runs.
#[derive(Debug)]
pub struct Running {
    /// The number of the test.
    pub index: usize,
    pub name: String,
    /// Set when the test was killed for exceeding its time limit.
    pub timed_out: bool,
}

/// A test that has ended.
#[derive(Debug)]
pub struct Outcome {
    /// The number of the test.
    pub index: usize,
    pub name: String,
    pub passed: bool,
    pub timed_out: bool,
}

/// The end of a test's process: its place among the running tests, and whether it
/// exited with success.
#[derive(Clone, Copy, Debug)]
pub struct Exit {
    pub position: usize,
    pub success: bool,
}

/// A test that was taken from the running ones.
#[derive(Clone, Copy, PartialEq, Eq, Structural, Debug)]
pub struct Reaped {
    /// The number of the test.
    pub index: usize,
    /// Whether its result counts; none does once the run has bailed out.
    pub kept: bool,
}

pub struct OutcomeView {
    pub index: int,
    pub name: Seq<char>,
    pub passed: bool,
    pub timed_out: bool,
}

impl View for Outcome {
    type V = OutcomeView;

    open spec fn view(&self) -> OutcomeView {
        OutcomeView {
            index: self.index as int,
            name: self.name@,
            passed: self.passed,
            timed_out: self.timed_out,
        }
    }
}

/// What the outcomes hold.
pub open spec fn outcome_views(s: Seq<Outcome>) -> Seq<OutcomeView> {
    s.map(|_i: int, o: Outcome| o@)
}

impl Ordered for Outcome {
    open spec fn before(self, other: Self) -> bool {
        text_less(self.name@, other.name@)
    }

    proof fn lemma_irreflexive(a: Self) {
        lemma_text_order::<char>();
        let t = |a: Seq<char>, b: Seq<char>| text_less(a, b);
        assert(!t(a.name@, a.name@));
    }

    proof fn lemma_weak(a: Self, b: Self, c: Self) {
        lemma_text_order::<char>();
        let t = |a: Seq<char>, b: Seq<char>| text_less(a, b);
        let (x, y, z) = (a.name@, b.name@, c.name@);
        assert(t(x, z));
        assert(x == y || t(x, y) || t(y, x));
        if t(y, x) {
            assert(t(y, z));
        }
    }

    proof fn lemma_transitive(a: Self, b: Self, c: Self) {
        lemma_text_order::<char>();
        let t = |a: Seq<char>, b: Seq<char>| text_less(a, b);
        assert(t(a.name@, b.name@) && t(b.name@, c.name@));
        assert(t(a.name@, c.name@));
    }

    fn precedes(&self, other: &Self) -> (r: bool) {
        let a = chars_of(self.name.as_str());
        let b = chars_of(other.name.as_str());
        text_before(a.as_slice(), b.as_slice())
    }
}

/// The outcome of a running test whose process has ended. A test that was killed for
/// its time has not passed.
pub open spec fn outcome_of(r: Running, success: bool) -> OutcomeView {
    OutcomeView {
        index: r.index as int,
        name: r.name@,
        passed: !r.timed_out && success,
        timed_out: r.timed_out,
    }
}

/// How often test `i` is among the running ones.
pub open spec fn run_count(s: Seq<Running>, i: int) -> nat
    decreases s.len(),
{
    if s.len() == 0 {
        0
    } else {
        run_count(s.drop_last(), i) + if s.last().index == i {
            1nat
        } else {
            0
        }
    }
}

/// How often test `i` is among the ended ones.
pub open spec fn out_count(s: Seq<Outcome>, i: int) -> nat
    decreases s.len(),
{
    if s.len() == 0 {
        0
    } else {
        out_count(s.drop_last(), i) + if s.last().index == i {
            1nat
        } else {
            0
        }
    }
}

/// How often `i` is among the numbers.
pub open spec fn num_count(s: Seq<usize>, i: int) -> nat
    decreases s.len(),
{
    if s.len() == 0 {
        0
    } else {
        num_count(s.drop_last(), i) + if s.last() == i {
            1nat
        } else {
            0
        }
    }
}

/// One of the tests has failed.
pub open spec fn any_failed(s: Seq<Outcome>) -> bool {
    exists|i: int| 0 <= i < s.len() && !(#[trigger] s[i]).passed
}

/// No test has passed that was killed for its time.
pub open spec fn killed_have_failed(s: Seq<Outcome>) -> bool {
    forall|i: int| 0 <= i < s.len() ==> !((#[trigger] s[i]).passed && s[i].timed_out)
}

/// A run of tests: which of them run, which have ended, and which come next.
#[derive(Debug)]
pub struct Scheduler {
    /// The names of all tests, in the order in which they start.
    pub names: Vec<String>,
    /// How many tests run at once, at least one.
    pub parallel: usize,
    /// Whether the run ends with the first failure.
    pub bail: bool,
    /// The number of the next test to start.
    pub next: usize,
    pub running: Vec<Running>,
    /// Tests that have ended and are to be recorded, in the order of their names.
    pub batch: Vec<Outcome>,
    /// What was recorded.
    pub results: Vec<Outcome>,
    /// Tests that ended after the run had bailed out.
    pub dropped: Vec<usize>,
    /// Set when a failure has ended the run.
    pub bailed: bool,
}

impl Scheduler {
    /// How often test `i` was started and is still known.
    pub open spec fn count(self, i: int) -> nat {
        run_count(self.running@, i) + out_count(self.batch@, i) + out_count(self.results@, i)
            + num_count(self.dropped@, i)
    }

    /// What holds of a run at all times: every test up to the next one was started once
    /// and is in one place; no more tests run than may; while the run has not bailed out
    /// no place stays free as long as there are tests; it bails out only when it may
    /// and a test has failed; no test has passed that was killed for its time; and where one
    /// test runs at a time they come in turn.
    pub open spec fn wf(self) -> bool {
        &&& self.parallel >= 1
        &&& self.next <= self.names@.len()
        &&& forall|i: int|
            #[trigger] self.count(i) == (if 0 <= i < self.next {
                1nat
            } else {
                0
            })
        &&& self.running@.len() + self.batch@.len() <= self.parallel
        &&& !self.bailed ==> self.next == self.names@.len() || self.running@.len() + self.batch@.len()
            == self.parallel
        &&& !self.bailed ==> self.dropped@.len() == 0
        &&& self.bailed == (self.bail && any_failed(self.results@))
        &&& forall|i: int|
            0 <= i < self.running@.len() ==> (#[trigger] self.running@[i]).index
                < self.names@.len() && self.running@[i].name@
                == self.names@[self.running@[i].index as int]@
        &&& forall|i: int|
            0 <= i < self.batch@.len() ==> (#[trigger] self.batch@[i]).index < self.names@.len()
                && self.batch@[i].name@ == self.names@[self.batch@[i].index as int]@
        &&& forall|i: int|
            0 <= i < self.results@.len() ==> (#[trigger] self.results@[i]).index
                < self.names@.len() && self.results@[i].name@
                == self.names@[self.results@[i].index as int]@
        &&& killed_have_failed(self.batch@)
        &&& killed_have_failed(self.results@)
        &&& self.parallel == 1 ==> self.is_in_turn()
    }

    /// The tests come one after the other: those that were recorded are the first ones, in
    /// their order, and the next of them runs or is to be recorded. Where a failure ends the
    /// run, it is the last that was recorded.
    pub open spec fn is_in_turn(self) -> bool {
        &&& self.dropped@.len() == 0
        &&& self.next == self.results@.len() + self.batch@.len() + self.running@.len()
        &&& forall|i: int| 0 <= i < self.results@.len() ==> (#[trigger] self.results@[i]).index == i
        &&& self.batch@.len() > 0 ==> self.batch@[0].index == self.results@.len()
        &&& self.running@.len() > 0 ==> self.running@[0].index == self.results@.len()
        &&& self.bail ==> forall|i: int|
            0 <= i < self.results@.len() - 1 ==> (#[trigger] self.results@[i]).passed
        &&& self.bailed ==> self.is_over() && self.results@.len() > 0
            && !self.results@.last().passed
    }

    /// How many steps a run is from its end at most: two for each test that has not ended,
    /// and one for each that is to be recorded.
    pub open spec fn steps_left(self) -> int {
        2 * (self.names@.len() - self.next) + 2 * self.running@.len() + self.batch@.len()
    }

    /// The run is over.
    pub open spec fn is_over(self) -> bool {
        self.running@.len() == 0 && self.batch@.len() == 0
    }
}

/// A run that is over and has not bailed out has recorded every test exactly once.
pub proof fn lemma_all_tests_reported(s: Scheduler, i: int)
    requires
        s.wf(),
        s.is_over(),
        !s.bailed,
    ensures
        out_count(s.results@, i) == (if 0 <= i < s.names@.len() {
            1nat
        } else {
            0
        }),
{
    assert(s.count(i) == (if 0 <= i < s.next {
        1nat
    } else {
        0
    }));
}

/// No test is recorded twice, whether the run has bailed out or not.
pub proof fn lemma_no_test_reported_twice(s: Scheduler, i: int)
    requires
        s.wf(),
    ensures
        out_count(s.results@, i) <= 1,
{
    assert(s.count(i) <= 1);
}

/// One test at a time, and bailing out: a run that is over has recorded the tests in their
/// order up to the first that failed, or all of them.
pub proof fn lemma_run_ends_at_the_first_failure(s: Scheduler)
    requires
        s.wf(),
        s.is_over(),
        s.parallel == 1,
        s.bail,
    ensures
        s.results@.len() <= s.names@.len(),
        forall|i: int| 0 <= i < s.results@.len() ==> (#[trigger] s.results@[i]).index == i,
        forall|i: int| 0 <= i < s.results@.len() - 1 ==> (#[trigger] s.results@[i]).passed,
        s.results@.len() < s.names@.len() ==> s.results@.len() > 0 && !s.results@.last().passed,
{
}

/// A test that was killed for its time is recorded as failed.
pub proof fn lemma_killed_tests_have_failed(s: Scheduler, i: int)
    requires
        s.wf(),
        0 <= i < s.results@.len(),
        s.results@[i].timed_out,
    ensures
        !s.results@[i].passed,
{
}

proof fn lemma_run_remove(s: Seq<Running>, p: int, i: int)
    requires
        0 <= p < s.len(),
    ensures
        run_count(s, i) == run_count(s.remove(p), i) + (if s[p].index == i {
            1nat
        } else {
            0
        }),
    decreases s.len(),
{
    if p == s.len() - 1 {
        assert(s.remove(p) =~= s.drop_last());
    } else {
        lemma_run_remove(s.drop_last(), p, i);
        assert(s.remove(p).drop_last() =~= s.drop_last().remove(p));
        assert(s.remove(p).last() == s.last());
    }
}

proof fn lemma_out_remove(s: Seq<Outcome>, p: int, i: int)
    requires
        0 <= p < s.len(),
    ensures
        out_count(s, i) == out_count(s.remove(p), i) + (if s[p].index == i {
            1nat
        } else {
            0
        }),
    decreases s.len(),
{
    if p == s.len() - 1 {
        assert(s.remove(p) =~= s.drop_last());
    } else {
        lemma_out_remove(s.drop_last(), p, i);
        assert(s.remove(p).drop_last() =~= s.drop_last().remove(p));
        assert(s.remove(p).last() == s.last());
    }
}

proof fn lemma_out_same(a: Seq<Outcome>, b: Seq<Outcome>, i: int)
    requires
        a.to_multiset() == b.to_multiset(),
    ensures
        a.len() == b.len(),
        out_count(a, i) == out_count(b, i),
    decreases a.len(),
{
    a.to_multiset_ensures();
    b.to_multiset_ensures();
    if a.len() > 0 {
        let x = a.last();
        assert(a.contains(x));
        assert(a.to_multiset().count(x) > 0);
        assert(b.contains(x));
        let k = choose|k: int| 0 <= k < b.len() && b[k] == x;
        assert(a.remove(a.len() - 1) =~= a.drop_last());
        assert(a.drop_last().to_multiset() =~= a.to_multiset().remove(x));
        assert(b.remove(k).to_multiset() =~= b.to_multiset().remove(x));
        lemma_out_same(a.drop_last(), b.remove(k), i);
        lemma_out_remove(b, k, i);
    }
}

/// The running tests without those whose exits are at `k` and after.
pub open spec fn without_exits(s: Seq<Running>, exits: Seq<Exit>, k: int) -> Seq<Running>
    decreases exits.len() - k,
{
    if k >= exits.len() {
        s
    } else {
        without_exits(s, exits, k + 1).remove(exits[k].position as int)
    }
}

/// The outcomes of the exits, the last one first.
pub open spec fn exit_outcomes(s: Seq<Running>, exits: Seq<Exit>) -> Seq<OutcomeView> {
    Seq::new(
        exits.len(),
        |m: int|
            outcome_of(
                s[exits[exits.len() - 1 - m].position as int],
                exits[exits.len() - 1 - m].success,
            ),
    )
}

/// The exits name running tests, each once, in their order.
pub open spec fn exits_fit(s: Seq<Running>, exits: Seq<Exit>) -> bool {
    &&& forall|k: int| 0 <= k < exits.len() ==> (#[trigger] exits[k]).position < s.len()
    &&& forall|j: int, k: int|
        0 <= j < k < exits.len() ==> (#[trigger] exits[j]).position < (#[trigger] exits[k]).position
}

proof fn lemma_without_exits(s: Seq<Running>, exits: Seq<Exit>, k: int)
    requires
        exits_fit(s, exits),
        0 <= k <= exits.len(),
    ensures
        without_exits(s, exits, k).len() == s.len() - (exits.len() - k),
        k < exits.len() ==> forall|p: int|
            0 <= p < exits[k].position ==> #[trigger] without_exits(s, exits, k)[p] == s[p],
        k > 0 ==> exits[k - 1].position < without_exits(s, exits, k).len() && without_exits(
            s,
            exits,
            k,
        )[exits[k - 1].position as int] == s[exits[k - 1].position as int],
        forall|p: int|
            0 <= p < without_exits(s, exits, k).len() ==> s.contains(
                #[trigger] without_exits(s, exits, k)[p],
            ),
    decreases exits.len() - k,
{
    if k < exits.len() {
        lemma_without_exits(s, exits, k + 1);
        let t = without_exits(s, exits, k + 1);
        let r = without_exits(s, exits, k);
        let at = exits[k].position as int;
        assert forall|p: int| 0 <= p < at implies #[trigger] r[p] == s[p] by {
            if k + 1 < exits.len() {
                assert(exits[k].position < exits[k + 1].position);
                assert(t[p] == s[p]);
            }
        }
        if k > 0 {
            assert(exits[k - 1].position < exits[k].position);
        }
        assert forall|p: int| 0 <= p < r.len() implies s.contains(#[trigger] r[p]) by {
            if p < at {
                assert(s.contains(t[p]));
            } else {
                assert(s.contains(t[p + 1]));
            }
        }
    } else {
        if k > 0 {
            assert(exits[k - 1].position < s.len());
        }
    }
}

impl Scheduler {
    /// A run of the named tests, with the first of them started.
    pub fn new(names: Vec<String>, parallel: usize, bail: bool) -> (s: Self)
        ensures
            s.wf(),
            s.names@ == names@,
            s.parallel == (if parallel == 0 {
                1
            } else {
                parallel
            }),
            s.bail == bail,
            !s.bailed,
            s.next == (if s.parallel <= names@.len() {
                s.parallel as int
            } else {
                names@.len() as int
            }),
            s.running@.len() == s.next,
            forall|i: int|
                0 <= i < s.next ==> (#[trigger] s.running@[i]).index == i && !s.running@[i].timed_out,
            s.batch@.len() == 0,
            s.results@.len() == 0,
    {
        let parallel: usize = if parallel == 0 {
            1
        } else {
            parallel
        };
        let mut running: Vec<Running> = Vec::new();
        let mut n: usize = 0;
        while n < parallel && n < names.len()
            invariant
                n <= parallel,
                n <= names@.len(),
                running@.len() == n,
                forall|i: int|
                    0 <= i < n ==> (#[trigger] running@[i]).index == i && !running@[i].timed_out
                        && running@[i].name@ == names@[i]@,
                forall|i: int|
                    #[trigger] run_count(running@, i) == (if 0 <= i < n {
                        1nat
                    } else {
                        0
                    }),
            decreases names@.len() - n,
        {
            let ghost before = running@;
            running.push(
                Running { index: n, name: names[n].as_str().to_owned(), timed_out: false },
            );
            proof {
                assert(running@.drop_last() =~= before);
                assert forall|i: int| #[trigger] run_count(running@, i) == (if 0 <= i < n + 1 {
                    1nat
                } else {
                    0
                }) by {
                    assert(run_count(before, i) == (if 0 <= i < n {
                        1nat
                    } else {
                        0
                    }));
                }
            }
            n = n + 1;
        }
        let s = Scheduler {
            names,
            parallel,
            bail,
            next: n,
            running,
            batch: Vec::new(),
            results: Vec::new(),
            dropped: Vec::new(),
            bailed: false,
        };
        proof {
            assert forall|i: int| #[trigger] s.count(i) == (if 0 <= i < s.next {
                1nat
            } else {
                0
            }) by {
                assert(run_count(s.running@, i) == (if 0 <= i < n {
                    1nat
                } else {
                    0
                }));
            }
        }
        s
    }

    /// Takes the tests whose processes have ended from the running ones, the last one
    /// first, and puts their outcomes in the order of their names. Once the run has
    /// bailed out, their outcomes are dropped.
    pub fn reap(&mut self, exits: &Vec<Exit>) -> (r: Vec<Reaped>)
        requires
            old(self).wf(),
            old(self).batch@.len() == 0,
            exits_fit(old(self).running@, exits@),
        ensures
            final(self).wf(),
            final(self).names == old(self).names,
            final(self).parallel == old(self).parallel,
            final(self).bail == old(self).bail,
            final(self).bailed == old(self).bailed,
            final(self).next == old(self).next,
            final(self).results == old(self).results,
            final(self).running@ == without_exits(old(self).running@, exits@, 0),
            !old(self).bailed ==> final(self).dropped == old(self).dropped && exists|list: Seq<
                Outcome,
            >|
                outcome_views(list) == exit_outcomes(old(self).running@, exits@)
                    && #[trigger] stably_sorted(list, final(self).batch@),
            old(self).bailed ==> final(self).batch@.len() == 0,
            final(self).steps_left() <= old(self).steps_left() - exits@.len(),
            r@.len() == exits@.len(),
            forall|m: int|
                0 <= m < r@.len() ==> #[trigger] r@[m] == (Reaped {
                    index: old(self).running@[exits@[exits@.len() - 1 - m].position as int].index,
                    kept: !old(self).bailed,
                }),
    {
        let ghost s0 = *self;
        let ghost all = self.running@;
        let n: usize = exits.len();
        let mut list: Vec<Outcome> = Vec::new();
        let mut r: Vec<Reaped> = Vec::new();
        let mut k: usize = n;
        proof {
            lemma_without_exits(all, exits@, n as int);
            assert forall|i: int| #[trigger] s0.count(i) == run_count(self.running@, i) + out_count(
                list@,
                i,
            ) + out_count(self.results@, i) + num_count(self.dropped@, i) by {}
        }
        while k > 0
            invariant
                k <= n == exits@.len(),
                s0.wf(),
                s0.batch@.len() == 0,
                all == s0.running@,
                exits_fit(all, exits@),
                self.names == s0.names,
                self.parallel == s0.parallel,
                self.bail == s0.bail,
                self.bailed == s0.bailed,
                self.next == s0.next,
                self.results == s0.results,
                self.batch == s0.batch,
                self.running@ == without_exits(all, exits@, k as int),
                !self.bailed ==> self.dropped == s0.dropped && list@.len() == n - k,
                self.bailed ==> list@.len() == 0 && self.dropped@.len() == s0.dropped@.len() + (n - k),
                !self.bailed ==> forall|m: int|
                    0 <= m < n - k ==> (#[trigger] list@[m])@ == exit_outcomes(all, exits@)[m],
                forall|m: int|
                    0 <= m < list@.len() ==> (#[trigger] list@[m]).index < s0.names@.len()
                        && list@[m].name@ == s0.names@[list@[m].index as int]@,
                killed_have_failed(list@),
                r@.len() == n - k,
                forall|m: int|
                    0 <= m < r@.len() ==> #[trigger] r@[m] == (Reaped {
                        index: all[exits@[n - 1 - m].position as int].index,
                        kept: !s0.bailed,
                    }),
                forall|i: int|
                    #[trigger] s0.count(i) == run_count(self.running@, i) + out_count(list@, i)
                        + out_count(self.results@, i) + num_count(self.dropped@, i),
            decreases k,
        {
            proof {
                lemma_without_exits(all, exits@, k as int);
                lemma_without_exits(all, exits@, k - 1);
            }
            let e = exits[k - 1];
            let ghost before = self.running@;
            let ghost list0 = list@;
            let ghost dropped0 = self.dropped@;
            let run = self.running.remove(e.position);
            assert(run == all[e.position as int]);
            assert(all.contains(run));
            r.push(Reaped { index: run.index, kept: !self.bailed });
            if self.bailed {
                self.dropped.push(run.index);
                assert(self.dropped@.drop_last() =~= dropped0);
            } else {
                let o = Outcome {
                    index: run.index,
                    name: run.name,
                    passed: !run.timed_out && e.success,
                    timed_out: run.timed_out,
                };
                list.push(o);
                assert(list@.drop_last() =~= list0);
            }
            proof {
                assert forall|i: int| #[trigger] s0.count(i) == run_count(self.running@, i)
                    + out_count(list@, i) + out_count(self.results@, i) + num_count(
                    self.dropped@,
                    i,
                ) by {
                    lemma_run_remove(before, e.position as int, i);
                }
            }
            k = k - 1;
        }
        let ghost unsorted = list@;
        self.batch = sort(list);
        proof {
            if !s0.bailed {
                assert(outcome_views(unsorted) =~= exit_outcomes(all, exits@));
            }
            lemma_out_same(unsorted, self.batch@, 0);
            assert forall|i: int| #[trigger] self.count(i) == (if 0 <= i < self.next {
                1nat
            } else {
                0
            }) by {
                lemma_out_same(unsorted, self.batch@, i);
                assert(s0.count(i) == (if 0 <= i < s0.next {
                    1nat
                } else {
                    0
                }));
            }
            lemma_without_exits(all, exits@, 0);
            lemma_batch_names(s0.names@, unsorted, self.batch@);
            if self.parallel == 1 {
                assert(s0.is_in_turn());
                if exits@.len() > 0 {
                    assert(exits@[0].position < all.len());
                    if exits@.len() > 1 {
                        assert(exits@[0].position < exits@[1].position);
                        assert(exits@[1].position < all.len());
                    }
                    assert(!self.bailed);
                    lemma_first_of_one(unsorted, self.batch@);
                    assert(unsorted[0]@ == exit_outcomes(all, exits@)[0]);
                    assert(self.batch@[0].index == s0.running@[0].index);
                }
                assert(self.is_in_turn());
            }
            assert forall|i: int| 0 <= i < self.running@.len() implies (#[trigger] self.running@[i]).index
                < self.names@.len() && self.running@[i].name@
                == self.names@[self.running@[i].index as int]@ by {
                let t = without_exits(all, exits@, 0);
                assert(all.contains(t[i]));
                let a = choose|a: int| 0 <= a < all.len() && all[a] == t[i];
                assert(s0.running@[a] == t[i]);
            }
        }
        r
    }
}

/// What was recorded and what is left to record after `n` more outcomes were recorded.
pub open spec fn recorded(results: Seq<Outcome>, batch: Seq<Outcome>, n: nat) -> (Seq<Outcome>, Seq<Outcome>)
    decreases n,
{
    if n == 0 || batch.len() == 0 {
        (results, batch)
    } else {
        recorded(results.push(batch[0]), batch.drop_first(), (n - 1) as nat)
    }
}

/// The outcomes are recorded in the order in which they are to be: what was recorded, followed
/// by what is left, stays the same, and after as many steps as there are outcomes all of them
/// were recorded.
pub proof fn lemma_recording_keeps_the_order(results: Seq<Outcome>, batch: Seq<Outcome>, n: nat)
    requires
        n <= batch.len(),
    ensures
        ({
            let (r, b) = recorded(results, batch, n);
            r + b == results + batch && b.len() == batch.len() - n
        }),
    decreases n,
{
    if n > 0 {
        let r = results.push(batch[0]);
        let b = batch.drop_first();
        lemma_recording_keeps_the_order(r, b, (n - 1) as nat);
        assert(r + b =~= results + batch);
    }
}

proof fn lemma_failed_push(s: Seq<Outcome>, o: Outcome)
    ensures
        any_failed(s.push(o)) == (any_failed(s) || !o.passed),
{
    let t = s.push(o);
    if any_failed(s) {
        let i = choose|i: int| 0 <= i < s.len() && !(#[trigger] s[i]).passed;
        assert(t[i] == s[i]);
    }
    assert(t[s.len() as int] == o);
    if any_failed(t) {
        let i = choose|i: int| 0 <= i < t.len() && !(#[trigger] t[i]).passed;
        if i < s.len() {
            assert(s[i] == t[i]);
        }
    }
}

impl Scheduler {
    /// Records the next outcome, and starts the next test in its place unless the run
    /// has bailed out. Gives the number of the test that starts.
    pub fn record(&mut self) -> (r: Option<usize>)
        requires
            old(self).wf(),
            old(self).batch@.len() > 0,
        ensures
            final(self).wf(),
            final(self).names == old(self).names,
            final(self).parallel == old(self).parallel,
            final(self).bail == old(self).bail,
            final(self).dropped == old(self).dropped,
            final(self).batch@ == old(self).batch@.drop_first(),
            final(self).results@ == old(self).results@.push(old(self).batch@[0]),
            (final(self).results@, final(self).batch@) == recorded(old(self).results@, old(self).batch@, 1),
            final(self).bailed == (old(self).bailed || (old(self).bail && !old(self).batch@[0].passed)),
            final(self).steps_left() < old(self).steps_left(),
            r is Some <==> !final(self).bailed && old(self).next < old(self).names@.len(),
            match r {
                Some(i) => {
                    &&& i == old(self).next
                    &&& final(self).next == i + 1
                    &&& final(self).running@.len() == old(self).running@.len() + 1
                    &&& final(self).running@.drop_last() == old(self).running@
                    &&& final(self).running@.last().index == i
                    &&& !final(self).running@.last().timed_out
                },
                None => {
                    &&& final(self).next == old(self).next
                    &&& final(self).running == old(self).running
                },
            },
    {
        let ghost s0 = *self;
        let o = self.batch.remove(0);
        let failed = !o.passed;
        proof {
            assert(self.batch@ =~= s0.batch@.drop_first());
            assert(s0.batch@.remove(0) =~= s0.batch@.drop_first());
            lemma_failed_push(s0.results@, o);
            reveal_with_fuel(recorded, 2);
        }
        self.results.push(o);
        assert(self.results@.drop_last() =~= s0.results@);
        if failed && self.bail {
            self.bailed = true;
        }
        let mut r: Option<usize> = None;
        if !self.bailed && self.next < self.names.len() {
            let i: usize = self.next;
            self.running.push(
                Running { index: i, name: self.names[i].as_str().to_owned(), timed_out: false },
            );
            assert(self.running@.drop_last() =~= s0.running@);
            self.next = i + 1;
            r = Some(i);
        }
        proof {
            assert forall|i: int| #[trigger] self.count(i) == (if 0 <= i < self.next {
                1nat
            } else {
                0
            }) by {
                assert(s0.count(i) == (if 0 <= i < s0.next {
                    1nat
                } else {
                    0
                }));
                lemma_out_remove(s0.batch@, 0, i);
            }
        }
        r
    }

    /// Marks the running tests that have run for longer than `limit`, and gives the
    /// places of those that were not marked before: they are to be killed.
    pub fn time_out(&mut self, elapsed: &Vec<u128>, limit: u128) -> (r: Vec<usize>)
        requires
            old(self).wf(),
            elapsed@.len() == old(self).running@.len(),
        ensures
            final(self).wf(),
            final(self).names == old(self).names,
            final(self).parallel == old(self).parallel,
            final(self).bail == old(self).bail,
            final(self).bailed == old(self).bailed,
            final(self).next == old(self).next,
            final(self).batch == old(self).batch,
            final(self).results == old(self).results,
            final(self).dropped == old(self).dropped,
            final(self).running@.len() == old(self).running@.len(),
            forall|i: int|
                0 <= i < elapsed@.len() ==> {
                    let a = old(self).running@[i];
                    let b = #[trigger] final(self).running@[i];
                    b.index == a.index && b.name == a.name && b.timed_out == (a.timed_out
                        || elapsed@[i] > limit)
                },
            r@ == overdue(old(self).running@, elapsed@, limit, elapsed@.len() as int),
            forall|p: usize| #[trigger]
                r@.contains(p) <==> p < elapsed@.len() && final(self).running@[p as int].timed_out
                    && !old(self).running@[p as int].timed_out,
            forall|i: int, j: int| 0 <= i < j < r@.len() ==> #[trigger] r@[i] < #[trigger] r@[j],
    {
        let ghost s0 = *self;
        let mut r: Vec<usize> = Vec::new();
        let mut i: usize = 0;
        while i < elapsed.len()
            invariant
                i <= elapsed@.len() == s0.running@.len(),
                self.running@.len() == s0.running@.len(),
                s0.wf(),
                self.names == s0.names,
                self.parallel == s0.parallel,
                self.bail == s0.bail,
                self.bailed == s0.bailed,
                self.next == s0.next,
                self.batch == s0.batch,
                self.results == s0.results,
                self.dropped == s0.dropped,
                forall|k: int|
                    0 <= k < i ==> {
                        let a = s0.running@[k];
                        let b = #[trigger] self.running@[k];
                        b.index == a.index && b.name == a.name && b.timed_out == (a.timed_out
                            || elapsed@[k] > limit)
                    },
                forall|k: int| i <= k < elapsed@.len() ==> self.running@[k] == s0.running@[k],
                r@ == overdue(s0.running@, elapsed@, limit, i as int),
            decreases elapsed@.len() - i,
        {
            if !self.running[i].timed_out && elapsed[i] > limit {
                self.running[i].timed_out = true;
                r.push(i);
            }
            i = i + 1;
        }
        proof {
            assert forall|j: int| #[trigger] self.count(j) == (if 0 <= j < self.next {
                1nat
            } else {
                0
            }) by {
                assert(s0.count(j) == (if 0 <= j < s0.next {
                    1nat
                } else {
                    0
                }));
                lemma_run_same(s0.running@, self.running@, j);
            }
            lemma_overdue_are_the_late_ones(s0.running@, elapsed@, limit, elapsed@.len() as int);
        }
        r
    }
}

/// The places of the running tests among the first `n` that are not marked yet and have
/// run for longer than `limit`.
pub open spec fn overdue(s: Seq<Running>, elapsed: Seq<u128>, limit: u128, n: int) -> Seq<usize>
    decreases n,
{
    if n <= 0 {
        Seq::empty()
    } else {
        let r = overdue(s, elapsed, limit, n - 1);
        if !s[n - 1].timed_out && elapsed[n - 1] > limit {
            r.push((n - 1) as usize)
        } else {
            r
        }
    }
}

/// The places that are given are those of the tests that are late and were not marked, in
/// their order, each once.
pub proof fn lemma_overdue_are_the_late_ones(s: Seq<Running>, elapsed: Seq<u128>, limit: u128, n: int)
    requires
        0 <= n <= s.len() <= usize::MAX,
        elapsed.len() == s.len(),
    ensures
        forall|p: usize| #[trigger]
            overdue(s, elapsed, limit, n).contains(p) <==> p < n && !s[p as int].timed_out && elapsed[p as int]
                > limit,
        forall|i: int, j: int|
            0 <= i < j < overdue(s, elapsed, limit, n).len() ==> #[trigger] overdue(s, elapsed, limit, n)[i]
                < #[trigger] overdue(s, elapsed, limit, n)[j],
    decreases n,
{
    if n > 0 {
        lemma_overdue_are_the_late_ones(s, elapsed, limit, n - 1);
        let a = overdue(s, elapsed, limit, n - 1);
        let r = overdue(s, elapsed, limit, n);
        assert forall|p: usize| #[trigger]
            r.contains(p) <==> p < n && !s[p as int].timed_out && elapsed[p as int] > limit by {
            if a.contains(p) {
                let k = choose|k: int| 0 <= k < a.len() && a[k] == p;
                assert(r[k] == p);
            }
            if r.contains(p) {
                let k = choose|k: int| 0 <= k < r.len() && r[k] == p;
                if k < a.len() {
                    assert(a.contains(a[k]));
                }
            }
            if p == n - 1 && r.len() > a.len() {
                assert(r[a.len() as int] == p);
            }
        }
        assert forall|i: int, j: int| 0 <= i < j < r.len() implies #[trigger] r[i] < #[trigger] r[j] by {
            assert(a.contains(a[i]));
            if j < a.len() {
                assert(a[i] < a[j]);
            }
        }
    }
}

/// One of the exits from `k` on is at place `p`.
pub open spec fn has_exit(exits: Seq<Exit>, k: int, p: int) -> bool {
    exists|m: int| k <= m < exits.len() && (#[trigger] exits[m]).position == p
}

/// The places at which no test has ended, in their order.
pub open spec fn are_places_left(s: Seq<Running>, exits: Seq<Exit>, at: Seq<int>) -> bool {
    &&& forall|i: int, j: int| 0 <= i < j < at.len() ==> #[trigger] at[i] < #[trigger] at[j]
    &&& forall|p: int| #[trigger] at.contains(p) <==> 0 <= p < s.len() && !has_exit(exits, 0, p)
}

/// The tests that go on running are those that have not ended, in the order in which they
/// were.
pub proof fn lemma_the_others_go_on(s: Seq<Running>, exits: Seq<Exit>) -> (at: Seq<int>)
    requires
        exits_fit(s, exits),
    ensures
        are_places_left(s, exits, at),
        without_exits(s, exits, 0) == at.map_values(|p: int| s[p]),
{
    lemma_places_left(s, exits, 0)
}

proof fn lemma_place_taken(at: Seq<int>, p: int)
    requires
        0 <= p < at.len(),
        forall|i: int, j: int| 0 <= i < j < at.len() ==> #[trigger] at[i] < #[trigger] at[j],
    ensures
        forall|i: int, j: int|
            0 <= i < j < at.remove(p).len() ==> #[trigger] at.remove(p)[i] < #[trigger] at.remove(p)[j],
        forall|q: int| #[trigger] at.remove(p).contains(q) <==> at.contains(q) && q != at[p],
{
    let less = at.remove(p);
    assert forall|i: int, j: int| 0 <= i < j < less.len() implies #[trigger] less[i] < #[trigger] less[j] by {
        let a = if i < p {
            i
        } else {
            i + 1
        };
        let b = if j < p {
            j
        } else {
            j + 1
        };
        assert(at[a] < at[b]);
    }
    assert forall|q: int| #[trigger] less.contains(q) <==> at.contains(q) && q != at[p] by {
        if less.contains(q) {
            let i = choose|i: int| 0 <= i < less.len() && less[i] == q;
            if i < p {
                assert(at[i] == q);
            } else {
                assert(at[i + 1] == q);
            }
        }
        if at.contains(q) && q != at[p] {
            let i = choose|i: int| 0 <= i < at.len() && at[i] == q;
            if i < p {
                assert(less[i] == q);
            } else {
                assert(less[i - 1] == q);
            }
        }
    }
}

proof fn lemma_exits_from(exits: Seq<Exit>, k: int, q: int)
    requires
        0 <= k < exits.len(),
    ensures
        has_exit(exits, k, q) <==> has_exit(exits, k + 1, q) || q == exits[k].position,
{
    if has_exit(exits, k, q) {
        let m = choose|m: int| k <= m < exits.len() && (#[trigger] exits[m]).position == q;
        if m > k {
            assert(exits[m].position == q);
        }
    }
    if has_exit(exits, k + 1, q) {
        let m = choose|m: int| k + 1 <= m < exits.len() && (#[trigger] exits[m]).position == q;
        assert(exits[m].position == q);
    }
}

/// Where no test has ended all places are left.
proof fn lemma_all_places(s: Seq<Running>, exits: Seq<Exit>, k: int, at: Seq<int>)
    requires
        k == exits.len(),
        forall|i: int, j: int| 0 <= i < j < at.len() ==> #[trigger] at[i] < #[trigger] at[j],
        forall|p: int| #[trigger] at.contains(p) <==> 0 <= p < s.len() && !has_exit(exits, k, p),
        without_exits(s, exits, k) == at.map_values(|p: int| s[p]),
    ensures
        at.len() == s.len(),
        forall|q: int| 0 <= q < s.len() ==> #[trigger] at[q] == q,
{
    assert(at.map_values(|p: int| s[p]).len() == at.len());
    assert forall|i: int| 0 <= i < at.len() implies 0 <= #[trigger] at[i] < s.len() by {
        assert(at.contains(at[i]));
    }
    assert forall|q: int| 0 <= q < s.len() implies #[trigger] at[q] == q by {
        lemma_rising_places(at, q, s.len() as int);
    }
}

#[verifier::spinoff_prover]
#[verifier::rlimit(40)]
proof fn lemma_places_left(s: Seq<Running>, exits: Seq<Exit>, k: int) -> (at: Seq<int>)
    requires
        exits_fit(s, exits),
        0 <= k <= exits.len(),
    ensures
        forall|i: int, j: int| 0 <= i < j < at.len() ==> #[trigger] at[i] < #[trigger] at[j],
        forall|p: int| #[trigger] at.contains(p) <==> 0 <= p < s.len() && !has_exit(exits, k, p),
        without_exits(s, exits, k) == at.map_values(|p: int| s[p]),
        k < exits.len() ==> forall|p: int|
            0 <= p < exits[k].position ==> p < at.len() && #[trigger] at[p] == p,
    decreases exits.len() - k,
{
    let f = |p: int| s[p];
    if k == exits.len() {
        let at = Seq::new(s.len(), |i: int| i);
        assert forall|p: int| #[trigger] at.contains(p) <==> 0 <= p < s.len() && !has_exit(exits, k, p) by {
            if 0 <= p < s.len() {
                assert(at[p] == p);
            }
        }
        assert(at.map_values(f) =~= s);
        at
    } else {
        let more = lemma_places_left(s, exits, k + 1);
        let p = exits[k].position as int;
        assert(p < s.len());
        assert(p < more.len() && forall|q: int| 0 <= q <= p ==> #[trigger] more[q] == q) by {
            if k + 1 < exits.len() {
                assert(exits[k].position < exits[k + 1].position);
                assert(more[p] == p);
            } else {
                lemma_all_places(s, exits, k + 1, more);
            }
        }
        assert(more[p] == p);
        lemma_place_taken(more, p);
        let at = more.remove(p);
        assert(at.map_values(f) =~= more.map_values(f).remove(p));
        assert forall|q: int| #[trigger] at.contains(q) <==> 0 <= q < s.len() && !has_exit(exits, k, q) by {
            lemma_exits_from(exits, k, q);
            assert(at.contains(q) <==> more.contains(q) && q != p);
        }
        assert forall|q: int| 0 <= q < p implies q < at.len() && #[trigger] at[q] == q by {
            assert(more[q] == q);
        }
        at
    }
}

/// As many places as there are, in their order, are all of them.
proof fn lemma_rising_places(at: Seq<int>, i: int, n: int)
    requires
        at.len() == n,
        0 <= i < n,
        forall|i: int, j: int| 0 <= i < j < at.len() ==> #[trigger] at[i] < #[trigger] at[j],
        forall|i: int| 0 <= i < n ==> 0 <= #[trigger] at[i] < n,
    ensures
        at[i] == i,
{
    lemma_at_least(at, i);
    lemma_at_most(at, i, n);
}

proof fn lemma_at_least(at: Seq<int>, i: int)
    requires
        0 <= i < at.len(),
        forall|i: int, j: int| 0 <= i < j < at.len() ==> #[trigger] at[i] < #[trigger] at[j],
        at[0] >= 0,
    ensures
        at[i] >= i,
    decreases i,
{
    if i > 0 {
        lemma_at_least(at, i - 1);
        assert(at[i - 1] < at[i]);
    }
}

proof fn lemma_at_most(at: Seq<int>, i: int, n: int)
    requires
        at.len() == n,
        0 <= i < n,
        forall|i: int, j: int| 0 <= i < j < at.len() ==> #[trigger] at[i] < #[trigger] at[j],
        at[n - 1] < n,
    ensures
        at[i] <= i,
    decreases n - i,
{
    if i < n - 1 {
        lemma_at_most(at, i + 1, n);
        assert(at[i] < at[i + 1]);
    }
}

/// The outcomes are those of the exits, one for each: the test that has ended, by its number
/// and name, and whether it succeeded within its time. They come in the order of their names.
pub open spec fn are_outcomes(s: Seq<Running>, exits: Seq<Exit>, out: Seq<Outcome>) -> bool {
    &&& out.len() == exits.len()
    &&& forall|k: int|
        0 <= k < exits.len() ==> has_outcome(s[(#[trigger] exits[k]).position as int], exits[k].success, out)
    &&& forall|m: int| 0 <= m < out.len() ==> has_ended(s, exits, #[trigger] out[m])
    &&& forall|i: int, j: int|
        0 <= i < j < out.len() ==> !text_less((#[trigger] out[j]).name@, (#[trigger] out[i]).name@)
}

/// One of the outcomes is that of a test that ended so.
pub open spec fn has_outcome(r: Running, success: bool, out: Seq<Outcome>) -> bool {
    exists|m: int| 0 <= m < out.len() && is_outcome(r, success, #[trigger] out[m])
}

/// An outcome is that of one of the exits.
pub open spec fn has_ended(s: Seq<Running>, exits: Seq<Exit>, o: Outcome) -> bool {
    exists|k: int|
        0 <= k < exits.len() && is_outcome(s[(#[trigger] exits[k]).position as int], exits[k].success, o)
}

/// What came of a test that ended so.
pub open spec fn is_outcome(r: Running, success: bool, o: Outcome) -> bool {
    &&& o.index == r.index
    &&& o.name@ == r.name@
    &&& o.timed_out == r.timed_out
    &&& o.passed <==> success && !r.timed_out
}

/// The batch after a reap holds the outcomes of the exits.
pub proof fn lemma_every_exit_is_kept(s: Seq<Running>, exits: Seq<Exit>, list: Seq<Outcome>, out: Seq<Outcome>)
    requires
        outcome_views(list) == exit_outcomes(s, exits),
        stably_sorted(list, out),
    ensures
        are_outcomes(s, exits, out),
{
    list.to_multiset_ensures();
    out.to_multiset_ensures();
    let n = exits.len();
    assert(outcome_views(list).len() == n);
    assert forall|k: int| 0 <= k < n implies is_outcome(
        s[(#[trigger] exits[k]).position as int],
        exits[k].success,
        list[n - 1 - k],
    ) by {
        let m = n - 1 - k;
        assert(outcome_views(list)[m] == exit_outcomes(s, exits)[m]);
        assert(outcome_views(list)[m] == list[m]@);
        assert(n - 1 - m == k);
        assert(exit_outcomes(s, exits)[m] == outcome_of(s[exits[k].position as int], exits[k].success));
    }
    assert forall|k: int| 0 <= k < exits.len() implies has_outcome(
        s[(#[trigger] exits[k]).position as int],
        exits[k].success,
        out,
    ) by {
        let o = list[n - 1 - k];
        assert(list.contains(o));
        assert(list.to_multiset().count(o) > 0);
        assert(out.contains(o));
        let m = choose|m: int| 0 <= m < out.len() && out[m] == o;
        assert(is_outcome(s[exits[k].position as int], exits[k].success, out[m]));
    }
    assert forall|m: int| 0 <= m < out.len() implies has_ended(s, exits, #[trigger] out[m]) by {
        assert(out.contains(out[m]));
        assert(out.to_multiset().count(out[m]) > 0);
        assert(list.contains(out[m]));
        let i = choose|i: int| 0 <= i < list.len() && list[i] == out[m];
        let k = n - 1 - i;
        assert(is_outcome(s[exits[k].position as int], exits[k].success, out[m]));
    }
    assert forall|i: int, j: int| 0 <= i < j < out.len() implies !text_less(
        (#[trigger] out[j]).name@,
        (#[trigger] out[i]).name@,
    ) by {
        assert(!out[j].before(out[i]));
    }
}

proof fn lemma_run_same(a: Seq<Running>, b: Seq<Running>, i: int)
    requires
        a.len() == b.len(),
        forall|k: int| 0 <= k < a.len() ==> (#[trigger] b[k]).index == a[k].index,
    ensures
        run_count(a, i) == run_count(b, i),
    decreases a.len(),
{
    if a.len() > 0 {
        assert(b[b.len() - 1].index == a[a.len() - 1].index);
        assert forall|k: int| 0 <= k < a.len() - 1 implies (#[trigger] b.drop_last()[k]).index
            == a.drop_last()[k].index by {
            assert(b[k].index == a[k].index);
        }
        lemma_run_same(a.drop_last(), b.drop_last(), i);
    }
}

proof fn lemma_batch_names(names: Seq<String>, a: Seq<Outcome>, b: Seq<Outcome>)
    requires
        a.to_multiset() == b.to_multiset(),
        forall|m: int|
            0 <= m < a.len() ==> (#[trigger] a[m]).index < names.len() && a[m].name@
                == names[a[m].index as int]@,
    ensures
        forall|m: int|
            0 <= m < b.len() ==> (#[trigger] b[m]).index < names.len() && b[m].name@
                == names[b[m].index as int]@,
        killed_have_failed(a) ==> killed_have_failed(b),
{
    a.to_multiset_ensures();
    b.to_multiset_ensures();
    assert forall|m: int| 0 <= m < b.len() implies (#[trigger] b[m]).index < names.len() && b[m].name@
        == names[b[m].index as int]@ && (killed_have_failed(a) ==> !(b[m].passed && b[m].timed_out)) by {
        assert(b.contains(b[m]));
        assert(b.to_multiset().count(b[m]) > 0);
        assert(a.contains(b[m]));
        let k = choose|k: int| 0 <= k < a.len() && a[k] == b[m];
        assert(a[k].index < names.len());
    }
}

/// Of a single outcome there is one order.
proof fn lemma_first_of_one(a: Seq<Outcome>, b: Seq<Outcome>)
    requires
        a.to_multiset() == b.to_multiset(),
        a.len() == 1,
    ensures
        b.len() == 1,
        b[0] == a[0],
{
    a.to_multiset_ensures();
    b.to_multiset_ensures();
    assert(b.contains(b[0]));
    assert(b.to_multiset().count(b[0]) > 0);
    assert(a.contains(b[0]));
}

/// A run begins with as many tests as may run at once, the first ones in their order.
pub proof fn lemma_as_many_start_as_may(names: Vec<String>, parallel: usize, bail: bool, s: Scheduler, i: int)
    requires
        call_ensures(Scheduler::new, (names, parallel, bail), s),
    ensures
        parallel == 0 ==> s.parallel == 1,
        parallel > 0 ==> s.parallel == parallel,
        s.running@.len() <= s.parallel,
        s.running@.len() < s.parallel ==> s.running@.len() == names@.len(),
        0 <= i < s.running@.len() ==> s.running@[i].index == i && s.running@[i].name@ == names@[i]@,
        s.bail == bail,
        !s.bailed,
        s.results@.len() == 0,
{
}

} // verus!
