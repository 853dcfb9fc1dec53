//! The processes of a test, and which of them are stopped and resumed at random.

use vstd::prelude::*;

use crate::number::{decimal, decimal_chars, lemma_decimal_round_trip, parse_at_most, parse_number};
use crate::text::{chars_of, extend, extend_str, rfind_symbol, rows, string_of, after_last, lemma_after_last};
use crate::words::{words, words_of};

verus! {

/// The pids among the words.
pub open spec fn pids_in(ws: Seq<Seq<char>>) -> Seq<u32>
    decreases ws.len(),
{
    if ws.len() == 0 {
        Seq::empty()
    } else {
        let r = pids_in(ws.drop_last());
        match parse_at_most(ws.last(), u32::MAX as int) {
            Some(n) => r.push(n as u32),
            None => r,
        }
    }
}

/// The pids in the contents of a `children` file.
pub fn parse_children(content: &str) -> (r: Vec<u32>)
    ensures
        r@ == pids_in(words(content@)),
{
    let v = chars_of(content);
    let ws = words_of(v.as_slice());
    let ghost all = words(content@);
    let mut r: Vec<u32> = Vec::new();
    let mut i: usize = 0;
    assert(r@ =~= pids_in(all.take(0)));
    while i < ws.len()
        invariant
            i <= ws@.len(),
            all == rows(ws@),
            r@ == pids_in(all.take(i as int)),
        decreases ws@.len() - i,
    {
        assert(all.take(i + 1).drop_last() =~= all.take(i as int));
        assert(all.take(i + 1).last() == ws@[i as int]@);
        if let Some(n) = parse_number(ws[i].as_slice(), u32::MAX as u64) {
            r.push(n as u32);
        }
        i = i + 1;
    }
    assert(all.take(i as int) =~= all);
    r
}

/// The file that lists the children of a process.
pub fn children_file(pid: u32) -> (r: String)
    ensures
        r@ == "/proc/"@ + decimal(pid as nat) + "/task/"@ + decimal(pid as nat) + "/children"@,
{
    let n = decimal_chars(pid as u128);
    let mut v = chars_of("/proc/");
    extend(&mut v, n.as_slice());
    extend_str(&mut v, "/task/");
    extend(&mut v, n.as_slice());
    extend_str(&mut v, "/children");
    string_of(v.as_slice())
}

/// The file that tells the state of a process.
pub fn stat_file(pid: u32) -> (r: String)
    ensures
        r@ == "/proc/"@ + decimal(pid as nat) + "/stat"@,
{
    let n = decimal_chars(pid as u128);
    let mut v = chars_of("/proc/");
    extend(&mut v, n.as_slice());
    extend_str(&mut v, "/stat");
    string_of(v.as_slice())
}

/// A walk over a process and its descendants.
#[derive(Debug)]
pub struct Descent {
    /// The processes that were found.
    pub found: Vec<u32>,
    /// Those of them whose children were not asked for yet.
    pub queue: Vec<u32>,
}

impl Descent {
    /// The walk begins at `root`.
    pub fn new(root: u32) -> (r: Self)
        ensures
            r.found@ == seq![root],
            r.queue@ == seq![root],
    {
        let mut found: Vec<u32> = Vec::new();
        let mut queue: Vec<u32> = Vec::new();
        found.push(root);
        queue.push(root);
        assert(found@ =~= seq![root] && queue@ =~= seq![root]);
        Descent { found, queue }
    }

    /// The next process whose children are asked for: the one found last.
    pub fn next_pid(&mut self) -> (r: Option<u32>)
        ensures
            final(self).found == old(self).found,
            r is Some <==> old(self).queue@.len() > 0,
            r matches Some(pid) ==> pid == next_of(old(self).queue@).0 && final(self).queue@ == next_of(
                old(self).queue@,
            ).1,
            match r {
                Some(pid) => old(self).queue@ == final(self).queue@.push(pid),
                None => old(self).queue@.len() == 0 && final(self).queue@.len() == 0,
            },
    {
        let ghost before = self.queue@;
        match self.queue.pop() {
            Some(pid) => {
                assert(before =~= self.queue@.push(pid));
                assert(self.queue@ =~= before.drop_last());
                Some(pid)
            },
            None => None,
        }
    }

    /// Takes in the children of the process that was asked for, from its `children`
    /// file.
    pub fn add_children(&mut self, content: &str)
        ensures
            final(self).found@ == old(self).found@ + pids_in(words(content@)),
            final(self).queue@ == old(self).queue@ + pids_in(words(content@)),
            (final(self).found@, final(self).queue@) == with_children(
                old(self).found@,
                old(self).queue@,
                pids_in(words(content@)),
            ),
    {
        let pids = parse_children(content);
        let ghost found = self.found@;
        let ghost queue = self.queue@;
        let mut i: usize = 0;
        while i < pids.len()
            invariant
                i <= pids@.len(),
                self.found@ == found + pids@.take(i as int),
                self.queue@ == queue + pids@.take(i as int),
            decreases pids@.len() - i,
        {
            self.found.push(pids[i]);
            self.queue.push(pids[i]);
            i = i + 1;
            assert(pids@.take(i as int) =~= pids@.take(i - 1).push(pids@[i - 1]));
            assert(self.found@ =~= found + pids@.take(i as int));
            assert(self.queue@ =~= queue + pids@.take(i as int));
        }
        assert(pids@.take(i as int) =~= pids@);
    }
}

/// The state of a process: the character after the space that follows the last closing
/// parenthesis.
pub open spec fn state_of(stat: Seq<char>) -> Option<char> {
    let rest = after_last(stat, ')');
    if stat.contains(')') && rest.len() > 1 {
        Some(rest[1])
    } else {
        None
    }
}

/// The single-character process state from the contents of `/proc/<pid>/stat`, or from
/// `None` where they could not be read (e.g. the process has already exited). The name
/// of the command may hold spaces and parentheses.
pub fn process_state(stat: Option<&str>) -> (r: Option<char>)
    ensures
        r == match stat {
            Some(s) => state_of(s@),
            None => None,
        },
{
    let s = match stat {
        Some(s) => s,
        None => {
            return None;
        },
    };
    let v = chars_of(s);
    match rfind_symbol(v.as_slice(), ')') {
        Some(i) => {
            proof {
                lemma_after_last(v@, ')', i as int);
                assert(v@.contains(v@[i as int]));
            }
            if v.len() - i > 2 {
                Some(v[i + 2])
            } else {
                None
            }
        },
        None => None,
    }
}

/// The next number of a xorshift generator.
pub open spec fn xorshift(x: u64) -> u64 {
    let a = x ^ (x << 13);
    let b = a ^ (a >> 7);
    b ^ (b << 17)
}

/// The next number of a xorshift generator.
pub fn next_random(x: u64) -> (r: u64)
    ensures
        r == xorshift(x),
{
    let a: u64 = x ^ (x << 13);
    let b: u64 = a ^ (a >> 7);
    b ^ (b << 17)
}

/// A process of a test.
#[derive(Clone, Copy, Debug)]
pub struct Process {
    pub pid: u32,
    pub state: Option<char>,
}

/// The processes other than `test_pid` that are stopped, or that are not.
pub open spec fn candidates(ps: Seq<Process>, test_pid: u32, stopped: bool) -> Seq<u32>
    decreases ps.len(),
{
    if ps.len() == 0 {
        Seq::empty()
    } else {
        let r = candidates(ps.drop_last(), test_pid, stopped);
        let p = ps.last();
        if p.pid != test_pid && (p.state == Some('T')) == stopped {
            r.push(p.pid)
        } else {
            r
        }
    }
}

/// A process to stop or to resume.
#[derive(Debug)]
pub struct FuzzPick {
    /// The generator's number after the pick.
    pub rng: u64,
    pub target: Option<u32>,
}

/// Picks a process at random: one that is stopped where one is to be resumed, else one
/// that is not. `rng` moves on only where there is a choice.
pub fn fuzz_pick(rng: u64, resume: bool, test_pid: u32, processes: &Vec<Process>) -> (r: FuzzPick)
    ensures
        ({
            let c = candidates(processes@, test_pid, resume);
            if c.len() == 0 {
                r.rng == rng && r.target is None
            } else {
                r.rng == xorshift(rng) && r.target == Some(
                    c[(xorshift(rng) as usize) as int % c.len() as int],
                )
            }
        }),
{
    let mut c: Vec<u32> = Vec::new();
    let mut i: usize = 0;
    assert(c@ =~= candidates(processes@.take(0), test_pid, resume));
    while i < processes.len()
        invariant
            i <= processes@.len(),
            c@ == candidates(processes@.take(i as int), test_pid, resume),
        decreases processes@.len() - i,
    {
        assert(processes@.take(i + 1).drop_last() =~= processes@.take(i as int));
        let p = processes[i];
        let stopped = match p.state {
            Some(s) => s == 'T',
            None => false,
        };
        if p.pid != test_pid && stopped == resume {
            c.push(p.pid);
        }
        i = i + 1;
    }
    assert(processes@.take(i as int) =~= processes@);
    if c.len() == 0 {
        return FuzzPick { rng, target: None };
    }
    let rng: u64 = next_random(rng);
    let n: usize = c.len();
    let k: usize = #[verifier::truncate] (rng as usize) % n;
    FuzzPick { rng, target: Some(c[k]) }
}

/// A process that is picked to be resumed is stopped, one that is picked to be stopped
/// is not, and the test's own process is never picked.
pub proof fn lemma_pick_is_eligible(ps: Seq<Process>, test_pid: u32, resume: bool, k: int)
    requires
        0 <= k < candidates(ps, test_pid, resume).len(),
    ensures
        ({
            let pid = candidates(ps, test_pid, resume)[k];
            pid != test_pid && exists|i: int|
                0 <= i < ps.len() && (#[trigger] ps[i]).pid == pid && (ps[i].state == Some('T'))
                    == resume
        }),
    decreases ps.len(),
{
    let front = ps.drop_last();
    let r = candidates(front, test_pid, resume);
    if k < r.len() {
        lemma_pick_is_eligible(front, test_pid, resume, k);
        let i = choose|i: int|
            0 <= i < front.len() && (#[trigger] front[i]).pid == r[k] && (front[i].state == Some('T'))
                == resume;
        assert(ps[i] == front[i]);
    } else {
        assert(ps[ps.len() - 1].pid == candidates(ps, test_pid, resume)[k]);
    }
}

/// The pids in two lists one after the other are those of the one and then those of the other.
pub proof fn lemma_pids_of_parts(a: Seq<Seq<char>>, b: Seq<Seq<char>>)
    ensures
        pids_in(a + b) == pids_in(a) + pids_in(b),
    decreases b.len(),
{
    if b.len() == 0 {
        assert(a + b =~= a);
        assert(pids_in(a) + pids_in(b) =~= pids_in(a));
    } else {
        lemma_pids_of_parts(a, b.drop_last());
        assert((a + b).drop_last() =~= a + b.drop_last());
        assert(pids_in(a + b) =~= pids_in(a) + pids_in(b));
    }
}

/// The pid of a process is read from the word that spells it.
pub proof fn lemma_a_pid_is_read_back(pid: u32)
    ensures
        pids_in(seq![decimal(pid as nat)]) == seq![pid],
{
    lemma_decimal_round_trip(pid as nat);
    let one = seq![decimal(pid as nat)];
    assert(one.drop_last() =~= Seq::<Seq<char>>::empty());
    assert(pids_in(one.drop_last()) =~= Seq::<u32>::empty());
    assert(pids_in(one) =~= seq![pid]);
}

/// The state of a process is read whatever its name holds, parentheses and spaces among them.
pub proof fn lemma_state_stands_after_the_name(head: Seq<char>, state: char, rest: Seq<char>)
    requires
        state != ')',
        !rest.contains(')'),
    ensures
        state_of(head + seq![')', ' ', state] + rest) == Some(state),
{
    let stat = head + seq![')', ' ', state] + rest;
    let i = head.len() as int;
    assert(stat[i] == ')');
    assert(stat.contains(stat[i]));
    assert forall|j: int| i < j < stat.len() implies stat[j] != ')' by {
        if j >= i + 3 {
            assert(rest.contains(rest[j - i - 3]));
        }
    }
    lemma_after_last(stat, ')', i);
    assert(stat.skip(i + 1)[1] == state);
}

/// A process is one that may be picked.
pub open spec fn is_eligible(p: Process, test_pid: u32, resume: bool) -> bool {
    p.pid != test_pid && (resume <==> p.state == Some('T'))
}

/// The choice is among all processes that may be picked, in their order: a stopped one where
/// one is to be resumed, else one that is not stopped, and never the test itself.
pub proof fn lemma_choice_is_among_all(ps: Seq<Process>, test_pid: u32, resume: bool) -> (at: Seq<int>)
    ensures
        candidates(ps, test_pid, resume) == at.map_values(|k: int| ps[k].pid),
        forall|i: int, j: int| 0 <= i < j < at.len() ==> #[trigger] at[i] < #[trigger] at[j],
        forall|k: int| #[trigger]
            at.contains(k) <==> 0 <= k < ps.len() && is_eligible(ps[k], test_pid, resume),
    decreases ps.len(),
{
    let c = candidates(ps, test_pid, resume);
    if ps.len() == 0 {
        let at = Seq::<int>::empty();
        assert(c =~= at.map_values(|k: int| ps[k].pid));
        at
    } else {
        let front = ps.drop_last();
        let before = lemma_choice_is_among_all(front, test_pid, resume);
        let last = ps.len() - 1;
        let fits = is_eligible(ps[last], test_pid, resume);
        let at = if fits {
            before.push(last)
        } else {
            before
        };
        assert forall|i: int| 0 <= i < before.len() implies 0 <= #[trigger] before[i] < last by {
            assert(before.contains(before[i]));
        }
        assert forall|k: int| #[trigger]
            at.contains(k) <==> 0 <= k < ps.len() && is_eligible(ps[k], test_pid, resume) by {
            if before.contains(k) {
                let i = choose|i: int| 0 <= i < before.len() && before[i] == k;
                assert(at[i] == k);
                assert(front[k] == ps[k]);
            }
            if at.contains(k) {
                let i = choose|i: int| 0 <= i < at.len() && at[i] == k;
                if i < before.len() {
                    assert(before.contains(before[i]));
                }
            }
            if k == last && fits {
                assert(at[before.len() as int] == k);
            }
            if 0 <= k < last {
                assert(front[k] == ps[k]);
            }
        }
        assert(c =~= at.map_values(|k: int| ps[k].pid));
        at
    }
}

/// The generator does not get stuck: a number other than zero is followed by another such.
pub proof fn lemma_random_goes_on(x: u64)
    requires
        x != 0,
    ensures
        xorshift(x) != 0,
{
    let a = x ^ (x << 13);
    let b = a ^ (a >> 7);
    assert(x != 0 ==> x ^ (x << 13) != 0) by (bit_vector);
    assert(a != 0 ==> a ^ (a >> 7) != 0) by (bit_vector);
    assert(b != 0 ==> b ^ (b << 17) != 0) by (bit_vector);
}

/// The next process of a walk, and those that are left to ask for.
pub open spec fn next_of(queue: Seq<u32>) -> (u32, Seq<u32>) {
    (queue.last(), queue.drop_last())
}

/// The processes that were found, and those to ask for, with more of both.
pub open spec fn with_children(found: Seq<u32>, queue: Seq<u32>, pids: Seq<u32>) -> (Seq<u32>, Seq<u32>) {
    (found + pids, queue + pids)
}

/// The processes that a walk has found and has left to ask for after `n` more of them were
/// asked for their children.
pub open spec fn walked(
    children: spec_fn(u32) -> Seq<u32>,
    found: Seq<u32>,
    queue: Seq<u32>,
    n: nat,
) -> (Seq<u32>, Seq<u32>)
    decreases n,
{
    if n == 0 || queue.len() == 0 {
        (found, queue)
    } else {
        let (pid, rest) = next_of(queue);
        let (f, q) = with_children(found, rest, children(pid));
        walked(children, f, q, (n - 1) as nat)
    }
}

/// All children of the processes that were found were found too, but for those of the
/// processes that are left to ask for.
spec fn is_closed(children: spec_fn(u32) -> Seq<u32>, found: Seq<u32>, queue: Seq<u32>) -> bool {
    forall|p: u32, c: u32| #[trigger]
        found.contains(p) && #[trigger] children(p).contains(c) ==> found.contains(c) || queue.contains(p)
}

/// A line of descent: each process of it is a child of the one before it.
pub open spec fn is_descent(children: spec_fn(u32) -> Seq<u32>, line: Seq<u32>) -> bool {
    line.len() > 0 && forall|i: int|
        0 < i < line.len() ==> children(line[i - 1]).contains(#[trigger] line[i])
}

proof fn lemma_walk_goes_on(
    children: spec_fn(u32) -> Seq<u32>,
    found: Seq<u32>,
    queue: Seq<u32>,
    n: nat,
)
    requires
        is_closed(children, found, queue),
        forall|p: u32| #[trigger] queue.contains(p) ==> found.contains(p),
    ensures
        ({
            let (f, q) = walked(children, found, queue, n);
            &&& is_closed(children, f, q)
            &&& forall|p: u32| #[trigger] found.contains(p) ==> f.contains(p)
        }),
    decreases n,
{
    if n > 0 && queue.len() > 0 {
        let (pid, rest) = next_of(queue);
        let more = children(pid);
        let (f, q) = with_children(found, rest, more);
        lemma_in_both(found, more);
        lemma_in_both(rest, more);
        assert(queue =~= rest + seq![pid]);
        lemma_in_both(rest, seq![pid]);
        assert(seq![pid][0] == pid);
        assert(seq![pid].contains(pid));
        assert(queue.contains(pid));
        assert forall|p: u32, c: u32| #[trigger]
            f.contains(p) && #[trigger] children(p).contains(c) implies f.contains(c) || q.contains(p) by {
            if found.contains(p) && !more.contains(p) {
                if queue.contains(p) && !rest.contains(p) {
                    assert(seq![pid].contains(p));
                    assert(p == pid);
                }
            }
        }
        assert forall|p: u32| #[trigger] q.contains(p) implies f.contains(p) by {
            if rest.contains(p) {
                assert((rest + seq![pid]).contains(p));
                assert(queue.contains(p));
                assert((found + more).contains(p));
            } else {
                assert((rest + more).contains(p));
                assert((found + more).contains(p));
            }
        }
        lemma_walk_goes_on(children, f, q, (n - 1) as nat);
        let (g, _) = walked(children, found, queue, n);
        assert forall|p: u32| #[trigger] found.contains(p) implies g.contains(p) by {
            assert((found + more).contains(p));
        }
    }
}

proof fn lemma_in_both(a: Seq<u32>, b: Seq<u32>)
    ensures
        forall|p: u32| #[trigger] (a + b).contains(p) <==> a.contains(p) || b.contains(p),
{
    assert forall|p: u32| #[trigger] (a + b).contains(p) <==> a.contains(p) || b.contains(p) by {
        let s = a + b;
        if a.contains(p) {
            let i = choose|i: int| 0 <= i < a.len() && a[i] == p;
            assert(s[i] == p);
        }
        if b.contains(p) {
            let i = choose|i: int| 0 <= i < b.len() && b[i] == p;
            assert(s[a.len() + i] == p);
        }
        if s.contains(p) {
            let i = choose|i: int| 0 <= i < s.len() && s[i] == p;
            if i < a.len() {
                assert(a[i] == p);
            } else {
                assert(b[i - a.len()] == p);
            }
        }
    }
}

proof fn lemma_closed_under_children(children: spec_fn(u32) -> Seq<u32>, found: Seq<u32>, line: Seq<u32>, i: int)
    requires
        is_descent(children, line),
        found.contains(line[0]),
        is_closed(children, found, Seq::empty()),
        0 <= i < line.len(),
    ensures
        found.contains(line[i]),
    decreases i,
{
    if i > 0 {
        lemma_closed_under_children(children, found, line, i - 1);
        let p = line[i - 1];
        assert(found.contains(p) && children(p).contains(line[i]));
        assert(!Seq::<u32>::empty().contains(p));
    }
}

/// A walk that has no one left to ask for has found the process at which it began and all its
/// descendants.
pub proof fn lemma_walk_finds_all_descendants(
    children: spec_fn(u32) -> Seq<u32>,
    line: Seq<u32>,
    n: nat,
)
    requires
        is_descent(children, line),
        walked(children, seq![line[0]], seq![line[0]], n).1.len() == 0,
    ensures
        walked(children, seq![line[0]], seq![line[0]], n).0.contains(line.last()),
{
    let root = line[0];
    let one = seq![root];
    assert(one[0] == root);
    assert(one.contains(root));
    lemma_walk_goes_on(children, one, one, n);
    let (f, q) = walked(children, one, one, n);
    assert(q =~= Seq::<u32>::empty());
    lemma_closed_under_children(children, f, line, line.len() - 1);
}

/// A process is picked where there is one that may be, and it is such a one; the generator goes
/// on only with a pick.
pub proof fn lemma_pick_is_one_of_all(rng: u64, resume: bool, test_pid: u32, ps: &Vec<Process>, r: FuzzPick)
    requires
        call_ensures(fuzz_pick, (rng, resume, test_pid, ps), r),
    ensures
        r.target is Some <==> exists|k: int|
            0 <= k < ps@.len() && is_eligible(#[trigger] ps@[k], test_pid, resume),
        r.target matches Some(pid) ==> exists|k: int|
            0 <= k < ps@.len() && (#[trigger] ps@[k]).pid == pid && is_eligible(ps@[k], test_pid, resume),
        r.target is None ==> r.rng == rng,
{
    let c = candidates(ps@, test_pid, resume);
    let at = lemma_choice_is_among_all(ps@, test_pid, resume);
    assert(c.len() == at.len());
    if c.len() > 0 {
        assert(at.contains(at[0]));
        assert(is_eligible(ps@[at[0]], test_pid, resume));
        let i = (xorshift(rng) as usize) as int % c.len() as int;
        assert(0 <= i < c.len());
        assert(at.contains(at[i]));
        assert(ps@[at[i]].pid == c[i]);
    }
    if exists|k: int| 0 <= k < ps@.len() && is_eligible(#[trigger] ps@[k], test_pid, resume) {
        let k = choose|k: int| 0 <= k < ps@.len() && is_eligible(#[trigger] ps@[k], test_pid, resume);
        assert(at.contains(k));
    }
}

} // verus!
