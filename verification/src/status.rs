//! The line that shows how far a run has come.

use vstd::arithmetic::div_mod::{lemma_div_is_ordered, lemma_div_multiples_vanish, lemma_div_plus_one, lemma_fundamental_div_mod, lemma_mod_bound};
use vstd::prelude::*;

use crate::text::{chars_of, ends_with, extend, extend_str, join, join_strings, starts_with, string_of, texts};

verus! {

pub const GREEN: &'static str = "\x1b[32m";

pub const RED: &'static str = "\x1b[31m";

pub const RESET: &'static str = "\x1b[0m";

/// Number of blocks in the live progress strip. The whole run is scaled to fit
/// this width, so on a large suite a single block stands for several tests.
pub const BAR_WIDTH: usize = 32;

/// How far a run has come.
#[derive(Debug)]
pub struct StatusDisplay {
    /// Whether there is a line to show it on.
    pub visible: bool,
    /// Total number of tests in the run, used to scale the block strip so it
    /// always spans the entire suite.
    pub total: usize,
    /// Pass/fail of each completed test, in completion order, used to draw the
    /// green/red block strip in the live status line.
    pub results: Vec<bool>,
}

/// How many blocks the strip has.
pub open spec fn strip_width(total: nat) -> nat {
    if total <= BAR_WIDTH {
        total
    } else {
        BAR_WIDTH as nat
    }
}

/// The first test of block `b`.
pub open spec fn block_start(total: nat, b: int) -> int {
    b * total / strip_width(total) as int
}

/// The blocks stand for consecutive tests, at least one each, and for all of the run.
pub proof fn lemma_blocks_span_the_run(total: nat, b: int)
    requires
        0 <= b < strip_width(total),
    ensures
        block_start(total, 0) == 0,
        block_start(total, strip_width(total) as int) == total,
        0 <= block_start(total, b) < block_start(total, b + 1) <= total,
{
    let w = strip_width(total) as int;
    let t = total as int;
    assert(0 * t == 0);
    lemma_div_multiples_vanish(t, w);
    assert(w * t == t * w) by (nonlinear_arith);
    assert((b + 1) * t == b * t + t) by (nonlinear_arith);
    assert(0 <= b * t) by (nonlinear_arith)
        requires
            b >= 0,
            t >= 0,
    ;
    assert((b + 1) * t <= w * t) by (nonlinear_arith)
        requires
            b + 1 <= w,
            t >= 0,
    ;
    lemma_div_is_ordered(0, b * t, w);
    lemma_div_is_ordered(b * t + w, (b + 1) * t, w);
    lemma_div_plus_one(b * t, w);
    lemma_div_is_ordered((b + 1) * t, w * t, w);
}

/// One of the tests from `lo` up to `hi` has failed.
pub open spec fn failed_between(results: Seq<bool>, lo: int, hi: int) -> bool {
    exists|i: int| lo <= i < hi && !(#[trigger] results[i])
}

/// Block `b` of the strip: unfilled until one of its tests has finished, red as soon as
/// one of them has failed, else green.
pub open spec fn block_text(total: nat, results: Seq<bool>, b: int) -> Seq<char> {
    let lo = block_start(total, b);
    let hi = block_start(total, b + 1);
    let done = if results.len() <= hi {
        results.len() as int
    } else {
        hi
    };
    if done <= lo {
        seq!['░']
    } else {
        (if failed_between(results, lo, done) {
            RED@
        } else {
            GREEN@
        }) + seq!['█'] + RESET@
    }
}

/// The first `n` blocks of the strip.
pub open spec fn blocks_text(total: nat, results: Seq<bool>, n: int) -> Seq<char>
    decreases n,
{
    if n <= 0 {
        Seq::empty()
    } else {
        blocks_text(total, results, n - 1) + block_text(total, results, n - 1)
    }
}

/// The whole strip.
pub open spec fn strip_text(total: nat, results: Seq<bool>) -> Seq<char> {
    blocks_text(total, results, strip_width(total) as int)
}

/// A test that runs, with its time as text.
#[derive(Debug)]
pub struct RunningTest {
    pub name: String,
    pub elapsed: String,
}

/// How a running test is shown.
pub open spec fn running_text(name: Seq<char>, elapsed: Seq<char>) -> Seq<char> {
    name + "("@ + elapsed + ")"@
}

/// How all running tests are shown.
pub open spec fn running_texts(s: Seq<RunningTest>) -> Seq<Seq<char>> {
    s.map(|_i: int, t: RunningTest| running_text(t.name@, t.elapsed@))
}

/// The text of the status line: the strip and the running tests, where there are any.
pub open spec fn status_text(total: nat, results: Seq<bool>, running: Seq<RunningTest>) -> Seq<char> {
    let blocks = strip_text(total, results);
    let tests = join(running_texts(running), ", "@);
    if blocks.len() == 0 {
        tests
    } else if tests.len() == 0 {
        blocks
    } else {
        blocks + "  "@ + tests
    }
}

impl StatusDisplay {
    /// A run of `total` tests. Nothing is shown where results go out as JSON or the
    /// terminal cannot show a status line.
    pub fn new(total: usize, json: bool, hidden: bool) -> (r: Self)
        ensures
            r.visible == (!json && !hidden),
            r.total == total,
            r.results@.len() == 0,
    {
        Self { visible: !json && !hidden, total, results: Vec::new() }
    }

    /// Record a completed test's outcome so the progress strip can show a
    /// green (pass) or red (fail) block for it.
    pub fn record(&mut self, passed: bool)
        ensures
            final(self).visible == old(self).visible,
            final(self).total == old(self).total,
            final(self).results@ == old(self).results@.push(passed),
    {
        self.results.push(passed);
    }

    fn block(&self, b: usize, width: usize) -> (r: Vec<char>)
        requires
            b < width,
            width == strip_width(self.total as nat),
        ensures
            r@ == block_text(self.total as nat, self.results@, b as int),
    {
        proof {
            lemma_blocks_span_the_run(self.total as nat, b as int);
            let t = self.total as int;
            assert(b * t <= 32 * t && (b + 1) * t <= 32 * t && 0 <= b * t) by (nonlinear_arith)
                requires
                    0 <= b < 32,
                    t >= 0,
            ;
        }
        let lo: usize = (b as u128 * self.total as u128 / width as u128) as usize;
        let hi: usize = ((b as u128 + 1) * self.total as u128 / width as u128) as usize;
        let completed: usize = self.results.len();
        let done: usize = if completed <= hi {
            completed
        } else {
            hi
        };
        let mut v: Vec<char> = Vec::new();
        if done <= lo {
            // None of this block's tests have finished yet.
            v.push('░');
            assert(v@ =~= seq!['░']);
            return v;
        }
        let mut failed = false;
        let mut i: usize = lo;
        while i < done
            invariant
                lo <= i <= done <= self.results@.len(),
                failed == failed_between(self.results@, lo as int, i as int),
            decreases done - i,
        {
            if !self.results[i] {
                failed = true;
                assert(!self.results@[i as int]);
            }
            i = i + 1;
        }
        if failed {
            extend_str(&mut v, RED);
        } else {
            extend_str(&mut v, GREEN);
        }
        v.push('█');
        extend_str(&mut v, RESET);
        assert(v@ =~= block_text(self.total as nat, self.results@, b as int));
        v
    }

    /// Render the run as a fixed-width strip of colored blocks that always
    /// spans the whole suite. The `total` tests are distributed across at most
    /// `BAR_WIDTH` blocks, so on a large run a single block stands for several
    /// tests: it is green once its tests have all passed, red as soon as any
    /// one of them fails, and an unfilled `░` until its tests start finishing.
    pub fn render_blocks(&self) -> (r: String)
        ensures
            r@ == strip_text(self.total as nat, self.results@),
    {
        let width: usize = if self.total <= BAR_WIDTH {
            self.total
        } else {
            BAR_WIDTH
        };
        let mut v: Vec<char> = Vec::new();
        let mut b: usize = 0;
        while b < width
            invariant
                b <= width,
                width == strip_width(self.total as nat),
                v@ == blocks_text(self.total as nat, self.results@, b as int),
            decreases width - b,
        {
            let block = self.block(b, width);
            extend(&mut v, block.as_slice());
            b = b + 1;
        }
        string_of(v.as_slice())
    }

    /// The status line: the result strip plus the currently running tests and their
    /// elapsed times; `None` where there is no line to show it on.
    pub fn update(&self, running: &Vec<RunningTest>) -> (r: Option<String>)
        ensures
            r is Some <==> self.visible,
            r matches Some(s) ==> s@ == status_text(self.total as nat, self.results@, running@),
    {
        if !self.visible {
            return None;
        }
        let mut parts: Vec<String> = Vec::new();
        let ghost all = running_texts(running@);
        let mut i: usize = 0;
        assert(texts(parts@) =~= all.take(0));
        while i < running.len()
            invariant
                i <= running@.len(),
                all == running_texts(running@),
                texts(parts@) == all.take(i as int),
            decreases running@.len() - i,
        {
            let mut v = chars_of(running[i].name.as_str());
            extend_str(&mut v, "(");
            extend_str(&mut v, running[i].elapsed.as_str());
            extend_str(&mut v, ")");
            let s = string_of(v.as_slice());
            let ghost before = parts@;
            parts.push(s);
            i = i + 1;
            assert(texts(parts@) =~= texts(before).push(s@));
            assert(all.take(i as int) =~= all.take(i - 1).push(all[i - 1]));
        }
        assert(all.take(i as int) =~= all);
        let tests = join_strings(&parts, ", ");
        let blocks = self.render_blocks();
        let b = chars_of(blocks.as_str());
        let t = chars_of(tests.as_str());
        if b.len() == 0 {
            Some(tests)
        } else if t.len() == 0 {
            Some(blocks)
        } else {
            let mut v = b;
            extend_str(&mut v, "  ");
            extend(&mut v, t.as_slice());
            Some(string_of(v.as_slice()))
        }
    }
}

/// The blocks are even: none stands for more than one test more than another; and where there
/// is a block for each test, it stands for that test.
pub proof fn lemma_blocks_are_even(total: nat, a: int, b: int)
    requires
        0 <= a < strip_width(total),
        0 <= b < strip_width(total),
    ensures
        block_start(total, a + 1) - block_start(total, a) <= block_start(total, b + 1) - block_start(total, b)
            + 1,
        total <= BAR_WIDTH ==> block_start(total, b) == b,
{
    let w = strip_width(total) as int;
    let t = total as int;
    lemma_block_size(t, w, a);
    lemma_block_size(t, w, b);
    if total <= BAR_WIDTH {
        lemma_div_multiples_vanish(b, w);
        assert(b * t == t * b) by (nonlinear_arith);
    }
}

proof fn lemma_block_size(t: int, w: int, b: int)
    requires
        w > 0,
        t >= 0,
        b >= 0,
    ensures
        t / w <= (b + 1) * t / w - b * t / w <= t / w + 1,
{
    let x = b * t;
    assert((b + 1) * t == x + t) by (nonlinear_arith)
        requires
            x == b * t,
    ;
    lemma_fundamental_div_mod(t, w);
    lemma_fundamental_div_mod(x, w);
    lemma_fundamental_div_mod(x + t, w);
    lemma_mod_bound(t, w);
    lemma_mod_bound(x, w);
    lemma_mod_bound(x + t, w);
    assert(t / w <= (x + t) / w - x / w <= t / w + 1) by (nonlinear_arith)
        requires
            w > 0,
            t == w * (t / w) + t % w,
            x == w * (x / w) + x % w,
            x + t == w * ((x + t) / w) + (x + t) % w,
            0 <= t % w < w,
            0 <= x % w < w,
            0 <= (x + t) % w < w,
    ;
}

/// A test whose result is known shows in its block: the block is red where the test has
/// failed, and red or green in any case.
pub proof fn lemma_a_result_shows_in_its_block(total: nat, results: Seq<bool>, b: int, i: int)
    requires
        0 <= b < strip_width(total),
        block_start(total, b) <= i < block_start(total, b + 1),
        0 <= i < results.len(),
    ensures
        !results[i] ==> block_text(total, results, b) == RED@ + seq!['█'] + RESET@,
        block_text(total, results, b) == RED@ + seq!['█'] + RESET@ || block_text(total, results, b) == GREEN@
            + seq!['█'] + RESET@,
{
}

/// A block is green only where a test of it has passed and no test of it has failed; red only
/// where one has failed; and unfilled only where none has finished.
pub proof fn lemma_what_a_block_says(total: nat, results: Seq<bool>, b: int)
    requires
        0 <= b < strip_width(total),
    ensures
        ({
            let lo = block_start(total, b);
            let hi = block_start(total, b + 1);
            &&& block_text(total, results, b) == GREEN@ + seq!['█'] + RESET@ ==> lo < results.len() && (
            forall|i: int| lo <= i < hi && i < results.len() ==> #[trigger] results[i])
            &&& block_text(total, results, b) == RED@ + seq!['█'] + RESET@ ==> exists|i: int|
                lo <= i < hi && i < results.len() && !#[trigger] results[i]
            &&& block_text(total, results, b) == seq!['░'] <==> results.len() <= lo
        }),
{
    lemma_blocks_span_the_run(total, b);
    let lo = block_start(total, b);
    let hi = block_start(total, b + 1);
    let red = RED@ + seq!['█'] + RESET@;
    let green = GREEN@ + seq!['█'] + RESET@;
    let empty = seq!['░'];
    assert(red.len() == 10 && green.len() == 10 && red[3] == '1' && green[3] == '2') by {
        reveal_strlit("\x1b[32m");
        reveal_strlit("\x1b[31m");
        reveal_strlit("\x1b[0m");
    }
    assert(empty.len() == 1);
    assert(red != green);
    let done = if results.len() <= hi {
        results.len() as int
    } else {
        hi
    };
    if block_text(total, results, b) == red {
        let i = choose|i: int| lo <= i < done && !(#[trigger] results[i]);
        assert(!results[i]);
    }
    if block_text(total, results, b) == green {
        assert forall|i: int| lo <= i < hi && i < results.len() implies #[trigger] results[i] by {
            if !results[i] {
                assert(failed_between(results, lo, done));
            }
        }
    }
}

/// The blocks among the characters of a strip.
pub open spec fn glyphs(s: Seq<char>) -> Seq<char> {
    s.filter(|c: char| c == '█' || c == '░')
}

proof fn lemma_glyphs_of_block(total: nat, results: Seq<bool>, b: int)
    requires
        0 <= b < strip_width(total),
    ensures
        glyphs(block_text(total, results, b)) == seq![if results.len() <= block_start(total, b) {
            '░'
        } else {
            '█'
        }],
{
    lemma_blocks_span_the_run(total, b);
    let f = |c: char| c == '█' || c == '░';
    reveal(Seq::filter);
    let empty = seq!['░'];
    assert(empty.drop_last() =~= Seq::<char>::empty());
    assert(empty.filter(f) =~= seq!['░']);
    reveal_strlit("\x1b[32m");
    reveal_strlit("\x1b[31m");
    reveal_strlit("\x1b[0m");
    let full = seq!['█'];
    assert(full.drop_last() =~= Seq::<char>::empty());
    assert(full.filter(f) =~= seq!['█']);
    lemma_no_glyphs(RED@);
    lemma_no_glyphs(GREEN@);
    lemma_no_glyphs(RESET@);
    Seq::filter_distributes_over_add(RED@, full, f);
    Seq::filter_distributes_over_add(GREEN@, full, f);
    Seq::filter_distributes_over_add(RED@ + full, RESET@, f);
    Seq::filter_distributes_over_add(GREEN@ + full, RESET@, f);
    assert(glyphs(RED@ + full + RESET@) =~= full);
    assert(glyphs(GREEN@ + full + RESET@) =~= full);
}

proof fn lemma_no_glyphs(s: Seq<char>)
    requires
        forall|i: int| 0 <= i < s.len() ==> #[trigger] s[i] != '█' && s[i] != '░',
    ensures
        glyphs(s) == Seq::<char>::empty(),
    decreases s.len(),
{
    reveal(Seq::filter);
    if s.len() > 0 {
        assert(s[s.len() - 1] != '█');
        lemma_no_glyphs(s.drop_last());
    }
}

/// The strip has one block for each of its places, filled where a test of the block has
/// finished.
pub proof fn lemma_strip_has_all_blocks(total: nat, results: Seq<bool>)
    ensures
        glyphs(strip_text(total, results)).len() == strip_width(total),
        strip_width(total) == (if total <= 32 {
            total
        } else {
            32
        }),
        forall|b: int|
            0 <= b < strip_width(total) ==> #[trigger] glyphs(strip_text(total, results))[b] == if results.len()
                <= block_start(total, b) {
                '░'
            } else {
                '█'
            },
{
    lemma_first_blocks(total, results, strip_width(total) as int);
}

proof fn lemma_first_blocks(total: nat, results: Seq<bool>, n: int)
    requires
        0 <= n <= strip_width(total),
    ensures
        glyphs(blocks_text(total, results, n)).len() == n,
        forall|b: int|
            0 <= b < n ==> #[trigger] glyphs(blocks_text(total, results, n))[b] == if results.len()
                <= block_start(total, b) {
                '░'
            } else {
                '█'
            },
    decreases n,
{
    let f = |c: char| c == '█' || c == '░';
    if n == 0 {
        lemma_no_glyphs(blocks_text(total, results, 0));
    } else {
        lemma_first_blocks(total, results, n - 1);
        lemma_glyphs_of_block(total, results, n - 1);
        Seq::filter_distributes_over_add(
            blocks_text(total, results, n - 1),
            block_text(total, results, n - 1),
            f,
        );
    }
}

/// The status line begins with the strip and ends with the running tests, in their order.
pub proof fn lemma_status_line_has_both(total: nat, results: Seq<bool>, running: Seq<RunningTest>)
    ensures
        starts_with(status_text(total, results, running), strip_text(total, results)),
        ends_with(status_text(total, results, running), join(running_texts(running), ", "@)),
        forall|i: int|
            0 <= i < running.len() ==> #[trigger] running_texts(running)[i] == running[i].name@ + "("@
                + running[i].elapsed@ + ")"@,
{
    let s = status_text(total, results, running);
    let blocks = strip_text(total, results);
    let tests = join(running_texts(running), ", "@);
    assert(s.take(blocks.len() as int) =~= blocks);
    assert(s.skip(s.len() - tests.len()) =~= tests);
}

} // verus!
