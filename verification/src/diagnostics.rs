//! What a failed test shows: the source line that failed, and the operands of a
//! comparison.

use vstd::prelude::*;

use crate::cgroup::lemma_bare;
use crate::number::{decimal, is_digit, lemma_decimal_round_trip, parse_at_most, parse_number};
use crate::offsets::{lemma_line_offset_bound, line_offset};
use crate::text::{chars_of, copy_range, equal, find_text, first_at, has_prefix, has_suffix, ends_with, occurs_at, rows, same, starts_with, str_equal, string_of};
use crate::utf8::{byte_len, lemma_len_concat, lemma_len_push, utf8_len};
use crate::words::{is_whitespace, lemma_trim_end_of_takes_all, lemma_trim_leaves_the_word, lemma_trim_start_takes_all, lemma_trim_takes_all, lines, lines_of, trim, trim_end_of, trim_start, trimmed, trimmed_end_of, trimmed_start};

verus! {

/// Information extracted from an xtrace log about the failing command.
#[derive(Debug)]
pub struct FailureInfo {
    /// 1-based line number in functions.sh where the failure occurred.
    pub lineno: usize,
    /// The command text as shown in xtrace (e.g. `'[' ABC = DEF ']'`).
    pub command: String,
}

/// A parsed `[` (test) expression from xtrace output.
#[derive(Debug)]
pub struct BracketExpr {
    pub left: String,
    pub op: String,
    pub right: String,
}

/// What a trace line `+LINENO: COMMAND` says; `None` for a line of a subshell and for
/// any other line.
pub open spec fn trace_entry(line: Seq<char>) -> Option<(int, Seq<char>)> {
    if line.len() == 0 || line[0] != '+' || (line.len() > 1 && line[1] == '+') {
        None
    } else {
        let rest = line.drop_first();
        match first_at(rest, ": "@, 0) {
            Some(i) => match parse_at_most(trim(rest.take(i)), usize::MAX as int) {
                Some(n) => Some((n, rest.skip(i + 2))),
                None => None,
            },
            None => None,
        }
    }
}

/// What the last trace line says.
pub open spec fn last_entry(ls: Seq<Seq<char>>) -> Option<(int, Seq<char>)>
    decreases ls.len(),
{
    if ls.len() == 0 {
        None
    } else {
        match trace_entry(ls.last()) {
            Some(e) => Some(e),
            None => last_entry(ls.drop_last()),
        }
    }
}

fn read_entry(line: &[char]) -> (r: Option<FailureInfo>)
    ensures
        r matches Some(f) ==> trace_entry(line@) == Some((f.lineno as int, f.command@)),
        r is None ==> trace_entry(line@) is None,
{
    if line.len() == 0 || !same(line[0], '+') || (line.len() > 1 && same(line[1], '+')) {
        return None;
    }
    let rest = copy_range(line, 1, line.len());
    assert(rest@ =~= line@.drop_first());
    let sep = chars_of(": ");
    proof {
        reveal_strlit(": ");
    }
    match find_text(rest.as_slice(), sep.as_slice(), 0) {
        Some(i) => {
            let number = copy_range(rest.as_slice(), 0, i);
            assert(number@ =~= rest@.take(i as int));
            let number = trimmed(number.as_slice());
            match parse_number(number.as_slice(), usize::MAX as u64) {
                Some(n) => {
                    let total: usize = rest.len();
                    let command = copy_range(rest.as_slice(), i + 2, total);
                    assert(command@ =~= rest@.skip(i + 2));
                    Some(FailureInfo { lineno: n as usize, command: string_of(command.as_slice()) })
                },
                None => None,
            }
        },
        None => None,
    }
}

/// Parse the xtrace log to find the last executed command (which is the one that failed).
pub fn parse_xtrace_failure(content: &str) -> (r: Option<FailureInfo>)
    ensures
        r matches Some(f) ==> last_entry(lines(content@)) == Some((f.lineno as int, f.command@)),
        r is None ==> last_entry(lines(content@)) is None,
{
    let v = chars_of(content);
    let ls = lines_of(v.as_slice());
    let ghost all = lines(content@);
    let mut i: usize = ls.len();
    assert(all.take(i as int) =~= all);
    while i > 0
        invariant
            i <= ls@.len(),
            rows(ls@) == all,
            all == lines(content@),
            last_entry(all) == last_entry(all.take(i as int)),
        decreases i,
    {
        let ghost now = all.take(i as int);
        assert(now.last() == ls@[i - 1]@);
        assert(now.drop_last() =~= all.take(i - 1));
        let entry = read_entry(ls[i - 1].as_slice());
        if entry.is_some() {
            return entry;
        }
        i = i - 1;
    }
    None
}

/// The operators of comparisons.
pub open spec fn is_comparison(op: Seq<char>) -> bool {
    ||| op == "="@
    ||| op == "!="@
    ||| op == "-eq"@
    ||| op == "-ne"@
    ||| op == "-lt"@
    ||| op == "-le"@
    ||| op == "-gt"@
    ||| op == "-ge"@
}

/// The text between the brackets of a trace of `[`.
pub open spec fn bracket_inner(command: Seq<char>) -> Option<Seq<char>> {
    if starts_with(command, "'[' "@) {
        let rest = command.skip("'[' "@.len() as int);
        if ends_with(rest, " ']'"@) {
            Some(rest.take(rest.len() - " ']'"@.len()))
        } else {
            None
        }
    } else {
        None
    }
}

/// The operands and the operator of a comparison, as a trace shows it: the operator
/// stands between the first two spaces.
pub open spec fn bracket_parts(command: Seq<char>) -> Option<(Seq<char>, Seq<char>, Seq<char>)> {
    match bracket_inner(command) {
        None => None,
        Some(inner) => match first_at(inner, " "@, 0) {
            None => None,
            Some(i) => match first_at(inner, " "@, i + 1) {
                None => None,
                Some(j) => if is_comparison(inner.subrange(i + 1, j)) {
                    Some((inner.take(i), inner.subrange(i + 1, j), inner.skip(j + 1)))
                } else {
                    None
                },
            },
        },
    }
}

fn comparison(op: &str) -> (r: bool)
    ensures
        r == is_comparison(op@),
{
    str_equal(op, "=") || str_equal(op, "!=") || str_equal(op, "-eq") || str_equal(op, "-ne")
        || str_equal(op, "-lt") || str_equal(op, "-le") || str_equal(op, "-gt") || str_equal(op, "-ge")
}

/// Parse a `[` test command from xtrace output.
///
/// Xtrace renders `[ "A" = "B" ]` as `'[' A = B ']'`.
pub fn parse_bracket_expr(command: &str) -> (r: Option<BracketExpr>)
    ensures
        r matches Some(e) ==> bracket_parts(command@) == Some((e.left@, e.op@, e.right@)),
        r is None ==> bracket_parts(command@) is None,
{
    let v = chars_of(command);
    let open = chars_of("'[' ");
    let close = chars_of(" ']'");
    let space = chars_of(" ");
    proof {
        reveal_strlit(" ");
    }
    if !has_prefix(v.as_slice(), open.as_slice()) {
        return None;
    }
    let total: usize = v.len();
    let rest = copy_range(v.as_slice(), open.len(), total);
    assert(rest@ =~= v@.skip(open@.len() as int));
    if !has_suffix(rest.as_slice(), close.as_slice()) {
        return None;
    }
    let end: usize = rest.len() - close.len();
    let inner = copy_range(rest.as_slice(), 0, end);
    assert(inner@ =~= rest@.take(end as int));
    assert(bracket_inner(command@) == Some(inner@));
    let i: usize = match find_text(inner.as_slice(), space.as_slice(), 0) {
        Some(i) => i,
        None => {
            return None;
        },
    };
    let n: usize = inner.len();
    let j: usize = match find_text(inner.as_slice(), space.as_slice(), i + 1) {
        Some(j) => j,
        None => {
            return None;
        },
    };
    let op = copy_range(inner.as_slice(), i + 1, j);
    let op = string_of(op.as_slice());
    if !comparison(op.as_str()) {
        return None;
    }
    let left = copy_range(inner.as_slice(), 0, i);
    let right = copy_range(inner.as_slice(), j + 1, n);
    assert(left@ =~= inner@.take(i as int));
    assert(right@ =~= inner@.skip(j + 1));
    Some(BracketExpr { left: string_of(left.as_slice()), op, right: string_of(right.as_slice()) })
}

/// How xtrace shows a comparison.
pub open spec fn bracket_trace(left: Seq<char>, op: Seq<char>, right: Seq<char>) -> Seq<char> {
    "'[' "@ + (left + " "@ + op + " "@ + right) + " ']'"@
}

proof fn lemma_comparison_has_no_space(op: Seq<char>)
    requires
        is_comparison(op),
    ensures
        !op.contains(' '),
{
    reveal_strlit("=");
    reveal_strlit("!=");
    reveal_strlit("-eq");
    reveal_strlit("-ne");
    reveal_strlit("-lt");
    reveal_strlit("-le");
    reveal_strlit("-gt");
    reveal_strlit("-ge");
}

proof fn lemma_first_space(s: Seq<char>, from: int, i: int)
    requires
        0 <= from <= i < s.len(),
        s[i] == ' ',
        forall|j: int| from <= j < i ==> s[j] != ' ',
    ensures
        first_at(s, " "@, from) == Some(i),
{
    reveal_strlit(" ");
    assert(s.subrange(i, i + 1) =~= " "@);
    assert forall|j: int| from <= j < i implies !occurs_at(s, " "@, j) by {
        assert(s.subrange(j, j + 1)[0] == s[j]);
        assert(" "@[0] == ' ');
    }
    crate::text::lemma_first_at(s, " "@, from, i);
}

/// A comparison whose left operand has no space is read from its trace with the
/// operands and the operator that it was made of.
pub proof fn lemma_bracket_round_trip(left: Seq<char>, op: Seq<char>, right: Seq<char>)
    requires
        !left.contains(' '),
        is_comparison(op),
    ensures
        bracket_parts(bracket_trace(left, op, right)) == Some((left, op, right)),
{
    reveal_strlit(" ");
    let command = bracket_trace(left, op, right);
    let inner = left + " "@ + op + " "@ + right;
    let open = "'[' "@;
    let close = " ']'"@;
    assert(command.take(open.len() as int) =~= open);
    let rest = command.skip(open.len() as int);
    assert(rest =~= inner + close);
    assert(rest.skip(rest.len() - close.len()) =~= close);
    assert(rest.take(rest.len() - close.len()) =~= inner);
    let i = left.len() as int;
    let j = i + 1 + op.len();
    lemma_comparison_has_no_space(op);
    assert forall|k: int| 0 <= k < i implies inner[k] != ' ' by {
        assert(left.contains(left[k]));
    }
    lemma_first_space(inner, 0, i);
    assert forall|k: int| i + 1 <= k < j implies inner[k] != ' ' by {
        assert(op.contains(op[k - i - 1]));
    }
    lemma_first_space(inner, i + 1, j);
    assert(inner.take(i) =~= left);
    assert(inner.subrange(i + 1, j) =~= op);
    assert(inner.skip(j + 1) =~= right);
}

/// How often `c` occurs.
pub open spec fn count_of(s: Seq<char>, c: char) -> nat
    decreases s.len(),
{
    if s.len() == 0 {
        0
    } else {
        count_of(s.drop_last(), c) + if s.last() == c {
            1nat
        } else {
            0
        }
    }
}

/// The opening braces of a line less the closing ones.
pub open spec fn brace_change(line: Seq<char>) -> int {
    count_of(line, '{') - count_of(line, '}')
}

/// The line begins the definition of the function: its name and a parenthesis.
pub open spec fn opens(line: Seq<char>, name: Seq<char>) -> bool {
    let t = trim(line);
    starts_with(t, name) && starts_with(trim_start(t.skip(name.len() as int)), "("@)
}

/// The line holds a whole block in braces: what it opens it closes.
pub open spec fn is_closed(line: Seq<char>) -> bool {
    count_of(line, '{') > 0 && brace_change(line) <= 0
}

/// How a line of a function is compared: without the space around it and without the
/// semicolons at its end.
pub open spec fn bare(line: Seq<char>) -> Seq<char> {
    trim_end_of(trim(line), ';')
}

/// Where a walk over the lines stands: in the function or not, how deep in braces,
/// and on which line the function began.
pub struct Walk {
    pub inside: bool,
    pub depth: int,
    pub start: int,
}

/// Where the walk stands before line `n`. It is in the function after the line on which
/// the definition begins, unless that line holds all of it, and until the braces are
/// closed that were opened from there on.
pub open spec fn walk_to(ls: Seq<Seq<char>>, name: Seq<char>, n: int) -> Walk
    decreases n,
{
    if n <= 0 {
        Walk { inside: false, depth: 0, start: 0 }
    } else {
        let w = walk_to(ls, name, n - 1);
        let line = ls[n - 1];
        if w.inside {
            let depth = w.depth + brace_change(line);
            Walk { inside: depth > 0, depth, start: w.start }
        } else if opens(line, name) {
            Walk { inside: !is_closed(line), depth: brace_change(line), start: n - 1 }
        } else {
            w
        }
    }
}

/// Line `i` lies in the function and reads `needle`.
pub open spec fn is_hit(ls: Seq<Seq<char>>, name: Seq<char>, needle: Seq<char>, i: int) -> bool {
    walk_to(ls, name, i).inside && bare(ls[i]) == needle
}

/// The first such line from line `i` on.
pub open spec fn hit_from(ls: Seq<Seq<char>>, name: Seq<char>, needle: Seq<char>, i: int) -> Option<
    int,
>
    decreases ls.len() - i,
{
    if i >= ls.len() {
        None
    } else if is_hit(ls, name, needle, i) {
        Some(i)
    } else {
        hit_from(ls, name, needle, i + 1)
    }
}

/// The line on which a function ends, where its braces are `depth` deep after line
/// `i`: the first from there on after which none is open, or the last of all.
pub open spec fn end_from(ls: Seq<Seq<char>>, i: int, depth: int) -> int
    decreases ls.len() - i,
{
    if depth <= 0 || i + 1 >= ls.len() {
        i
    } else {
        end_from(ls, i + 1, depth + brace_change(ls[i + 1]))
    }
}

/// The place of a line in a source text.
#[derive(Debug)]
pub struct SourceMatch {
    pub byte_start: usize,
    pub byte_end: usize,
    /// 0-based line where the function definition starts.
    pub func_start_line: usize,
    /// 0-based line where the function ends (closing brace).
    pub func_end_line: usize,
}

/// The place of a line in a source text: its bytes, and the first and last line of the
/// function around it.
pub struct Place {
    pub start: int,
    pub end: int,
    pub func_start: int,
    pub func_end: int,
}

impl View for SourceMatch {
    type V = Place;

    open spec fn view(&self) -> Place {
        Place {
            start: self.byte_start as int,
            end: self.byte_end as int,
            func_start: self.func_start_line as int,
            func_end: self.func_end_line as int,
        }
    }
}

/// The place of line `i`: from its first character that is no white space to its end.
pub open spec fn line_place(ls: Seq<Seq<char>>, name: Seq<char>, i: int) -> Place {
    let w = walk_to(ls, name, i);
    let end = line_offset(ls, i) + utf8_len(ls[i]);
    Place {
        start: end - utf8_len(trim_start(ls[i])),
        end: end as int,
        func_start: w.start,
        func_end: end_from(ls, i, w.depth + brace_change(ls[i])),
    }
}

proof fn lemma_count_bound(s: Seq<char>, c: char)
    ensures
        count_of(s, c) <= s.len(),
    decreases s.len(),
{
    if s.len() > 0 {
        lemma_count_bound(s.drop_last(), c);
    }
}

/// Every character takes at least one byte.
pub proof fn lemma_len_bound(s: Seq<char>)
    ensures
        s.len() <= utf8_len(s),
    decreases s.len(),
{
    if s.len() > 0 {
        lemma_len_bound(s.drop_last());
        assert(s =~= s.drop_last().push(s.last()));
        lemma_len_push(s.drop_last(), s.last());
    }
}

proof fn lemma_change_bound(line: Seq<char>)
    ensures
        -utf8_len(line) <= brace_change(line) <= utf8_len(line),
{
    lemma_count_bound(line, '{');
    lemma_count_bound(line, '}');
    lemma_len_bound(line);
}

/// How often `c` occurs.
pub fn count(v: &[char], c: char) -> (n: usize)
    ensures
        n == count_of(v@, c),
{
    let mut n: usize = 0;
    let mut i: usize = 0;
    assert(v@.take(0) =~= Seq::<char>::empty());
    while i < v.len()
        invariant
            n <= i <= v@.len(),
            n == count_of(v@.take(i as int), c),
        decreases v@.len() - i,
    {
        assert(v@.take(i + 1).drop_last() =~= v@.take(i as int));
        if same(v[i], c) {
            n = n + 1;
        }
        i = i + 1;
    }
    assert(v@.take(i as int) =~= v@);
    n
}

fn braces(line: &[char]) -> (d: i128)
    ensures
        d == brace_change(line@),
{
    count(line, '{') as i128 - count(line, '}') as i128
}

fn opens_function(line: &[char], name: &[char]) -> (r: bool)
    ensures
        r == opens(line@, name@),
{
    let t = trimmed(line);
    if !has_prefix(t.as_slice(), name) {
        return false;
    }
    let total: usize = t.len();
    let rest = copy_range(t.as_slice(), name.len(), total);
    assert(rest@ =~= t@.skip(name@.len() as int));
    let rest = trimmed_start(rest.as_slice());
    let paren = chars_of("(");
    has_prefix(rest.as_slice(), paren.as_slice())
}

proof fn lemma_trim_start_len(s: Seq<char>)
    ensures
        utf8_len(trim_start(s)) <= utf8_len(s),
    decreases s.len(),
{
    if s.len() > 0 {
        lemma_trim_start_len(s.drop_first());
        assert(s =~= seq![s[0]] + s.drop_first());
        lemma_len_concat(seq![s[0]], s.drop_first());
    }
}

/// The bytes of the first `n` lines, each counted with one byte for its end.
pub fn offset_of(ls: &Vec<Vec<char>>, n: usize, limit: usize) -> (r: usize)
    requires
        n <= ls@.len(),
        line_offset(rows(ls@), n as int) <= limit,
    ensures
        r == line_offset(rows(ls@), n as int),
{
    let mut r: usize = 0;
    let mut i: usize = 0;
    while i < n
        invariant
            i <= n <= ls@.len(),
            line_offset(rows(ls@), n as int) <= limit,
            r == line_offset(rows(ls@), i as int),
        decreases n - i,
    {
        proof {
            lemma_offset_grows(rows(ls@), i + 1, n as int);
            assert(rows(ls@)[i as int] == ls@[i as int]@);
        }
        r = r + byte_len(ls[i].as_slice()) + 1;
        i = i + 1;
    }
    r
}

/// Each line takes at least the byte of its end.
pub proof fn lemma_offset_grows(ls: Seq<Seq<char>>, i: int, n: int)
    requires
        0 <= i <= n,
    ensures
        line_offset(ls, i) + (n - i) <= line_offset(ls, n),
    decreases n - i,
{
    if i < n {
        lemma_offset_grows(ls, i, n - 1);
    }
}

/// The line on which the function ends, from line `at` on.
fn function_end(ls: &Vec<Vec<char>>, at: usize, depth: i128, limit: usize) -> (r: usize)
    requires
        at < ls@.len(),
        -(limit as int) - 1 <= depth <= limit + 1,
        line_offset(rows(ls@), ls@.len() as int) <= limit + 1,
        -(line_offset(rows(ls@), at + 1) as int) <= depth <= line_offset(rows(ls@), at + 1),
    ensures
        r == end_from(rows(ls@), at as int, depth as int),
{
    let ghost all = rows(ls@);
    let mut i: usize = at;
    let mut d: i128 = depth;
    let n: usize = ls.len();
    while d > 0 && i < n - 1
        invariant
            at <= i < ls@.len() == n,
            all == rows(ls@),
            line_offset(all, ls@.len() as int) <= limit + 1,
            -(line_offset(all, i + 1) as int) <= d <= line_offset(all, i + 1),
            end_from(all, at as int, depth as int) == end_from(all, i as int, d as int),
        decreases ls@.len() - i,
    {
        let line = &ls[i + 1];
        proof {
            lemma_change_bound(line@);
            assert(all[i + 1] == line@);
            lemma_offset_grows(all, i + 2, ls@.len() as int);
        }
        d = d + braces(line.as_slice());
        i = i + 1;
    }
    i
}

/// Find a line matching `needle` inside the named function in the source of a script.
pub fn find_line_in_source(source: &str, function_name: &str, needle: &str) -> (r: Option<SourceMatch>)
    ensures
        match hit_from(lines(source@), function_name@, needle@, 0) {
            Some(i) => r matches Some(m) && m@ == line_place(lines(source@), function_name@, i),
            None => r is None,
        },
{
    let v = chars_of(source);
    let name = chars_of(function_name);
    let want = chars_of(needle);
    let ls = lines_of(v.as_slice());
    let bytes = source.as_bytes();
    let limit: usize = bytes.len();
    let ghost all = lines(source@);
    proof {
        lemma_line_offset_bound(source@, all.len() as int);
    }
    let mut inside = false;
    let mut depth: i128 = 0;
    let mut start: usize = 0;
    let mut i: usize = 0;
    while i < ls.len()
        invariant
            i <= ls@.len(),
            all == rows(ls@),
            all == lines(source@),
            name@ == function_name@,
            want@ == needle@,
            limit == utf8_len(source@),
            start <= i,
            line_offset(all, all.len() as int) <= limit + 1,
            walk_to(all, name@, i as int) == (Walk {
                inside,
                depth: depth as int,
                start: start as int,
            }),
            -(line_offset(all, i as int) as int) <= depth <= line_offset(all, i as int),
            hit_from(all, name@, want@, 0) == hit_from(all, name@, want@, i as int),
        decreases ls@.len() - i,
    {
        let line = &ls[i];
        proof {
            assert(all[i as int] == line@);
            lemma_change_bound(line@);
            lemma_offset_grows(all, i + 1, all.len() as int);
        }
        if !inside {
            if opens_function(line.as_slice(), name.as_slice()) {
                start = i;
                depth = braces(line.as_slice());
                inside = depth > 0 || count(line.as_slice(), '{') == 0;
            }
        } else {
            depth = depth + braces(line.as_slice());
            let t = trimmed(line.as_slice());
            let t = trimmed_end_of(t.as_slice(), ';');
            if equal(t.as_slice(), want.as_slice()) {
                proof {
                    lemma_line_offset_bound(source@, i as int);
                    lemma_trim_start_len(line@);
                }
                let byte_start: usize = offset_of(&ls, i, limit);
                let len: usize = byte_len(line.as_slice());
                let content = trimmed_start(line.as_slice());
                let indent: usize = len - byte_len(content.as_slice());
                let func_end_line: usize = function_end(&ls, i, depth, limit);
                return Some(
                    SourceMatch {
                        byte_start: byte_start + indent,
                        byte_end: byte_start + len,
                        func_start_line: start,
                        func_end_line,
                    },
                );
            }
            if depth <= 0 {
                inside = false;
            }
        }
        i = i + 1;
    }
    None
}

/// Counting is done part by part, and a character counts where it is the one.
pub proof fn lemma_count_of_parts(a: Seq<char>, b: Seq<char>, c: char, x: char)
    ensures
        count_of(a + b, c) == count_of(a, c) + count_of(b, c),
        count_of(seq![x], c) == (if x == c {
            1nat
        } else {
            0
        }),
    decreases b.len(),
{
    assert(seq![x].drop_last() =~= Seq::<char>::empty());
    assert(count_of(seq![x].drop_last(), c) == 0);
    if b.len() == 0 {
        assert(a + b =~= a);
    } else {
        assert((a + b).drop_last() =~= a + b.drop_last());
        lemma_count_of_parts(a, b.drop_last(), c, x);
    }
}

/// The line begins a definition: the name stands from `a` on, after white space alone, and
/// with white space alone between them an opening parenthesis at `b`.
pub open spec fn is_header(line: Seq<char>, name: Seq<char>, a: int, b: int) -> bool {
    &&& 0 <= a && a + name.len() <= b < line.len()
    &&& forall|i: int| 0 <= i < a ==> is_whitespace(#[trigger] line[i])
    &&& line.subrange(a, a + name.len()) == name
    &&& forall|i: int| a + name.len() <= i < b ==> is_whitespace(#[trigger] line[i])
    &&& line[b] == '('
}

proof fn lemma_opens_with_name(line: Seq<char>, name: Seq<char>) -> (at: (int, int))
    requires
        opens(line, name),
    ensures
        is_header(line, name, at.0, at.1),
{
    let (p, q) = lemma_trim_takes_all(line);
    let t = trim(line);
    let l = name.len() as int;
    let rest = t.skip(l);
    let n = lemma_trim_start_takes_all(rest);
    let b = p + l + n;
    let r = rest.skip(n);
    assert(r.len() >= 1 && r[0] == '(') by {
        reveal_strlit("(");
        assert(r.take(1)[0] == r[0]);
    }
    assert(line.subrange(p, p + l) =~= t.take(l));
    assert(r[0] == line[b]);
    assert forall|i: int| p + l <= i < b implies is_whitespace(#[trigger] line[i]) by {
        assert(rest[i - p - l] == line[i]);
    }
    (p, b)
}

proof fn lemma_name_opens(line: Seq<char>, name: Seq<char>, a: int, b: int)
    requires
        name.len() > 0 ==> !is_whitespace(name[0]),
        is_header(line, name, a, b),
    ensures
        opens(line, name),
{
    let (p, q) = lemma_trim_takes_all(line);
    let t = trim(line);
    let l = name.len() as int;
    // The first character that is no white space.
    let first = if l > 0 {
        a
    } else {
        b
    };
    assert(!is_whitespace(line[first])) by {
        if l > 0 {
            assert(line.subrange(a, a + l)[0] == line[a]);
        }
    }
    assert(b < q) by {
        if q <= b {
            assert(is_whitespace(line[b]));
        }
    }
    assert(first == p) by {
        if first < p {
            assert(is_whitespace(line[first]));
        }
        if p < first {
            assert(is_whitespace(line[p]));
        }
    }
    assert(t.take(l) =~= name) by {
        if l > 0 {
            assert(t.take(l) =~= line.subrange(a, a + l));
        }
    }
    let rest = t.skip(l);
    let n = lemma_trim_start_takes_all(rest);
    let k = b - p - l;
    assert(rest[k] == line[b]);
    assert(n == k) by {
        if n < k {
            assert(rest[n] == line[p + l + n]);
        }
        if k < n {
            assert(is_whitespace(rest[k]));
        }
    }
    let r = rest.skip(n);
    assert(r[0] == '(');
    assert(r.take(1) =~= "("@) by {
        reveal_strlit("(");
    }
    assert("("@.len() == 1) by {
        reveal_strlit("(");
    }
}

/// A definition begins on a line exactly where the name, and nothing but white space,
/// stands before an opening parenthesis: that of another function does not begin on it, even
/// if the name of the one begins with the name of the other.
pub proof fn lemma_definition_begins_with_the_name(line: Seq<char>, name: Seq<char>)
    requires
        name.len() > 0 ==> !is_whitespace(name[0]),
    ensures
        opens(line, name) <==> exists|a: int, b: int| is_header(line, name, a, b),
{
    if opens(line, name) {
        let (a, b) = lemma_opens_with_name(line, name);
        assert(is_header(line, name, a, b));
    }
    if exists|a: int, b: int| is_header(line, name, a, b) {
        let (a, b) = choose|a: int, b: int| is_header(line, name, a, b);
        lemma_name_opens(line, name, a, b);
    }
}

/// The line reads `text`: around it is white space, and after it may be semicolons.
pub open spec fn reads(line: Seq<char>, text: Seq<char>, a: int, b: int, c: int) -> bool {
    &&& 0 <= a <= b <= c <= line.len()
    &&& forall|i: int| 0 <= i < a ==> is_whitespace(#[trigger] line[i])
    &&& line.subrange(a, b) == text
    &&& forall|i: int| b <= i < c ==> #[trigger] line[i] == ';'
    &&& forall|i: int| c <= i < line.len() ==> is_whitespace(#[trigger] line[i])
}

/// How a line is compared is what it reads, with no space and no semicolon left at the ends.
pub proof fn lemma_bare_is_what_a_line_reads(line: Seq<char>) -> (at: (int, int, int))
    ensures
        reads(line, bare(line), at.0, at.1, at.2),
        bare(line).len() > 0 ==> !is_whitespace(bare(line)[0]) && bare(line).last() != ';',
{
    let (a, c) = lemma_trim_takes_all(line);
    let t = trim(line);
    let n = lemma_trim_end_of_takes_all(t, ';');
    let b = a + n;
    assert(t.take(n) =~= line.subrange(a, b));
    assert forall|i: int| b <= i < c implies #[trigger] line[i] == ';' by {
        assert(t[i - a] == ';');
    }
    (a, b, c)
}

/// The opening braces less the closing ones, from line `s` to line `k`.
pub open spec fn balance(ls: Seq<Seq<char>>, s: int, k: int) -> int
    decreases k - s + 1,
{
    if k < s {
        0
    } else {
        balance(ls, s, k - 1) + count_of(ls[k], '{') - count_of(ls[k], '}')
    }
}

/// The function that begins on line `s` is not over before line `i`: not on its first line,
/// if that opens a brace, and on no line between them are all its braces closed.
pub open spec fn is_open(ls: Seq<Seq<char>>, s: int, i: int) -> bool {
    &&& 0 <= s < i
    &&& count_of(ls[s], '{') > 0 ==> balance(ls, s, s) > 0
    &&& forall|k: int| s < k < i ==> #[trigger] balance(ls, s, k) > 0
}

/// The walk is in the function exactly between the line on which its definition begins and
/// the one on which it is over.
pub proof fn lemma_walk_is_in_the_function(ls: Seq<Seq<char>>, name: Seq<char>, n: int)
    requires
        0 <= n <= ls.len(),
    ensures
        ({
            let w = walk_to(ls, name, n);
            &&& w.inside ==> is_open(ls, w.start, n) && opens(ls[w.start], name) && !walk_to(
                ls,
                name,
                w.start,
            ).inside && w.depth == balance(ls, w.start, n - 1)
            &&& forall|s: int|
                #[trigger] is_open(ls, s, n) && opens(ls[s], name) && !walk_to(ls, name, s).inside
                    ==> w.inside && w.start == s
        }),
    decreases n,
{
    if n > 0 {
        lemma_walk_is_in_the_function(ls, name, n - 1);
        let v = walk_to(ls, name, n - 1);
        let w = walk_to(ls, name, n);
        let line = ls[n - 1];
        assert(balance(ls, n - 1, n - 2) == 0);
        assert(balance(ls, n - 1, n - 1) == brace_change(line));
        if w.inside {
            if v.inside {
                let s = v.start;
                assert(balance(ls, s, n - 1) == balance(ls, s, n - 2) + brace_change(line));
                assert forall|k: int| s < k < n implies #[trigger] balance(ls, s, k) > 0 by {
                    if k < n - 1 {
                        assert(balance(ls, s, k) > 0);
                    }
                }
                assert(is_open(ls, s, n));
            } else {
                assert(is_open(ls, n - 1, n));
            }
        }
        assert forall|s: int|
            #[trigger] is_open(ls, s, n) && opens(ls[s], name) && !walk_to(ls, name, s).inside implies w.inside
            && w.start == s by {
            if s < n - 1 {
                assert forall|k: int| s < k < n - 1 implies #[trigger] balance(ls, s, k) > 0 by {}
                assert(is_open(ls, s, n - 1));
                assert(v.inside && v.start == s);
                assert(balance(ls, s, n - 1) > 0);
                assert(balance(ls, s, n - 1) == balance(ls, s, n - 2) + brace_change(line));
            }
        }
    }
}

proof fn lemma_function_ends(ls: Seq<Seq<char>>, s: int, i: int, depth: int)
    requires
        0 <= s <= i < ls.len(),
        depth == balance(ls, s, i),
    ensures
        ({
            let e = end_from(ls, i, depth);
            &&& i <= e < ls.len()
            &&& forall|k: int| i <= k < e ==> #[trigger] balance(ls, s, k) > 0
            &&& balance(ls, s, e) <= 0 || e == ls.len() - 1
        }),
    decreases ls.len() - i,
{
    if depth > 0 && i + 1 < ls.len() {
        assert(balance(ls, s, i + 1) == balance(ls, s, i) + brace_change(ls[i + 1]));
        lemma_function_ends(ls, s, i + 1, depth + brace_change(ls[i + 1]));
    }
}

proof fn lemma_hit(ls: Seq<Seq<char>>, name: Seq<char>, needle: Seq<char>, from: int)
    requires
        0 <= from,
    ensures
        match hit_from(ls, name, needle, from) {
            Some(i) => from <= i < ls.len() && is_hit(ls, name, needle, i) && forall|k: int|
                from <= k < i ==> !#[trigger] is_hit(ls, name, needle, k),
            None => forall|k: int| from <= k < ls.len() ==> !#[trigger] is_hit(ls, name, needle, k),
        },
    decreases ls.len() - from,
{
    if from < ls.len() && !is_hit(ls, name, needle, from) {
        lemma_hit(ls, name, needle, from + 1);
    }
}

/// A line of the named function reads the text that is looked for: the function begins on
/// line `s`, which is in no other definition of that name, and is not over before line `i`.
pub open spec fn is_line_of(ls: Seq<Seq<char>>, name: Seq<char>, needle: Seq<char>, s: int, i: int) -> bool {
    &&& 0 <= s < i < ls.len()
    &&& exists|a: int, b: int| is_header(ls[s], name, a, b)
    &&& !walk_to(ls, name, s).inside
    &&& is_open(ls, s, i)
    &&& bare(ls[i]) == needle
}

/// The line that is found is the first of the named function that reads the text that is
/// looked for, and the lines of the function go from the one with its name to the one that
/// closes it. None is found only where there is none.
pub proof fn lemma_found_line_is_in_the_named_function(
    ls: Seq<Seq<char>>,
    name: Seq<char>,
    needle: Seq<char>,
)
    requires
        name.len() > 0 ==> !is_whitespace(name[0]),
    ensures
        match hit_from(ls, name, needle, 0) {
            Some(i) => {
                let m = line_place(ls, name, i);
                &&& is_line_of(ls, name, needle, m.func_start, i)
                &&& forall|s: int, k: int| #[trigger] is_line_of(ls, name, needle, s, k) ==> i <= k
                &&& i <= m.func_end < ls.len()
                &&& forall|k: int| i <= k < m.func_end ==> #[trigger] balance(ls, m.func_start, k) > 0
                &&& balance(ls, m.func_start, m.func_end) <= 0 || m.func_end == ls.len() - 1
            },
            None => forall|s: int, k: int| !#[trigger] is_line_of(ls, name, needle, s, k),
        },
{
    lemma_hit(ls, name, needle, 0);
    assert forall|s: int, k: int| #[trigger] is_line_of(ls, name, needle, s, k) implies is_hit(
        ls,
        name,
        needle,
        k,
    ) by {
        lemma_walk_is_in_the_function(ls, name, k);
        lemma_definition_begins_with_the_name(ls[s], name);
    }
    if let Some(i) = hit_from(ls, name, needle, 0) {
        let w = walk_to(ls, name, i);
        lemma_walk_is_in_the_function(ls, name, i);
        lemma_definition_begins_with_the_name(ls[w.start], name);
        assert(balance(ls, w.start, i) == balance(ls, w.start, i - 1) + brace_change(ls[i]));
        lemma_function_ends(ls, w.start, i, w.depth + brace_change(ls[i]));
    }
}

/// A line of the trace is read back: the number of the line, with or without blanks around it,
/// and the command that ran there. A line of a subshell, with more than one plus sign, says
/// nothing.
pub proof fn lemma_trace_is_read_back(before: nat, n: nat, after: nat, command: Seq<char>, rest: Seq<char>)
    requires
        n <= usize::MAX,
    ensures
        trace_entry(
            seq!['+'] + (Seq::new(before, |_i: int| ' ') + decimal(n) + Seq::new(after, |_i: int| ' ')) + seq![
                ':',
                ' ',
            ] + command,
        ) == Some((n as int, command)),
        trace_entry(seq!['+', '+'] + rest) is None,
        rest.len() > 0 && rest[0] != '+' ==> trace_entry(rest) is None,
{
    let sep = ": "@;
    assert(sep =~= seq![':', ' ']) by {
        reveal_strlit(": ");
    }
    let x = Seq::new(before, |_i: int| ' ');
    let y = Seq::new(after, |_i: int| ' ');
    let d = decimal(n);
    lemma_decimal_round_trip(n);
    lemma_bare(d);
    let number = x + d + y;
    assert(!is_whitespace(d[0]) && !is_whitespace(d[d.len() - 1]));
    lemma_trim_leaves_the_word(x, d, y);
    assert forall|j: int| 0 <= j < number.len() implies number[j] != ':' && number[j] != '+' by {
        if before <= j < before + d.len() {
            assert(is_digit(d[j - before]));
        }
    }
    lemma_entry_of(number, n, command);
    let twice = seq!['+', '+'] + rest;
    assert(twice[0] == '+' && twice[1] == '+');
}

proof fn lemma_entry_of(number: Seq<char>, n: nat, command: Seq<char>)
    requires
        number.len() > 0,
        forall|j: int| 0 <= j < number.len() ==> number[j] != ':' && number[j] != '+',
        parse_at_most(trim(number), usize::MAX as int) == Some(n as int),
    ensures
        trace_entry(seq!['+'] + number + seq![':', ' '] + command) == Some((n as int, command)),
{
    let sep = ": "@;
    assert(sep =~= seq![':', ' ']) by {
        reveal_strlit(": ");
    }
    let line = seq!['+'] + number + seq![':', ' '] + command;
    assert(line[0] == '+' && line[1] == number[0]);
    let after = line.drop_first();
    assert(after =~= number + sep + command);
    let k = number.len() as int;
    assert(after.subrange(k, k + 2) =~= sep);
    assert forall|j: int| 0 <= j < k implies !occurs_at(after, sep, j) by {
        assert(after.subrange(j, j + 2)[0] == number[j]);
    }
    crate::text::lemma_first_at(after, sep, 0, k);
    assert(after.take(k) =~= number);
    assert(after.skip(k + 2) =~= command);
}

/// What is read of a trace is what its last line with an entry says.
pub proof fn lemma_last_entry_counts(ls: Seq<Seq<char>>, k: int)
    requires
        0 <= k <= ls.len(),
        forall|j: int| k <= j < ls.len() ==> trace_entry(#[trigger] ls[j]) is None,
        k > 0 ==> trace_entry(ls[k - 1]) is Some,
    ensures
        last_entry(ls) == (if k > 0 {
            trace_entry(ls[k - 1])
        } else {
            None
        }),
    decreases ls.len() - k,
{
    if k < ls.len() {
        let front = ls.drop_last();
        assert(trace_entry(ls[ls.len() - 1]) is None);
        assert forall|j: int| k <= j < front.len() implies trace_entry(#[trigger] front[j]) is None by {
            assert(front[j] == ls[j]);
        }
        lemma_last_entry_counts(front, k);
    }
}

/// What is read as a comparison is the trace of that comparison.
pub proof fn lemma_bracket_is_that_comparison(command: Seq<char>)
    requires
        bracket_parts(command) is Some,
    ensures
        ({
            let (left, op, right) = bracket_parts(command)->0;
            &&& command == bracket_trace(left, op, right)
            &&& !left.contains(' ')
            &&& op == "="@ || op == "!="@ || op == "-eq"@ || op == "-ne"@ || op == "-lt"@ || op == "-le"@
                || op == "-gt"@ || op == "-ge"@
        }),
{
    let (left, op, right) = bracket_parts(command)->0;
    let inner = bracket_inner(command)->0;
    lemma_inner_of_bracket(command);
    let i = first_at(inner, " "@, 0)->0;
    let j = first_at(inner, " "@, i + 1)->0;
    lemma_parts_of_inner(inner, i, j);
    assert(command == "'[' "@ + inner + " ']'"@);
}

proof fn lemma_inner_of_bracket(command: Seq<char>)
    requires
        bracket_inner(command) is Some,
    ensures
        command == "'[' "@ + bracket_inner(command)->0 + " ']'"@,
{
    let open = "'[' "@;
    let close = " ']'"@;
    let inner = bracket_inner(command)->0;
    let rest = command.skip(open.len() as int);
    let n = rest.len() - close.len();
    assert(rest =~= rest.take(n) + rest.skip(n));
    assert(command =~= command.take(open.len() as int) + rest);
    assert(open + (inner + close) =~= open + inner + close);
}

proof fn lemma_parts_of_inner(inner: Seq<char>, i: int, j: int)
    requires
        first_at(inner, " "@, 0) == Some(i),
        first_at(inner, " "@, i + 1) == Some(j),
    ensures
        0 <= i < j < inner.len(),
        inner == inner.take(i) + " "@ + inner.subrange(i + 1, j) + " "@ + inner.skip(j + 1),
        !inner.take(i).contains(' '),
{
    let space = " "@;
    assert(space =~= seq![' ']) by {
        reveal_strlit(" ");
    }
    lemma_first_is_first(inner, space, 0);
    lemma_first_is_first(inner, space, i + 1);
    assert(inner.subrange(i, i + 1)[0] == ' ');
    assert(inner.subrange(j, j + 1)[0] == ' ');
    assert(inner =~= inner.take(i) + space + inner.subrange(i + 1, j) + space + inner.skip(j + 1));
    let left = inner.take(i);
    assert forall|k: int| 0 <= k < left.len() implies left[k] != ' ' by {
        if left[k] == ' ' {
            assert(inner.subrange(k, k + 1) =~= space);
            assert(occurs_at(inner, space, k));
        }
    }
}

proof fn lemma_first_is_first(s: Seq<char>, sub: Seq<char>, from: int)
    requires
        0 <= from,
    ensures
        first_at(s, sub, from) matches Some(i) ==> from <= i && occurs_at(s, sub, i) && forall|j: int|
            from <= j < i ==> !#[trigger] occurs_at(s, sub, j),
    decreases s.len() - from + 1,
{
    if from <= s.len() && !occurs_at(s, sub, from) {
        lemma_first_is_first(s, sub, from + 1);
    }
}

/// The failed command is that of the last line of the trace that tells one.
pub proof fn lemma_failed_command_is_the_last(content: &str, r: Option<FailureInfo>, k: int)
    requires
        call_ensures(parse_xtrace_failure, (content,), r),
        0 <= k <= lines(content@).len(),
        forall|j: int| k <= j < lines(content@).len() ==> trace_entry(#[trigger] lines(content@)[j]) is None,
        k > 0 ==> trace_entry(lines(content@)[k - 1]) is Some,
    ensures
        k == 0 ==> r is None,
        k > 0 ==> r is Some && trace_entry(lines(content@)[k - 1]) == Some(
            (r->0.lineno as int, r->0.command@),
        ),
{
    lemma_last_entry_counts(lines(content@), k);
}

/// All comparisons are read, by each of their operators.
pub proof fn lemma_all_comparisons_are_read(left: Seq<char>, op: Seq<char>, right: Seq<char>)
    requires
        !left.contains(' '),
        op == "="@ || op == "!="@ || op == "-eq"@ || op == "-ne"@ || op == "-lt"@ || op == "-le"@ || op
            == "-gt"@ || op == "-ge"@,
    ensures
        bracket_parts(bracket_trace(left, op, right)) == Some((left, op, right)),
{
    lemma_bracket_round_trip(left, op, right);
}

} // verus!
