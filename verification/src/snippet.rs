//! The part of a source text that is shown around a failed line.

use annotate_snippets::{AnnotationKind, Level, Renderer, Snippet};
use vstd::prelude::*;
use vstd::utf8::encode_utf8;

use crate::diagnostics::{bare, find_line_in_source, is_line_of, lemma_definition_begins_with_the_name, lemma_found_line_is_in_the_named_function, lemma_walk_is_in_the_function, parse_bracket_expr, parse_xtrace_failure, brace_change, bracket_parts, end_from, hit_from, last_entry, lemma_len_bound, lemma_offset_grows, line_place, offset_of, walk_to, Place, SourceMatch};
use crate::diff::{bracket_report, render_bracket_diff};
use crate::offsets::{lemma_join_len, lemma_join_place, lemma_line_offset_bound, lemma_offset_in_run, lemma_piece_offset, lemma_piece_place, lemma_plain_lines, line_offset, no_crlf, piece_start};
use crate::path::{file_name, UnixPath};
use crate::text::{chars_of, copy_range, extend_str, join, join_with, rows, split, string_of};
use crate::utf8::{byte_len, lemma_encode_concat, lemma_len_concat, lemma_len_push, lossy, lossy_text, utf8_len, width};
use crate::words::{lines, lines_of, trim_start, trimmed, trimmed_end_of};

verus! {

/// How many lines are shown before and after the failed one.
pub const CONTEXT_LINES: usize = 3;

/// How many characters stand before byte `b`, counted from character `k` on; `None`
/// where no character begins at that byte.
pub open spec fn chars_before(s: Seq<char>, b: int, k: int) -> Option<int>
    decreases s.len() - k,
{
    if utf8_len(s.take(k)) == b {
        Some(k)
    } else if k >= s.len() {
        None
    } else {
        chars_before(s, b, k + 1)
    }
}

/// A place that an annotation may name: where a character begins, the end of the text,
/// or one byte past it.
pub open spec fn is_place(s: Seq<char>, b: int) -> bool {
    chars_before(s, b, 0) is Some || b == utf8_len(s) + 1
}

/// Some lines of a text, and the place of a span in them.
#[derive(Debug)]
pub struct Window {
    /// The lines, joined.
    pub text: String,
    /// The 0-based number of the first line.
    pub first_line: usize,
    /// Where the span begins in the text, in bytes.
    pub start: usize,
    /// Where the span ends in the text, in bytes.
    pub end: usize,
}

pub struct WindowView {
    pub text: Seq<char>,
    pub first_line: int,
    pub start: int,
    pub end: int,
}

impl View for Window {
    type V = WindowView;

    open spec fn view(&self) -> WindowView {
        WindowView {
            text: self.text@,
            first_line: self.first_line as int,
            start: self.start as int,
            end: self.end as int,
        }
    }
}

pub open spec fn larger(a: int, b: int) -> int {
    if a >= b {
        a
    } else {
        b
    }
}

pub open spec fn smaller(a: int, b: int) -> int {
    if a <= b {
        a
    } else {
        b
    }
}

/// The first line shown around line `at` of a function that begins on line `from`.
pub open spec fn window_first(at: int, from: int) -> int {
    larger(larger(at - CONTEXT_LINES, 0), from)
}

/// The line before which the window around line `at` ends, in a text of `n` lines and
/// a function that ends on line `to`.
pub open spec fn window_end(at: int, n: int, to: int) -> int {
    smaller(smaller(at + CONTEXT_LINES + 1, n), to + 1)
}

/// The line on which byte `b` lies, from line `n` on, where each line is counted with one
/// byte for its end; the number of lines where it lies after all of them.
pub open spec fn line_at(ls: Seq<Seq<char>>, b: int, n: int) -> int
    decreases ls.len() - n,
{
    if n >= ls.len() || b < line_offset(ls, n + 1) {
        n
    } else {
        line_at(ls, b, n + 1)
    }
}

/// The lines around the place `m`, clamped to the enclosing function; `None` where the
/// place does not lie in them.
pub open spec fn window_of(source: Seq<char>, m: Place) -> Option<WindowView> {
    let ls = lines(source);
    let at = line_at(ls, m.start, 0);
    let first = window_first(at, m.func_start);
    let end = window_end(at, ls.len() as int, m.func_end);
    let w = WindowView {
        text: join(ls.subrange(first, end), seq!['\n']),
        first_line: first,
        start: m.start - line_offset(ls, first),
        end: m.end - line_offset(ls, first),
    };
    if first <= end && 0 <= w.start <= w.end && is_place(w.text, w.start) && is_place(w.text, w.end) {
        Some(w)
    } else {
        None
    }
}

proof fn lemma_take_grows(s: Seq<char>, k: int)
    requires
        0 <= k < s.len(),
    ensures
        utf8_len(s.take(k)) < utf8_len(s.take(k + 1)) <= utf8_len(s),
        utf8_len(s.take(k + 1)) == utf8_len(s.take(k)) + crate::utf8::char_len(s[k]),
{
    assert(s.take(k + 1) =~= s.take(k).push(s[k]));
    lemma_len_push(s.take(k), s[k]);
    assert(s =~= s.take(k + 1) + s.skip(k + 1));
    lemma_len_concat(s.take(k + 1), s.skip(k + 1));
}

proof fn lemma_beyond(s: Seq<char>, b: int, k: int)
    requires
        0 <= k <= s.len(),
        utf8_len(s.take(k)) > b,
    ensures
        chars_before(s, b, k) is None,
    decreases s.len() - k,
{
    if k < s.len() {
        lemma_take_grows(s, k);
        lemma_beyond(s, b, k + 1);
    }
}

/// How many characters stand before byte `b`.
fn char_index(v: &[char], b: usize) -> (r: Option<usize>)
    requires
        utf8_len(v@) <= usize::MAX,
    ensures
        r matches Some(k) ==> chars_before(v@, b as int, 0) == Some(k as int) && k <= v@.len()
            && utf8_len(v@.take(k as int)) == b,
        r is None ==> chars_before(v@, b as int, 0) is None,
{
    let mut at: usize = 0;
    let mut k: usize = 0;
    assert(v@.take(0) =~= Seq::<char>::empty());
    loop
        invariant
            k <= v@.len(),
            at == utf8_len(v@.take(k as int)),
            utf8_len(v@) <= usize::MAX,
            chars_before(v@, b as int, 0) == chars_before(v@, b as int, k as int),
        decreases v@.len() - k,
    {
        if at == b {
            return Some(k);
        }
        if at > b {
            proof {
                lemma_beyond(v@, b as int, k as int);
            }
            return None;
        }
        if k == v.len() {
            return None;
        }
        proof {
            lemma_take_grows(v@, k as int);
        }
        at = at + width(v[k]);
        k = k + 1;
    }
}

fn check_place(s: &str, b: usize) -> (r: bool)
    ensures
        r == is_place(s@, b as int),
{
    let bytes = s.as_bytes();
    let total: usize = bytes.len();
    let v = chars_of(s);
    char_index(v.as_slice(), b).is_some() || (b > 0 && b - 1 == total)
}

/// The bytes of the first `n` lines of the source, each counted with one byte for its
/// end.
fn offset_before(Ghost(source): Ghost<Seq<char>>, ls: &Vec<Vec<char>>, n: usize, limit: usize) -> (r: u128)
    requires
        rows(ls@) == lines(source),
        n <= ls@.len(),
        utf8_len(source) == limit,
    ensures
        r == line_offset(rows(ls@), n as int),
{
    if n == 0 {
        return 0;
    }
    proof {
        lemma_line_offset_bound(source, n - 1);
        assert(rows(ls@)[n - 1] == ls@[n - 1]@);
    }
    let before: usize = offset_of(ls, n - 1, limit);
    let len: usize = byte_len(ls[n - 1].as_slice());
    before as u128 + len as u128 + 1
}

/// The line on which byte `b` of the source lies.
fn line_of(Ghost(source): Ghost<Seq<char>>, ls: &Vec<Vec<char>>, b: usize, limit: usize) -> (r: usize)
    requires
        rows(ls@) == lines(source),
        utf8_len(source) == limit,
    ensures
        r == line_at(rows(ls@), b as int, 0),
        r <= ls@.len(),
{
    let ghost all = rows(ls@);
    let mut offset: u128 = 0;
    let mut n: usize = 0;
    while n < ls.len()
        invariant
            n <= ls@.len(),
            all == rows(ls@),
            all == lines(source),
            utf8_len(source) == limit,
            offset == line_offset(all, n as int),
            line_at(all, b as int, 0) == line_at(all, b as int, n as int),
        decreases ls@.len() - n,
    {
        proof {
            lemma_line_offset_bound(source, n as int);
            lemma_line_offset_bound(source, n + 1);
            assert(all[n as int] == ls@[n as int]@);
        }
        offset = offset + byte_len(ls[n].as_slice()) as u128 + 1;
        if (b as u128) < offset {
            return n;
        }
        n = n + 1;
    }
    n
}

/// The lines around a place, clamped to the enclosing function so they never leak into
/// adjacent tests; `None` where the place does not lie in them.
pub fn snippet_window(source: &str, m: &SourceMatch) -> (r: Option<Window>)
    ensures
        r matches Some(w) ==> window_of(source@, m@) == Some(w@),
        r is None ==> window_of(source@, m@) is None,
{
    let bytes = source.as_bytes();
    let limit: usize = bytes.len();
    let v = chars_of(source);
    let ls = lines_of(v.as_slice());
    let ghost all = lines(source@);
    let at: usize = line_of(Ghost(source@), &ls, m.byte_start, limit);
    let n: usize = ls.len();
    let mut first: usize = if at > CONTEXT_LINES {
        at - CONTEXT_LINES
    } else {
        0
    };
    if first < m.func_start_line {
        first = m.func_start_line;
    }
    let mut end: usize = if at < n && n - at > CONTEXT_LINES {
        at + CONTEXT_LINES + 1
    } else {
        n
    };
    if m.func_end_line < end {
        end = m.func_end_line + 1;
    }
    assert(first == window_first(at as int, m.func_start_line as int));
    assert(end == window_end(at as int, n as int, m.func_end_line as int));
    if first > end {
        return None;
    }
    let offset: u128 = offset_before(Ghost(source@), &ls, first, limit);
    if (m.byte_start as u128) < offset || m.byte_end < m.byte_start {
        return None;
    }
    let start: usize = (m.byte_start as u128 - offset) as usize;
    let stop: usize = (m.byte_end as u128 - offset) as usize;
    let mut chosen: Vec<Vec<char>> = Vec::new();
    let mut i: usize = first;
    while i < end
        invariant
            first <= i <= end <= ls@.len(),
            all == rows(ls@),
            rows(chosen@) == all.subrange(first as int, i as int),
        decreases end - i,
    {
        let line = copy_range(ls[i].as_slice(), 0, ls[i].len());
        assert(line@ =~= all[i as int]);
        let ghost before = chosen@;
        chosen.push(line);
        i = i + 1;
        assert(rows(chosen@) =~= rows(before).push(all[i - 1]));
        assert(all.subrange(first as int, i as int) =~= all.subrange(first as int, i - 1).push(
            all[i - 1],
        ));
    }
    let mut sep: Vec<char> = Vec::new();
    sep.push('\n');
    assert(sep@ =~= seq!['\n']);
    let text = join_with(&chosen, sep.as_slice());
    let text = string_of(text.as_slice());
    if !check_place(text.as_str(), start) || !check_place(text.as_str(), stop) {
        return None;
    }
    Some(Window { text, first_line: first, start, end: stop })
}

proof fn lemma_chars_before(s: Seq<char>, k: int, from: int)
    requires
        0 <= from <= k <= s.len(),
    ensures
        chars_before(s, utf8_len(s.take(k)) as int, from) == Some(k),
    decreases k - from,
{
    if from < k {
        lemma_take_shorter(s, from, k);
        lemma_chars_before(s, k, from + 1);
    }
}

proof fn lemma_take_shorter(s: Seq<char>, i: int, k: int)
    requires
        0 <= i < k <= s.len(),
    ensures
        utf8_len(s.take(i)) < utf8_len(s.take(k)),
    decreases k - i,
{
    lemma_take_grows(s, k - 1);
    if i < k - 1 {
        lemma_take_shorter(s, i, k - 1);
    }
}

proof fn lemma_trim_start_suffix(s: Seq<char>)
    ensures
        trim_start(s).len() <= s.len(),
        s == s.take(s.len() - trim_start(s).len()) + trim_start(s),
    decreases s.len(),
{
    if s.len() > 0 && crate::words::is_whitespace(s[0]) {
        let t = s.drop_first();
        lemma_trim_start_suffix(t);
        let n = s.len() - trim_start(s).len();
        assert(trim_start(s) == trim_start(t));
        assert(s.take(n) =~= seq![s[0]] + t.take(n - 1));
        assert(s =~= seq![s[0]] + t);
        assert(seq![s[0]] + (t.take(n - 1) + trim_start(t)) =~= s.take(n) + trim_start(s));
    } else {
        assert(s =~= s.take(0) + s);
    }
}

/// In a source without carriage returns before newlines, the bytes of a match are the
/// matching line without its indentation.
pub proof fn lemma_match_is_the_line(source: Seq<char>, name: Seq<char>, i: int)
    requires
        no_crlf(source),
        0 <= i < lines(source).len(),
    ensures
        ({
            let m = line_place(lines(source), name, i);
            &&& 0 <= m.start <= m.end <= encode_utf8(source).len()
            &&& encode_utf8(source).subrange(m.start, m.end) == encode_utf8(
                trim_start(lines(source)[i]),
            )
        }),
{
    let ls = lines(source);
    let ps = split(source, '\n');
    lemma_plain_lines(source, i);
    lemma_piece_place(source, i);
    lemma_piece_offset(source, i);
    let line = ls[i];
    let at = piece_start(ps, i) as int;
    lemma_trim_start_suffix(line);
    let n = line.len() - trim_start(line).len();
    let before = source.take(at);
    let indent = line.take(n);
    let rest = source.skip(at + line.len());
    assert(source =~= before + indent + trim_start(line) + rest) by {
        assert(source =~= before + line + rest);
    }
    lemma_encode_concat(before + indent + trim_start(line), rest);
    lemma_encode_concat(before + indent, trim_start(line));
    lemma_encode_concat(before, indent);
    lemma_encode_concat(indent, trim_start(line));
    let (a, b, c, d) = (
        encode_utf8(before),
        encode_utf8(indent),
        encode_utf8(trim_start(line)),
        encode_utf8(rest),
    );
    assert((a + b + c + d).subrange((a + b).len() as int, (a + b + c).len() as int) =~= c);
}

/// A line in the function lies after the function's first line.
proof fn lemma_start_before(ls: Seq<Seq<char>>, name: Seq<char>, n: int)
    requires
        0 <= n,
    ensures
        0 <= walk_to(ls, name, n).start <= n,
        walk_to(ls, name, n).inside ==> walk_to(ls, name, n).start < n,
    decreases n,
{
    if n > 0 {
        lemma_start_before(ls, name, n - 1);
    }
}

proof fn lemma_end_after(ls: Seq<Seq<char>>, i: int, depth: int)
    ensures
        end_from(ls, i, depth) >= i,
    decreases ls.len() - i,
{
    if depth > 0 && i + 1 < ls.len() {
        lemma_end_after(ls, i + 1, depth + brace_change(ls[i + 1]));
    }
}

/// The lines that are shown all lie in the function around the place.
pub proof fn lemma_window_stays_in_function(source: Seq<char>, m: Place)
    requires
        window_of(source, m) is Some,
    ensures
        ({
            let w = window_of(source, m)->0;
            exists|end: int|
                m.func_start <= w.first_line <= end <= m.func_end + 1 && end <= lines(
                    source,
                ).len() && w.text == #[trigger] join(
                    lines(source).subrange(w.first_line, end),
                    seq!['\n'],
                )
        }),
{
    let at = line_at(lines(source), m.start, 0);
    let end = window_end(at, lines(source).len() as int, m.func_end);
    let w = window_of(source, m)->0;
    assert(w.text == join(lines(source).subrange(w.first_line, end), seq!['\n']));
}

/// A line that was found is shown: the window has it, and its span is the line without its
/// indentation.
pub proof fn lemma_window_shows_the_line(source: Seq<char>, name: Seq<char>, i: int)
    requires
        0 <= i < lines(source).len(),
        walk_to(lines(source), name, i).inside,
    ensures
        ({
            let m = line_place(lines(source), name, i);
            let w = window_of(source, m)->0;
            &&& window_of(source, m) is Some
            &&& w.end <= utf8_len(w.text)
            &&& encode_utf8(w.text).subrange(w.start, w.end) == encode_utf8(
                trim_start(lines(source)[i]),
            )
        }),
{
    let ls = lines(source);
    let line = ls[i];
    let m = line_place(ls, name, i);
    lemma_trim_start_suffix(line);
    let n = line.len() - trim_start(line).len();
    lemma_len_concat(line.take(n), trim_start(line));
    lemma_line_at(ls, m.start, 0, i);
    lemma_start_before(ls, name, i);
    lemma_end_after(ls, i, walk_to(ls, name, i).depth + brace_change(line));
    let first = window_first(i, m.func_start);
    let end = window_end(i, ls.len() as int, m.func_end);
    assert(first <= i < end);
    let shown = ls.subrange(first, end);
    assert(shown[i - first] == line);
    lemma_offset_in_run(ls, first, end, i - first);
    lemma_place_in_join(shown, i - first);
}

/// The line on which a byte lies.
proof fn lemma_line_at(ls: Seq<Seq<char>>, b: int, n: int, i: int)
    requires
        0 <= n <= i < ls.len(),
        line_offset(ls, i) <= b < line_offset(ls, i + 1),
    ensures
        line_at(ls, b, n) == i,
    decreases i - n,
{
    if n < i {
        lemma_offset_grows(ls, n + 1, i);
        lemma_line_at(ls, b, n + 1, i);
    }
}

/// Where a line without its indentation stands among joined lines.
proof fn lemma_place_in_join(shown: Seq<Seq<char>>, j: int)
    requires
        0 <= j < shown.len(),
    ensures
        ({
            let text = join(shown, seq!['\n']);
            let line = shown[j];
            let end = line_offset(shown, j) + utf8_len(line);
            let start = end - utf8_len(trim_start(line));
            &&& 0 <= start <= end <= utf8_len(text)
            &&& is_place(text, start)
            &&& is_place(text, end as int)
            &&& encode_utf8(text).subrange(start, end as int) == encode_utf8(trim_start(line))
        }),
{
    let text = join(shown, seq!['\n']);
    let line = shown[j];
    lemma_trim_start_suffix(line);
    let n = line.len() - trim_start(line).len();
    let indent = line.take(n);
    lemma_len_concat(indent, trim_start(line));
    lemma_join_place(shown, j);
    let p = piece_start(shown, j) as int;
    let head = text.take(p);
    let rest = text.skip(p + line.len());
    assert(text =~= head + line + rest) by {
        assert(text =~= head + text.subrange(p, p + line.len()) + rest);
    }
    assert(head + line =~= head + indent + trim_start(line));
    assert(text.take(p + n) =~= head + indent);
    assert(text.take(p + line.len()) =~= head + line);
    lemma_chars_before(text, p + n, 0);
    lemma_chars_before(text, p + line.len(), 0);
    lemma_encode_concat(head + line, rest);
    lemma_encode_concat(head + indent, trim_start(line));
    lemma_encode_concat(head, indent);
    lemma_len_concat(head, line);
    let (b, c, d) = (
        encode_utf8(head + indent),
        encode_utf8(trim_start(line)),
        encode_utf8(rest),
    );
    assert((b + c + d).subrange(b.len() as int, (b + c).len() as int) =~= c);
}

/// What `annotate_snippets::Renderer::styled` renders: an error with this title, these
/// lines of the named file, the first of them numbered `line`, and the bytes from
/// `start` to `end` marked.
pub uninterp spec fn rendered(
    title: Seq<char>,
    text: Seq<char>,
    path: Seq<char>,
    line: int,
    start: int,
    end: int,
) -> Seq<char>;

/// Calls `annotate_snippets::Renderer::render` with the styles and the width that
/// `Renderer::styled` has. Claims that the text depends on the arguments alone; how the
/// lines are drawn is not said. The renderer panics on a span that ends more than one
/// byte past the text or splits a character, and adds up to four to the line numbers.
#[verifier::external_body]
pub(crate) fn render_report(title: &str, text: &str, path: &str, line: usize, start: usize, end: usize) -> (r:
    String)
    requires
        start <= end,
        is_place(text@, start as int),
        is_place(text@, end as int),
        line + text@.len() + 4 <= usize::MAX,
    ensures
        r@ == rendered(title@, text@, path@, line as int, start as int, end as int),
{
    let span = AnnotationKind::Primary.span(start..end);
    let snippet = Snippet::source(text).path(path).line_start(line).fold(false).annotation(span);
    let report = &[Level::ERROR.primary_title(title).element(snippet)];
    Renderer::styled().render(report)
}

/// How a snippet names its file: by the file name, or by the path where it has none.
pub open spec fn file_label(path: Seq<u8>) -> Seq<char> {
    match file_name(path) {
        Some(n) => lossy(n),
        None => lossy(path),
    }
}

/// The diagnostic for a window of lines.
pub open spec fn window_report(path: Seq<u8>, w: WindowView) -> Seq<char> {
    rendered("command failed"@, w.text, file_label(path), w.first_line + 1, w.start, w.end)
}

/// How a snippet names its file.
pub fn label_of(path: &UnixPath) -> (r: String)
    ensures
        r@ == file_label(path@),
{
    match path.file_name() {
        Some(n) => lossy_text(n.as_slice()),
        None => path.display(),
    }
}

/// Render a diagnostic for the failing line with surrounding context, clamped to the
/// enclosing function boundaries; `None` where the place does not lie in the window.
pub fn render_snippet(source_path: &UnixPath, source: &str, m: &SourceMatch) -> (r: Option<String>)
    requires
        utf8_len(source@) <= isize::MAX,
    ensures
        r matches Some(text) ==> window_of(source@, m@) matches Some(w) && text@ == window_report(
            source_path@,
            w,
        ),
        r is None ==> window_of(source@, m@) is None,
{
    match snippet_window(source, m) {
        Some(w) => {
            proof {
                lemma_window_size(source@, m@);
            }
            let label = label_of(source_path);
            let text = render_report(
                "command failed",
                w.text.as_str(),
                label.as_str(),
                w.first_line + 1,
                w.start,
                w.end,
            );
            Some(text)
        },
        None => None,
    }
}

proof fn lemma_window_size(source: Seq<char>, m: Place)
    requires
        window_of(source, m) is Some,
    ensures
        ({
            let w = window_of(source, m)->0;
            w.first_line + w.text.len() <= utf8_len(source) + 1
        }),
{
    lemma_window_stays_in_function(source, m);
    let w = window_of(source, m)->0;
    let ls = lines(source);
    let end = choose|end: int|
        m.func_start <= w.first_line <= end <= m.func_end + 1 && end <= ls.len() && w.text
            == #[trigger] join(ls.subrange(w.first_line, end), seq!['\n']);
    let shown = ls.subrange(w.first_line, end);
    lemma_line_offset_bound(source, end);
    lemma_offset_grows(ls, 0, w.first_line);
    if w.first_line < end {
        lemma_offset_in_run(ls, w.first_line, end, end - w.first_line);
        lemma_join_len(shown);
        lemma_len_bound(w.text);
        if end < ls.len() {
            lemma_offset_grows(ls, end, end);
        }
    }
}

/// The lines that a failed test shows, from its xtrace log, the functions that it ran
/// and its source text, each `None` where it could not be read.
pub open spec fn failure_text(
    name: Seq<char>,
    path: Seq<u8>,
    xtrace: Option<Seq<char>>,
    functions: Option<Seq<char>>,
    source: Option<Seq<char>>,
) -> Seq<char> {
    match (xtrace, functions, source) {
        (Some(x), Some(f), Some(s)) => match last_entry(lines(x)) {
            Some((lineno, command)) => {
                let fs = lines(f);
                if 1 <= lineno <= fs.len() {
                    line_text(path, s, name, bare(fs[lineno - 1])) + command_text(command)
                } else {
                    Seq::empty()
                }
            },
            None => Seq::empty(),
        },
        _ => Seq::empty(),
    }
}

/// The snippet around the line of the test that reads `needle`.
pub open spec fn line_text(path: Seq<u8>, source: Seq<char>, name: Seq<char>, needle: Seq<char>) -> Seq<
    char,
> {
    match hit_from(lines(source), name, needle, 0) {
        Some(i) => {
            match window_of(source, line_place(lines(source), name, i)) {
                Some(w) => window_report(path, w) + "\n"@,
                None => Seq::empty(),
            }
        },
        None => Seq::empty(),
    }
}

/// The operands of the command, where it is a comparison.
pub open spec fn command_text(command: Seq<char>) -> Seq<char> {
    match bracket_parts(command) {
        Some((left, op, right)) => bracket_report(left, op, right),
        None => Seq::empty(),
    }
}

/// The lines that show where a failed test went wrong.
pub fn failure_report(
    name: &str,
    source_path: &UnixPath,
    xtrace: Option<&str>,
    functions: Option<&str>,
    source: Option<&str>,
) -> (r: String)
    requires
        source matches Some(s) ==> utf8_len(s@) <= isize::MAX,
    ensures
        r@ == failure_text(
            name@,
            source_path@,
            option_view(xtrace),
            option_view(functions),
            option_view(source),
        ),
{
    let mut v: Vec<char> = Vec::new();
    if let (Some(x), Some(f), Some(s)) = (xtrace, functions, source) {
        if let Some(failure) = parse_xtrace_failure(x) {
            let text = chars_of(f);
            let fs = lines_of(text.as_slice());
            if 1 <= failure.lineno && failure.lineno <= fs.len() {
                let line = trimmed(fs[failure.lineno - 1].as_slice());
                let line = trimmed_end_of(line.as_slice(), ';');
                let needle = string_of(line.as_slice());
                assert(needle@ == bare(lines(f@)[failure.lineno - 1]));
                if let Some(m) = find_line_in_source(s, name, needle.as_str()) {
                    if let Some(snippet) = render_snippet(source_path, s, &m) {
                        extend_str(&mut v, snippet.as_str());
                        extend_str(&mut v, "\n");
                    }
                }
                assert(v@ =~= line_text(source_path@, s@, name@, needle@));
                if let Some(expr) = parse_bracket_expr(failure.command.as_str()) {
                    let lines = render_bracket_diff(&expr);
                    extend_str(&mut v, lines.as_str());
                }
                assert(v@ =~= line_text(source_path@, s@, name@, needle@) + command_text(
                    failure.command@,
                ));
            }
        }
    }
    string_of(v.as_slice())
}

/// The text of what could be read.
pub open spec fn option_view(s: Option<&str>) -> Option<Seq<char>> {
    match s {
        Some(t) => Some(t@),
        None => None,
    }
}

/// The lines that are shown with a found line are those of its function that lie at most three
/// before or after it.
pub proof fn lemma_window_shows_the_lines_around(source: Seq<char>, name: Seq<char>, i: int) -> (end: int)
    requires
        0 <= i < lines(source).len(),
        walk_to(lines(source), name, i).inside,
    ensures
        ({
            let m = line_place(lines(source), name, i);
            let w = window_of(source, m)->0;
            &&& window_of(source, m) is Some
            &&& w.text == join(lines(source).subrange(w.first_line, end), seq!['\n'])
            &&& forall|k: int|
                w.first_line <= k < end <==> #[trigger] is_near(k, i, m, lines(source).len() as int)
        }),
{
    let ls = lines(source);
    let m = line_place(ls, name, i);
    lemma_window_shows_the_line(source, name, i);
    lemma_trim_start_suffix(ls[i]);
    let n = ls[i].len() - trim_start(ls[i]).len();
    lemma_len_concat(ls[i].take(n), trim_start(ls[i]));
    lemma_line_at(ls, m.start, 0, i);
    lemma_start_before(ls, name, i);
    lemma_end_after(ls, i, walk_to(ls, name, i).depth + brace_change(ls[i]));
    window_end(i, ls.len() as int, m.func_end)
}

/// Line `k` lies at most three lines from line `i`, in the function and in the text.
pub open spec fn is_near(k: int, i: int, m: Place, n: int) -> bool {
    &&& i - 3 <= k <= i + 3
    &&& m.func_start <= k <= m.func_end
    &&& 0 <= k < n
}

/// The report of a failed test shows the first line of the test that reads as the traced line
/// of its functions does, and then the operands of the traced command, where it is a
/// comparison.
pub proof fn lemma_report_shows_the_traced_line(
    name: Seq<char>,
    path: Seq<u8>,
    x: Seq<char>,
    f: Seq<char>,
    s: Seq<char>,
    lineno: int,
    command: Seq<char>,
    start: int,
    i: int,
)
    requires
        name.len() > 0 ==> !crate::words::is_whitespace(name[0]),
        last_entry(lines(x)) == Some((lineno, command)),
        1 <= lineno <= lines(f).len(),
        is_line_of(lines(s), name, bare(lines(f)[lineno - 1]), start, i),
        forall|t: int, k: int|
            #[trigger] is_line_of(lines(s), name, bare(lines(f)[lineno - 1]), t, k) ==> i <= k,
    ensures
        ({
            let m = line_place(lines(s), name, i);
            &&& window_of(s, m) is Some
            &&& failure_text(name, path, Some(x), Some(f), Some(s)) == window_report(path, window_of(s, m)->0)
                + "\n"@ + command_text(command)
        }),
{
    let ls = lines(s);
    let needle = bare(lines(f)[lineno - 1]);
    lemma_found_line_is_in_the_named_function(ls, name, needle);
    let j = hit_from(ls, name, needle, 0)->0;
    assert(is_line_of(ls, name, needle, line_place(ls, name, j).func_start, j));
    lemma_walk_is_in_the_function(ls, name, i);
    lemma_definition_begins_with_the_name(ls[start], name);
    lemma_window_shows_the_line(s, name, i);
}

/// A line that was found is shown, with the lines around it: the window over the place that was
/// found spans the line without its indentation.
pub proof fn lemma_found_line_is_shown(
    source: &str,
    name: &str,
    needle: &str,
    m: SourceMatch,
    w: Option<Window>,
) -> (at: (int, int))
    requires
        name@.len() > 0 ==> !crate::words::is_whitespace(name@[0]),
        call_ensures(find_line_in_source, (source, name, needle), Some(m)),
        call_ensures(snippet_window, (source, &m), w),
    ensures
        is_line_of(lines(source@), name@, needle@, at.0, at.1),
        forall|s: int, k: int| #[trigger] is_line_of(lines(source@), name@, needle@, s, k) ==> at.1 <= k,
        w matches Some(v) && v.end <= utf8_len(v.text@) && encode_utf8(v.text@).subrange(
            v.start as int,
            v.end as int,
        ) == encode_utf8(trim_start(lines(source@)[at.1])),
{
    let ls = lines(source@);
    lemma_found_line_is_in_the_named_function(ls, name@, needle@);
    let i = hit_from(ls, name@, needle@, 0)->0;
    let p = line_place(ls, name@, i);
    assert(m@ == p);
    lemma_walk_is_in_the_function(ls, name@, i);
    lemma_definition_begins_with_the_name(ls[p.func_start], name@);
    lemma_window_shows_the_line(source@, name@, i);
    (p.func_start, i)
}

} // verus!
