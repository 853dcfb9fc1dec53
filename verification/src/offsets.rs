//! Where the lines of a text begin, in bytes.

use vstd::prelude::*;
use vstd::utf8::encode_utf8;

use crate::text::{join, lemma_split_pieces, split};
use crate::utf8::{lemma_len_concat, lemma_len_push, utf8_len};
use crate::words::{lines, strip_cr};

verus! {

/// The bytes of the first `n` lines, each counted with one byte for its end.
pub open spec fn line_offset(ls: Seq<Seq<char>>, n: int) -> nat
    decreases n,
{
    if n <= 0 {
        0
    } else {
        line_offset(ls, n - 1) + utf8_len(ls[n - 1]) + 1
    }
}

/// The characters of the first `n` pieces, each counted with one for its end.
pub open spec fn piece_start(ps: Seq<Seq<char>>, n: int) -> nat
    decreases n,
{
    if n <= 0 {
        0
    } else {
        piece_start(ps, n - 1) + ps[n - 1].len() + 1
    }
}

pub proof fn lemma_newline_len()
    ensures
        utf8_len(seq!['\n']) == 1,
{
    lemma_len_push(Seq::empty(), '\n');
    assert(Seq::<char>::empty().push('\n') =~= seq!['\n']);
    assert(encode_utf8(Seq::<char>::empty()).len() == 0);
}

proof fn lemma_piece_start_prefix(a: Seq<Seq<char>>, b: Seq<Seq<char>>, n: int)
    requires
        0 <= n <= a.len(),
        n <= b.len(),
        forall|i: int| 0 <= i < n ==> a[i] == b[i],
    ensures
        piece_start(a, n) == piece_start(b, n),
        line_offset(a, n) == line_offset(b, n),
    decreases n,
{
    if n > 0 {
        lemma_piece_start_prefix(a, b, n - 1);
    }
}

/// A piece of a text stands where the pieces before it end.
pub proof fn lemma_piece_place(s: Seq<char>, i: int)
    requires
        0 <= i < split(s, '\n').len(),
    ensures
        ({
            let ps = split(s, '\n');
            let at = piece_start(ps, i) as int;
            &&& at + ps[i].len() <= s.len()
            &&& s.subrange(at, at + ps[i].len()) == ps[i]
            &&& i == ps.len() - 1 ==> at + ps[i].len() == s.len()
            &&& i < ps.len() - 1 ==> at + ps[i].len() < s.len() && s[at + ps[i].len()] == '\n'
        }),
    decreases s.len(),
{
    let ps = split(s, '\n');
    lemma_split_pieces(s, '\n');
    if s.len() == 0 {
        assert(s.subrange(0, 0) =~= ps[0]);
    } else {
        let t = s.drop_last();
        let r = split(t, '\n');
        lemma_split_pieces(t, '\n');
        let last = r.len() - 1;
        if s.last() == '\n' {
            assert(ps.len() == r.len() + 1);
            if i < r.len() {
                lemma_piece_place(t, i);
                lemma_piece_start_prefix(ps, r, i);
                let at = piece_start(ps, i) as int;
                assert(s.subrange(at, at + ps[i].len()) =~= t.subrange(at, at + ps[i].len()));
            } else {
                lemma_piece_place(t, last);
                lemma_piece_start_prefix(ps, r, last);
                assert(piece_start(ps, i) == piece_start(ps, last) + ps[last].len() + 1);
                assert(s.subrange(s.len() as int, s.len() as int) =~= ps[i]);
            }
        } else {
            lemma_piece_place(t, i);
            lemma_piece_start_prefix(ps, r, i);
            let at = piece_start(ps, i) as int;
            if i < last {
                assert(ps[i] == r[i]);
                assert(s.subrange(at, at + ps[i].len()) =~= t.subrange(at, at + r[i].len()));
            } else {
                assert(ps[i] == r[i].push(s.last()));
                assert(s.subrange(at, at + ps[i].len()) =~= t.subrange(at, at + r[i].len()).push(
                    s.last(),
                ));
            }
        }
    }
}

/// The bytes before a piece are those of the characters before it.
pub proof fn lemma_piece_offset(s: Seq<char>, i: int)
    requires
        0 <= i < split(s, '\n').len(),
    ensures
        piece_start(split(s, '\n'), i) <= s.len(),
        utf8_len(s.take(piece_start(split(s, '\n'), i) as int)) == line_offset(split(s, '\n'), i),
    decreases i,
{
    let ps = split(s, '\n');
    lemma_piece_place(s, i);
    if i > 0 {
        lemma_piece_offset(s, i - 1);
        lemma_piece_place(s, i - 1);
        lemma_newline_len();
        let a = piece_start(ps, i - 1) as int;
        let p = ps[i - 1];
        assert(s.take(a + p.len() + 1) =~= s.take(a) + p + seq!['\n']);
        lemma_len_concat(s.take(a) + p, seq!['\n']);
        lemma_len_concat(s.take(a), p);
    } else {
        assert(s.take(0) =~= Seq::<char>::empty());
    }
}

/// Every line is a piece of the text, but for the carriage return before its end.
pub proof fn lemma_lines_are_pieces(s: Seq<char>)
    ensures
        ({
            let ps = split(s, '\n');
            let ls = lines(s);
            &&& ps.len() - 1 <= ls.len() <= ps.len()
            &&& forall|i: int| 0 <= i < ls.len() ==> (#[trigger] ls[i] == ps[i] || ls[i] == strip_cr(ps[i]))
        }),
{
    lemma_split_pieces(s, '\n');
}

/// The offset of a line lies in the text.
pub proof fn lemma_line_offset_bound(s: Seq<char>, i: int)
    requires
        0 <= i <= lines(s).len(),
    ensures
        i < lines(s).len() ==> line_offset(lines(s), i) + utf8_len(lines(s)[i]) <= utf8_len(s),
        i == lines(s).len() ==> line_offset(lines(s), i) <= utf8_len(s) + 1,
{
    let ps = split(s, '\n');
    let ls = lines(s);
    lemma_split_pieces(s, '\n');
    lemma_lines_are_pieces(s);
    if i < ps.len() {
        lemma_offset_no_more(ls, ps, i);
        lemma_piece_offset(s, i);
        lemma_piece_place(s, i);
        let a = piece_start(ps, i) as int;
        assert(s =~= s.take(a) + ps[i] + s.skip(a + ps[i].len()));
        lemma_len_concat(s.take(a) + ps[i], s.skip(a + ps[i].len()));
        lemma_len_concat(s.take(a), ps[i]);
        if i < ls.len() {
            lemma_strip_no_more(ps[i]);
        }
    } else {
        let k = i - 1;
        lemma_offset_no_more(ls, ps, k);
        lemma_piece_offset(s, k);
        lemma_piece_place(s, k);
        let a = piece_start(ps, k) as int;
        assert(s =~= s.take(a) + ps[k]);
        lemma_len_concat(s.take(a), ps[k]);
        lemma_strip_no_more(ps[k]);
    }
}

proof fn lemma_strip_no_more(p: Seq<char>)
    ensures
        utf8_len(strip_cr(p)) <= utf8_len(p),
{
    if p.len() > 0 {
        lemma_len_push(p.drop_last(), p.last());
        assert(p =~= p.drop_last().push(p.last()));
    }
}

proof fn lemma_offset_no_more(ls: Seq<Seq<char>>, ps: Seq<Seq<char>>, n: int)
    requires
        0 <= n <= ls.len() <= ps.len(),
        forall|i: int| 0 <= i < ls.len() ==> (#[trigger] ls[i] == ps[i] || ls[i] == strip_cr(ps[i])),
    ensures
        line_offset(ls, n) <= line_offset(ps, n),
    decreases n,
{
    if n > 0 {
        lemma_offset_no_more(ls, ps, n - 1);
        assert(ls[n - 1] == ps[n - 1] || ls[n - 1] == strip_cr(ps[n - 1]));
        lemma_strip_no_more(ps[n - 1]);
    }
}

/// No line of `s` ends with a carriage return and a newline.
pub open spec fn no_crlf(s: Seq<char>) -> bool {
    forall|i: int| 0 <= i < s.len() - 1 ==> !(#[trigger] s[i] == '\r' && s[i + 1] == '\n')
}

/// Without carriage returns before newlines, every line is a piece of the text, with
/// the same offset.
pub proof fn lemma_plain_lines(s: Seq<char>, i: int)
    requires
        no_crlf(s),
        0 <= i < lines(s).len(),
    ensures
        i < split(s, '\n').len(),
        lines(s)[i] == split(s, '\n')[i],
        line_offset(lines(s), i) == line_offset(split(s, '\n'), i),
    decreases i,
{
    let ps = split(s, '\n');
    let ls = lines(s);
    lemma_lines_are_pieces(s);
    lemma_piece_place(s, i);
    if i < ps.len() - 1 && ps[i].len() > 0 {
        let at = piece_start(ps, i) as int;
        let k = at + ps[i].len() - 1;
        assert(s.subrange(at, at + ps[i].len())[ps[i].len() - 1] == s[k]);
        assert(!(s[k] == '\r' && s[k + 1] == '\n'));
    }
    if i > 0 {
        lemma_plain_lines(s, i - 1);
    }
}

/// Joined lines: how long they are.
pub proof fn lemma_join_len(ls: Seq<Seq<char>>)
    requires
        ls.len() > 0,
    ensures
        join(ls, seq!['\n']).len() + 1 == piece_start(ls, ls.len() as int),
        utf8_len(join(ls, seq!['\n'])) + 1 == line_offset(ls, ls.len() as int),
    decreases ls.len(),
{
    let n = ls.len() as int;
    if n == 1 {
        assert(piece_start(ls, 0) == 0);
        assert(line_offset(ls, 0) == 0);
    } else {
        let front = ls.drop_last();
        lemma_join_len(front);
        lemma_piece_start_prefix(front, ls, n - 1);
        lemma_newline_len();
        let j = join(front, seq!['\n']);
        lemma_len_concat(j + seq!['\n'], ls.last());
        lemma_len_concat(j, seq!['\n']);
    }
}

/// Joined lines: where each of them stands.
pub proof fn lemma_join_place(ls: Seq<Seq<char>>, i: int)
    requires
        0 <= i < ls.len(),
    ensures
        ({
            let t = join(ls, seq!['\n']);
            let at = piece_start(ls, i) as int;
            &&& at + ls[i].len() <= t.len()
            &&& t.subrange(at, at + ls[i].len()) == ls[i]
            &&& utf8_len(t.take(at)) == line_offset(ls, i)
        }),
    decreases ls.len(),
{
    let t = join(ls, seq!['\n']);
    let n = ls.len() as int;
    let at = piece_start(ls, i) as int;
    if n == 1 {
        assert(t.subrange(0, t.len() as int) =~= t);
        assert(t.take(0) =~= Seq::<char>::empty());
    } else {
        let front = ls.drop_last();
        let j = join(front, seq!['\n']);
        assert(t == j + seq!['\n'] + ls.last());
        lemma_piece_start_prefix(front, ls, i);
        if i < n - 1 {
            lemma_join_place(front, i);
            assert(t.subrange(at, at + ls[i].len()) =~= j.subrange(at, at + ls[i].len()));
            assert(t.take(at) =~= j.take(at));
        } else {
            lemma_join_len(front);
            lemma_newline_len();
            assert(t.subrange(at, at + ls[i].len()) =~= ls[i]);
            assert(t.take(at) =~= j + seq!['\n']);
            lemma_len_concat(j, seq!['\n']);
        }
    }
}

/// The offsets in a run of lines are those in all lines, less where the run begins.
pub proof fn lemma_offset_in_run(ls: Seq<Seq<char>>, first: int, end: int, i: int)
    requires
        0 <= first <= end <= ls.len(),
        0 <= i <= end - first,
    ensures
        line_offset(ls.subrange(first, end), i) + line_offset(ls, first) == line_offset(ls, first + i),
    decreases i,
{
    if i > 0 {
        lemma_offset_in_run(ls, first, end, i - 1);
        assert(ls.subrange(first, end)[i - 1] == ls[first + i - 1]);
    }
}

} // verus!
