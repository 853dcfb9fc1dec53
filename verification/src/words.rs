//! White space, words and lines of a text.

use vstd::prelude::*;

use crate::text::{copy_range, join, lemma_split_concat, lemma_split_join, lemma_split_pieces, rows, same, split, split_on};

verus! {

/// The characters with the Unicode property White_Space.
pub open spec fn is_whitespace(c: char) -> bool {
    let n = c as u32;
    ||| 0x9 <= n <= 0xd
    ||| n == 0x20
    ||| n == 0x85
    ||| n == 0xa0
    ||| n == 0x1680
    ||| 0x2000 <= n <= 0x200a
    ||| n == 0x2028
    ||| n == 0x2029
    ||| n == 0x202f
    ||| n == 0x205f
    ||| n == 0x3000
}

/// Whether a character is white space.
pub fn white(c: char) -> (r: bool)
    ensures
        r == is_whitespace(c),
{
    let n: u32 = c as u32;
    (0x9 <= n && n <= 0xd) || n == 0x20 || n == 0x85 || n == 0xa0 || n == 0x1680 || (0x2000 <= n && n
        <= 0x200a) || n == 0x2028 || n == 0x2029 || n == 0x202f || n == 0x205f || n == 0x3000
}

/// `s` without the white space at its beginning.
pub open spec fn trim_start(s: Seq<char>) -> Seq<char>
    decreases s.len(),
{
    if s.len() > 0 && is_whitespace(s[0]) {
        trim_start(s.drop_first())
    } else {
        s
    }
}

/// `s` without the white space at its end.
pub open spec fn trim_end(s: Seq<char>) -> Seq<char>
    decreases s.len(),
{
    if s.len() > 0 && is_whitespace(s.last()) {
        trim_end(s.drop_last())
    } else {
        s
    }
}

/// `s` without the white space around it.
pub open spec fn trim(s: Seq<char>) -> Seq<char> {
    trim_end(trim_start(s))
}

/// `s` without any `c` at its end.
pub open spec fn trim_end_of(s: Seq<char>, c: char) -> Seq<char>
    decreases s.len(),
{
    if s.len() > 0 && s.last() == c {
        trim_end_of(s.drop_last(), c)
    } else {
        s
    }
}

/// `s` without any `c` at its beginning.
pub open spec fn trim_start_of(s: Seq<char>, c: char) -> Seq<char>
    decreases s.len(),
{
    if s.len() > 0 && s[0] == c {
        trim_start_of(s.drop_first(), c)
    } else {
        s
    }
}

/// How many characters of white space stand at the beginning.
pub fn leading_white(v: &[char]) -> (n: usize)
    ensures
        n <= v@.len(),
        v@.skip(n as int) == trim_start(v@),
        forall|i: int| 0 <= i < n ==> is_whitespace(#[trigger] v@[i]),
{
    let mut n: usize = 0;
    assert(v@.skip(0) =~= v@);
    while n < v.len() && white(v[n])
        invariant
            n <= v@.len(),
            trim_start(v@.skip(n as int)) == trim_start(v@),
            forall|i: int| 0 <= i < n ==> is_whitespace(#[trigger] v@[i]),
        decreases v@.len() - n,
    {
        assert(v@.skip(n as int).drop_first() =~= v@.skip(n + 1));
        n = n + 1;
    }
    n
}

/// The length of `v` without the white space at its end.
pub fn trimmed_len(v: &[char]) -> (n: usize)
    ensures
        n <= v@.len(),
        v@.take(n as int) == trim_end(v@),
{
    let mut n: usize = v.len();
    assert(v@.take(n as int) =~= v@);
    while n > 0 && white(v[n - 1])
        invariant
            n <= v@.len(),
            trim_end(v@.take(n as int)) == trim_end(v@),
        decreases n,
    {
        assert(v@.take(n as int).drop_last() =~= v@.take(n - 1));
        n = n - 1;
    }
    n
}

/// The text without the white space at its beginning.
pub fn trimmed_start(v: &[char]) -> (r: Vec<char>)
    ensures
        r@ == trim_start(v@),
{
    let n: usize = leading_white(v);
    let r = copy_range(v, n, v.len());
    assert(r@ =~= v@.skip(n as int));
    r
}

/// The text without the white space around it.
pub fn trimmed(v: &[char]) -> (r: Vec<char>)
    ensures
        r@ == trim(v@),
{
    let s = trimmed_start(v);
    let n: usize = trimmed_len(s.as_slice());
    let r = copy_range(s.as_slice(), 0, n);
    assert(r@ =~= s@.take(n as int));
    r
}

/// The text without any `c` at its end.
pub fn trimmed_end_of(v: &[char], c: char) -> (r: Vec<char>)
    ensures
        r@ == trim_end_of(v@, c),
{
    let mut n: usize = v.len();
    assert(v@.take(n as int) =~= v@);
    while n > 0 && same(v[n - 1], c)
        invariant
            n <= v@.len(),
            trim_end_of(v@.take(n as int), c) == trim_end_of(v@, c),
        decreases n,
    {
        assert(v@.take(n as int).drop_last() =~= v@.take(n - 1));
        n = n - 1;
    }
    let r = copy_range(v, 0, n);
    assert(r@ =~= v@.take(n as int));
    r
}

/// The text without any `c` at its beginning.
pub fn trimmed_start_of(v: &[char], c: char) -> (r: Vec<char>)
    ensures
        r@ == trim_start_of(v@, c),
{
    let mut n: usize = 0;
    assert(v@.skip(0) =~= v@);
    while n < v.len() && same(v[n], c)
        invariant
            n <= v@.len(),
            trim_start_of(v@.skip(n as int), c) == trim_start_of(v@, c),
        decreases v@.len() - n,
    {
        assert(v@.skip(n as int).drop_first() =~= v@.skip(n + 1));
        n = n + 1;
    }
    let r = copy_range(v, n, v.len());
    assert(r@ =~= v@.skip(n as int));
    r
}

/// The words of `s`: its longest runs without white space.
pub open spec fn words(s: Seq<char>) -> Seq<Seq<char>>
    decreases s.len(),
{
    if s.len() == 0 {
        Seq::empty()
    } else {
        let r = words(s.drop_last());
        let c = s.last();
        if is_whitespace(c) {
            r
        } else if s.len() == 1 || is_whitespace(s[s.len() - 2]) {
            r.push(seq![c])
        } else {
            r.drop_last().push(r.last().push(c))
        }
    }
}

/// The words of a text.
pub fn words_of(v: &[char]) -> (r: Vec<Vec<char>>)
    ensures
        rows(r@) == words(v@),
{
    let mut done: Vec<Vec<char>> = Vec::new();
    let mut cur: Vec<char> = Vec::new();
    let mut i: usize = 0;
    assert(words(v@.take(0)) =~= rows(done@));
    while i < v.len()
        invariant
            i <= v@.len(),
            cur@.len() > 0 <==> (i > 0 && !is_whitespace(v@[i - 1])),
            words(v@.take(i as int)) == (if cur@.len() > 0 {
                rows(done@).push(cur@)
            } else {
                rows(done@)
            }),
        decreases v@.len() - i,
    {
        let ghost before = words(v@.take(i as int));
        let ghost done0 = done@;
        let ghost cur0 = cur@;
        let c: char = v[i];
        proof {
            let t = v@.take(i + 1);
            assert(t.drop_last() =~= v@.take(i as int));
            if i > 0 {
                assert(t[t.len() - 2] == v@[i - 1]);
            }
        }
        if white(c) {
            if cur.len() > 0 {
                done.push(cur);
                cur = Vec::new();
                assert(rows(done@) =~= rows(done0).push(cur0));
            }
        } else {
            cur.push(c);
            proof {
                if cur0.len() > 0 {
                    assert(before.drop_last() =~= rows(done0));
                    assert(before.last() == cur0);
                } else {
                    assert(cur@ =~= seq![c]);
                }
            }
        }
        i = i + 1;
    }
    assert(v@.take(i as int) =~= v@);
    if cur.len() > 0 {
        let ghost done0 = done@;
        let ghost cur0 = cur@;
        done.push(cur);
        assert(rows(done@) =~= rows(done0).push(cur0));
    }
    done
}

/// `s` without one carriage return at its end.
pub open spec fn strip_cr(s: Seq<char>) -> Seq<char> {
    if s.len() > 0 && s.last() == '\r' {
        s.drop_last()
    } else {
        s
    }
}

/// The lines of `s`. A line ends with a newline, before which a carriage return
/// belongs to the line's end; the last line may do without.
pub open spec fn lines(s: Seq<char>) -> Seq<Seq<char>> {
    let pieces = split(s, '\n');
    let ended = pieces.drop_last().map_values(|l: Seq<char>| strip_cr(l));
    if pieces.last().len() == 0 {
        ended
    } else {
        ended.push(pieces.last())
    }
}

/// The lines of a text.
pub fn lines_of(v: &[char]) -> (r: Vec<Vec<char>>)
    ensures
        rows(r@) == lines(v@),
{
    let pieces = split_on(v, '\n');
    let last: usize = pieces.len() - 1;
    let ghost spec_pieces = split(v@, '\n');
    let ghost ended = spec_pieces.drop_last().map_values(|l: Seq<char>| strip_cr(l));
    let mut r: Vec<Vec<char>> = Vec::new();
    let mut i: usize = 0;
    while i < last
        invariant
            i <= last,
            last == pieces@.len() - 1,
            spec_pieces == rows(pieces@),
            ended == spec_pieces.drop_last().map_values(|l: Seq<char>| strip_cr(l)),
            rows(r@) == ended.take(i as int),
        decreases last - i,
    {
        let piece = &pieces[i];
        let n: usize = piece.len();
        let keep: usize = if n > 0 && same(piece[n - 1], '\r') {
            n - 1
        } else {
            n
        };
        let line = copy_range(piece.as_slice(), 0, keep);
        proof {
            assert(spec_pieces[i as int] == piece@);
            assert(line@ =~= strip_cr(piece@));
        }
        let ghost r0 = r@;
        let ghost line0 = line@;
        r.push(line);
        i = i + 1;
        proof {
            assert(rows(r@) =~= rows(r0).push(line0));
            assert(ended.take(i as int) =~= ended.take(i - 1).push(ended[i - 1]));
        }
    }
    assert(ended.take(i as int) =~= ended);
    if pieces[last].len() > 0 {
        let ghost r0 = r@;
        let line = copy_range(pieces[last].as_slice(), 0, pieces[last].len());
        let ghost line0 = line@;
        assert(line0 =~= pieces@[last as int]@);
        r.push(line);
        assert(rows(r@) =~= rows(r0).push(line0));
    }
    r
}

/// Trimming the beginning takes away white space, and all of it.
pub proof fn lemma_trim_start_takes_all(s: Seq<char>) -> (n: int)
    ensures
        0 <= n <= s.len(),
        trim_start(s) == s.skip(n),
        forall|i: int| 0 <= i < n ==> is_whitespace(#[trigger] s[i]),
        n < s.len() ==> !is_whitespace(s[n]),
    decreases s.len(),
{
    if s.len() > 0 && is_whitespace(s[0]) {
        let k = lemma_trim_start_takes_all(s.drop_first());
        assert(s.drop_first().skip(k) =~= s.skip(k + 1));
        assert forall|i: int| 0 <= i < k + 1 implies is_whitespace(#[trigger] s[i]) by {
            if i > 0 {
                assert(is_whitespace(s.drop_first()[i - 1]));
            }
        }
        k + 1
    } else {
        assert(s.skip(0) =~= s);
        0
    }
}

/// Trimming the end takes away white space, and all of it.
pub proof fn lemma_trim_end_takes_all(s: Seq<char>) -> (n: int)
    ensures
        0 <= n <= s.len(),
        trim_end(s) == s.take(n),
        forall|i: int| n <= i < s.len() ==> is_whitespace(#[trigger] s[i]),
        n > 0 ==> !is_whitespace(s[n - 1]),
    decreases s.len(),
{
    if s.len() > 0 && is_whitespace(s.last()) {
        let t = s.drop_last();
        let k = lemma_trim_end_takes_all(t);
        assert(t.take(k) =~= s.take(k));
        assert forall|i: int| k <= i < s.len() implies is_whitespace(#[trigger] s[i]) by {
            if i < t.len() {
                assert(is_whitespace(t[i]));
            }
        }
        k
    } else {
        assert(s.take(s.len() as int) =~= s);
        s.len() as int
    }
}

/// A text without the white space around it is what is left between two runs of it.
pub proof fn lemma_trim_takes_all(s: Seq<char>) -> (at: (int, int))
    ensures
        0 <= at.0 <= at.1 <= s.len(),
        trim(s) == s.subrange(at.0, at.1),
        forall|i: int| 0 <= i < at.0 ==> is_whitespace(#[trigger] s[i]),
        forall|i: int| at.1 <= i < s.len() ==> is_whitespace(#[trigger] s[i]),
        at.0 < at.1 ==> !is_whitespace(s[at.0]) && !is_whitespace(s[at.1 - 1]),
{
    let a = lemma_trim_start_takes_all(s);
    let t = s.skip(a);
    let n = lemma_trim_end_takes_all(t);
    assert(t.take(n) =~= s.subrange(a, a + n));
    assert forall|i: int| a + n <= i < s.len() implies is_whitespace(#[trigger] s[i]) by {
        assert(is_whitespace(t[i - a]));
    }
    if n > 0 {
        assert(t[0] == s[a] && t[n - 1] == s[a + n - 1]);
    }
    (a, a + n)
}

/// What is taken away at the end is `c` alone, and all of it.
pub proof fn lemma_trim_end_of_takes_all(s: Seq<char>, c: char) -> (n: int)
    ensures
        0 <= n <= s.len(),
        trim_end_of(s, c) == s.take(n),
        forall|i: int| n <= i < s.len() ==> #[trigger] s[i] == c,
        n > 0 ==> s[n - 1] != c,
    decreases s.len(),
{
    if s.len() > 0 && s.last() == c {
        let t = s.drop_last();
        let k = lemma_trim_end_of_takes_all(t, c);
        assert(t.take(k) =~= s.take(k));
        assert forall|i: int| k <= i < s.len() implies #[trigger] s[i] == c by {
            if i < t.len() {
                assert(t[i] == c);
            }
        }
        k
    } else {
        assert(s.take(s.len() as int) =~= s);
        s.len() as int
    }
}

/// What is taken away at the beginning is `c` alone, and all of it.
pub proof fn lemma_trim_start_of_takes_all(s: Seq<char>, c: char) -> (n: int)
    ensures
        0 <= n <= s.len(),
        trim_start_of(s, c) == s.skip(n),
        forall|i: int| 0 <= i < n ==> #[trigger] s[i] == c,
        n < s.len() ==> s[n] != c,
    decreases s.len(),
{
    if s.len() > 0 && s[0] == c {
        let k = lemma_trim_start_of_takes_all(s.drop_first(), c);
        assert(s.drop_first().skip(k) =~= s.skip(k + 1));
        assert forall|i: int| 0 <= i < k + 1 implies #[trigger] s[i] == c by {
            if i > 0 {
                assert(s.drop_first()[i - 1] == c);
            }
        }
        k + 1
    } else {
        assert(s.skip(0) =~= s);
        0
    }
}

/// White space parts words: on both sides of it the words are those of the parts.
pub proof fn lemma_white_space_parts_words(a: Seq<char>, c: char, b: Seq<char>)
    requires
        is_whitespace(c),
    ensures
        words(a + seq![c] + b) == words(a) + words(b),
    decreases b.len(),
{
    let s = a + seq![c] + b;
    if b.len() == 0 {
        assert(s.drop_last() =~= a);
        assert(words(a) + words(b) =~= words(a));
    } else {
        let t = b.drop_last();
        lemma_white_space_parts_words(a, c, t);
        assert(s.drop_last() =~= a + seq![c] + t);
        let r = words(t);
        if !is_whitespace(b.last()) {
            assert(s[s.len() - 2] == if b.len() == 1 {
                c
            } else {
                b[b.len() - 2]
            });
            if b.len() > 1 && !is_whitespace(b[b.len() - 2]) {
                lemma_ends_in_word(t);
                assert((words(a) + r).drop_last() =~= words(a) + r.drop_last());
            }
            assert(words(s) =~= words(a) + words(b));
        }
    }
}

proof fn lemma_ends_in_word(s: Seq<char>)
    requires
        s.len() > 0,
        !is_whitespace(s.last()),
    ensures
        words(s).len() > 0,
{
}

/// A text without white space is one word.
pub proof fn lemma_a_word_is_itself(s: Seq<char>)
    requires
        s.len() > 0,
        forall|i: int| 0 <= i < s.len() ==> !is_whitespace(#[trigger] s[i]),
    ensures
        words(s) == seq![s],
    decreases s.len(),
{
    let t = s.drop_last();
    if t.len() == 0 {
        assert(words(t) =~= Seq::<Seq<char>>::empty());
        assert(seq![s.last()] =~= s);
        assert(words(s) =~= seq![s]);
    } else {
        assert forall|i: int| 0 <= i < t.len() implies !is_whitespace(#[trigger] t[i]) by {
            assert(t[i] == s[i]);
        }
        lemma_a_word_is_itself(t);
        assert(!is_whitespace(s[s.len() - 2]));
        assert(t.push(s.last()) =~= s);
        assert(words(s) =~= seq![s]);
    }
}

/// A line that ends with a newline, with or without a carriage return before it, is the
/// first line, and the others are those of the rest.
pub proof fn lemma_lines_are_read_one_by_one(line: Seq<char>, rest: Seq<char>)
    requires
        !line.contains('\n'),
        line.len() == 0 || line.last() != '\r',
    ensures
        lines(line + seq!['\n'] + rest) == seq![line] + lines(rest),
        lines(line + seq!['\r', '\n'] + rest) == seq![line] + lines(rest),
{
    lemma_first_line(line, rest);
    let full = line.push('\r');
    assert(!full.contains('\n')) by {
        assert forall|i: int| 0 <= i < full.len() implies full[i] != '\n' by {
            if i < line.len() {
                assert(line.contains(line[i]));
            }
        }
    }
    lemma_first_line(full, rest);
    assert(full + seq!['\n'] + rest =~= line + seq!['\r', '\n'] + rest);
    assert(full.drop_last() =~= line);
}

proof fn lemma_first_line(piece: Seq<char>, rest: Seq<char>)
    requires
        !piece.contains('\n'),
    ensures
        lines(piece + seq!['\n'] + rest) == seq![strip_cr(piece)] + lines(rest),
{
    let head = piece + seq!['\n'];
    let ps = split(rest, '\n');
    lemma_split_pieces(rest, '\n');
    lemma_split_concat(head, rest, '\n');
    assert(head.drop_last() =~= piece);
    let one = seq![piece];
    lemma_split_join(one, '\n');
    assert(join(one, seq!['\n']) == piece);
    assert(split(head, '\n') =~= seq![piece, Seq::<char>::empty()]);
    assert(Seq::<char>::empty() + ps[0] =~= ps[0]);
    let all = split(head + rest, '\n');
    assert(all =~= seq![piece] + ps);
    let f = |l: Seq<char>| strip_cr(l);
    assert(all.drop_last().map_values(f) =~= seq![strip_cr(piece)] + ps.drop_last().map_values(f));
    assert(lines(head + rest) =~= seq![strip_cr(piece)] + lines(rest));
}

/// A text without a newline is one line, if it is there at all.
pub proof fn lemma_last_line(line: Seq<char>)
    requires
        !line.contains('\n'),
    ensures
        lines(line) == (if line.len() == 0 {
            Seq::empty()
        } else {
            seq![line]
        }),
{
    let one = seq![line];
    lemma_split_join(one, '\n');
    assert(join(one, seq!['\n']) == line);
    assert(split(line, '\n') == one);
    assert(one.drop_last().map_values(|l: Seq<char>| strip_cr(l)) =~= Seq::<Seq<char>>::empty());
    assert(lines(line) =~= if line.len() == 0 {
        Seq::empty()
    } else {
        one
    });
}

/// Of the ASCII characters, those are white space that a shell or a kernel file parts its words
/// with: the space, and the characters from tab to carriage return.
pub proof fn lemma_ascii_white_space(c: char)
    requires
        c as u32 <= 0x7f,
    ensures
        is_whitespace(c) <==> c == ' ' || 9 <= c as u32 <= 13,
{
}

/// Of a word with white space around it the word is left.
pub proof fn lemma_trim_leaves_the_word(before: Seq<char>, word: Seq<char>, after: Seq<char>)
    requires
        forall|i: int| 0 <= i < before.len() ==> is_whitespace(#[trigger] before[i]),
        forall|i: int| 0 <= i < after.len() ==> is_whitespace(#[trigger] after[i]),
        word.len() > 0,
        !is_whitespace(word[0]),
        !is_whitespace(word.last()),
    ensures
        trim(before + word + after) == word,
{
    let s = before + word + after;
    let at = lemma_trim_takes_all(s);
    let a = before.len() as int;
    let b = a + word.len();
    assert(s[a] == word[0] && s[b - 1] == word.last());
    assert(at.0 <= a) by {
        if at.0 > a {
            assert(is_whitespace(s[a]));
        }
    }
    assert(at.1 >= b) by {
        if at.1 < b {
            assert(is_whitespace(s[b - 1]));
        }
    }
    assert(at.0 == a) by {
        if at.0 < a {
            assert(s[at.0] == before[at.0]);
        }
    }
    assert(at.1 == b) by {
        if at.1 > b {
            assert(s[at.1 - 1] == after[at.1 - 1 - b]);
        }
    }
    assert(s.subrange(a, b) =~= word);
}

} // verus!
