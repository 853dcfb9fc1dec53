//! Sequences of characters and bytes: splitting, trimming, searching, numbers.

use vstd::prelude::*;

verus! {

/// Appends one character to a string, as `String::push` does.
pub assume_specification[ String::push ](s: &mut String, c: char)
    ensures
        final(s)@ == old(s)@.push(c),
;

/// A symbol of a text: a character or a byte, with its place in the order of symbols.
pub trait Symbol: Copy + Sized {
    spec fn rank(self) -> int;

    proof fn lemma_rank_injective(a: Self, b: Self)
        ensures
            a.rank() == b.rank() ==> a == b,
    ;

    fn code(self) -> (r: u32)
        ensures
            r == self.rank(),
    ;
}

impl Symbol for u8 {
    open spec fn rank(self) -> int {
        self as int
    }

    proof fn lemma_rank_injective(a: Self, b: Self) {
    }

    fn code(self) -> (r: u32) {
        self as u32
    }
}

impl Symbol for char {
    open spec fn rank(self) -> int {
        self as u32 as int
    }

    proof fn lemma_rank_injective(a: Self, b: Self) {
        vstd::utf8::char_u32_cast(a, a as u32);
        vstd::utf8::char_u32_cast(b, b as u32);
    }

    fn code(self) -> (r: u32) {
        self as u32
    }
}

/// Whether two symbols are the same.
pub fn same<T: Symbol>(a: T, b: T) -> (r: bool)
    ensures
        r == (a == b),
{
    proof {
        T::lemma_rank_injective(a, b);
    }
    a.code() == b.code()
}

/// The characters of a string.
pub fn chars_of(s: &str) -> (v: Vec<char>)
    ensures
        v@ == s@,
{
    let mut v: Vec<char> = Vec::new();
    for c in it: s.chars()
        invariant
            it.seq() == s@,
            v@ == s@.take(it.index() as int),
    {
        v.push(c);
    }
    assert(s@.take(s@.len() as int) =~= s@);
    v
}

/// The string of the given characters.
pub fn string_of(v: &[char]) -> (s: String)
    ensures
        s@ == v@,
{
    let mut s = String::new();
    let mut i: usize = 0;
    while i < v.len()
        invariant
            i <= v@.len(),
            s@ == v@.take(i as int),
        decreases v@.len() - i,
    {
        s.push(v[i]);
        i = i + 1;
        assert(v@.take(i as int) =~= v@.take(i - 1).push(v@[i - 1]));
    }
    assert(v@.take(i as int) =~= v@);
    s
}

/// A copy of the symbols from `from` up to `to`.
pub fn copy_range<T: Symbol>(v: &[T], from: usize, to: usize) -> (r: Vec<T>)
    requires
        from <= to <= v@.len(),
    ensures
        r@ == v@.subrange(from as int, to as int),
{
    let mut r: Vec<T> = Vec::new();
    let mut i: usize = from;
    while i < to
        invariant
            from <= i <= to <= v@.len(),
            r@ == v@.subrange(from as int, i as int),
        decreases to - i,
    {
        r.push(v[i]);
        i = i + 1;
        assert(v@.subrange(from as int, i as int) =~= v@.subrange(from as int, i - 1).push(
            v@[i - 1],
        ));
    }
    r
}

/// Appends all symbols of `tail`.
pub fn extend<T: Symbol>(v: &mut Vec<T>, tail: &[T])
    ensures
        final(v)@ == old(v)@ + tail@,
{
    let mut i: usize = 0;
    while i < tail.len()
        invariant
            i <= tail@.len(),
            v@ == old(v)@ + tail@.take(i as int),
        decreases tail@.len() - i,
    {
        v.push(tail[i]);
        i = i + 1;
        assert(tail@.take(i as int) =~= tail@.take(i - 1).push(tail@[i - 1]));
        assert(v@ =~= old(v)@ + tail@.take(i as int));
    }
    assert(tail@.take(i as int) =~= tail@);
}

/// Appends all characters of `tail`.
pub fn extend_str(v: &mut Vec<char>, tail: &str)
    ensures
        final(v)@ == old(v)@ + tail@,
{
    let t = chars_of(tail);
    extend(v, t.as_slice());
}

/// `sub` stands in `s` at position `i`.
pub open spec fn occurs_at<T>(s: Seq<T>, sub: Seq<T>, i: int) -> bool {
    0 <= i && i + sub.len() <= s.len() && s.subrange(i, i + sub.len()) == sub
}

/// Whether `sub` stands in `v` at position `i`.
pub fn check_at<T: Symbol>(v: &[T], sub: &[T], i: usize) -> (r: bool)
    ensures
        r == occurs_at(v@, sub@, i as int),
{
    if v.len() < sub.len() || i > v.len() - sub.len() {
        return false;
    }
    let n: usize = v.len();
    let mut k: usize = 0;
    while k < sub.len()
        invariant
            k <= sub@.len(),
            i + sub@.len() <= v@.len() == n,
            forall|j: int| 0 <= j < k ==> v@[i + j] == sub@[j],
        decreases sub@.len() - k,
    {
        if !same(v[i + k], sub[k]) {
            assert(v@.subrange(i as int, i + sub@.len())[k as int] != sub@[k as int]);
            return false;
        }
        k = k + 1;
    }
    assert(v@.subrange(i as int, i + sub@.len()) =~= sub@);
    true
}

/// Whether two texts are the same.
pub fn equal<T: Symbol>(a: &[T], b: &[T]) -> (r: bool)
    ensures
        r == (a@ == b@),
{
    if a.len() != b.len() {
        return false;
    }
    let r = check_at(a, b, 0);
    assert(a@.subrange(0, a@.len() as int) =~= a@);
    r
}

/// Whether two strings are the same.
pub fn str_equal(a: &str, b: &str) -> (r: bool)
    ensures
        r == (a@ == b@),
{
    let x = chars_of(a);
    let y = chars_of(b);
    equal(x.as_slice(), y.as_slice())
}

/// `s` begins with `prefix`.
pub open spec fn starts_with<T>(s: Seq<T>, prefix: Seq<T>) -> bool {
    prefix.len() <= s.len() && s.take(prefix.len() as int) == prefix
}

/// `s` ends with `suffix`.
pub open spec fn ends_with<T>(s: Seq<T>, suffix: Seq<T>) -> bool {
    suffix.len() <= s.len() && s.skip(s.len() - suffix.len()) == suffix
}

pub fn has_prefix<T: Symbol>(v: &[T], prefix: &[T]) -> (r: bool)
    ensures
        r == starts_with(v@, prefix@),
{
    let r = check_at(v, prefix, 0);
    proof {
        if prefix@.len() <= v@.len() {
            assert(v@.subrange(0, prefix@.len() as int) =~= v@.take(prefix@.len() as int));
        }
    }
    r
}

pub fn has_suffix<T: Symbol>(v: &[T], suffix: &[T]) -> (r: bool)
    ensures
        r == ends_with(v@, suffix@),
{
    if v.len() < suffix.len() {
        return false;
    }
    let at: usize = v.len() - suffix.len();
    let r = check_at(v, suffix, at);
    assert(v@.subrange(at as int, at + suffix@.len()) =~= v@.skip(at as int));
    r
}

/// The first position at or after `from` where `sub` stands in `v`.
pub fn find_from<T: Symbol>(v: &[T], sub: &[T], from: usize) -> (r: Option<usize>)
    requires
        from <= v@.len(),
    ensures
        match r {
            Some(i) => from <= i && occurs_at(v@, sub@, i as int) && forall|j: int|
                from <= j < i ==> !occurs_at(v@, sub@, j),
            None => forall|j: int| from <= j ==> !occurs_at(v@, sub@, j),
        },
{
    let mut i: usize = from;
    loop
        invariant
            from <= i <= v@.len(),
            forall|j: int| from <= j < i ==> !occurs_at(v@, sub@, j),
        decreases v@.len() - i,
    {
        if check_at(v, sub, i) {
            return Some(i);
        }
        if i == v.len() {
            return None;
        }
        i = i + 1;
    }
}

/// The first position at or after `from` where `sub` stands in `s`.
pub open spec fn first_at<T>(s: Seq<T>, sub: Seq<T>, from: int) -> Option<int>
    decreases s.len() - from + 1,
{
    if from > s.len() {
        None
    } else if occurs_at(s, sub, from) {
        Some(from)
    } else {
        first_at(s, sub, from + 1)
    }
}

/// The first position is the one before which `sub` does not occur.
pub proof fn lemma_first_at<T>(s: Seq<T>, sub: Seq<T>, from: int, i: int)
    requires
        0 <= from <= i,
        occurs_at(s, sub, i),
        forall|j: int| from <= j < i ==> !occurs_at(s, sub, j),
    ensures
        first_at(s, sub, from) == Some(i),
    decreases i - from,
{
    if from < i {
        lemma_first_at(s, sub, from + 1, i);
    }
}

proof fn lemma_nowhere<T>(s: Seq<T>, sub: Seq<T>, from: int)
    requires
        0 <= from,
        forall|j: int| from <= j ==> !occurs_at(s, sub, j),
    ensures
        first_at(s, sub, from) is None,
    decreases s.len() - from + 1,
{
    if from <= s.len() {
        lemma_nowhere(s, sub, from + 1);
    }
}

/// The first position where `sub` stands in `v`.
pub fn find_text<T: Symbol>(v: &[T], sub: &[T], from: usize) -> (r: Option<usize>)
    requires
        from <= v@.len(),
    ensures
        match r {
            Some(i) => first_at(v@, sub@, from as int) == Some(i as int) && from <= i && occurs_at(
                v@,
                sub@,
                i as int,
            ),
            None => first_at(v@, sub@, from as int) is None,
        },
{
    let r = find_from(v, sub, from);
    proof {
        match r {
            Some(i) => lemma_first_at(v@, sub@, from as int, i as int),
            None => lemma_nowhere(v@, sub@, from as int),
        }
    }
    r
}

/// The first position of `c`.
pub fn find_symbol<T: Symbol>(v: &[T], c: T) -> (r: Option<usize>)
    ensures
        match r {
            Some(i) => i < v@.len() && v@[i as int] == c && forall|j: int|
                0 <= j < i ==> v@[j] != c,
            None => !v@.contains(c),
        },
{
    let mut i: usize = 0;
    while i < v.len()
        invariant
            i <= v@.len(),
            forall|j: int| 0 <= j < i ==> v@[j] != c,
        decreases v@.len() - i,
    {
        if same(v[i], c) {
            return Some(i);
        }
        i = i + 1;
    }
    None
}

/// The last position of `c`.
pub fn rfind_symbol<T: Symbol>(v: &[T], c: T) -> (r: Option<usize>)
    ensures
        match r {
            Some(i) => i < v@.len() && v@[i as int] == c && forall|j: int|
                i < j < v@.len() ==> v@[j] != c,
            None => !v@.contains(c),
        },
{
    let mut i: usize = v.len();
    while i > 0
        invariant
            i <= v@.len(),
            forall|j: int| i <= j < v@.len() ==> v@[j] != c,
        decreases i,
    {
        i = i - 1;
        if same(v[i], c) {
            return Some(i);
        }
    }
    None
}

/// What stands after the last `c`, or all of `s` where there is none.
pub open spec fn after_last<T>(s: Seq<T>, c: T) -> Seq<T>
    decreases s.len(),
{
    if s.len() == 0 || s.last() == c {
        Seq::empty()
    } else {
        after_last(s.drop_last(), c).push(s.last())
    }
}

/// What stands after the last `c`, where that is at position `i`.
pub proof fn lemma_after_last<T>(s: Seq<T>, c: T, i: int)
    requires
        0 <= i < s.len(),
        s[i] == c,
        forall|j: int| i < j < s.len() ==> s[j] != c,
    ensures
        after_last(s, c) == s.skip(i + 1),
    decreases s.len(),
{
    if s.last() != c {
        lemma_after_last(s.drop_last(), c, i);
        assert(s.skip(i + 1) =~= s.drop_last().skip(i + 1).push(s.last()));
    } else {
        assert(s.skip(i + 1) =~= Seq::empty());
    }
}

/// The pieces of `s` between the occurrences of `sep`; one piece more than there
/// are occurrences.
pub open spec fn split<T>(s: Seq<T>, sep: T) -> Seq<Seq<T>>
    decreases s.len(),
{
    if s.len() == 0 {
        seq![Seq::<T>::empty()]
    } else {
        let r = split(s.drop_last(), sep);
        if s.last() == sep {
            r.push(Seq::<T>::empty())
        } else {
            r.drop_last().push(r.last().push(s.last()))
        }
    }
}

/// The pieces put together again, with `sep` between them.
pub open spec fn join<T>(pieces: Seq<Seq<T>>, sep: Seq<T>) -> Seq<T>
    decreases pieces.len(),
{
    if pieces.len() == 0 {
        Seq::empty()
    } else if pieces.len() == 1 {
        pieces[0]
    } else {
        join(pieces.drop_last(), sep) + sep + pieces.last()
    }
}

/// Splitting gives at least one piece, and no piece holds the separator.
pub proof fn lemma_split_pieces<T>(s: Seq<T>, sep: T)
    ensures
        split(s, sep).len() > 0,
        forall|i: int| 0 <= i < split(s, sep).len() ==> !(#[trigger] split(s, sep)[i]).contains(sep),
    decreases s.len(),
{
    if s.len() > 0 {
        lemma_split_pieces(s.drop_last(), sep);
        let r = split(s.drop_last(), sep);
        let w = split(s, sep);
        assert forall|i: int| 0 <= i < w.len() implies !(#[trigger] w[i]).contains(sep) by {
            if s.last() == sep {
                if i < r.len() {
                    assert(w[i] == r[i]);
                }
            } else if i < r.len() - 1 {
                assert(w[i] == r[i]);
            } else {
                assert(w[i] == r.last().push(s.last()));
                assert(!r[r.len() - 1].contains(sep));
                assert forall|k: int| 0 <= k < w[i].len() implies w[i][k] != sep by {
                    if k < r.last().len() {
                        assert(r.last().contains(r.last()[k]));
                    }
                }
            }
        }
    }
}

/// The pieces of two texts put together: the last piece of the first and the first
/// piece of the second become one.
pub proof fn lemma_split_concat<T>(a: Seq<T>, b: Seq<T>, sep: T)
    ensures
        split(a + b, sep) == split(a, sep).drop_last() + seq![split(a, sep).last() + split(b, sep)[0]]
            + split(b, sep).drop_first(),
    decreases b.len(),
{
    lemma_split_pieces(a, sep);
    lemma_split_pieces(b, sep);
    let sa = split(a, sep);
    let sb = split(b, sep);
    let merged = sa.drop_last() + seq![sa.last() + sb[0]] + sb.drop_first();
    if b.len() == 0 {
        assert(a + b =~= a);
        assert(sa.last() + sb[0] =~= sa.last());
        assert(merged =~= sa);
    } else {
        let c = b.drop_last();
        lemma_split_concat(a, c, sep);
        lemma_split_pieces(c, sep);
        let sc = split(c, sep);
        assert((a + b).drop_last() =~= a + c);
        assert((a + b).last() == b.last());
        let r = split(a + c, sep);
        let n = r.len() - 1;
        if b.last() == sep {
            assert(sb == sc.push(Seq::empty()));
            assert(merged =~= r.push(Seq::empty()));
        } else {
            assert(sb == sc.drop_last().push(sc.last().push(b.last())));
            if sc.len() == 1 {
                assert(r.last() == sa.last() + sc[0]);
                assert(r.last().push(b.last()) =~= sa.last() + sb[0]);
                assert(merged =~= r.drop_last().push(r.last().push(b.last())));
            } else {
                assert(r.last() == sc.last());
                assert(merged =~= r.drop_last().push(r.last().push(b.last())));
            }
        }
    }
}

/// Joining the pieces of a split text with the separator gives the text back.
pub proof fn lemma_join_split<T>(s: Seq<T>, sep: T)
    ensures
        join(split(s, sep), seq![sep]) == s,
    decreases s.len(),
{
    if s.len() > 0 {
        lemma_split_pieces(s.drop_last(), sep);
        lemma_join_split(s.drop_last(), sep);
        let r = split(s.drop_last(), sep);
        let w = split(s, sep);
        if s.last() == sep {
            assert(w.drop_last() =~= r);
            assert(join(w, seq![sep]) =~= s);
        } else {
            assert(w.drop_last() =~= r.drop_last());
            assert(w.last() == r.last().push(s.last()));
            assert(join(w, seq![sep]) =~= join(r, seq![sep]).push(s.last()));
            assert(join(w, seq![sep]) =~= s);
        }
    } else {
        assert(join(split(s, sep), seq![sep]) =~= s);
    }
}

proof fn lemma_split_plain<T>(s: Seq<T>, sep: T)
    requires
        !s.contains(sep),
    ensures
        split(s, sep) == seq![s],
    decreases s.len(),
{
    if s.len() > 0 {
        assert(s.contains(s.last()));
        let t = s.drop_last();
        assert forall|x: T| t.contains(x) implies s.contains(x) by {
            let i = choose|i: int| 0 <= i < t.len() && t[i] == x;
            assert(s[i] == x);
        }
        lemma_split_plain(t, sep);
        assert(t.push(s.last()) =~= s);
        assert(split(s, sep) =~= seq![s]);
    } else {
        assert(s =~= Seq::<T>::empty());
        assert(split(s, sep) =~= seq![s]);
    }
}

/// Splitting joined pieces gives the pieces back, where none of them holds the
/// separator.
pub proof fn lemma_split_join<T>(pieces: Seq<Seq<T>>, sep: T)
    requires
        pieces.len() > 0,
        forall|i: int| 0 <= i < pieces.len() ==> !(#[trigger] pieces[i]).contains(sep),
    ensures
        split(join(pieces, seq![sep]), sep) == pieces,
    decreases pieces.len(),
{
    let last = pieces.last();
    assert(!pieces[pieces.len() - 1].contains(sep));
    lemma_split_plain(last, sep);
    if pieces.len() == 1 {
        assert(pieces =~= seq![last]);
    } else {
        let front = pieces.drop_last();
        assert forall|i: int| 0 <= i < front.len() implies !(#[trigger] front[i]).contains(sep) by {
            assert(front[i] == pieces[i]);
        }
        lemma_split_join(front, sep);
        let j = join(front, seq![sep]);
        let head = j + seq![sep];
        lemma_split_concat(head, last, sep);
        assert(head.drop_last() =~= j);
        assert(split(head, sep) == front.push(Seq::<T>::empty()));
        assert(Seq::<T>::empty() + last =~= last);
        assert(split(head, sep).drop_last() =~= front);
        assert(split(head + last, sep) =~= pieces);
    }
}

/// The contents of each row.
pub open spec fn rows<T>(v: Seq<Vec<T>>) -> Seq<Seq<T>> {
    v.map_values(|x: Vec<T>| x@)
}

/// The contents of each string.
pub open spec fn texts(v: Seq<String>) -> Seq<Seq<char>> {
    v.map_values(|x: String| x@)
}

/// The pieces of `v` between the occurrences of `sep`.
pub fn split_on<T: Symbol>(v: &[T], sep: T) -> (r: Vec<Vec<T>>)
    ensures
        rows(r@) == split(v@, sep),
        r@.len() > 0,
{
    let mut done: Vec<Vec<T>> = Vec::new();
    let mut cur: Vec<T> = Vec::new();
    let mut i: usize = 0;
    assert(split(v@.take(0), sep) =~= rows(done@).push(cur@));
    while i < v.len()
        invariant
            i <= v@.len(),
            split(v@.take(i as int), sep) == rows(done@).push(cur@),
        decreases v@.len() - i,
    {
        let ghost before = split(v@.take(i as int), sep);
        let ghost done0 = done@;
        let ghost cur0 = cur@;
        let c: T = v[i];
        proof {
            let t = v@.take(i + 1);
            assert(t.drop_last() =~= v@.take(i as int));
            assert(t.last() == c);
            assert(before.drop_last() =~= rows(done0));
            assert(before.last() == cur0);
        }
        if same(c, sep) {
            done.push(cur);
            cur = Vec::new();
            assert(rows(done@) =~= rows(done0).push(cur0));
        } else {
            cur.push(c);
        }
        i = i + 1;
    }
    assert(v@.take(i as int) =~= v@);
    let ghost done0 = done@;
    let ghost cur0 = cur@;
    done.push(cur);
    assert(rows(done@) =~= rows(done0).push(cur0));
    done
}

/// The pieces of `v`, with `sep` between them.
pub fn join_with<T: Symbol>(v: &Vec<Vec<T>>, sep: &[T]) -> (r: Vec<T>)
    ensures
        r@ == join(rows(v@), sep@),
{
    let mut r: Vec<T> = Vec::new();
    let mut i: usize = 0;
    while i < v.len()
        invariant
            i <= v@.len(),
            r@ == join(rows(v@).take(i as int), sep@),
        decreases v@.len() - i,
    {
        proof {
            let t = rows(v@).take(i + 1);
            assert(t.drop_last() =~= rows(v@).take(i as int));
        }
        if i > 0 {
            extend(&mut r, sep);
        }
        extend(&mut r, v[i].as_slice());
        i = i + 1;
        assert(r@ =~= join(rows(v@).take(i as int), sep@));
    }
    assert(rows(v@).take(i as int) =~= rows(v@));
    r
}

/// The strings of `v`, with `sep` between them.
pub fn join_strings(v: &Vec<String>, sep: &str) -> (r: String)
    ensures
        r@ == join(texts(v@), sep@),
{
    let mut r = String::new();
    let mut i: usize = 0;
    while i < v.len()
        invariant
            i <= v@.len(),
            r@ == join(texts(v@).take(i as int), sep@),
        decreases v@.len() - i,
    {
        proof {
            let t = texts(v@).take(i + 1);
            assert(t.drop_last() =~= texts(v@).take(i as int));
        }
        if i > 0 {
            r.append(sep);
        }
        r.append(v[i].as_str());
        i = i + 1;
        assert(r@ =~= join(texts(v@).take(i as int), sep@));
    }
    assert(texts(v@).take(i as int) =~= texts(v@));
    r
}

/// What stands before the first separator is the first piece, and the others are those of the
/// rest.
pub proof fn lemma_split_first<T>(piece: Seq<T>, sep: T, rest: Seq<T>)
    requires
        !piece.contains(sep),
    ensures
        split(piece + seq![sep] + rest, sep) == seq![piece] + split(rest, sep),
        split(piece, sep) == seq![piece],
{
    let head = piece + seq![sep];
    let ps = split(rest, sep);
    lemma_split_pieces(rest, sep);
    lemma_split_concat(head, rest, sep);
    assert(head.drop_last() =~= piece);
    let one = seq![piece];
    lemma_split_join(one, sep);
    assert(join(one, seq![sep]) == piece);
    assert(split(head, sep) =~= seq![piece, Seq::<T>::empty()]);
    assert(Seq::<T>::empty() + ps[0] =~= ps[0]);
    assert(split(head + rest, sep) =~= seq![piece] + ps);
}

} // verus!
