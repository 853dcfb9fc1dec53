//! Orders on sequences, and a stable sort.

use vstd::prelude::*;

use crate::text::Symbol;

verus! {

/// `less` is a strict total order.
pub open spec fn strict_total<A>(less: spec_fn(A, A) -> bool) -> bool {
    &&& forall|a: A| !#[trigger] less(a, a)
    &&& forall|a: A, b: A, c: A| #[trigger] less(a, b) && #[trigger] less(b, c) ==> less(a, c)
    &&& forall|a: A, b: A| a == b || #[trigger] less(a, b) || less(b, a)
}

/// The lexicographic order over `less`.
pub open spec fn lex<A>(a: Seq<A>, b: Seq<A>, less: spec_fn(A, A) -> bool) -> bool
    decreases a.len(),
{
    if b.len() == 0 {
        false
    } else if a.len() == 0 {
        true
    } else {
        less(a[0], b[0]) || (a[0] == b[0] && lex(a.drop_first(), b.drop_first(), less))
    }
}

proof fn lemma_lex_irreflexive<A>(a: Seq<A>, less: spec_fn(A, A) -> bool)
    requires
        strict_total(less),
    ensures
        !lex(a, a, less),
    decreases a.len(),
{
    if a.len() > 0 {
        lemma_lex_irreflexive(a.drop_first(), less);
    }
}

proof fn lemma_lex_transitive<A>(a: Seq<A>, b: Seq<A>, c: Seq<A>, less: spec_fn(A, A) -> bool)
    requires
        strict_total(less),
        lex(a, b, less),
        lex(b, c, less),
    ensures
        lex(a, c, less),
    decreases a.len(),
{
    if a.len() > 0 {
        if a[0] == b[0] && b[0] == c[0] {
            if !less(a[0], b[0]) && !less(b[0], c[0]) {
                lemma_lex_transitive(a.drop_first(), b.drop_first(), c.drop_first(), less);
            }
        } else if less(a[0], b[0]) && less(b[0], c[0]) {
            assert(less(a[0], c[0]));
        }
    }
}

proof fn lemma_lex_total<A>(a: Seq<A>, b: Seq<A>, less: spec_fn(A, A) -> bool)
    requires
        strict_total(less),
    ensures
        a == b || lex(a, b, less) || lex(b, a, less),
    decreases a.len(),
{
    if a.len() == 0 || b.len() == 0 {
        if a.len() == 0 && b.len() == 0 {
            assert(a =~= b);
        }
    } else {
        assert(a[0] == b[0] || less(a[0], b[0]) || less(b[0], a[0]));
        lemma_lex_total(a.drop_first(), b.drop_first(), less);
        if a[0] == b[0] && a.drop_first() == b.drop_first() {
            assert(a =~= seq![a[0]] + a.drop_first());
            assert(b =~= seq![b[0]] + b.drop_first());
        }
    }
}

/// The lexicographic order over a strict total order is one too.
pub proof fn lemma_lex_strict_total<A>(less: spec_fn(A, A) -> bool)
    requires
        strict_total(less),
    ensures
        strict_total(|a: Seq<A>, b: Seq<A>| lex(a, b, less)),
{
    let l = |a: Seq<A>, b: Seq<A>| lex(a, b, less);
    assert forall|a: Seq<A>| !#[trigger] l(a, a) by {
        lemma_lex_irreflexive(a, less);
    }
    assert forall|a: Seq<A>, b: Seq<A>, c: Seq<A>| #[trigger] l(a, b) && #[trigger] l(b, c) implies l(
        a,
        c,
    ) by {
        lemma_lex_transitive(a, b, c, less);
    }
    assert forall|a: Seq<A>, b: Seq<A>| a == b || #[trigger] l(a, b) || l(b, a) by {
        lemma_lex_total(a, b, less);
    }
}

/// The order of symbols.
pub open spec fn symbol_less<T: Symbol>() -> spec_fn(T, T) -> bool {
    |a: T, b: T| a.rank() < b.rank()
}

/// The order of texts: by the first symbol that differs.
pub open spec fn text_less<T: Symbol>(a: Seq<T>, b: Seq<T>) -> bool {
    lex(a, b, symbol_less::<T>())
}

/// The order of symbols is a strict total order, and so is that of texts.
pub proof fn lemma_text_order<T: Symbol>()
    ensures
        strict_total(symbol_less::<T>()),
        strict_total(|a: Seq<T>, b: Seq<T>| text_less(a, b)),
{
    let less = symbol_less::<T>();
    assert forall|a: T, b: T| a == b || #[trigger] less(a, b) || less(b, a) by {
        T::lemma_rank_injective(a, b);
    }
    lemma_lex_strict_total(less);
    let l1 = |a: Seq<T>, b: Seq<T>| lex(a, b, less);
    let l2 = |a: Seq<T>, b: Seq<T>| text_less(a, b);
    assert(l1 =~= l2);
}

/// Whether one text comes before another.
pub fn text_before<T: Symbol>(a: &[T], b: &[T]) -> (r: bool)
    ensures
        r == text_less(a@, b@),
{
    let mut i: usize = 0;
    assert(a@.skip(0) =~= a@);
    assert(b@.skip(0) =~= b@);
    loop
        invariant
            i <= a@.len(),
            i <= b@.len(),
            text_less(a@, b@) == text_less(a@.skip(i as int), b@.skip(i as int)),
        decreases a@.len() - i,
    {
        if i == b.len() {
            return false;
        }
        if i == a.len() {
            return true;
        }
        let x: u32 = a[i].code();
        let y: u32 = b[i].code();
        proof {
            let less = symbol_less::<T>();
            T::lemma_rank_injective(a@[i as int], b@[i as int]);
            assert(a@.skip(i as int)[0] == a@[i as int]);
            assert(b@.skip(i as int)[0] == b@[i as int]);
            assert(a@.skip(i as int).drop_first() =~= a@.skip(i + 1));
            assert(b@.skip(i as int).drop_first() =~= b@.skip(i + 1));
            assert(less(a@[i as int], b@[i as int]) == (x < y));
        }
        if x < y {
            return true;
        }
        if x > y {
            return false;
        }
        i = i + 1;
    }
}

/// Values that can be put in order.
pub trait Ordered: Sized {
    /// `self` comes strictly before `other`.
    spec fn before(self, other: Self) -> bool;

    proof fn lemma_irreflexive(a: Self)
        ensures
            !a.before(a),
    ;

    /// What lies strictly between two values keeps them apart.
    proof fn lemma_weak(a: Self, b: Self, c: Self)
        requires
            a.before(c),
        ensures
            a.before(b) || b.before(c),
    ;

    proof fn lemma_transitive(a: Self, b: Self, c: Self)
        requires
            a.before(b),
            b.before(c),
        ensures
            a.before(c),
    ;

    fn precedes(&self, other: &Self) -> (r: bool)
        ensures
            r == self.before(*other),
    ;
}

/// No element comes before an earlier one.
pub open spec fn sorted<T: Ordered>(s: Seq<T>) -> bool {
    forall|i: int, j: int| 0 <= i < j < s.len() ==> !(#[trigger] s[j]).before(#[trigger] s[i])
}

/// Neither of two values comes before the other.
pub open spec fn tied<T: Ordered>(a: T, b: T) -> bool {
    !a.before(b) && !b.before(a)
}

/// The elements that are tied with `x`, in their order.
pub open spec fn ties<T: Ordered>(s: Seq<T>, x: T) -> Seq<T> {
    s.filter(|y: T| tied(x, y))
}

/// `out` is `input` in order, tied elements in the order that they had.
pub open spec fn stably_sorted<T: Ordered>(input: Seq<T>, out: Seq<T>) -> bool {
    &&& sorted(out)
    &&& forall|x: T| #[trigger] ties(out, x) == ties(input, x)
    &&& out.to_multiset() == input.to_multiset()
}

proof fn lemma_tied_class<T: Ordered>(a: T, b: T, c: T)
    requires
        a.before(b),
        tied(c, b),
    ensures
        !tied(c, a),
{
    T::lemma_weak(a, c, b);
}

proof fn lemma_insert<T: Ordered>(s: Seq<T>, p: int, e: T)
    requires
        sorted(s),
        0 <= p <= s.len(),
        forall|i: int| 0 <= i < p ==> (#[trigger] s[i]).before(e),
        p < s.len() ==> !s[p].before(e),
    ensures
        sorted(s.insert(p, e)),
        forall|x: T| #[trigger] ties(s.insert(p, e), x) == (if tied(x, e) {
            seq![e] + ties(s, x)
        } else {
            ties(s, x)
        }),
        s.insert(p, e).to_multiset() == s.to_multiset().insert(e),
{
    let r = s.insert(p, e);
    s.insert_ensures(p, e);
    s.to_multiset_ensures();
    vstd::seq_lib::to_multiset_insert(s, p, e);
    assert forall|i: int, j: int| 0 <= i < j < r.len() implies !(#[trigger] r[j]).before(
        #[trigger] r[i],
    ) by {
        if j == p {
            assert(r[i] == s[i]);
            if e.before(s[i]) {
                T::lemma_transitive(s[i], e, s[i]);
                T::lemma_irreflexive(s[i]);
            }
        } else if i == p {
            assert(r[j] == s[j - 1]);
            if s[j - 1].before(e) {
                if j - 1 > p {
                    T::lemma_weak(s[j - 1], s[p], e);
                }
            }
        } else {
            let i0 = if i < p { i } else { i - 1 };
            let j0 = if j < p { j } else { j - 1 };
            assert(r[i] == s[i0] && r[j] == s[j0]);
        }
    }
    assert forall|x: T| #[trigger] ties(r, x) == (if tied(x, e) {
        seq![e] + ties(s, x)
    } else {
        ties(s, x)
    }) by {
        let f = |y: T| tied(x, y);
        let front = s.take(p);
        let back = s.skip(p);
        assert(s =~= front + back);
        assert(r =~= front + seq![e] + back);
        Seq::filter_distributes_over_add(front, back, f);
        Seq::filter_distributes_over_add(front + seq![e], back, f);
        Seq::filter_distributes_over_add(front, seq![e], f);
        reveal_with_fuel(Seq::filter, 2);
        assert(seq![e].drop_last() =~= Seq::<T>::empty());
        if tied(x, e) {
            assert forall|i: int| 0 <= i < front.len() implies !f(#[trigger] front[i]) by {
                lemma_tied_class(s[i], e, x);
            }
            lemma_filter_none(front, f);
            assert(seq![e].filter(f) =~= seq![e]);
            assert(ties(r, x) =~= seq![e] + ties(s, x));
        } else {
            assert(seq![e].filter(f) =~= Seq::<T>::empty());
            assert(ties(r, x) =~= ties(s, x));
        }
    }
}

proof fn lemma_filter_none<T>(s: Seq<T>, f: spec_fn(T) -> bool)
    requires
        forall|i: int| 0 <= i < s.len() ==> !f(#[trigger] s[i]),
    ensures
        s.filter(f) == Seq::<T>::empty(),
    decreases s.len(),
{
    reveal(Seq::filter);
    if s.len() > 0 {
        assert(!f(s[s.len() - 1]));
        lemma_filter_none(s.drop_last(), f);
    }
}

/// Sorts `v`, keeping the order of tied elements.
pub fn sort<T: Ordered>(v: Vec<T>) -> (out: Vec<T>)
    ensures
        stably_sorted(v@, out@),
{
    let ghost input = v@;
    let mut rest: Vec<T> = v;
    let mut out: Vec<T> = Vec::new();
    assert(input.skip(input.len() as int) =~= out@);
    assert(input.take(input.len() as int) =~= rest@);
    while rest.len() > 0
        invariant
            rest@.len() <= input.len(),
            rest@ == input.take(rest@.len() as int),
            stably_sorted(input.skip(rest@.len() as int), out@),
        decreases rest@.len(),
    {
        let ghost n: int = rest@.len() as int;
        let e: T = rest.pop().unwrap();
        let mut p: usize = 0;
        while p < out.len() && out[p].precedes(&e)
            invariant
                p <= out@.len(),
                forall|i: int| 0 <= i < p ==> (#[trigger] out@[i]).before(e),
            decreases out@.len() - p,
        {
            p = p + 1;
        }
        let ghost before = out@;
        out.insert(p, e);
        proof {
            lemma_insert(before, p as int, e);
            let old_tail = input.skip(n);
            let tail = input.skip(n - 1);
            assert(e == input[n - 1]);
            assert(tail =~= seq![e] + old_tail);
            assert forall|x: T| #[trigger] ties(out@, x) == ties(tail, x) by {
                let f = |y: T| tied(x, y);
                Seq::filter_distributes_over_add(seq![e], old_tail, f);
                reveal_with_fuel(Seq::filter, 2);
                assert(seq![e].drop_last() =~= Seq::<T>::empty());
                assert(ties(before, x) == ties(old_tail, x));
                if tied(x, e) {
                    assert(seq![e].filter(f) =~= seq![e]);
                } else {
                    assert(seq![e].filter(f) =~= Seq::<T>::empty());
                    assert(ties(tail, x) =~= ties(old_tail, x));
                }
            }
            vstd::seq_lib::to_multiset_insert(old_tail, 0, e);
            assert(old_tail.insert(0, e) =~= tail);
            assert(rest@ =~= input.take(n - 1));
        }
    }
    assert(input.skip(0) =~= input);
    out
}

/// A value taken from each element: where the elements are the same in another order, so are
/// the values.
pub proof fn lemma_values_of_the_same<A, B>(a: Seq<A>, b: Seq<A>, f: spec_fn(A) -> B)
    requires
        a.to_multiset() == b.to_multiset(),
    ensures
        a.map_values(f).to_multiset() == b.map_values(f).to_multiset(),
    decreases a.len(),
{
    a.to_multiset_ensures();
    b.to_multiset_ensures();
    let fa = a.map_values(f);
    let fb = b.map_values(f);
    if a.len() == 0 {
        assert(fa =~= fb);
    } else {
        let x = a.last();
        assert(a.contains(x));
        assert(a.to_multiset().count(x) > 0);
        assert(b.contains(x));
        let k = choose|k: int| 0 <= k < b.len() && b[k] == x;
        assert(a.remove(a.len() - 1) =~= a.drop_last());
        assert(a.drop_last().to_multiset() =~= a.to_multiset().remove(x));
        assert(b.remove(k).to_multiset() =~= b.to_multiset().remove(x));
        lemma_values_of_the_same(a.drop_last(), b.remove(k), f);
        fa.to_multiset_ensures();
        fb.to_multiset_ensures();
        let ra = fa.remove(fa.len() - 1);
        let rb = fb.remove(k);
        assert(ra =~= a.drop_last().map_values(f));
        assert(rb =~= b.remove(k).map_values(f));
        assert(ra.to_multiset() == fa.to_multiset().remove(f(x)));
        assert(rb.to_multiset() == fb.to_multiset().remove(f(x)));
        assert(fa[fa.len() - 1] == f(x) && fb[k] == f(x));
        assert(fa.contains(f(x)) && fb.contains(f(x)));
        assert(fa.to_multiset() =~= ra.to_multiset().insert(f(x)));
        assert(fb.to_multiset() =~= rb.to_multiset().insert(f(x)));
    }
}

/// What is the same at the start of both does not count.
pub proof fn lemma_same_start_does_not_count<A>(a: Seq<A>, b: Seq<A>, less: spec_fn(A, A) -> bool, k: int)
    requires
        0 <= k <= a.len(),
        k <= b.len(),
        forall|i: int| 0 <= i < k ==> a[i] == b[i],
        forall|x: A| !#[trigger] less(x, x),
    ensures
        lex(a, b, less) == lex(a.skip(k), b.skip(k), less),
    decreases k,
{
    if k == 0 {
        assert(a.skip(0) =~= a && b.skip(0) =~= b);
    } else {
        assert(a[0] == b[0]);
        assert(!less(a[0], b[0]));
        let x = a.drop_first();
        let y = b.drop_first();
        assert forall|i: int| 0 <= i < k - 1 implies x[i] == y[i] by {
            assert(a[i + 1] == b[i + 1]);
        }
        lemma_same_start_does_not_count(x, y, less, k - 1);
        assert(x.skip(k - 1) =~= a.skip(k));
        assert(y.skip(k - 1) =~= b.skip(k));
    }
}

/// Of two texts the one comes first that ends where they part, or has the smaller character
/// there.
pub proof fn lemma_texts_by_first_difference(a: Seq<char>, b: Seq<char>, k: int)
    requires
        0 <= k <= a.len(),
        k <= b.len(),
        forall|i: int| 0 <= i < k ==> a[i] == b[i],
        k < a.len() && k < b.len() ==> a[k] != b[k],
    ensures
        text_less(a, b) <==> k < b.len() && (k < a.len() ==> (a[k] as u32) < (b[k] as u32)),
{
    lemma_same_start_does_not_count(a, b, symbol_less::<char>(), k);
    if k < a.len() && k < b.len() {
        assert(a.skip(k)[0] == a[k] && b.skip(k)[0] == b[k]);
    }
}

/// So it is with bytes.
pub proof fn lemma_bytes_by_first_difference(a: Seq<u8>, b: Seq<u8>, k: int)
    requires
        0 <= k <= a.len(),
        k <= b.len(),
        forall|i: int| 0 <= i < k ==> a[i] == b[i],
        k < a.len() && k < b.len() ==> a[k] != b[k],
    ensures
        text_less(a, b) <==> k < b.len() && (k < a.len() ==> a[k] < b[k]),
{
    lemma_same_start_does_not_count(a, b, symbol_less::<u8>(), k);
    if k < a.len() && k < b.len() {
        assert(a.skip(k)[0] == a[k] && b.skip(k)[0] == b[k]);
    }
}

} // verus!
