//! Which tests are run, and the names under which they are shown.

use vstd::prelude::*;
use vstd::utf8::{encode_utf8, encode_utf8_decode_utf8};

use crate::diagnostics::lemma_len_bound;
use crate::number::{decimal, decimal_chars, lemma_decimal_injective, lemma_decimal_round_trip};
use crate::path::{components, dot, dot_dot, file_name, joined, lemma_joined_name, same_path, UnixPath};
use crate::text::{extend, extend_str, str_equal, string_of, texts};
use crate::utf8::{lossy, lossy_text};

verus! {

/// The name of a test, with the name of its file before it where tests of several files
/// have the name.
pub open spec fn base_name(name: Seq<char>, file: Seq<u8>, duplicated: bool) -> Seq<char> {
    if duplicated {
        (match file_name(file) {
            Some(n) => lossy(n),
            None => Seq::empty(),
        }) + ":"@ + name
    } else {
        name
    }
}

/// The `k`-th choice for a name that is taken.
pub open spec fn numbered(base: Seq<char>, k: nat) -> Seq<char> {
    base + ":"@ + decimal(k)
}

/// The name for a base: itself, or the first free number after it from 2 on.
pub open spec fn is_free_name(base: Seq<char>, taken: Seq<Seq<char>>, r: Seq<char>) -> bool {
    if !taken.contains(base) {
        r == base
    } else {
        exists|k: nat|
            2 <= k && r == #[trigger] numbered(base, k) && !taken.contains(r) && forall|j: nat|
                2 <= j < k ==> taken.contains(#[trigger] numbered(base, j))
    }
}

proof fn lemma_numbered_injective(base: Seq<char>, a: nat, b: nat)
    requires
        numbered(base, a) == numbered(base, b),
    ensures
        a == b,
{
    let head = base + ":"@;
    let n = head.len() as int;
    assert(numbered(base, a).skip(n) =~= decimal(a));
    assert(numbered(base, b).skip(n) =~= decimal(b));
    lemma_decimal_injective(a, b);
}

fn is_taken(taken: &Vec<String>, name: &str) -> (r: bool)
    ensures
        r == texts(taken@).contains(name@),
{
    let mut i: usize = 0;
    while i < taken.len()
        invariant
            i <= taken@.len(),
            forall|k: int| 0 <= k < i ==> texts(taken@)[k] != name@,
        decreases taken@.len() - i,
    {
        if str_equal(taken[i].as_str(), name) {
            assert(texts(taken@)[i as int] == name@);
            return true;
        }
        i = i + 1;
    }
    false
}

/// Unique display name for a test. A name that appears in more than one
/// selected file is qualified with its file name (`a.test:test_foo`) so
/// results are tellable-apart and per-test context directories, which are
/// keyed by display name, never collide; a numeric suffix breaks any
/// remaining tie (same name defined twice in one file).
pub fn display_base(name: &str, file: &UnixPath, duplicated: bool, taken: &mut Vec<String>) -> (r: String)
    ensures
        is_free_name(base_name(name@, file@, duplicated), texts(old(taken)@), r@),
        !texts(old(taken)@).contains(r@),
        texts(final(taken)@) == texts(old(taken)@).push(r@),
{
    let mut v: Vec<char> = Vec::new();
    if duplicated {
        match file.file_name() {
            Some(n) => {
                let text = lossy_text(n.as_slice());
                extend_str(&mut v, text.as_str());
            },
            None => {},
        }
        extend_str(&mut v, ":");
    }
    extend_str(&mut v, name);
    let ghost base = base_name(name@, file@, duplicated);
    assert(v@ =~= base);
    let text = string_of(v.as_slice());
    let ghost old_taken = texts(taken@);
    if !is_taken(taken, text.as_str()) {
        let ghost before = taken@;
        taken.push(text.as_str().to_owned());
        assert(texts(taken@) =~= texts(before).push(text@));
        return text;
    }
    let mut k: u128 = 2;
    let ghost mut seen: Set<Seq<char>> = Set::empty();
    proof {
        old_taken.lemma_cardinality_of_set();
    }
    loop
        invariant
            2 <= k,
            v@ == base,
            base == base_name(name@, file@, duplicated),
            old_taken == texts(taken@),
            old_taken == texts(old(taken)@),
            old_taken.contains(base),
            old_taken.to_set().len() <= old_taken.len(),
            seen.finite(),
            seen.len() == k - 2,
            seen.subset_of(old_taken.to_set()),
            forall|x: Seq<char>| #[trigger]
                seen.contains(x) ==> exists|j: nat| 2 <= j < k && x == #[trigger] numbered(base, j),
            forall|j: nat| 2 <= j < k ==> old_taken.contains(#[trigger] numbered(base, j)),
        decreases old_taken.len() + 3 - k,
    {
        let total: usize = taken.len();
        proof {
            vstd::set_lib::lemma_len_subset(seen, old_taken.to_set());
            assert(k - 2 <= total);
        }
        let mut c = string_chars(v.as_slice());
        extend_str(&mut c, ":");
        let n = decimal_chars(k);
        extend(&mut c, n.as_slice());
        let candidate = string_of(c.as_slice());
        assert(candidate@ =~= numbered(base, k as nat));
        if !is_taken(taken, candidate.as_str()) {
            let ghost before = taken@;
            taken.push(candidate.as_str().to_owned());
            assert(texts(taken@) =~= texts(before).push(candidate@));
            return candidate;
        }
        proof {
            let x = numbered(base, k as nat);
            if seen.contains(x) {
                let j = choose|j: nat| 2 <= j < k && x == #[trigger] numbered(base, j);
                lemma_numbered_injective(base, j, k as nat);
            }
            seen = seen.insert(x);
            assert forall|y: Seq<char>| #[trigger] seen.contains(y) implies exists|j: nat|
                2 <= j < k + 1 && y == #[trigger] numbered(base, j) by {
                if y == x {
                    assert(y == numbered(base, k as nat));
                } else {
                    let j = choose|j: nat| 2 <= j < k && y == #[trigger] numbered(base, j);
                    assert(y == numbered(base, j));
                }
            }
        }
        k = k + 1;
    }
}

fn string_chars(v: &[char]) -> (r: Vec<char>)
    ensures
        r@ == v@,
{
    let r = crate::text::copy_range(v, 0, v.len());
    assert(r@ =~= v@);
    r
}

/// The name of a test's run `i`, where tests run `repeat` times.
pub open spec fn display_text(base: Seq<char>, repeat: nat, i: nat) -> Seq<char> {
    if repeat > 1 {
        base + "#"@ + decimal(i)
    } else {
        base
    }
}

proof fn lemma_digits_hold_no_hash(n: nat)
    ensures
        !decimal(n).contains('#'),
{
    lemma_decimal_round_trip(n);
    assert forall|i: int| 0 <= i < decimal(n).len() implies decimal(n)[i] != '#' by {
        assert(crate::number::is_digit(decimal(n)[i]));
    }
}

/// Runs of different tests, and different runs of one test, have different names.
pub proof fn lemma_display_names_differ(a: Seq<char>, b: Seq<char>, repeat: nat, i: nat, j: nat)
    requires
        1 <= i <= repeat,
        1 <= j <= repeat,
        display_text(a, repeat, i) == display_text(b, repeat, j),
    ensures
        a == b,
        i == j,
{
    if repeat > 1 {
        reveal_strlit("#");
        let x = a + "#"@ + decimal(i);
        let y = b + "#"@ + decimal(j);
        let (p, q) = (a.len() as int, b.len() as int);
        lemma_digits_hold_no_hash(i);
        lemma_digits_hold_no_hash(j);
        assert(x[p] == '#' && y[q] == '#');
        assert(x == y && x.len() == p + 1 + decimal(i).len() && y.len() == q + 1 + decimal(j).len());
        if p < q {
            assert(x[q] == decimal(i)[q - p - 1]);
            assert(decimal(i).contains(decimal(i)[q - p - 1]));
        }
        if q < p {
            assert(y[p] == decimal(j)[p - q - 1]);
            assert(decimal(j).contains(decimal(j)[p - q - 1]));
        }
        assert(x.take(p) =~= a);
        assert(y.take(q) =~= b);
        assert(x.skip(p + 1) =~= decimal(i));
        assert(y.skip(q + 1) =~= decimal(j));
        lemma_decimal_injective(i, j);
    }
}

/// A name that is one component of a path: it holds no slash, and is none of the names
/// with a meaning of their own.
pub open spec fn is_component(name: Seq<char>) -> bool {
    &&& name.len() > 0
    &&& !encode_utf8(name).contains(47u8)
    &&& encode_utf8(name) != dot()
    &&& encode_utf8(name) != dot_dot()
}

/// Tests with different names have different context directories, each directly in the
/// directory for contexts.
pub proof fn lemma_contexts_never_collide(contexts: Seq<u8>, a: Seq<char>, b: Seq<char>)
    requires
        is_component(a),
        is_component(b),
        a != b,
    ensures
        !same_path(joined(contexts, encode_utf8(a)), joined(contexts, encode_utf8(b))),
        components(joined(contexts, encode_utf8(a))).drop_last() == components(contexts),
{
    let (x, y) = (encode_utf8(a), encode_utf8(b));
    lemma_len_bound(a);
    lemma_len_bound(b);
    lemma_joined_name(contexts, x);
    lemma_joined_name(contexts, y);
    encode_utf8_decode_utf8(a);
    encode_utf8_decode_utf8(b);
    let c = components(contexts);
    assert(c.push(x).drop_last() =~= c);
    assert(c.push(x).last() == x && c.push(y).last() == y);
}

/// Of several tests that would be shown under one name the first keeps it, and the next ones
/// have numbers after it, from two on.
pub proof fn lemma_later_ones_are_numbered(base: Seq<char>, taken: Seq<Seq<char>>, r: Seq<char>, n: nat)
    requires
        is_free_name(base, taken, r),
        n >= 2,
    ensures
        !taken.contains(base) ==> r == base,
        taken.contains(base) && !taken.contains(base + seq![':'] + decimal(n)) && (forall|j: nat|
            2 <= j < n ==> taken.contains(base + seq![':'] + #[trigger] decimal(j))) ==> r == base + seq![':']
            + decimal(n),
{
    assert(":"@ =~= seq![':']) by {
        reveal_strlit(":");
    }
    if taken.contains(base) && !taken.contains(base + seq![':'] + decimal(n)) && (forall|j: nat|
        2 <= j < n ==> taken.contains(base + seq![':'] + #[trigger] decimal(j))) {
        let k = choose|k: nat|
            2 <= k && r == #[trigger] numbered(base, k) && !taken.contains(r) && forall|j: nat|
                2 <= j < k ==> taken.contains(#[trigger] numbered(base, j));
        if n < k {
            assert(taken.contains(numbered(base, n)));
        }
        if k < n {
            assert(taken.contains(base + seq![':'] + decimal(k)));
        }
    }
}

} // verus!
