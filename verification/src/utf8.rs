//! Characters as UTF-8 bytes.

use vstd::prelude::*;
use vstd::utf8::{char_u32_cast, decode_utf8, encode_scalar, encode_utf8, valid_utf8};

verus! {

/// How many bytes the UTF-8 encoding of `s` has.
pub open spec fn utf8_len(s: Seq<char>) -> nat {
    encode_utf8(s).len()
}

/// The encoding of a text is the encoding of its two parts, one after the other.
pub proof fn lemma_encode_concat(a: Seq<char>, b: Seq<char>)
    ensures
        encode_utf8(a + b) == encode_utf8(a) + encode_utf8(b),
    decreases a.len(),
{
    if a.len() == 0 {
        assert(a + b =~= b);
        assert(encode_utf8(a) + encode_utf8(b) =~= encode_utf8(b));
    } else {
        assert((a + b).drop_first() =~= a.drop_first() + b);
        lemma_encode_concat(a.drop_first(), b);
        assert(encode_utf8(a + b) =~= encode_utf8(a) + encode_utf8(b));
    }
}

/// How many bytes the UTF-8 encoding of `c` has.
pub open spec fn char_len(c: char) -> nat {
    encode_scalar(c as u32).len()
}

pub proof fn lemma_len_push(s: Seq<char>, c: char)
    ensures
        utf8_len(s.push(c)) == utf8_len(s) + char_len(c),
        1 <= char_len(c) <= 4,
{
    assert(s.push(c) =~= s + seq![c]);
    lemma_encode_concat(s, seq![c]);
    let one = seq![c];
    assert(one.drop_first() =~= Seq::<char>::empty());
    assert(encode_utf8(one.drop_first()) =~= Seq::<u8>::empty());
    assert(encode_utf8(one) == encode_scalar(one[0] as u32) + encode_utf8(one.drop_first()));
    assert(encode_utf8(one) =~= encode_scalar(c as u32));
}

pub proof fn lemma_len_concat(a: Seq<char>, b: Seq<char>)
    ensures
        utf8_len(a + b) == utf8_len(a) + utf8_len(b),
{
    lemma_encode_concat(a, b);
}

/// A text that does not begin with a slash does not do so in UTF-8 either.
pub proof fn lemma_no_leading_slash(s: Seq<char>)
    requires
        s.len() > 0,
        s[0] != '/',
    ensures
        encode_utf8(s).len() > 0,
        encode_utf8(s)[0] != 47,
{
    let n = s[0] as u32;
    char_u32_cast(s[0], n);
    assert(n != 47);
    assert(n <= 0x7f && n != 47 ==> (n & 0x7f) as u8 != 47u8) by (bit_vector);
    assert(0xc0u8 | ((n >> 6) & 0x1f) as u8 != 47u8) by (bit_vector);
    assert(0xe0u8 | ((n >> 12) & 0x0f) as u8 != 47u8) by (bit_vector);
    assert(0xf0u8 | ((n >> 18) & 0x7) as u8 != 47u8) by (bit_vector);
    let head = encode_scalar(n);
    assert(head.len() > 0 && head[0] != 47);
    assert(encode_utf8(s) == head + encode_utf8(s.drop_first()));
}

/// A text without slashes has none in UTF-8 either.
pub proof fn lemma_no_slash(s: Seq<char>)
    requires
        !s.contains('/'),
    ensures
        !encode_utf8(s).contains(47u8),
    decreases s.len(),
{
    if s.len() > 0 {
        lemma_no_slash_in_first(s);
        let rest = s.drop_first();
        assert forall|i: int| 0 <= i < rest.len() implies rest[i] != '/' by {
            assert(s.contains(s[i + 1]));
        }
        lemma_no_slash(rest);
        let head = encode_scalar(s[0] as u32);
        assert(encode_utf8(s) == head + encode_utf8(rest));
        assert forall|i: int| 0 <= i < encode_utf8(s).len() implies encode_utf8(s)[i] != 47u8 by {
            if i >= head.len() {
                assert(encode_utf8(rest).contains(encode_utf8(rest)[i - head.len()]));
            }
        }
    }
}

/// Nor has a character that is no slash.
proof fn lemma_no_slash_in_first(s: Seq<char>)
    requires
        s.len() > 0,
        !s.contains('/'),
    ensures
        forall|i: int|
            0 <= i < encode_scalar(s[0] as u32).len() ==> #[trigger] encode_scalar(s[0] as u32)[i] != 47u8,
{
    assert(s.contains(s[0]));
    lemma_no_leading_slash(s);
    let n = s[0] as u32;
    char_u32_cast(s[0], n);
    assert(encode_utf8(s)[0] == encode_scalar(n)[0]);
    assert(0x80u8 | (n & 0x3f) as u8 != 47u8) by (bit_vector);
    assert(0x80u8 | ((n >> 6) & 0x3f) as u8 != 47u8) by (bit_vector);
    assert(0x80u8 | ((n >> 12) & 0x3f) as u8 != 47u8) by (bit_vector);
}

/// How many bytes `c` takes in UTF-8.
pub fn width(c: char) -> (n: usize)
    ensures
        n == char_len(c),
{
    let u: u32 = c as u32;
    if u <= 0x7f {
        1
    } else if u <= 0x7ff {
        2
    } else if u <= 0xffff {
        3
    } else {
        4
    }
}

/// How many bytes a text takes in UTF-8, given that the number fits.
pub fn byte_len(v: &[char]) -> (n: usize)
    requires
        utf8_len(v@) <= usize::MAX,
    ensures
        n == utf8_len(v@),
{
    let mut n: usize = 0;
    let mut i: usize = 0;
    assert(v@.take(0) =~= Seq::<char>::empty());
    while i < v.len()
        invariant
            i <= v@.len(),
            n == utf8_len(v@.take(i as int)),
            utf8_len(v@) <= usize::MAX,
        decreases v@.len() - i,
    {
        proof {
            assert(v@.take(i + 1) =~= v@.take(i as int).push(v@[i as int]));
            lemma_len_push(v@.take(i as int), v@[i as int]);
            assert(v@ =~= v@.take(i + 1) + v@.skip(i + 1));
            lemma_len_concat(v@.take(i + 1), v@.skip(i + 1));
        }
        n = n + width(v[i]);
        i = i + 1;
    }
    assert(v@.take(i as int) =~= v@);
    n
}

/// The text of bytes that need not be UTF-8, as `String::from_utf8_lossy` reads them.
pub uninterp spec fn lossy(bytes: Seq<u8>) -> Seq<char>;

/// Calls `String::from_utf8_lossy`. Claims that the text depends on the bytes alone,
/// and that valid UTF-8 is decoded as it stands; what becomes of other bytes is not
/// said.
#[verifier::external_body]
pub(crate) fn lossy_text(bytes: &[u8]) -> (r: String)
    ensures
        r@ == lossy(bytes@),
        valid_utf8(bytes@) ==> r@ == decode_utf8(bytes@),
{
    String::from_utf8_lossy(bytes).into_owned()
}

/// Calls `std::str::from_utf8`. Claims that it succeeds on valid UTF-8 and on
/// nothing else, and gives the text that the bytes encode.
#[verifier::external_body]
pub(crate) fn strict_text(bytes: &[u8]) -> (r: Option<String>)
    ensures
        r is Some <==> valid_utf8(bytes@),
        r matches Some(s) ==> s@ == decode_utf8(bytes@),
{
    match std::str::from_utf8(bytes) {
        Ok(s) => Some(s.to_string()),
        Err(_) => None,
    }
}

/// A text that does not end with a slash does not do so in UTF-8 either.
pub proof fn lemma_no_trailing_slash(s: Seq<char>)
    requires
        s.len() > 0,
        s.last() != '/',
    ensures
        encode_utf8(s).len() > 0,
        encode_utf8(s).last() != 47,
{
    let front = s.drop_last();
    let last = seq![s.last()];
    assert(front + last =~= s);
    lemma_encode_concat(front, last);
    lemma_no_slash(last);
    lemma_no_leading_slash(last);
    let e = encode_utf8(last);
    assert(encode_utf8(s).last() == e.last());
    assert(e.contains(e.last()));
}

} // verus!
