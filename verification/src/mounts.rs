//! The mounts of the machine, as `/proc/self/mountinfo` lists them.

use vstd::prelude::*;

use crate::path::UnixPath;
use crate::text::{lemma_split_first, rows, split, split_on};

verus! {

/// The number that three octal digits from position `i` on stand for, if it fits a
/// byte.
pub open spec fn octal_at(s: Seq<u8>, i: int) -> Option<int> {
    if i + 3 <= s.len() && (forall|k: int| i <= k < i + 3 ==> 48 <= #[trigger] s[k] <= 55) {
        let n = (s[i] - 48) * 64 + (s[i + 1] - 48) * 8 + (s[i + 2] - 48);
        if n <= 255 {
            Some(n)
        } else {
            None
        }
    } else {
        None
    }
}

/// `s` with every escape, a backslash and three octal digits, replaced by its byte.
pub open spec fn unescaped(s: Seq<u8>) -> Seq<u8>
    decreases s.len(),
{
    if s.len() == 0 {
        s
    } else if s[0] == 92 && octal_at(s, 1) is Some {
        seq![octal_at(s, 1)->0 as u8] + unescaped(s.skip(4))
    } else {
        seq![s[0]] + unescaped(s.drop_first())
    }
}

/// How a byte is written in mountinfo: space, tab, newline and backslash are escaped.
pub open spec fn escaped_byte(b: u8) -> Seq<u8> {
    if b == 32 {
        seq![92u8, 48u8, 52u8, 48u8]
    } else if b == 9 {
        seq![92u8, 48u8, 49u8, 49u8]
    } else if b == 10 {
        seq![92u8, 48u8, 49u8, 50u8]
    } else if b == 92 {
        seq![92u8, 49u8, 51u8, 52u8]
    } else {
        seq![b]
    }
}

/// How a path is written in mountinfo.
pub open spec fn escaped(p: Seq<u8>) -> Seq<u8>
    decreases p.len(),
{
    if p.len() == 0 {
        p
    } else {
        escaped_byte(p[0]) + escaped(p.drop_first())
    }
}

/// A path that was escaped comes back exactly, whatever bytes it holds.
pub proof fn lemma_unescape_round_trip(p: Seq<u8>)
    ensures
        unescaped(escaped(p)) == p,
    decreases p.len(),
{
    if p.len() > 0 {
        let rest = escaped(p.drop_first());
        let all = escaped(p);
        lemma_unescape_round_trip(p.drop_first());
        if p[0] == 32 || p[0] == 9 || p[0] == 10 || p[0] == 92 {
            assert(all.skip(4) =~= rest);
            assert(octal_at(all, 1) == Some(p[0] as int));
        } else {
            assert(all.drop_first() =~= rest);
        }
        assert(unescaped(all) =~= p);
    }
}

fn octal3(s: &[u8], i: usize) -> (r: Option<u8>)
    requires
        i <= s@.len(),
    ensures
        r matches Some(n) ==> octal_at(s@, i as int) == Some(n as int),
        r is None ==> octal_at(s@, i as int) is None,
{
    if s.len() - i < 3 {
        return None;
    }
    let total: usize = s.len();
    let (a, b, c) = (s[i], s[i + 1], s[i + 2]);
    if a < 48 || a > 55 || b < 48 || b > 55 || c < 48 || c > 55 {
        assert(a == s@[i as int] && b == s@[i + 1] && c == s@[i + 2]);
        return None;
    }
    let n: u32 = (a - 48) as u32 * 64 + (b - 48) as u32 * 8 + (c - 48) as u32;
    if n <= 255 {
        Some(n as u8)
    } else {
        None
    }
}

/// Unescape mountinfo's octal escapes (space `\040`, tab `\011`, newline `\012`,
/// backslash `\134`) byte-wise, so paths containing them — including non-ASCII
/// bytes — round-trip exactly.
pub fn unescape_octal(field: &[u8]) -> (out: Vec<u8>)
    ensures
        out@ == unescaped(field@),
{
    let mut out: Vec<u8> = Vec::new();
    let mut i: usize = 0;
    assert(field@.skip(0) =~= field@);
    while i < field.len()
        invariant
            i <= field@.len(),
            unescaped(field@) == out@ + unescaped(field@.skip(i as int)),
        decreases field@.len() - i,
    {
        let ghost rest = field@.skip(i as int);
        let ghost before = out@;
        assert(rest.drop_first() =~= field@.skip(i + 1));
        assert(rest.len() >= 4 ==> rest.skip(4) =~= field@.skip(i + 4));
        assert(octal_at(rest, 1) == octal_at(field@, i + 1)) by {
            assert forall|k: int| 1 <= k < 4 && i + k < field@.len() implies rest[k] == #[trigger]
                field@[i + k] by {}
            if octal_at(rest, 1) is Some || octal_at(field@, i + 1) is Some {
                assert(rest[1] == field@[i + 1] && rest[2] == field@[i + 2] && rest[3]
                    == field@[i + 3]);
            }
        }
        if field[i] == 92 {
            let total: usize = field.len();
            if let Some(code) = octal3(field, i + 1) {
                out.push(code);
                i = i + 4;
                assert(unescaped(field@) =~= out@ + unescaped(field@.skip(i as int)));
                continue;
            }
        }
        out.push(field[i]);
        i = i + 1;
        assert(unescaped(field@) =~= out@ + unescaped(field@.skip(i as int)));
    }
    assert(field@.skip(i as int) =~= Seq::<u8>::empty());
    assert(unescaped(field@) =~= out@);
    out
}

/// The paths as bytes.
pub open spec fn paths(v: Seq<UnixPath>) -> Seq<Seq<u8>> {
    v.map(|_i: int, p: UnixPath| p@)
}

/// The fifth field of each line that has one, unescaped.
pub open spec fn mount_fields(ls: Seq<Seq<u8>>) -> Seq<Seq<u8>>
    decreases ls.len(),
{
    if ls.len() == 0 {
        Seq::empty()
    } else {
        let r = mount_fields(ls.drop_last());
        let fields = split(ls.last(), 32u8);
        if fields.len() > 4 {
            r.push(unescaped(fields[4]))
        } else {
            r
        }
    }
}

/// The mount points that mountinfo lists.
pub open spec fn listed_mounts(data: Seq<u8>) -> Seq<Seq<u8>> {
    mount_fields(split(data, 10u8))
}

/// Parse mountinfo content byte-wise (mount points need not be valid UTF-8).
pub fn parse_mount_points(data: &[u8]) -> (r: Vec<UnixPath>)
    ensures
        paths(r@) == listed_mounts(data@),
{
    let ls = split_on(data, 10u8);
    let ghost all = split(data@, 10u8);
    let mut r: Vec<UnixPath> = Vec::new();
    let mut i: usize = 0;
    assert(paths(r@) =~= mount_fields(all.take(0)));
    while i < ls.len()
        invariant
            i <= ls@.len(),
            all == rows(ls@),
            paths(r@) == mount_fields(all.take(i as int)),
        decreases ls@.len() - i,
    {
        proof {
            assert(all.take(i + 1).drop_last() =~= all.take(i as int));
            assert(all.take(i + 1).last() == ls@[i as int]@);
        }
        let fields = split_on(ls[i].as_slice(), 32u8);
        if fields.len() > 4 {
            assert(rows(fields@)[4] == fields@[4]@);
            let p = UnixPath { bytes: unescape_octal(fields[4].as_slice()) };
            let ghost before = r@;
            r.push(p);
            assert(paths(r@) =~= paths(before).push(p@));
        }
        i = i + 1;
    }
    assert(all.take(i as int) =~= all);
    r
}

/// The mount points of two lists of lines one after the other.
pub proof fn lemma_mounts_of_parts(a: Seq<Seq<u8>>, b: Seq<Seq<u8>>)
    ensures
        mount_fields(a + b) == mount_fields(a) + mount_fields(b),
    decreases b.len(),
{
    if b.len() == 0 {
        assert(a + b =~= a);
        assert(mount_fields(a) + mount_fields(b) =~= mount_fields(a));
    } else {
        lemma_mounts_of_parts(a, b.drop_last());
        assert((a + b).drop_last() =~= a + b.drop_last());
        assert(mount_fields(a + b) =~= mount_fields(a) + mount_fields(b));
    }
}

proof fn lemma_escaped_is_one_field(p: Seq<u8>)
    ensures
        !escaped(p).contains(32u8),
        !escaped(p).contains(10u8),
    decreases p.len(),
{
    if p.len() > 0 {
        let rest = escaped(p.drop_first());
        lemma_escaped_is_one_field(p.drop_first());
        let head = escaped_byte(p[0]);
        assert(forall|i: int| 0 <= i < head.len() ==> #[trigger] head[i] != 32 && head[i] != 10);
        assert forall|i: int| 0 <= i < escaped(p).len() implies escaped(p)[i] != 32 && escaped(p)[i] != 10 by {
            if i < head.len() {
                assert(escaped(p)[i] == head[i]);
            } else {
                assert(rest.contains(rest[i - head.len()]));
            }
        }
    }
}

proof fn lemma_no_newline_in_both(a: Seq<u8>, b: Seq<u8>)
    requires
        !a.contains(10u8),
        !b.contains(10u8),
    ensures
        !(a + seq![32u8] + b).contains(10u8),
{
    let s = a + seq![32u8] + b;
    assert forall|i: int| 0 <= i < s.len() implies s[i] != 10u8 by {
        if i < a.len() {
            assert(a.contains(a[i]));
        } else if i > a.len() {
            assert(b.contains(b[i - a.len() - 1]));
        }
    }
}

/// A field of a line: it holds neither a space nor a newline.
pub open spec fn is_field(f: Seq<u8>) -> bool {
    !f.contains(32u8) && !f.contains(10u8)
}

/// A line of mountinfo: four fields, the mount point as it is written there, and the rest.
pub open spec fn mount_line(
    a: Seq<u8>,
    b: Seq<u8>,
    c: Seq<u8>,
    d: Seq<u8>,
    point: Seq<u8>,
    tail: Seq<u8>,
) -> Seq<u8> {
    a + seq![32u8] + (b + seq![32u8] + (c + seq![32u8] + (d + seq![32u8] + (escaped(point) + seq![32u8]
        + tail))))
}

/// The mount points are read back line by line, whatever bytes they hold and whatever stands
/// in the other fields.
pub proof fn lemma_mounts_are_read_back(
    a: Seq<u8>,
    b: Seq<u8>,
    c: Seq<u8>,
    d: Seq<u8>,
    point: Seq<u8>,
    tail: Seq<u8>,
    rest: Seq<u8>,
)
    requires
        is_field(a),
        is_field(b),
        is_field(c),
        is_field(d),
        !tail.contains(10u8),
    ensures
        listed_mounts(mount_line(a, b, c, d, point, tail) + seq![10u8] + rest) == seq![point]
            + listed_mounts(rest),
        listed_mounts(Seq::empty()) == Seq::<Seq<u8>>::empty(),
{
    lemma_escaped_is_one_field(point);
    let l4 = escaped(point) + seq![32u8] + tail;
    let l3 = d + seq![32u8] + l4;
    let l2 = c + seq![32u8] + l3;
    let l1 = b + seq![32u8] + l2;
    let line = a + seq![32u8] + l1;
    lemma_no_newline_in_both(escaped(point), tail);
    lemma_no_newline_in_both(d, l4);
    lemma_no_newline_in_both(c, l3);
    lemma_no_newline_in_both(b, l2);
    lemma_no_newline_in_both(a, l1);
    lemma_split_first(line, 10u8, rest);
    lemma_split_first(a, 32u8, l1);
    lemma_split_first(b, 32u8, l2);
    lemma_split_first(c, 32u8, l3);
    lemma_split_first(d, 32u8, l4);
    lemma_split_first(escaped(point), 32u8, tail);
    let fields = split(line, 32u8);
    assert(fields.len() > 4 && fields[4] == escaped(point));
    lemma_unescape_round_trip(point);
    let one = seq![line];
    assert(one.drop_last() =~= Seq::<Seq<u8>>::empty());
    assert(mount_fields(one.drop_last()) =~= Seq::<Seq<u8>>::empty());
    assert(mount_fields(one) =~= seq![point]);
    lemma_mounts_of_parts(one, split(rest, 10u8));
    let none = Seq::<u8>::empty();
    lemma_split_first(none, 10u8, none);
    lemma_split_first(none, 32u8, none);
    let last = seq![none];
    assert(last.drop_last() =~= Seq::<Seq<u8>>::empty());
    assert(mount_fields(last.drop_last()) =~= Seq::<Seq<u8>>::empty());
    assert(mount_fields(last) =~= Seq::<Seq<u8>>::empty());
}

} // verus!
