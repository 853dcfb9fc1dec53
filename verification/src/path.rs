//! Unix paths: bytes, with `/` between the components.

use vstd::prelude::*;
use vstd::utf8::encode_utf8;

use crate::order::{lex, lemma_lex_strict_total, lemma_same_start_does_not_count, lemma_text_order, strict_total, text_before, text_less, Ordered};
use crate::text::{after_last, copy_range, equal, extend, join, join_with, lemma_after_last, lemma_join_split, lemma_split_concat, lemma_split_first, lemma_split_join, lemma_split_pieces, rfind_symbol, rows, split, split_on};
use crate::utf8::{lossy, lossy_text};

verus! {

pub open spec fn dot() -> Seq<u8> {
    seq![46u8]
}

pub open spec fn dot_dot() -> Seq<u8> {
    seq![46u8, 46u8]
}

pub open spec fn slash() -> Seq<u8> {
    seq![47u8]
}

/// The path begins at the root.
pub open spec fn is_absolute(p: Seq<u8>) -> bool {
    p.len() > 0 && p[0] == 47
}

/// A piece between slashes counts as a component, unless it is empty or a `.` that
/// is not the first piece of the path.
pub open spec fn counts(piece: Seq<u8>, i: int) -> bool {
    piece.len() > 0 && (piece == dot() ==> i == 0)
}

/// The pieces that are components.
pub open spec fn counted(pieces: Seq<Seq<u8>>) -> Seq<Seq<u8>>
    decreases pieces.len(),
{
    if pieces.len() == 0 {
        Seq::empty()
    } else {
        let r = counted(pieces.drop_last());
        if counts(pieces.last(), pieces.len() - 1) {
            r.push(pieces.last())
        } else {
            r
        }
    }
}

/// The components of a path; that of the root is `/`.
pub open spec fn components(p: Seq<u8>) -> Seq<Seq<u8>> {
    let body = counted(split(p, 47u8));
    if is_absolute(p) {
        seq![slash()] + body
    } else {
        body
    }
}

/// A component that is a name: neither the root, nor `.`, nor `..`.
pub open spec fn is_name(c: Seq<u8>) -> bool {
    c != slash() && c != dot() && c != dot_dot()
}

/// Two paths have the same components.
pub open spec fn same_path(a: Seq<u8>, b: Seq<u8>) -> bool {
    components(a) == components(b)
}

/// `p` is `base` or lies below it.
pub open spec fn below(p: Seq<u8>, base: Seq<u8>) -> bool {
    crate::text::starts_with(components(p), components(base))
}

/// The last components of `p` are those of `tail`.
pub open spec fn path_ends_with(p: Seq<u8>, tail: Seq<u8>) -> bool {
    crate::text::ends_with(components(p), components(tail))
}

/// The last component, if it is a name.
pub open spec fn file_name(p: Seq<u8>) -> Option<Seq<u8>> {
    let c = components(p);
    if c.len() > 0 && is_name(c.last()) {
        Some(c.last())
    } else {
        None
    }
}

/// There is a dot in the name, other than its first byte.
pub open spec fn has_suffix_dot(n: Seq<u8>) -> bool {
    exists|i: int| 0 < i < n.len() && #[trigger] n[i] == 46u8
}

/// What stands after the last dot of the file name, where it has a dot other than
/// its first byte.
pub open spec fn extension(p: Seq<u8>) -> Option<Seq<u8>> {
    match file_name(p) {
        Some(n) => {
            if has_suffix_dot(n) {
                Some(after_last(n, 46u8))
            } else {
                None
            }
        },
        None => None,
    }
}

/// `rel` taken from `base`: `rel` itself where it is absolute.
pub open spec fn joined(base: Seq<u8>, rel: Seq<u8>) -> Seq<u8> {
    if is_absolute(rel) {
        rel
    } else if base.len() > 0 && base.last() != 47 {
        base.push(47u8) + rel
    } else {
        base + rel
    }
}

pub open spec fn blank(piece: Seq<u8>) -> bool {
    piece.len() == 0 || piece == dot()
}

pub open spec fn drop_front(pieces: Seq<Seq<u8>>) -> Seq<Seq<u8>>
    decreases pieces.len(),
{
    if pieces.len() > 0 && blank(pieces[0]) {
        drop_front(pieces.drop_first())
    } else {
        pieces
    }
}

pub open spec fn drop_back(pieces: Seq<Seq<u8>>) -> Seq<Seq<u8>>
    decreases pieces.len(),
{
    if pieces.len() > 0 && blank(pieces.last()) {
        drop_back(pieces.drop_last())
    } else {
        pieces
    }
}

/// The part of an absolute path below the root.
pub open spec fn below_root(p: Seq<u8>) -> Seq<u8> {
    join(drop_back(drop_front(split(p, 47u8))), slash())
}

/// The path of the given components.
pub open spec fn of_components(c: Seq<Seq<u8>>) -> Seq<u8> {
    if c.len() > 0 && c[0] == slash() {
        slash() + join(c.drop_first(), slash())
    } else {
        join(c, slash())
    }
}

/// The path without its last component; `None` for the root and the empty path.
pub open spec fn parent(p: Seq<u8>) -> Option<Seq<u8>> {
    let c = components(p);
    if c.len() > 0 && c.last() != slash() {
        Some(of_components(c.drop_last()))
    } else {
        None
    }
}

/// Where a kind of component stands in the order: the root, `.`, `..`, names.
pub open spec fn kind_rank(c: Seq<u8>) -> int {
    if c == slash() {
        0
    } else if c == dot() {
        1
    } else if c == dot_dot() {
        2
    } else {
        3
    }
}

pub open spec fn component_less() -> spec_fn(Seq<u8>, Seq<u8>) -> bool {
    |a: Seq<u8>, b: Seq<u8>|
        kind_rank(a) < kind_rank(b) || (kind_rank(a) == kind_rank(b) && text_less(a, b))
}

/// The order of paths: by the first component that differs.
pub open spec fn path_less(a: Seq<u8>, b: Seq<u8>) -> bool {
    lex(components(a), components(b), component_less())
}

/// The order of components is a strict total order, and so is that of their rows.
pub proof fn lemma_path_order()
    ensures
        strict_total(component_less()),
        strict_total(|a: Seq<Seq<u8>>, b: Seq<Seq<u8>>| lex(a, b, component_less())),
{
    lemma_text_order::<u8>();
    let t = |a: Seq<u8>, b: Seq<u8>| text_less(a, b);
    let less = component_less();
    assert forall|a: Seq<u8>| !#[trigger] less(a, a) by {
        assert(!t(a, a));
    }
    assert forall|a: Seq<u8>, b: Seq<u8>, c: Seq<u8>| #[trigger] less(a, b) && #[trigger] less(
        b,
        c,
    ) implies less(a, c) by {
        if t(a, b) && t(b, c) {
            assert(t(a, c));
        }
    }
    assert forall|a: Seq<u8>, b: Seq<u8>| a == b || #[trigger] less(a, b) || less(b, a) by {
        assert(a == b || t(a, b) || t(b, a));
    }
    lemma_lex_strict_total(less);
}

/// A path.
#[derive(Debug)]
pub struct UnixPath {
    pub bytes: Vec<u8>,
}

impl View for UnixPath {
    type V = Seq<u8>;

    open spec fn view(&self) -> Seq<u8> {
        self.bytes@
    }
}

impl Clone for UnixPath {
    fn clone(&self) -> (r: Self)
        ensures
            r@ == self@,
    {
        let bytes = copy_range(self.bytes.as_slice(), 0, self.bytes.len());
        assert(bytes@ =~= self.bytes@);
        UnixPath { bytes }
    }
}

fn is_dot(piece: &Vec<u8>) -> (r: bool)
    ensures
        r == (piece@ == dot()),
{
    let r = piece.len() == 1 && piece[0] == 46;
    assert(r ==> piece@ =~= dot());
    r
}

fn is_dot_dot(piece: &Vec<u8>) -> (r: bool)
    ensures
        r == (piece@ == dot_dot()),
{
    let r = piece.len() == 2 && piece[0] == 46 && piece[1] == 46;
    assert(r ==> piece@ =~= dot_dot());
    r
}

fn is_slash(piece: &Vec<u8>) -> (r: bool)
    ensures
        r == (piece@ == slash()),
{
    let r = piece.len() == 1 && piece[0] == 47;
    assert(r ==> piece@ =~= slash());
    r
}

/// Whether two rows of components are the same.
pub fn same_components(a: &Vec<Vec<u8>>, b: &Vec<Vec<u8>>) -> (r: bool)
    ensures
        r == (rows(a@) == rows(b@)),
{
    if a.len() != b.len() {
        assert(rows(a@).len() != rows(b@).len());
        return false;
    }
    let mut i: usize = 0;
    while i < a.len()
        invariant
            i <= a@.len() == b@.len(),
            forall|j: int| 0 <= j < i ==> rows(a@)[j] == rows(b@)[j],
        decreases a@.len() - i,
    {
        if !equal(a[i].as_slice(), b[i].as_slice()) {
            assert(rows(a@)[i as int] != rows(b@)[i as int]);
            return false;
        }
        i = i + 1;
    }
    assert(rows(a@) =~= rows(b@));
    true
}

/// Whether the components of `b` stand in `a` from position `at` on.
fn components_at(a: &Vec<Vec<u8>>, b: &Vec<Vec<u8>>, at: usize) -> (r: bool)
    requires
        at + b@.len() <= a@.len(),
    ensures
        r == (rows(a@).subrange(at as int, at + b@.len()) == rows(b@)),
{
    let n: usize = a.len();
    let mut i: usize = 0;
    while i < b.len()
        invariant
            i <= b@.len(),
            at + b@.len() <= a@.len() == n,
            forall|j: int| 0 <= j < i ==> rows(a@)[at + j] == rows(b@)[j],
        decreases b@.len() - i,
    {
        if !equal(a[at + i].as_slice(), b[i].as_slice()) {
            assert(rows(a@).subrange(at as int, at + b@.len())[i as int] != rows(b@)[i as int]);
            return false;
        }
        i = i + 1;
    }
    assert(rows(a@).subrange(at as int, at + b@.len()) =~= rows(b@));
    true
}

fn rank_of(c: &Vec<u8>) -> (r: u8)
    ensures
        r == kind_rank(c@),
{
    if is_slash(c) {
        0
    } else if is_dot(c) {
        1
    } else if is_dot_dot(c) {
        2
    } else {
        3
    }
}

fn component_before(a: &Vec<u8>, b: &Vec<u8>) -> (r: bool)
    ensures
        r == component_less()(a@, b@),
{
    let x: u8 = rank_of(a);
    let y: u8 = rank_of(b);
    x < y || (x == y && text_before(a.as_slice(), b.as_slice()))
}

/// Whether one row of components comes before another.
pub fn components_before(a: &Vec<Vec<u8>>, b: &Vec<Vec<u8>>) -> (r: bool)
    ensures
        r == lex(rows(a@), rows(b@), component_less()),
{
    let ghost less = component_less();
    let ghost x = rows(a@);
    let ghost y = rows(b@);
    let mut i: usize = 0;
    assert(x.skip(0) =~= x);
    assert(y.skip(0) =~= y);
    loop
        invariant
            i <= a@.len(),
            i <= b@.len(),
            x == rows(a@),
            y == rows(b@),
            less == component_less(),
            lex(x, y, less) == lex(x.skip(i as int), y.skip(i as int), less),
        decreases a@.len() - i,
    {
        if i == b.len() {
            return false;
        }
        if i == a.len() {
            return true;
        }
        proof {
            lemma_path_order();
            assert(x.skip(i as int)[0] == a@[i as int]@);
            assert(y.skip(i as int)[0] == b@[i as int]@);
            assert(x.skip(i as int).drop_first() =~= x.skip(i + 1));
            assert(y.skip(i as int).drop_first() =~= y.skip(i + 1));
        }
        if component_before(&a[i], &b[i]) {
            return true;
        }
        if !equal(a[i].as_slice(), b[i].as_slice()) {
            return false;
        }
        i = i + 1;
    }
}

impl UnixPath {
    /// The path that a text spells.
    pub fn new(s: &str) -> (r: UnixPath)
        ensures
            r@ == encode_utf8(s@),
    {
        let b = s.as_bytes();
        let bytes = copy_range(b, 0, b.len());
        assert(bytes@ =~= b@);
        UnixPath { bytes }
    }

    /// The path as text; bytes that are not UTF-8 are replaced.
    pub fn display(&self) -> (r: String)
        ensures
            r@ == lossy(self@),
    {
        lossy_text(self.bytes.as_slice())
    }

    pub fn absolute(&self) -> (r: bool)
        ensures
            r == is_absolute(self@),
    {
        self.bytes.len() > 0 && self.bytes[0] == 47
    }

    /// The components of the path.
    pub fn components(&self) -> (r: Vec<Vec<u8>>)
        ensures
            rows(r@) == components(self@),
    {
        let pieces = split_on(self.bytes.as_slice(), 47u8);
        let ghost spec_pieces = split(self@, 47u8);
        let mut r: Vec<Vec<u8>> = Vec::new();
        let ghost root: Seq<Seq<u8>> = Seq::empty();
        if self.absolute() {
            let mut s: Vec<u8> = Vec::new();
            s.push(47u8);
            proof {
                root = seq![slash()];
                assert(s@ =~= slash());
            }
            r.push(s);
            assert(rows(r@) =~= root);
        } else {
            assert(rows(r@) =~= root);
        }
        let mut i: usize = 0;
        assert(root + counted(spec_pieces.take(0)) =~= root);
        while i < pieces.len()
            invariant
                i <= pieces@.len(),
                spec_pieces == rows(pieces@),
                rows(r@) == root + counted(spec_pieces.take(i as int)),
            decreases pieces@.len() - i,
        {
            proof {
                let t = spec_pieces.take(i + 1);
                assert(t.drop_last() =~= spec_pieces.take(i as int));
                assert(t.last() == pieces@[i as int]@);
            }
            if pieces[i].len() > 0 && (i == 0 || !is_dot(&pieces[i])) {
                let c = copy_range(pieces[i].as_slice(), 0, pieces[i].len());
                assert(c@ =~= pieces@[i as int]@);
                let ghost r0 = r@;
                let ghost c0 = c@;
                r.push(c);
                assert(rows(r@) =~= rows(r0).push(c0));
                assert(rows(r@) =~= root + counted(spec_pieces.take(i + 1)));
            }
            i = i + 1;
        }
        assert(spec_pieces.take(i as int) =~= spec_pieces);
        assert(rows(r@) =~= components(self@));
        r
    }

    /// Whether two paths have the same components.
    pub fn same_as(&self, other: &UnixPath) -> (r: bool)
        ensures
            r == same_path(self@, other@),
    {
        let a = self.components();
        let b = other.components();
        same_components(&a, &b)
    }

    /// Whether the path is `base` or lies below it.
    pub fn starts_with(&self, base: &UnixPath) -> (r: bool)
        ensures
            r == below(self@, base@),
    {
        let a = self.components();
        let b = base.components();
        if b.len() > a.len() {
            return false;
        }
        let r = components_at(&a, &b, 0);
        assert(rows(a@).subrange(0, b@.len() as int) =~= rows(a@).take(rows(b@).len() as int));
        r
    }

    /// Whether the last components are those of `tail`.
    pub fn ends_with(&self, tail: &UnixPath) -> (r: bool)
        ensures
            r == path_ends_with(self@, tail@),
    {
        let a = self.components();
        let b = tail.components();
        if b.len() > a.len() {
            return false;
        }
        let at: usize = a.len() - b.len();
        let r = components_at(&a, &b, at);
        assert(rows(a@).subrange(at as int, at + b@.len()) =~= rows(a@).skip(at as int));
        r
    }

    /// The last component, if it is a name.
    pub fn file_name(&self) -> (r: Option<Vec<u8>>)
        ensures
            r matches Some(n) ==> file_name(self@) == Some(n@),
            r is None ==> file_name(self@) is None,
    {
        let mut c = self.components();
        if c.len() == 0 {
            return None;
        }
        let ghost c0 = rows(c@);
        assert(c0.last() == c@[c@.len() - 1]@);
        let last = c.pop().unwrap();
        if is_slash(&last) || is_dot(&last) || is_dot_dot(&last) {
            None
        } else {
            Some(last)
        }
    }

    /// What stands after the last dot of the file name.
    pub fn extension(&self) -> (r: Option<Vec<u8>>)
        ensures
            r matches Some(n) ==> extension(self@) == Some(n@),
            r is None ==> extension(self@) is None,
    {
        let n = match self.file_name() {
            Some(n) => n,
            None => {
                return None;
            },
        };
        match rfind_symbol(n.as_slice(), 46u8) {
            Some(i) => {
                proof {
                    lemma_after_last(n@, 46u8, i as int);
                }
                if i > 0 {
                    let total: usize = n.len();
                    let e = copy_range(n.as_slice(), i + 1, total);
                    assert(e@ =~= n@.skip(i + 1));
                    assert(n@[i as int] == 46u8);
                    assert(has_suffix_dot(n@));
                    Some(e)
                } else {
                    None
                }
            },
            None => None,
        }
    }

    /// The path without its last component.
    pub fn parent(&self) -> (r: Option<UnixPath>)
        ensures
            r matches Some(p) ==> parent(self@) == Some(p@),
            r is None ==> parent(self@) is None,
    {
        let mut c = self.components();
        if c.len() == 0 {
            return None;
        }
        let ghost c0 = rows(c@);
        assert(c0.last() == c@[c@.len() - 1]@);
        let last = c.pop().unwrap();
        if is_slash(&last) {
            return None;
        }
        assert(rows(c@) =~= c0.drop_last());
        let mut bytes: Vec<u8> = Vec::new();
        let mut sep: Vec<u8> = Vec::new();
        sep.push(47u8);
        assert(sep@ =~= slash());
        if c.len() > 0 && is_slash(&c[0]) {
            assert(rows(c@)[0] == slash());
            let ghost before = rows(c@);
            let first = c.remove(0);
            assert(rows(c@) =~= before.drop_first());
            bytes.push(47u8);
            let rest = join_with(&c, sep.as_slice());
            extend(&mut bytes, rest.as_slice());
            assert(bytes@ =~= slash() + rest@);
        } else {
            let rest = join_with(&c, sep.as_slice());
            extend(&mut bytes, rest.as_slice());
            assert(bytes@ =~= rest@);
            assert(rows(c@).len() > 0 ==> rows(c@)[0] == c@[0]@);
        }
        Some(UnixPath { bytes })
    }

    /// `rel` taken from this path.
    pub fn join_path(&self, rel: &UnixPath) -> (r: UnixPath)
        ensures
            r@ == joined(self@, rel@),
    {
        if rel.absolute() {
            return rel.clone();
        }
        let mut bytes = self.clone().bytes;
        if bytes.len() > 0 && bytes[bytes.len() - 1] != 47 {
            bytes.push(47u8);
        }
        extend(&mut bytes, rel.bytes.as_slice());
        assert(bytes@ =~= joined(self@, rel@));
        UnixPath { bytes }
    }

    /// The path that `rel` spells, taken from this path.
    pub fn join(&self, rel: &str) -> (r: UnixPath)
        ensures
            r@ == joined(self@, encode_utf8(rel@)),
    {
        let p = UnixPath::new(rel);
        self.join_path(&p)
    }

    /// The part of an absolute path below the root.
    pub fn below_root(&self) -> (r: UnixPath)
        ensures
            r@ == below_root(self@),
    {
        let mut pieces = split_on(self.bytes.as_slice(), 47u8);
        let ghost p0 = rows(pieces@);
        while pieces.len() > 0 && (pieces[0].len() == 0 || is_dot(&pieces[0]))
            invariant
                drop_front(rows(pieces@)) == drop_front(p0),
            decreases pieces@.len(),
        {
            let ghost before = rows(pieces@);
            assert(before[0] == pieces@[0]@);
            let first = pieces.remove(0);
            assert(rows(pieces@) =~= before.drop_first());
        }
        let ghost p1 = rows(pieces@);
        assert(p1.len() > 0 ==> p1[0] == pieces@[0]@);
        assert(p1 == drop_front(p0));
        while pieces.len() > 0 && (pieces[pieces.len() - 1].len() == 0 || is_dot(
            &pieces[pieces.len() - 1],
        ))
            invariant
                drop_back(rows(pieces@)) == drop_back(p1),
            decreases pieces@.len(),
        {
            let ghost before = rows(pieces@);
            assert(before.last() == pieces@[pieces@.len() - 1]@);
            let last = pieces.pop();
            assert(rows(pieces@) =~= before.drop_last());
        }
        assert(rows(pieces@).len() > 0 ==> rows(pieces@).last() == pieces@[pieces@.len() - 1]@);
        let mut sep: Vec<u8> = Vec::new();
        sep.push(47u8);
        assert(sep@ =~= slash());
        UnixPath { bytes: join_with(&pieces, sep.as_slice()) }
    }
}

impl Ordered for UnixPath {
    open spec fn before(self, other: Self) -> bool {
        path_less(self@, other@)
    }

    proof fn lemma_irreflexive(a: Self) {
        lemma_path_order();
        let l = |a: Seq<Seq<u8>>, b: Seq<Seq<u8>>| lex(a, b, component_less());
        assert(!l(components(a@), components(a@)));
    }

    proof fn lemma_weak(a: Self, b: Self, c: Self) {
        lemma_path_order();
        let l = |a: Seq<Seq<u8>>, b: Seq<Seq<u8>>| lex(a, b, component_less());
        let (x, y, z) = (components(a@), components(b@), components(c@));
        assert(l(x, z));
        assert(x == y || l(x, y) || l(y, x));
        if l(y, x) {
            assert(l(y, z));
        }
    }

    proof fn lemma_transitive(a: Self, b: Self, c: Self) {
        lemma_path_order();
        let l = |a: Seq<Seq<u8>>, b: Seq<Seq<u8>>| lex(a, b, component_less());
        let (x, y, z) = (components(a@), components(b@), components(c@));
        assert(l(x, y) && l(y, z));
        assert(l(x, z));
    }

    fn precedes(&self, other: &Self) -> (r: bool) {
        let a = self.components();
        let b = other.components();
        components_before(&a, &b)
    }
}

proof fn lemma_counted_prefix(a: Seq<Seq<u8>>, b: Seq<Seq<u8>>)
    ensures
        crate::text::starts_with(counted(a + b), counted(a)),
    decreases b.len(),
{
    if b.len() == 0 {
        assert(a + b =~= a);
        assert(counted(a).take(counted(a).len() as int) =~= counted(a));
    } else {
        let c = b.drop_last();
        lemma_counted_prefix(a, c);
        assert((a + b).drop_last() =~= a + c);
        assert(counted(a + b).take(counted(a).len() as int) =~= counted(a + c).take(
            counted(a).len() as int,
        ));
    }
}

/// A relative path taken from a base lies below the base.
pub proof fn lemma_joined_below(base: Seq<u8>, rel: Seq<u8>)
    requires
        !is_absolute(rel),
    ensures
        below(joined(base, rel), base),
{
    let j = joined(base, rel);
    let sb = split(base, 47u8);
    let sr = split(rel, 47u8);
    lemma_split_pieces(base, 47u8);
    lemma_split_pieces(rel, 47u8);
    if base.len() == 0 {
        assert(sb =~= seq![Seq::<u8>::empty()]);
        assert(counted(sb.drop_last()) =~= Seq::<Seq<u8>>::empty());
        assert(components(base) =~= Seq::<Seq<u8>>::empty());
        assert(components(j).take(0) =~= components(base));
    } else if base.last() != 47 {
        let one = seq![47u8];
        let head = base + one;
        assert(base.push(47u8) =~= head);
        lemma_split_concat(head, rel, 47u8);
        assert(head.drop_last() =~= base);
        assert(split(head, 47u8) == sb.push(Seq::<u8>::empty()));
        assert(split(head, 47u8).drop_last() =~= sb);
        assert(Seq::<u8>::empty() + sr[0] =~= sr[0]);
        assert(split(j, 47u8) =~= sb + sr);
        lemma_counted_prefix(sb, sr);
        lemma_rooted_prefix(j, base);
    } else {
        lemma_split_concat(base, rel, 47u8);
        assert(sb.last() == Seq::<u8>::empty());
        assert(sb.last() + sr[0] =~= sr[0]);
        assert(split(j, 47u8) =~= sb.drop_last() + sr);
        lemma_counted_prefix(sb.drop_last(), sr);
        assert(counted(sb) == counted(sb.drop_last()));
        lemma_rooted_prefix(j, base);
    }
}

proof fn lemma_rooted_prefix(j: Seq<u8>, base: Seq<u8>)
    requires
        is_absolute(j) == is_absolute(base),
        crate::text::starts_with(counted(split(j, 47u8)), counted(split(base, 47u8))),
    ensures
        below(j, base),
{
    let x = counted(split(j, 47u8));
    let y = counted(split(base, 47u8));
    if is_absolute(base) {
        assert((seq![slash()] + x).take(y.len() as int + 1) =~= seq![slash()] + x.take(y.len() as int));
    }
}

proof fn lemma_drop_front(ps: Seq<Seq<u8>>)
    ensures
        ({
            let r = drop_front(ps);
            &&& r.len() <= ps.len()
            &&& r == ps.skip(ps.len() - r.len())
            &&& r.len() > 0 ==> !blank(r[0])
        }),
    decreases ps.len(),
{
    if ps.len() > 0 && blank(ps[0]) {
        lemma_drop_front(ps.drop_first());
        let r = drop_front(ps);
        assert(r =~= ps.skip(ps.len() - r.len()));
    } else {
        assert(ps.skip(0) =~= ps);
    }
}

proof fn lemma_drop_back(ps: Seq<Seq<u8>>)
    ensures
        ({
            let r = drop_back(ps);
            &&& r.len() <= ps.len()
            &&& r == ps.take(r.len() as int)
        }),
    decreases ps.len(),
{
    if ps.len() > 0 && blank(ps.last()) {
        lemma_drop_back(ps.drop_last());
        let r = drop_back(ps);
        assert(ps.take(r.len() as int) =~= ps.drop_last().take(r.len() as int));
    } else {
        assert(ps.take(ps.len() as int) =~= ps);
    }
}

proof fn lemma_join_first(ps: Seq<Seq<u8>>, sep: Seq<u8>)
    requires
        ps.len() > 0,
        ps[0].len() > 0,
    ensures
        join(ps, sep).len() > 0,
        join(ps, sep)[0] == ps[0][0],
    decreases ps.len(),
{
    if ps.len() > 1 {
        lemma_join_first(ps.drop_last(), sep);
    }
}

/// The part of a path below the root is relative.
pub proof fn lemma_below_root_is_relative(p: Seq<u8>)
    ensures
        !is_absolute(below_root(p)),
{
    let ps = split(p, 47u8);
    lemma_split_pieces(p, 47u8);
    let front = drop_front(ps);
    lemma_drop_front(ps);
    let r = drop_back(front);
    lemma_drop_back(front);
    if r.len() > 0 {
        assert(r[0] == front[0]);
        assert(front[0] == ps[ps.len() - front.len()]);
        assert(r[0].contains(r[0][0]));
        lemma_join_first(r, slash());
    }
}

/// What holds of the pieces that count: no slash in them, none is empty, and only the
/// first of all pieces can be a `.`.
proof fn lemma_counted_pieces(ps: Seq<Seq<u8>>)
    requires
        forall|i: int| 0 <= i < ps.len() ==> !(#[trigger] ps[i]).contains(47u8),
    ensures
        forall|i: int|
            0 <= i < counted(ps).len() ==> {
                let c = #[trigger] counted(ps)[i];
                !c.contains(47u8) && c.len() > 0 && (c == dot() ==> i == 0)
            },
        counted(ps).len() > 0 && counted(ps)[0] == dot() ==> ps[0] == dot(),
        ps.len() > 0 && ps[0] == dot() ==> counted(ps).len() > 0 && counted(ps)[0] == dot(),
    decreases ps.len(),
{
    if ps.len() > 0 {
        let front = ps.drop_last();
        assert forall|i: int| 0 <= i < front.len() implies !(#[trigger] front[i]).contains(47u8) by {
            assert(front[i] == ps[i]);
        }
        lemma_counted_pieces(front);
        assert(!ps[ps.len() - 1].contains(47u8));
        let r = counted(front);
        let w = counted(ps);
        assert forall|i: int| 0 <= i < w.len() implies {
            let c = #[trigger] w[i];
            !c.contains(47u8) && c.len() > 0 && (c == dot() ==> i == 0)
        } by {
            if i < r.len() {
                assert(w[i] == r[i]);
            }
        }
        if w.len() > 0 && r.len() > 0 {
            assert(w[0] == r[0]);
        }
        if front.len() > 0 {
            assert(front[0] == ps[0]);
        }
    }
}

proof fn lemma_counted_all(ps: Seq<Seq<u8>>)
    requires
        forall|i: int| 0 <= i < ps.len() ==> counts(#[trigger] ps[i], i),
    ensures
        counted(ps) == ps,
    decreases ps.len(),
{
    if ps.len() > 0 {
        let front = ps.drop_last();
        assert forall|i: int| 0 <= i < front.len() implies counts(#[trigger] front[i], i) by {
            assert(front[i] == ps[i]);
        }
        lemma_counted_all(front);
        assert(counts(ps[ps.len() - 1], ps.len() - 1));
        assert(counted(ps) =~= ps);
    } else {
        assert(counted(ps) =~= ps);
    }
}

/// The parent of a path has all its components but the last.
pub proof fn lemma_parent_components(p: Seq<u8>)
    requires
        parent(p) is Some,
    ensures
        components(parent(p)->0) == components(p).drop_last(),
{
    let c = components(p);
    let front = c.drop_last();
    let ps = split(p, 47u8);
    lemma_split_pieces(p, 47u8);
    lemma_counted_pieces(ps);
    let q = parent(p)->0;
    assert(q == of_components(front));
    if is_absolute(p) {
        let body = counted(ps);
        assert(c == seq![slash()] + body);
        assert(front[0] == slash());
        let rest = front.drop_first();
        assert(rest =~= body.drop_last());
        assert(ps[0].len() == 0) by {
            lemma_first_piece_of_rooted(p);
        }
        assert(forall|i: int| 0 <= i < rest.len() ==> rest[i] == body[i]);
        lemma_rooted_parts(rest);
    } else {
        assert(c == counted(ps));
        if front.len() > 0 {
            assert(front[0] == c[0]);
            assert(slash().contains(slash()[0]));
            assert(front[0] != slash());
            assert forall|i: int| 0 <= i < front.len() implies !(#[trigger] front[i]).contains(47u8)
                && counts(front[i], i) by {
                assert(front[i] == c[i]);
            }
            lemma_split_join(front, 47u8);
            assert(seq![47u8] =~= slash());
            lemma_counted_all(front);
            let j = join(front, slash());
            lemma_join_first(front, slash());
            assert(front[0].contains(front[0][0]));
            assert(!is_absolute(j));
        } else {
            assert(front =~= Seq::<Seq<u8>>::empty());
            assert(q =~= Seq::<u8>::empty());
            assert(split(q, 47u8) =~= seq![Seq::<u8>::empty()]);
            lemma_counted_after_empty(Seq::empty());
            assert(seq![Seq::<u8>::empty()] + Seq::<Seq<u8>>::empty() =~= seq![Seq::<u8>::empty()]);
        }
    }
}

proof fn lemma_first_piece_of_rooted(p: Seq<u8>)
    requires
        is_absolute(p),
    ensures
        split(p, 47u8)[0].len() == 0,
{
    let one = seq![47u8];
    let rest = p.drop_first();
    assert(p =~= one + rest);
    lemma_split_concat(one, rest, 47u8);
    assert(one.drop_last() =~= Seq::<u8>::empty());
    assert(split(one.drop_last(), 47u8) == seq![Seq::<u8>::empty()]);
    assert(split(one, 47u8) =~= seq![Seq::<u8>::empty(), Seq::<u8>::empty()]);
}

/// The components of a rooted path made of names.
proof fn lemma_rooted_parts(rest: Seq<Seq<u8>>)
    requires
        forall|i: int|
            0 <= i < rest.len() ==> !(#[trigger] rest[i]).contains(47u8) && rest[i].len() > 0
                && rest[i] != dot(),
    ensures
        components(slash() + join(rest, slash())) == seq![slash()] + rest,
{
    let j = join(rest, slash());
    let q = slash() + j;
    let one = slash();
    lemma_split_concat(one, j, 47u8);
    lemma_split_pieces(j, 47u8);
    assert(one.drop_last() =~= Seq::<u8>::empty());
    assert(split(one.drop_last(), 47u8) == seq![Seq::<u8>::empty()]);
    assert(split(one, 47u8) =~= seq![Seq::<u8>::empty(), Seq::<u8>::empty()]);
    let sj = split(j, 47u8);
    assert(Seq::<u8>::empty() + sj[0] =~= sj[0]);
    let sq = split(q, 47u8);
    assert(sq =~= seq![Seq::<u8>::empty()] + sj);
    if rest.len() == 0 {
        assert(j =~= Seq::<u8>::empty());
        assert(sj =~= seq![Seq::<u8>::empty()]);
        lemma_counted_after_empty(Seq::empty());
        assert(sq.drop_last() =~= seq![Seq::<u8>::empty()] + Seq::<Seq<u8>>::empty());
        assert(counted(sq) =~= rest);
    } else {
        assert(seq![47u8] =~= slash());
        lemma_split_join(rest, 47u8);
        lemma_counted_after_empty(rest);
    }
    assert(components(q) =~= seq![slash()] + rest);
}

proof fn lemma_counted_after_empty(rest: Seq<Seq<u8>>)
    requires
        forall|i: int| 0 <= i < rest.len() ==> (#[trigger] rest[i]).len() > 0 && rest[i] != dot(),
    ensures
        counted(seq![Seq::<u8>::empty()] + rest) == rest,
    decreases rest.len(),
{
    let all = seq![Seq::<u8>::empty()] + rest;
    if rest.len() == 0 {
        assert(all =~= seq![Seq::<u8>::empty()]);
        assert(all.drop_last() =~= Seq::<Seq<u8>>::empty());
        assert(counted(all.drop_last()) =~= Seq::<Seq<u8>>::empty());
        assert(counted(all) =~= rest);
    } else {
        let front = rest.drop_last();
        assert forall|i: int| 0 <= i < front.len() implies (#[trigger] front[i]).len() > 0
            && front[i] != dot() by {
            assert(front[i] == rest[i]);
        }
        lemma_counted_after_empty(front);
        assert(all.drop_last() =~= seq![Seq::<u8>::empty()] + front);
        assert(all.last() == rest[rest.len() - 1]);
        assert(counted(all) =~= rest);
    }
}

/// A name taken from a base is one component more, and leads into the base.
pub proof fn lemma_joined_name(base: Seq<u8>, name: Seq<u8>)
    requires
        name.len() > 0,
        !name.contains(47u8),
        name != dot(),
    ensures
        components(joined(base, name)) == components(base).push(name),
{
    let j = joined(base, name);
    let sb = split(base, 47u8);
    assert(name.contains(name[0]));
    assert(!is_absolute(name));
    let one_piece = seq![name];
    assert(forall|i: int| 0 <= i < 1 ==> !(#[trigger] one_piece[i]).contains(47u8));
    lemma_split_join(one_piece, 47u8);
    assert(join(one_piece, seq![47u8]) == name);
    assert(split(name, 47u8) == one_piece);
    lemma_split_pieces(base, 47u8);
    if base.len() == 0 {
        assert(j =~= name);
        assert(sb =~= seq![Seq::<u8>::empty()]);
        assert(counted(sb.drop_last()) =~= Seq::<Seq<u8>>::empty());
        assert(components(base) =~= Seq::<Seq<u8>>::empty());
        assert(one_piece.drop_last() =~= Seq::<Seq<u8>>::empty());
        assert(counted(one_piece.drop_last()) =~= Seq::<Seq<u8>>::empty());
        assert(counted(one_piece) =~= one_piece);
        assert(components(j) =~= components(base).push(name));
    } else {
        let pieces: Seq<Seq<u8>>;
        if base.last() != 47 {
            let head = base + seq![47u8];
            assert(base.push(47u8) =~= head);
            lemma_split_concat(head, name, 47u8);
            assert(head.drop_last() =~= base);
            assert(split(head, 47u8) == sb.push(Seq::<u8>::empty()));
            assert(Seq::<u8>::empty() + name =~= name);
            pieces = sb;
        } else {
            lemma_split_concat(base, name, 47u8);
            assert(sb.last() + name =~= name);
            pieces = sb.drop_last();
            assert(counted(sb) == counted(pieces));
        }
        assert(split(j, 47u8) =~= pieces.push(name));
        assert(pieces.push(name).drop_last() =~= pieces);
        assert(pieces.len() > 0) by {
            if base.last() == 47 {
                let front = base.drop_last();
                lemma_split_pieces(front, 47u8);
            }
        }
        assert(counted(split(j, 47u8)) == counted(sb).push(name));
        assert(is_absolute(j) == is_absolute(base));
        assert(components(j) =~= components(base).push(name));
    }
}

/// The pieces that are neither empty nor a `.`.
pub open spec fn solid(ps: Seq<Seq<u8>>) -> Seq<Seq<u8>>
    decreases ps.len(),
{
    if ps.len() == 0 {
        Seq::empty()
    } else if blank(ps.last()) {
        solid(ps.drop_last())
    } else {
        solid(ps.drop_last()).push(ps.last())
    }
}

proof fn lemma_solid_concat(a: Seq<Seq<u8>>, b: Seq<Seq<u8>>)
    ensures
        solid(a + b) == solid(a) + solid(b),
    decreases b.len(),
{
    if b.len() == 0 {
        assert(a + b =~= a);
        assert(solid(a) + solid(b) =~= solid(a));
    } else {
        assert((a + b).drop_last() =~= a + b.drop_last());
        lemma_solid_concat(a, b.drop_last());
        assert(solid(a + b) =~= solid(a) + solid(b));
    }
}

proof fn lemma_counted_concat(a: Seq<Seq<u8>>, b: Seq<Seq<u8>>)
    requires
        a.len() > 0,
    ensures
        counted(a + b) == counted(a) + solid(b),
    decreases b.len(),
{
    if b.len() == 0 {
        assert(a + b =~= a);
        assert(counted(a) + solid(b) =~= counted(a));
    } else {
        assert((a + b).drop_last() =~= a + b.drop_last());
        lemma_counted_concat(a, b.drop_last());
        assert(counted(a + b) =~= counted(a) + solid(b));
    }
}

proof fn lemma_solid_blank(piece: Seq<u8>)
    requires
        blank(piece),
    ensures
        solid(seq![piece]) == Seq::<Seq<u8>>::empty(),
{
    let one = seq![piece];
    assert(one.drop_last() =~= Seq::<Seq<u8>>::empty());
    assert(solid(one.drop_last()) =~= Seq::<Seq<u8>>::empty());
}

proof fn lemma_solid_front(ps: Seq<Seq<u8>>)
    ensures
        solid(drop_front(ps)) == solid(ps),
    decreases ps.len(),
{
    if ps.len() > 0 && blank(ps[0]) {
        let rest = ps.drop_first();
        lemma_solid_front(rest);
        assert(ps =~= seq![ps[0]] + rest);
        lemma_solid_concat(seq![ps[0]], rest);
        lemma_solid_blank(ps[0]);
        assert(solid(ps) =~= solid(rest));
    }
}

proof fn lemma_solid_back(ps: Seq<Seq<u8>>)
    ensures
        solid(drop_back(ps)) == solid(ps),
    decreases ps.len(),
{
    if ps.len() > 0 && blank(ps.last()) {
        lemma_solid_back(ps.drop_last());
    }
}

/// The components of an absolute path: the root, and its pieces that count.
proof fn lemma_rooted_components(p: Seq<u8>)
    requires
        is_absolute(p),
    ensures
        components(p) == seq![slash()] + solid(split(p, 47u8)),
{
    let ps = split(p, 47u8);
    lemma_split_pieces(p, 47u8);
    lemma_first_piece_of_rooted(p);
    let head = seq![ps[0]];
    let rest = ps.drop_first();
    assert(ps =~= head + rest);
    lemma_counted_concat(head, rest);
    lemma_solid_concat(head, rest);
    assert(head.drop_last() =~= Seq::<Seq<u8>>::empty());
    assert(counted(head.drop_last()) =~= Seq::<Seq<u8>>::empty());
    assert(counted(head) =~= Seq::<Seq<u8>>::empty());
    lemma_solid_blank(ps[0]);
    assert(counted(ps) =~= solid(ps));
}

proof fn lemma_joined_pieces(base: Seq<u8>, rel: Seq<u8>)
    requires
        base.len() > 0,
        !is_absolute(rel),
    ensures
        components(joined(base, rel)) == components(base) + solid(split(rel, 47u8)),
{
    let j = joined(base, rel);
    let sb = split(base, 47u8);
    let sr = split(rel, 47u8);
    lemma_split_pieces(base, 47u8);
    lemma_split_pieces(rel, 47u8);
    let front = if base.last() != 47 {
        sb
    } else {
        sb.drop_last()
    };
    if base.last() != 47 {
        let head = base + seq![47u8];
        assert(base.push(47u8) =~= head);
        lemma_split_concat(head, rel, 47u8);
        assert(head.drop_last() =~= base);
        assert(split(head, 47u8) == sb.push(Seq::<u8>::empty()));
        assert(Seq::<u8>::empty() + sr[0] =~= sr[0]);
    } else {
        lemma_split_concat(base, rel, 47u8);
        assert(sb.last() + sr[0] =~= sr[0]);
        assert(counted(sb) == counted(front));
        lemma_split_pieces(base.drop_last(), 47u8);
    }
    assert(split(j, 47u8) =~= front + sr);
    lemma_counted_concat(front, sr);
    assert(is_absolute(j) == is_absolute(base));
    assert(components(j) =~= components(base) + solid(sr));
}

/// An absolute path, seen from a base: the components of the base, and those of the path
/// but the root.
pub proof fn lemma_seen_from_base(base: Seq<u8>, p: Seq<u8>)
    requires
        base.len() > 0,
        is_absolute(p),
    ensures
        components(joined(base, below_root(p))) == components(base) + components(p).drop_first(),
        components(p)[0] == slash(),
{
    let ps = split(p, 47u8);
    lemma_split_pieces(p, 47u8);
    let front = drop_front(ps);
    lemma_drop_front(ps);
    lemma_solid_front(ps);
    let r = drop_back(front);
    lemma_drop_back(front);
    lemma_solid_back(front);
    let rel = below_root(p);
    lemma_below_root_is_relative(p);
    lemma_joined_pieces(base, rel);
    lemma_rooted_components(p);
    if r.len() > 0 {
        assert forall|i: int| 0 <= i < r.len() implies !(#[trigger] r[i]).contains(47u8) by {
            assert(r[i] == front[i]);
            assert(front[i] == ps[ps.len() - front.len() + i]);
        }
        assert(seq![47u8] =~= slash());
        lemma_split_join(r, 47u8);
    } else {
        assert(rel =~= Seq::<u8>::empty());
        let one = split(rel, 47u8);
        assert(one =~= seq![Seq::<u8>::empty()]);
        lemma_solid_blank(Seq::empty());
        assert(solid(r) =~= Seq::<Seq<u8>>::empty());
    }
    assert(components(p).drop_first() =~= solid(ps));
}

/// The root has one component.
pub proof fn lemma_root_alone()
    ensures
        components(slash()) == seq![slash()],
{
    lemma_rooted_parts(Seq::empty());
    assert(join(Seq::<Seq<u8>>::empty(), slash()) =~= Seq::<u8>::empty());
    assert(slash() + join(Seq::<Seq<u8>>::empty(), slash()) =~= slash());
    assert(seq![slash()] + Seq::<Seq<u8>>::empty() =~= seq![slash()]);
}

/// A directory comes before what is in it, and entries of one directory come in the order of
/// their names.
pub proof fn lemma_entries_come_by_name(dir: Seq<u8>, a: Seq<u8>, b: Seq<u8>)
    requires
        a.len() > 0,
        !a.contains(47u8),
        a != dot(),
        a != dot_dot(),
        b.len() > 0,
        !b.contains(47u8),
        b != dot(),
        b != dot_dot(),
    ensures
        path_less(dir, joined(dir, a)),
        !path_less(joined(dir, a), dir),
        path_less(joined(dir, a), joined(dir, b)) <==> text_less(a, b),
{
    lemma_joined_name(dir, a);
    lemma_joined_name(dir, b);
    lemma_path_order();
    let less = component_less();
    let d = components(dir);
    let x = components(joined(dir, a));
    let y = components(joined(dir, b));
    let k = d.len() as int;
    assert forall|c: Seq<u8>| !#[trigger] less(c, c) by {}
    lemma_same_start_does_not_count(d, x, less, k);
    lemma_same_start_does_not_count(x, d, less, k);
    lemma_same_start_does_not_count(x, y, less, k);
    let p = x.skip(k);
    let q = y.skip(k);
    assert(p =~= seq![a] && q =~= seq![b]);
    assert(p[0] == a && q[0] == b);
    assert(p.drop_first() =~= Seq::<Seq<u8>>::empty() && q.drop_first() =~= Seq::<Seq<u8>>::empty());
    assert(a != slash() && b != slash()) by {
        assert(slash()[0] == 47u8);
        assert(slash().contains(47u8));
    }
    assert(less(a, b) == text_less(a, b));
    assert(lex(p, q, less) == (less(a, b) || (a == b && lex(p.drop_first(), q.drop_first(), less))));
}

/// A path with several components has a parent.
pub proof fn lemma_has_parent(p: Seq<u8>)
    requires
        components(p).len() > 1,
    ensures
        parent(p) is Some,
{
    let ps = split(p, 47u8);
    lemma_split_pieces(p, 47u8);
    lemma_counted_pieces(ps);
    let body = counted(ps);
    let c = components(p);
    assert(c.last() == body[body.len() - 1]);
    assert(slash()[0] == 47u8);
    assert(slash().contains(47u8));
}

/// A slash alone is the root.
pub proof fn lemma_slash_in_bytes()
    ensures
        encode_utf8("/"@) == slash(),
{
    reveal_strlit("/");
    let s = "/"@;
    assert(s =~= seq!['/']);
    assert(47u32 & 0x7f == 47u32) by (bit_vector);
    assert(s.drop_first() =~= Seq::<char>::empty());
    assert(encode_utf8(s.drop_first()) =~= Seq::<u8>::empty());
    let head = vstd::utf8::encode_scalar(s[0] as u32);
    assert(head =~= seq![47u8]);
    assert(encode_utf8(s) == head + encode_utf8(s.drop_first()));
    assert(encode_utf8(s) =~= slash());
}

/// A slash at the end of a path does not count, nor does a further slash or a dot there.
pub proof fn lemma_trailing_slash_does_not_count(p: Seq<u8>)
    requires
        p.len() > 0,
    ensures
        components(p + seq![47u8]) == components(p),
        components(p + seq![47u8, 46u8]) == components(p),
{
    let ps = split(p, 47u8);
    lemma_split_pieces(p, 47u8);
    let none = Seq::<u8>::empty();
    let a = p + seq![47u8];
    assert(a.drop_last() =~= p);
    assert(split(a, 47u8) =~= ps.push(none));
    assert(ps.push(none).drop_last() =~= ps);
    assert(counted(ps.push(none)) == counted(ps));
    let b = p + seq![47u8, 46u8];
    assert(b.drop_last() =~= a);
    let qs = ps.push(dot());
    assert(none.push(46u8) =~= dot());
    assert(split(b, 47u8) =~= qs);
    assert(qs.drop_last() =~= ps);
    assert(counted(qs) == counted(ps));
    assert(a[0] == p[0] && b[0] == p[0]);
}

/// A path that begins with `./` lies below the current directory, and what comes after that is
/// its part below it.
pub proof fn lemma_part_below_the_dot(rel: Seq<u8>)
    requires
        !blank(split(rel, 47u8)[0]),
        !blank(split(rel, 47u8).last()),
    ensures
        below(dot() + slash() + rel, dot()),
        below_root(dot() + slash() + rel) == rel,
{
    let p = dot() + slash() + rel;
    let ps = split(rel, 47u8);
    assert(!dot().contains(47u8));
    lemma_split_first(dot(), 47u8, rel);
    lemma_split_pieces(rel, 47u8);
    let all = split(p, 47u8);
    assert(all =~= seq![dot()] + ps);
    assert(all.drop_first() =~= ps);
    assert(drop_front(all) == drop_front(ps));
    assert(drop_front(ps) == ps);
    assert(drop_back(ps) == ps);
    lemma_join_split(rel, 47u8);
    lemma_split_pieces(p, 47u8);
    lemma_counted_pieces(all);
    assert(all[0] == dot());
    let c = components(p);
    assert(!is_absolute(p));
    assert(c[0] == dot());
    let one = seq![dot()];
    assert(split(dot(), 47u8) == one);
    assert(one.drop_last() =~= Seq::<Seq<u8>>::empty());
    assert(counted(one.drop_last()) =~= Seq::<Seq<u8>>::empty());
    assert(counted(one) =~= one);
    assert(components(dot()) == one);
    assert(c.take(1) =~= one);
}

/// An absolute path stands by itself wherever it is taken from; a relative one follows the base,
/// with one slash between them.
pub proof fn lemma_how_paths_are_joined(base: Seq<u8>, rel: Seq<u8>)
    ensures
        is_absolute(rel) ==> joined(base, rel) == rel,
        !is_absolute(rel) && base.len() > 0 && base.last() != 47 ==> joined(base, rel) == base + slash() + rel,
        !is_absolute(rel) && base.len() > 0 && base.last() == 47 ==> joined(base, rel) == base + rel,
        !is_absolute(rel) && base.len() == 0 ==> joined(base, rel) == rel,
{
    assert(base.push(47u8) =~= base + slash());
    assert(Seq::<u8>::empty() + rel =~= rel);
    if base.len() == 0 {
        assert(base + rel =~= rel);
    }
}

} // verus!
