//! Test files, the tests in them, and the patterns that select tests.

use vstd::prelude::*;
use vstd::utf8::encode_utf8;

use crate::path::{components, counted, joined, lemma_joined_name, path_ends_with, UnixPath};
use crate::shell::{read_script, script_of};
use crate::syntax::{at_script, at_ways, extract_functions, function_views, lemma_every_function_of_a_script_is_found, in_script, FunctionDefinition, FunctionView, Script};
use crate::utf8::lossy;
use crate::text::{after_last, chars_of, check_at, ends_with, copy_range, extend_str, find_from, has_prefix, lemma_after_last, lemma_split_concat, lemma_split_pieces, occurs_at, rfind_symbol, rows, split, split_on, starts_with, string_of};

verus! {

/// `t` matches the pattern `p`, in which `*` stands for any characters.
pub open spec fn glob(p: Seq<char>, t: Seq<char>) -> bool
    decreases p.len() + t.len(),
{
    if p.len() == 0 {
        t.len() == 0
    } else if p[0] == '*' {
        glob(p.drop_first(), t) || (t.len() > 0 && glob(p, t.drop_first()))
    } else {
        t.len() > 0 && t[0] == p[0] && glob(p.drop_first(), t.drop_first())
    }
}

/// `t` matches a name pattern: one without `*` has one at its end that is not
/// written.
pub open spec fn name_matches(p: Seq<char>, t: Seq<char>) -> bool {
    if p.contains('*') {
        glob(p, t)
    } else {
        glob(p.push('*'), t)
    }
}

/// A pattern without `*` matches the names that begin with it.
pub proof fn lemma_plain_pattern_is_prefix(p: Seq<char>, t: Seq<char>)
    requires
        !p.contains('*'),
    ensures
        name_matches(p, t) == starts_with(t, p),
    decreases p.len(),
{
    if p.len() == 0 {
        assert(p.push('*').drop_first() =~= Seq::empty());
        assert(t.take(0) =~= p);
        lemma_star_matches_all(t);
        assert(p.push('*') =~= seq!['*']);
    } else {
        assert(p.contains(p[0]));
        assert forall|c: char| p.drop_first().contains(c) implies p.contains(c) by {
            let i = choose|i: int| 0 <= i < p.drop_first().len() && p.drop_first()[i] == c;
            assert(p[i + 1] == c);
        }
        assert(p.push('*').drop_first() =~= p.drop_first().push('*'));
        if t.len() > 0 {
            lemma_plain_pattern_is_prefix(p.drop_first(), t.drop_first());
            let q = p.drop_first();
            let u = t.drop_first();
            if starts_with(t, p) {
                assert(t.take(p.len() as int)[0] == p[0]);
                assert(u.take(q.len() as int) =~= t.take(p.len() as int).drop_first());
            }
            if t[0] == p[0] && starts_with(u, q) {
                assert forall|i: int| 0 <= i < p.len() implies t[i] == p[i] by {
                    if i > 0 {
                        assert(u.take(q.len() as int)[i - 1] == q[i - 1]);
                    }
                }
                assert(t.take(p.len() as int) =~= p);
            }
        }
    }
}

proof fn lemma_star_matches_all(t: Seq<char>)
    ensures
        glob(seq!['*'], t),
    decreases t.len(),
{
    assert(seq!['*'].drop_first() =~= Seq::<char>::empty());
    if t.len() > 0 {
        lemma_star_matches_all(t.drop_first());
    } else {
        assert(glob(Seq::empty(), t));
    }
}

/// The pieces stand in `t` in order: the first at its start, the last at its end,
/// and anything between two of them.
spec fn laid_out(pieces: Seq<Seq<char>>, t: Seq<char>) -> bool
    decreases pieces.len(),
{
    if pieces.len() <= 1 {
        t == pieces[0]
    } else {
        let rest = t.skip(pieces[0].len() as int);
        starts_with(t, pieces[0]) && exists|k: int|
            0 <= k <= rest.len() && laid_out(pieces.drop_first(), #[trigger] rest.skip(k))
    }
}

/// The pieces are laid out so from some position of `t` on.
spec fn laid_out_later(pieces: Seq<Seq<char>>, t: Seq<char>) -> bool
{
    exists|k: int| 0 <= k <= t.len() && laid_out(pieces, #[trigger] t.skip(k))
}

proof fn lemma_first_then_later(pieces: Seq<Seq<char>>, t: Seq<char>)
    requires
        pieces.len() >= 2,
    ensures
        laid_out(pieces, t) == (starts_with(t, pieces[0]) && laid_out_later(
            pieces.drop_first(),
            t.skip(pieces[0].len() as int),
        )),
{
    let rest = t.skip(pieces[0].len() as int);
    if laid_out(pieces, t) {
        let k = choose|k: int|
            0 <= k <= rest.len() && laid_out(pieces.drop_first(), #[trigger] rest.skip(k));
        assert(laid_out(pieces.drop_first(), rest.skip(k)));
    }
    if laid_out_later(pieces.drop_first(), rest) {
        let k = choose|k: int|
            0 <= k <= rest.len() && laid_out(pieces.drop_first(), #[trigger] rest.skip(k));
        assert(laid_out(pieces.drop_first(), rest.skip(k)));
    }
}

proof fn lemma_later_step(pieces: Seq<Seq<char>>, t: Seq<char>)
    requires
        t.len() > 0,
    ensures
        laid_out_later(pieces, t) == (laid_out(pieces, t) || laid_out_later(pieces, t.drop_first())),
{
    assert(t.skip(0) =~= t);
    let u = t.drop_first();
    if laid_out(pieces, t) {
        assert(laid_out(pieces, t.skip(0)));
    }
    if laid_out_later(pieces, t) {
        let k = choose|k: int| 0 <= k <= t.len() && laid_out(pieces, #[trigger] t.skip(k));
        if k > 0 {
            assert(t.skip(k) =~= u.skip(k - 1));
            assert(laid_out(pieces, u.skip(k - 1)));
        }
    }
    if laid_out_later(pieces, u) {
        let k = choose|k: int| 0 <= k <= u.len() && laid_out(pieces, #[trigger] u.skip(k));
        assert(u.skip(k) =~= t.skip(k + 1));
        assert(laid_out(pieces, t.skip(k + 1)));
    }
}

proof fn lemma_later_empty(pieces: Seq<Seq<char>>, t: Seq<char>)
    requires
        t.len() == 0,
    ensures
        laid_out_later(pieces, t) == laid_out(pieces, t),
{
    assert(t.skip(0) =~= t);
    if laid_out(pieces, t) {
        assert(laid_out(pieces, t.skip(0)));
    }
}

/// A text matches a pattern when the pieces between the stars are laid out in it.
proof fn lemma_glob_is_layout(p: Seq<char>, t: Seq<char>)
    ensures
        glob(p, t) == laid_out(split(p, '*'), t),
    decreases p.len() + t.len(),
{
    let ps = split(p, '*');
    lemma_split_pieces(p, '*');
    if p.len() == 0 {
        assert(ps[0] =~= Seq::<char>::empty());
        if t.len() == 0 {
            assert(t =~= Seq::<char>::empty());
        }
    } else {
        let q = p.drop_first();
        let qs = split(q, '*');
        let one = seq![p[0]];
        lemma_split_pieces(q, '*');
        assert(p =~= one + q);
        lemma_split_concat(one, q, '*');
        assert(one.drop_last() =~= Seq::<char>::empty());
        assert(split(one.drop_last(), '*') == seq![Seq::<char>::empty()]);
        if p[0] == '*' {
            assert(split(one, '*') =~= seq![Seq::<char>::empty(), Seq::<char>::empty()]);
            assert(split(one, '*').last() + qs[0] =~= qs[0]);
            assert(ps =~= seq![Seq::<char>::empty()] + qs);
            assert(ps.drop_first() =~= qs);
            assert(t.take(0) =~= ps[0]);
            assert(t.skip(0) =~= t);
            lemma_first_then_later(ps, t);
            lemma_glob_is_layout(q, t);
            if t.len() > 0 {
                let u = t.drop_first();
                lemma_glob_is_layout(p, u);
                assert(u.take(0) =~= ps[0]);
                assert(u.skip(0) =~= u);
                lemma_first_then_later(ps, u);
                lemma_later_step(qs, t);
            } else {
                lemma_later_empty(qs, t);
            }
        } else {
            assert(split(one, '*') =~= seq![one]) by {
                assert(Seq::<char>::empty().push(p[0]) =~= one);
            }
            assert(ps =~= seq![one + qs[0]] + qs.drop_first());
            assert(ps.drop_first() =~= qs.drop_first());
            let n = qs[0].len() as int;
            if ps.len() >= 2 {
                lemma_first_then_later(ps, t);
            }
            if t.len() > 0 {
                let u = t.drop_first();
                lemma_glob_is_layout(q, u);
                if ps.len() >= 2 {
                    lemma_first_then_later(qs, u);
                }
                if n <= u.len() {
                    assert(t.skip(n + 1) =~= u.skip(n));
                }
                if t == ps[0] || (starts_with(t, ps[0])) {
                    assert(t[0] == p[0]) by {
                        if starts_with(t, ps[0]) {
                            assert(t.take(n + 1)[0] == ps[0][0]);
                        }
                    }
                }
                assert(starts_with(t, ps[0]) == (t[0] == p[0] && starts_with(u, qs[0]))) by {
                    if starts_with(t, ps[0]) {
                        assert(u.take(n) =~= t.take(n + 1).drop_first());
                        assert((one + qs[0]).drop_first() =~= qs[0]);
                    }
                    if t[0] == p[0] && starts_with(u, qs[0]) {
                        assert(t.take(n + 1) =~= seq![t[0]] + u.take(n));
                    }
                }
                assert((t == ps[0]) == (t[0] == p[0] && u == qs[0])) by {
                    if t == ps[0] {
                        assert((one + qs[0]).drop_first() =~= qs[0]);
                    }
                    if t[0] == p[0] && u == qs[0] {
                        assert(t =~= one + u);
                    }
                }
            }
        }
    }
}

/// Where the pieces are laid out later in a later part of a text, they are in the
/// whole.
proof fn lemma_later_wider(pieces: Seq<Seq<char>>, t: Seq<char>, d: int)
    requires
        0 <= d <= t.len(),
        laid_out_later(pieces, t.skip(d)),
    ensures
        laid_out_later(pieces, t),
{
    let k = choose|k: int|
        0 <= k <= t.skip(d).len() && laid_out(pieces, #[trigger] t.skip(d).skip(k));
    assert(t.skip(d).skip(k) =~= t.skip(d + k));
    assert(laid_out(pieces, t.skip(d + k)));
}

/// The first piece may be taken where it first occurs.
proof fn lemma_take_first(pieces: Seq<Seq<char>>, t: Seq<char>, pos: int, at: int)
    requires
        pieces.len() >= 2,
        0 <= pos <= at,
        occurs_at(t, pieces[0], at),
        forall|j: int| pos <= j < at ==> !occurs_at(t, pieces[0], j),
    ensures
        laid_out_later(pieces, t.skip(pos)) == laid_out_later(
            pieces.drop_first(),
            t.skip(at + pieces[0].len()),
        ),
{
    let n = pieces[0].len() as int;
    let u = t.skip(pos);
    if laid_out_later(pieces, u) {
        let k = choose|k: int| 0 <= k <= u.len() && laid_out(pieces, #[trigger] u.skip(k));
        let j = pos + k;
        assert(u.skip(k) =~= t.skip(j));
        lemma_first_then_later(pieces, t.skip(j));
        assert(t.skip(j).take(n) =~= t.subrange(j, j + n));
        assert(occurs_at(t, pieces[0], j));
        assert(t.skip(j).skip(n) =~= t.skip(at + n).skip(j - at));
        lemma_later_wider(pieces.drop_first(), t.skip(at + n), j - at);
    }
    if laid_out_later(pieces.drop_first(), t.skip(at + n)) {
        let k = at - pos;
        assert(u.skip(k) =~= t.skip(at));
        assert(t.skip(at).take(n) =~= t.subrange(at, at + n));
        assert(t.skip(at).skip(n) =~= t.skip(at + n));
        lemma_first_then_later(pieces, t.skip(at));
        assert(laid_out(pieces, u.skip(k)));
    }
}

proof fn lemma_no_first(pieces: Seq<Seq<char>>, t: Seq<char>, pos: int)
    requires
        pieces.len() >= 2,
        0 <= pos <= t.len(),
        forall|j: int| pos <= j ==> !occurs_at(t, pieces[0], j),
    ensures
        !laid_out_later(pieces, t.skip(pos)),
{
    let n = pieces[0].len() as int;
    let u = t.skip(pos);
    if laid_out_later(pieces, u) {
        let k = choose|k: int| 0 <= k <= u.len() && laid_out(pieces, #[trigger] u.skip(k));
        let j = pos + k;
        assert(u.skip(k) =~= t.skip(j));
        lemma_first_then_later(pieces, t.skip(j));
        assert(t.skip(j).take(n) =~= t.subrange(j, j + n));
        assert(occurs_at(t, pieces[0], j));
    }
}

proof fn lemma_last_piece(pieces: Seq<Seq<char>>, t: Seq<char>)
    requires
        pieces.len() == 1,
    ensures
        laid_out_later(pieces, t) == ends_with(t, pieces[0]),
{
    if laid_out_later(pieces, t) {
        let k = choose|k: int| 0 <= k <= t.len() && laid_out(pieces, #[trigger] t.skip(k));
        assert(t.skip(t.len() - pieces[0].len()) =~= pieces[0]);
    }
    if ends_with(t, pieces[0]) {
        assert(laid_out(pieces, t.skip(t.len() - pieces[0].len())));
    }
}

/// Match `text` against `pattern`.  `*` matches any sequence of characters.
/// A pattern with no `*` is treated as a prefix (implicit trailing `*`).
pub fn wildcard_match(pattern: &str, text: &str) -> (r: bool)
    ensures
        r == name_matches(pattern@, text@),
{
    let p = chars_of(pattern);
    let t = chars_of(text);
    let segments = split_on(p.as_slice(), '*');
    let ghost ps = split(p@, '*');
    proof {
        lemma_split_pieces(p@, '*');
        lemma_glob_is_layout(p@, t@);
    }
    let n: usize = segments.len();
    if n == 1 {
        proof {
            crate::text::lemma_join_split(p@, '*');
            assert(ps[0] == p@);
            lemma_plain_pattern_is_prefix(p@, t@);
        }
        return has_prefix(t.as_slice(), p.as_slice());
    }
    proof {
        if !p@.contains('*') {
            lemma_no_separator(p@, '*');
        }
    }
    if !has_prefix(t.as_slice(), segments[0].as_slice()) {
        return false;
    }
    proof {
        lemma_first_then_later(ps, t@);
    }
    let mut pos: usize = segments[0].len();
    let mut i: usize = 1;
    assert(ps.skip(1) =~= ps.drop_first());
    while i < n - 1
        invariant
            1 <= i <= n - 1,
            n == segments@.len(),
            ps == rows(segments@),
            pos <= t@.len(),
            text@ == t@,
            glob(p@, t@) == laid_out_later(ps.skip(i as int), t@.skip(pos as int)),
            name_matches(pattern@, text@) == glob(p@, t@),
        decreases n - i,
    {
        let ghost rest = ps.skip(i as int);
        assert(rest[0] == segments@[i as int]@);
        assert(rest.drop_first() =~= ps.skip(i + 1));
        match find_from(t.as_slice(), segments[i].as_slice(), pos) {
            Some(at) => {
                proof {
                    lemma_take_first(rest, t@, pos as int, at as int);
                }
                let total: usize = t.len();
                pos = at + segments[i].len();
            },
            None => {
                proof {
                    lemma_no_first(rest, t@, pos as int);
                }
                return false;
            },
        }
        i = i + 1;
    }
    let last = &segments[n - 1];
    proof {
        let rest = ps.skip(i as int);
        assert(rest.len() == 1 && rest[0] == last@);
        lemma_last_piece(rest, t@.skip(pos as int));
    }
    if t.len() - pos < last.len() {
        return false;
    }
    let at: usize = t.len() - last.len();
    let r = check_at(t.as_slice(), last.as_slice(), at);
    assert(t@.skip(pos as int).skip(at - pos) =~= t@.subrange(at as int, at + last@.len()));
    r
}

/// File containing tests.
#[derive(Debug)]
pub struct TestFile {
    pub tests: Vec<TestCase>,
    pub functions: Vec<FunctionDefinition>,
}

/// Test function within a `TestFile`.
#[derive(Debug)]
pub struct TestCase {
    pub file: UnixPath,
    pub name: String,
}

/// What a test case holds: the bytes of the file's path and the name.
pub struct CaseView {
    pub file: Seq<u8>,
    pub name: Seq<char>,
}

impl View for TestCase {
    type V = CaseView;

    open spec fn view(&self) -> CaseView {
        CaseView { file: self.file@, name: self.name@ }
    }
}

/// What the test cases hold.
pub open spec fn case_views(s: Seq<TestCase>) -> Seq<CaseView> {
    s.map(|_i: int, c: TestCase| c@)
}

/// A function is a test when its name begins with `test`.
pub open spec fn is_test(f: FunctionView) -> bool {
    starts_with(f.name, "test"@)
}

/// The tests among the functions of a file, in their order.
pub open spec fn tests_among(file: Seq<u8>, functions: Seq<FunctionView>) -> Seq<CaseView>
    decreases functions.len(),
{
    if functions.len() == 0 {
        Seq::empty()
    } else {
        let before = tests_among(file, functions.drop_last());
        if is_test(functions.last()) {
            before.push(CaseView { file, name: functions.last().name })
        } else {
            before
        }
    }
}

impl TestFile {
    /// The file holds what the script at this path defines.
    pub open spec fn reads(self, file: Seq<u8>, script: Script) -> bool {
        &&& function_views(self.functions@) == in_script(script)
        &&& case_views(self.tests@) == tests_among(file, in_script(script))
    }
}

/// Why a test file could not be used.
#[derive(Debug)]
pub enum TestFileError {
    /// The file could not be read.
    Unreadable(UnixPath),
    /// The file is no shell script; the message says where.
    Syntax(UnixPath, String),
}

/// The message of a file that cannot be read.
pub open spec fn unreadable_message(file: Seq<u8>) -> Seq<char> {
    "reading "@ + lossy(file)
}

/// The message of a file with a syntax error.
pub open spec fn syntax_message(file: Seq<u8>, error: Seq<char>) -> Seq<char> {
    "parse error in "@ + lossy(file) + ": "@ + error
}

impl TestFileError {
    /// The error in words.
    pub fn message(&self) -> (r: String)
        ensures
            match *self {
                TestFileError::Unreadable(file) => r@ == unreadable_message(file@),
                TestFileError::Syntax(file, error) => r@ == syntax_message(file@, error@),
            },
    {
        let mut v: Vec<char> = Vec::new();
        match self {
            TestFileError::Unreadable(file) => {
                extend_str(&mut v, "reading ");
                let path = file.display();
                extend_str(&mut v, path.as_str());
                assert(v@ =~= unreadable_message(file@));
            },
            TestFileError::Syntax(file, error) => {
                extend_str(&mut v, "parse error in ");
                let path = file.display();
                extend_str(&mut v, path.as_str());
                extend_str(&mut v, ": ");
                extend_str(&mut v, error.as_str());
                assert(v@ =~= syntax_message(file@, error@));
            },
        }
        string_of(v.as_slice())
    }
}

/// The functions and tests of a script.
pub fn script_tests(path: &UnixPath, script: &Script) -> (r: TestFile)
    ensures
        r.reads(path@, *script),
{
    let functions = extract_functions(script);
    let mut tests: Vec<TestCase> = Vec::new();
    let ghost all = function_views(functions@);
    let mut i: usize = 0;
    assert(case_views(tests@) =~= tests_among(path@, all.take(0)));
    while i < functions.len()
        invariant
            i <= functions@.len(),
            all == function_views(functions@),
            case_views(tests@) == tests_among(path@, all.take(i as int)),
        decreases functions@.len() - i,
    {
        let name = chars_of(functions[i].name.as_str());
        let test = chars_of("test");
        let ghost next = all.take(i + 1);
        assert(next.drop_last() =~= all.take(i as int));
        assert(next.last() == functions@[i as int]@);
        if has_prefix(name.as_slice(), test.as_slice()) {
            let case = TestCase {
                file: path.clone(),
                name: functions[i].name.as_str().to_owned(),
            };
            let ghost before = tests@;
            tests.push(case);
            assert(case_views(tests@) =~= case_views(before).push(case@));
        }
        i = i + 1;
    }
    assert(all.take(i as int) =~= all);
    TestFile { tests, functions }
}

/// The file holds what `convert` makes of the program.
pub open spec fn reads_program<F: Fn(brush_parser::ast::Program) -> Script>(
    file: TestFile,
    path: Seq<u8>,
    program: brush_parser::ast::Program,
    convert: F,
) -> bool {
    exists|script: Script|
        call_ensures(convert, (program,), script) && #[trigger] file.reads(path, script)
}

/// The outcome of reading a test file with these contents. `convert` gives the
/// library's form of what the parser read.
pub open spec fn file_outcome<F: Fn(brush_parser::ast::Program) -> Script>(
    path: Seq<u8>,
    contents: Seq<char>,
    convert: F,
    r: Result<TestFile, TestFileError>,
) -> bool {
    match script_of(contents) {
        Err(e) => r matches Err(TestFileError::Syntax(p, m)) && p@ == path && m@ == e,
        Ok(program) => r matches Ok(file) && reads_program(file, path, program, convert),
    }
}

/// Reads a test file from its contents, or from `None` where they could not be read.
/// `convert` gives the library's form of what the parser read.
pub fn parse_test_file<F: Fn(brush_parser::ast::Program) -> Script>(
    path: &UnixPath,
    contents: Option<&str>,
    convert: F,
) -> (r: Result<TestFile, TestFileError>)
    requires
        forall|p: brush_parser::ast::Program| #[trigger] convert.requires((p,)),
    ensures
        contents is None ==> (r matches Err(TestFileError::Unreadable(p)) && p@ == path@),
        contents matches Some(s) ==> file_outcome(path@, s@, convert, r),
{
    let source = match contents {
        Some(s) => s,
        None => {
            return Err(TestFileError::Unreadable(path.clone()));
        },
    };
    match read_script(source) {
        Ok(program) => {
            let ghost read = program;
            let script = convert(program);
            let file = script_tests(path, &script);
            assert(call_ensures(convert, (read,), script) && file.reads(path@, script));
            assert(reads_program(file, path@, read, convert));
            Ok(file)
        },
        Err(message) => Err(TestFileError::Syntax(path.clone(), message)),
    }
}

/// A pattern for selecting tests, parsed from `[<file>/]<name-pattern>`.
///
/// - `file`: if present, `test.file` must end with this path
/// - `name`: if present, matches the test function name; `*` is a wildcard;
///   a pattern without `*` matches any name that starts with the pattern
#[derive(Debug)]
pub struct TestPattern {
    pub file: Option<UnixPath>,
    pub name: Option<String>,
}

/// What a pattern holds: the bytes of the file's path and the name.
pub struct PatternView {
    pub file: Option<Seq<u8>>,
    pub name: Option<Seq<char>>,
}

impl View for TestPattern {
    type V = PatternView;

    open spec fn view(&self) -> PatternView {
        PatternView {
            file: match self.file {
                Some(f) => Some(f@),
                None => None,
            },
            name: match self.name {
                Some(n) => Some(n@),
                None => None,
            },
        }
    }
}

/// The text, where there is any.
pub open spec fn unless_empty(s: Seq<char>) -> Option<Seq<char>> {
    if s.len() == 0 {
        None
    } else {
        Some(s)
    }
}

/// The pattern that `s` spells: what follows the last slash is the name, what comes
/// before it the file. `./` before a name makes that name the file.
pub open spec fn pattern_of(s: Seq<char>) -> PatternView {
    if !s.contains('/') {
        PatternView { file: None, name: unless_empty(s) }
    } else {
        let name = after_last(s, '/');
        let file = s.take(s.len() - name.len() - 1);
        if file == seq!['.'] && name.len() > 0 {
            PatternView { file: Some(encode_utf8(name)), name: None }
        } else {
            PatternView {
                file: match unless_empty(file) {
                    Some(f) => Some(encode_utf8(f)),
                    None => None,
                },
                name: unless_empty(name),
            }
        }
    }
}

/// The pattern selects the test of this name in this file.
pub open spec fn selects(pattern: PatternView, file: Seq<u8>, name: Seq<char>) -> bool {
    &&& pattern.file matches Some(f) ==> path_ends_with(file, f)
    &&& pattern.name matches Some(n) ==> name_matches(n, name)
}

fn path_of(v: &[char]) -> (r: UnixPath)
    ensures
        r@ == encode_utf8(v@),
{
    let s = string_of(v);
    UnixPath::new(s.as_str())
}

impl TestPattern {
    pub fn parse(s: &str) -> (r: Self)
        ensures
            r@ == pattern_of(s@),
    {
        let v = chars_of(s);
        match rfind_symbol(v.as_slice(), '/') {
            Some(slash) => {
                let total: usize = v.len();
                let file_part = copy_range(v.as_slice(), 0, slash);
                let name_part = copy_range(v.as_slice(), slash + 1, total);
                proof {
                    lemma_after_last(v@, '/', slash as int);
                    assert(name_part@ =~= after_last(v@, '/'));
                    assert(file_part@ =~= v@.take(slash as int));
                    assert(v@.contains(v@[slash as int]));
                }
                if file_part.len() == 1 && file_part[0] == '.' && name_part.len() > 0 {
                    assert(file_part@ =~= seq!['.']);
                    return Self { file: Some(path_of(name_part.as_slice())), name: None };
                }
                Self {
                    file: if file_part.len() == 0 {
                        None
                    } else {
                        Some(path_of(file_part.as_slice()))
                    },
                    name: if name_part.len() == 0 {
                        None
                    } else {
                        Some(string_of(name_part.as_slice()))
                    },
                }
            },
            None => Self {
                file: None,
                name: if v.len() == 0 {
                    None
                } else {
                    Some(string_of(v.as_slice()))
                },
            },
        }
    }

    pub fn matches(&self, test: &TestCase) -> (r: bool)
        ensures
            r == selects(self@, test.file@, test.name@),
    {
        if let Some(file_pat) = &self.file {
            if !test.file.ends_with(file_pat) {
                return false;
            }
        }
        if let Some(name_pat) = &self.name {
            if !wildcard_match(name_pat.as_str(), test.name.as_str()) {
                return false;
            }
        }
        true
    }
}

proof fn lemma_no_separator(s: Seq<char>, sep: char)
    requires
        !s.contains(sep),
    ensures
        split(s, sep).len() == 1,
    decreases s.len(),
{
    if s.len() > 0 {
        assert(s.contains(s.last()));
        assert forall|c: char| s.drop_last().contains(c) implies s.contains(c) by {
            let i = choose|i: int| 0 <= i < s.drop_last().len() && s.drop_last()[i] == c;
            assert(s[i] == c);
        }
        lemma_no_separator(s.drop_last(), sep);
    }
}

/// The tests of a file are its functions whose names begin with `test`, and all of them.
pub proof fn lemma_tests_are_the_test_functions(
    file: Seq<u8>,
    functions: Seq<FunctionView>,
    name: Seq<char>,
)
    ensures
        tests_among(file, functions).contains(CaseView { file, name }) <==> exists|i: int|
            0 <= i < functions.len() && (#[trigger] functions[i]).name == name && is_test(functions[i]),
    decreases functions.len(),
{
    let case = CaseView { file, name };
    let tests = tests_among(file, functions);
    if functions.len() > 0 {
        let front = functions.drop_last();
        let last = functions.last();
        let before = tests_among(file, front);
        lemma_tests_are_the_test_functions(file, front, name);
        if before.contains(case) {
            let k = choose|k: int| 0 <= k < before.len() && before[k] == case;
            assert(tests[k] == case);
            let i = choose|i: int|
                0 <= i < front.len() && (#[trigger] front[i]).name == name && is_test(front[i]);
            assert(functions[i] == front[i]);
        }
        if is_test(last) && last.name == name {
            assert(tests[before.len() as int] == case);
            assert(functions[functions.len() - 1].name == name);
        }
        if tests.contains(case) && !before.contains(case) {
            let k = choose|k: int| 0 <= k < tests.len() && tests[k] == case;
            if k < before.len() {
                assert(before[k] == case);
            }
            assert(functions[functions.len() - 1].name == name);
        }
        if exists|i: int|
            0 <= i < functions.len() && (#[trigger] functions[i]).name == name && is_test(
                functions[i],
            ) {
            let i = choose|i: int|
                0 <= i < functions.len() && (#[trigger] functions[i]).name == name && is_test(
                    functions[i],
                );
            if i < front.len() {
                assert(front[i] == functions[i]);
            }
        }
    }
}

proof fn lemma_glob_self(p: Seq<char>)
    ensures
        glob(p, p),
    decreases p.len(),
{
    if p.len() > 0 {
        let q = p.drop_first();
        lemma_glob_self(q);
        if p[0] == '*' {
            assert(glob(p, q)) by {
                assert(glob(p.drop_first(), q));
            }
        }
    }
}

proof fn lemma_last_slash(file: Seq<char>, name: Seq<char>)
    requires
        !name.contains('/'),
    ensures
        after_last(file + seq!['/'] + name, '/') == name,
        (file + seq!['/'] + name).take(file.len() as int) == file,
        (file + seq!['/'] + name).contains('/'),
{
    let s = file + seq!['/'] + name;
    let i = file.len() as int;
    assert(s[i] == '/');
    assert forall|j: int| i < j < s.len() implies s[j] != '/' by {
        assert(s[j] == name[j - i - 1]);
        assert(name.contains(name[j - i - 1]));
    }
    lemma_after_last(s, '/', i);
    assert(s.skip(i + 1) =~= name);
    assert(s.take(i) =~= file);
    assert(s.contains(s[i]));
}

/// A target `<file>/<test>` selects the test of that name in that file.
pub proof fn lemma_target_selects_its_test(file: Seq<char>, name: Seq<char>)
    requires
        file.len() > 0,
        file != seq!['.'],
        name.len() > 0,
        !name.contains('/'),
    ensures
        selects(pattern_of(file + seq!['/'] + name), encode_utf8(file), name),
{
    lemma_last_slash(file, name);
    let c = crate::path::components(encode_utf8(file));
    assert(c.skip(c.len() - c.len()) =~= c);
    if name.contains('*') {
        lemma_glob_self(name);
    } else {
        lemma_plain_pattern_is_prefix(name, name);
        assert(name.take(name.len() as int) =~= name);
    }
}

/// A pattern is matched in parts: a text matches two patterns one after the other where it has
/// two parts that match them.
pub proof fn lemma_patterns_match_in_parts(p: Seq<char>, q: Seq<char>, t: Seq<char>)
    ensures
        glob(p + q, t) <==> exists|k: int|
            0 <= k <= t.len() && #[trigger] glob(p, t.take(k)) && glob(q, t.skip(k)),
    decreases p.len() + t.len(),
{
    let s = p + q;
    if p.len() == 0 {
        assert(s =~= q);
        if glob(q, t) {
            assert(t.skip(0) =~= t);
            assert(glob(p, t.take(0)));
        }
        if exists|k: int| 0 <= k <= t.len() && #[trigger] glob(p, t.take(k)) && glob(q, t.skip(k)) {
            let k = choose|k: int| 0 <= k <= t.len() && #[trigger] glob(p, t.take(k)) && glob(q, t.skip(k));
            assert(k == 0);
            assert(t.skip(0) =~= t);
        }
    } else {
        assert(s.drop_first() =~= p.drop_first() + q);
        assert(s[0] == p[0]);
        let rest = p.drop_first();
        let u = if t.len() > 0 {
            t.drop_first()
        } else {
            t
        };
        lemma_patterns_match_in_parts(rest, q, t);
        if t.len() > 0 {
            lemma_patterns_match_in_parts(rest, q, u);
            lemma_patterns_match_in_parts(p, q, u);
        }
        if glob(s, t) {
            if p[0] == '*' && glob(rest + q, t) {
                let k = choose|k: int|
                    0 <= k <= t.len() && #[trigger] glob(rest, t.take(k)) && glob(q, t.skip(k));
                assert(glob(p, t.take(k)));
            } else {
                let part = if p[0] == '*' {
                    p
                } else {
                    rest
                };
                let k = choose|k: int|
                    0 <= k <= u.len() && #[trigger] glob(part, u.take(k)) && glob(q, u.skip(k));
                assert(t.take(k + 1).drop_first() =~= u.take(k));
                assert(t.skip(k + 1) =~= u.skip(k));
                assert(glob(p, t.take(k + 1)));
            }
        }
        if exists|k: int| 0 <= k <= t.len() && #[trigger] glob(p, t.take(k)) && glob(q, t.skip(k)) {
            let k = choose|k: int| 0 <= k <= t.len() && #[trigger] glob(p, t.take(k)) && glob(q, t.skip(k));
            if p[0] == '*' && glob(rest, t.take(k)) {
                assert(glob(rest + q, t));
            } else {
                assert(k > 0);
                assert(t.take(k).drop_first() =~= u.take(k - 1));
                assert(t.skip(k) =~= u.skip(k - 1));
                if p[0] == '*' {
                    assert(glob(p, u.take(k - 1)));
                    assert(glob(s, u));
                } else {
                    assert(glob(rest, u.take(k - 1)));
                    assert(glob(rest + q, u));
                }
            }
        }
    }
}

/// An empty pattern matches the empty text, `*` every text, and every other character itself.
pub proof fn lemma_what_a_character_matches(c: char, t: Seq<char>)
    ensures
        glob(Seq::empty(), t) <==> t.len() == 0,
        glob(seq!['*'], t),
        c != '*' ==> (glob(seq![c], t) <==> t == seq![c]),
{
    lemma_star_matches_all(t);
    let one = seq![c];
    assert(one.drop_first() =~= Seq::<char>::empty());
    if c != '*' && glob(one, t) {
        assert(glob(Seq::empty(), t.drop_first()));
        assert(t =~= one);
    }
    if t == one {
        lemma_glob_self(one);
    }
}

/// A name pattern with `*` in it is matched by the whole name: `a*b` by the names that begin
/// with `a` and end with `b`, with anything between.
pub proof fn lemma_star_between(a: Seq<char>, b: Seq<char>, name: Seq<char>)
    requires
        !a.contains('*'),
        !b.contains('*'),
    ensures
        name_matches(a + seq!['*'] + b, name) <==> a.len() + b.len() <= name.len() && starts_with(name, a)
            && ends_with(name, b),
{
    let p = a + seq!['*'] + b;
    assert(p[a.len() as int] == '*');
    assert(p.contains('*'));
    assert(p =~= a + (seq!['*'] + b));
    lemma_patterns_match_in_parts(a, seq!['*'] + b, name);
    if glob(p, name) {
        let k = choose|k: int|
            0 <= k <= name.len() && #[trigger] glob(a, name.take(k)) && glob(seq!['*'] + b, name.skip(k));
        lemma_plain_is_itself(a, name.take(k));
        lemma_patterns_match_in_parts(seq!['*'], b, name.skip(k));
        let u = name.skip(k);
        let j = choose|j: int| 0 <= j <= u.len() && #[trigger] glob(seq!['*'], u.take(j)) && glob(b, u.skip(j));
        lemma_plain_is_itself(b, u.skip(j));
        assert(name.skip(name.len() - b.len()) =~= b) by {
            assert(u.skip(j) =~= name.skip(k + j));
        }
    }
    if a.len() + b.len() <= name.len() && starts_with(name, a) && ends_with(name, b) {
        let k = a.len() as int;
        let u = name.skip(k);
        let j = u.len() - b.len();
        assert(u.skip(j) =~= name.skip(name.len() - b.len()));
        lemma_glob_self(a);
        lemma_glob_self(b);
        lemma_star_matches_all(u.take(j));
        lemma_patterns_match_in_parts(seq!['*'], b, u);
        assert(glob(seq!['*'], u.take(j)) && glob(b, u.skip(j)));
        assert(glob(a, name.take(k)));
    }
}

proof fn lemma_plain_is_itself(p: Seq<char>, t: Seq<char>)
    requires
        !p.contains('*'),
        glob(p, t),
    ensures
        p == t,
    decreases p.len(),
{
    if p.len() > 0 {
        assert(p.contains(p[0]));
        let q = p.drop_first();
        assert(!q.contains('*')) by {
            assert forall|i: int| 0 <= i < q.len() implies q[i] != '*' by {
                assert(p.contains(p[i + 1]));
            }
        }
        lemma_plain_is_itself(q, t.drop_first());
        assert(seq![p[0]] + q =~= p);
        assert(seq![t[0]] + t.drop_first() =~= t);
    } else {
        assert(p =~= t);
    }
}

/// What each form of a target selects: an empty one every test, a name the tests with that
/// name, a file with a slash behind it the tests of the file, both together the tests with
/// that name in that file, and a name with `./` before it the tests of the file so named.
pub proof fn lemma_what_a_target_selects(f: Seq<char>, n: Seq<char>, file: Seq<u8>, name: Seq<char>)
    requires
        f.len() > 0,
        f != seq!['.'],
        n.len() > 0,
        !n.contains('/'),
    ensures
        selects(pattern_of(Seq::empty()), file, name),
        selects(pattern_of(n), file, name) <==> name_matches(n, name),
        selects(pattern_of(f + seq!['/']), file, name) <==> path_ends_with(file, encode_utf8(f)),
        selects(pattern_of(f + seq!['/'] + n), file, name) <==> path_ends_with(file, encode_utf8(f))
            && name_matches(n, name),
        selects(pattern_of(seq!['.', '/'] + n), file, name) <==> path_ends_with(file, encode_utf8(n)),
{
    let none = Seq::<char>::empty();
    lemma_last_slash(f, n);
    lemma_last_slash(f, none);
    assert(f + seq!['/'] + none =~= f + seq!['/']);
    lemma_last_slash(seq!['.'], n);
    assert(seq!['.'] + seq!['/'] + n =~= seq!['.', '/'] + n);
}

/// A file name at the end of a path: the file in a directory has its own name there and no
/// other.
pub proof fn lemma_file_in_directory_ends_with_its_name(dir: Seq<u8>, n: Seq<u8>, m: Seq<u8>)
    requires
        n.len() > 0,
        !n.contains(47u8),
        n != seq![46u8],
        m.len() > 0,
        !m.contains(47u8),
        m != seq![46u8],
    ensures
        path_ends_with(joined(dir, n), m) <==> n == m,
{
    lemma_joined_name(dir, n);
    lemma_joined_name(Seq::empty(), m);
    let e = Seq::<u8>::empty();
    assert(joined(e, m) =~= m);
    assert(components(e) =~= Seq::<Seq<u8>>::empty()) by {
        let one = seq![e];
        assert(split(e, 47u8) =~= one);
        assert(one.drop_last() =~= Seq::<Seq<u8>>::empty());
        assert(counted(one.drop_last()) =~= Seq::<Seq<u8>>::empty());
        assert(counted(one) =~= Seq::<Seq<u8>>::empty());
    }
    let c = components(joined(dir, n));
    assert(components(m) =~= seq![m]);
    assert(c.skip(c.len() - 1) =~= seq![n]);
    assert(seq![n][0] == n && seq![m][0] == m);
}

/// A name begins with the letters t, e, s, t.
pub open spec fn begins_with_test(name: Seq<char>) -> bool {
    name.len() >= 4 && name[0] == 't' && name[1] == 'e' && name[2] == 's' && name[3] == 't'
}

/// The tests of a file come in the order of its functions, one for each function whose name
/// begins with `test`.
pub proof fn lemma_tests_come_in_order(file: Seq<u8>, functions: Seq<FunctionView>) -> (at: Seq<int>)
    ensures
        tests_among(file, functions) == at.map_values(|k: int| CaseView { file, name: functions[k].name }),
        forall|i: int, j: int| 0 <= i < j < at.len() ==> #[trigger] at[i] < #[trigger] at[j],
        forall|k: int| #[trigger]
            at.contains(k) <==> 0 <= k < functions.len() && begins_with_test(functions[k].name),
    decreases functions.len(),
{
    let tests = tests_among(file, functions);
    if functions.len() == 0 {
        let at = Seq::<int>::empty();
        assert(tests =~= at.map_values(|k: int| CaseView { file, name: functions[k].name }));
        at
    } else {
        let front = functions.drop_last();
        let before = lemma_tests_come_in_order(file, front);
        let last = functions.len() - 1;
        let name = functions[last].name;
        assert(is_test(functions.last()) == begins_with_test(name)) by {
            reveal_strlit("test");
            if name.len() >= 4 {
                let s = name.take(4);
                assert(s[0] == name[0] && s[1] == name[1] && s[2] == name[2] && s[3] == name[3]);
                if begins_with_test(name) {
                    assert(s =~= "test"@);
                }
            }
        }
        let at = if is_test(functions.last()) {
            before.push(last)
        } else {
            before
        };
        assert forall|i: int| 0 <= i < before.len() implies 0 <= #[trigger] before[i] < last by {
            assert(before.contains(before[i]));
        }
        assert forall|k: int| #[trigger]
            at.contains(k) <==> 0 <= k < functions.len() && begins_with_test(functions[k].name) by {
            if before.contains(k) {
                let i = choose|i: int| 0 <= i < before.len() && before[i] == k;
                assert(at[i] == k);
                assert(front[k] == functions[k]);
            }
            if at.contains(k) {
                let i = choose|i: int| 0 <= i < at.len() && at[i] == k;
                if i < before.len() {
                    assert(before.contains(before[i]));
                }
            }
            if k == last && is_test(functions.last()) {
                assert(at[before.len() as int] == k);
            }
            if 0 <= k < last {
                assert(front[k] == functions[k]);
            }
        }
        assert(tests =~= at.map_values(|k: int| CaseView { file, name: functions[k].name }));
        at
    }
}

/// A target with a file and a name, as it is typed, matches the tests of that file with that
/// name; one without a slash the tests with that name in any file.
pub proof fn lemma_typed_targets_match(
    typed: &str,
    p: TestPattern,
    test: &TestCase,
    r: bool,
    f: Seq<char>,
    n: Seq<char>,
)
    requires
        call_ensures(TestPattern::parse, (typed,), p),
        call_ensures(TestPattern::matches, (&p, test), r),
        f.len() > 0,
        f != seq!['.'],
        n.len() > 0,
        !n.contains('/'),
    ensures
        typed@ == f + seq!['/'] + n ==> (r <==> path_ends_with(test.file@, encode_utf8(f)) && name_matches(
            n,
            test.name@,
        )),
        typed@ == f + seq!['/'] ==> (r <==> path_ends_with(test.file@, encode_utf8(f))),
        typed@ == n ==> (r <==> name_matches(n, test.name@)),
        typed@ == seq!['.', '/'] + n ==> (r <==> path_ends_with(test.file@, encode_utf8(n))),
        typed@.len() == 0 ==> r,
{
    lemma_what_a_target_selects(f, n, test.file@, test.name@);
    if typed@.len() == 0 {
        assert(typed@ =~= Seq::<char>::empty());
    }
}

/// The tests of a script are those of its functions, however deep in it they are defined, whose
/// names begin with `test`; in the order of the text.
pub proof fn lemma_tests_of_a_script(path: &UnixPath, script: &Script, r: TestFile) -> (at: (Seq<Seq<int>>, Seq<int>))
    requires
        call_ensures(script_tests, (path, script), r),
    ensures
        at_ways(|w: Seq<int>| at_script(*script, w), function_views(r.functions@), at.0),
        case_views(r.tests@) == at.1.map_values(
            |k: int| CaseView { file: path@, name: function_views(r.functions@)[k].name },
        ),
        forall|i: int, j: int| 0 <= i < j < at.1.len() ==> #[trigger] at.1[i] < #[trigger] at.1[j],
        forall|k: int| #[trigger]
            at.1.contains(k) <==> 0 <= k < r.functions@.len() && begins_with_test(
                function_views(r.functions@)[k].name,
            ),
{
    let fs = function_views(r.functions@);
    assert(fs.len() == r.functions@.len());
    let ways = lemma_every_function_of_a_script_is_found(*script);
    let at = lemma_tests_come_in_order(path@, fs);
    (ways, at)
}

} // verus!
