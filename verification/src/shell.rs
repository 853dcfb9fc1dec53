//! Reading shell text with `brush-parser`.

use std::sync::Arc;

use brush_parser::{ParseError, Parser, ParserOptions, SourceInfo, SourcePosition, Token, TokenLocation};
use vstd::prelude::*;

use crate::diagnostics::{count_of, lemma_count_of_parts};
use crate::number::{all_digits, decimal, decimal_chars, is_digit, parse_at_most, parse_number};
use crate::text::{after_last, chars_of, extend, extend_str, lemma_after_last, same, str_equal, string_of};

verus! {

/// A place in a text: the number of the character, its line and its column.
#[derive(Clone, Copy, PartialEq, Eq, Structural, Debug)]
pub struct Position {
    pub index: usize,
    pub line: usize,
    pub column: usize,
}

/// A part of a text.
#[derive(Clone, Copy, PartialEq, Eq, Structural, Debug)]
pub struct Span {
    pub start: Position,
    pub end: Position,
}

/// A word or an operator of a shell script, and where it stands.
#[derive(Debug)]
pub enum ShellToken {
    Operator(String, Span),
    Word(String, Span),
}

pub enum TokenView {
    Operator(Seq<char>, Span),
    Word(Seq<char>, Span),
}

impl View for ShellToken {
    type V = TokenView;

    open spec fn view(&self) -> TokenView {
        match *self {
            ShellToken::Operator(s, at) => TokenView::Operator(s@, at),
            ShellToken::Word(s, at) => TokenView::Word(s@, at),
        }
    }
}

/// What the tokens hold.
pub open spec fn token_views(s: Seq<ShellToken>) -> Seq<TokenView> {
    s.map(|_i: int, t: ShellToken| t@)
}

/// The token at `i` is a word of digits directly before a redirection: it tells a file
/// descriptor.
pub open spec fn is_descriptor(ts: Seq<TokenView>, i: int) -> bool {
    0 <= i && i + 1 < ts.len() && match (ts[i], ts[i + 1]) {
        (TokenView::Word(word, at), TokenView::Operator(operator, next)) => all_digits(word)
            && operator.len() > 0 && (operator[0] == '<' || operator[0] == '>') && at.end.index
            == next.start.index,
        _ => false,
    }
}

/// The token is a number that fits the type of a file descriptor.
pub open spec fn fits(t: TokenView) -> bool {
    t matches TokenView::Word(word, _) && parse_at_most(word, i32::MAX as int) is Some
}

/// Every word that tells a file descriptor fits the type of one.
pub open spec fn descriptors_fit(ts: Seq<TokenView>) -> bool {
    forall|i: int| #[trigger] is_descriptor(ts, i) ==> fits(ts[i])
}

/// A word, moved away from the token after it.
pub open spec fn apart(t: TokenView, next: TokenView) -> TokenView {
    match (t, next) {
        (TokenView::Word(word, at), TokenView::Operator(_, after)) => TokenView::Word(
            word,
            Span {
                start: at.start,
                end: Position {
                    index: if after.start.index == 0 {
                        1
                    } else {
                        0
                    },
                    line: at.end.line,
                    column: at.end.column,
                },
            },
        ),
        _ => t,
    }
}

/// The tokens, with each word that is too large for a descriptor moved away from the
/// redirection after it: so it is an ordinary word.
pub open spec fn set_apart(ts: Seq<TokenView>) -> Seq<TokenView> {
    Seq::new(
        ts.len(),
        |i: int|
            if is_descriptor(ts, i) && !fits(ts[i]) {
                apart(ts[i], ts[i + 1])
            } else {
                ts[i]
            },
    )
}

/// After that every descriptor fits, and where all did nothing has changed.
pub proof fn lemma_set_apart_fits(ts: Seq<TokenView>)
    ensures
        descriptors_fit(set_apart(ts)),
        descriptors_fit(ts) ==> set_apart(ts) == ts,
{
    let out = set_apart(ts);
    assert forall|i: int| #[trigger] is_descriptor(out, i) implies fits(out[i]) by {
        assert(out[i + 1] == ts[i + 1]);
        assert(is_descriptor(ts, i) ==> fits(ts[i]) || !is_descriptor(out, i));
    }
    if descriptors_fit(ts) {
        assert(out =~= ts);
    }
}

fn copy_token(t: &ShellToken) -> (r: ShellToken)
    ensures
        r@ == t@,
{
    match t {
        ShellToken::Operator(s, at) => ShellToken::Operator(s.as_str().to_owned(), *at),
        ShellToken::Word(s, at) => ShellToken::Word(s.as_str().to_owned(), *at),
    }
}

fn digits_only(v: &[char]) -> (r: bool)
    ensures
        r == all_digits(v@),
{
    let mut i: usize = 0;
    while i < v.len()
        invariant
            i <= v@.len(),
            forall|j: int| 0 <= j < i ==> is_digit(#[trigger] v@[j]),
        decreases v@.len() - i,
    {
        if v[i] < '0' || '9' < v[i] {
            assert(!is_digit(v@[i as int]));
            return false;
        }
        i = i + 1;
    }
    true
}

/// Whether the token at `i` tells a file descriptor that is too large.
fn too_large(tokens: &Vec<ShellToken>, i: usize) -> (r: bool)
    requires
        i < tokens@.len(),
    ensures
        r == (is_descriptor(token_views(tokens@), i as int) && !fits(token_views(tokens@)[i as int])),
{
    if tokens.len() - i <= 1 {
        return false;
    }
    let ghost ts = token_views(tokens@);
    assert(ts[i as int] == tokens@[i as int]@);
    assert(ts[i + 1] == tokens@[i + 1]@);
    match (&tokens[i], &tokens[i + 1]) {
        (ShellToken::Word(word, at), ShellToken::Operator(operator, next)) => {
            let w = chars_of(word.as_str());
            let o = chars_of(operator.as_str());
            if !digits_only(w.as_slice()) || o.len() == 0 || at.end.index != next.start.index {
                return false;
            }
            (o[0] == '<' || o[0] == '>') && parse_number(w.as_slice(), 0x7fff_ffff).is_none()
        },
        _ => false,
    }
}

/// Whether every word that tells a file descriptor fits the type of one.
pub fn check_descriptors(tokens: &Vec<ShellToken>) -> (r: bool)
    ensures
        r == descriptors_fit(token_views(tokens@)),
{
    let ghost ts = token_views(tokens@);
    let mut i: usize = 0;
    while i < tokens.len()
        invariant
            i <= tokens@.len(),
            ts == token_views(tokens@),
            forall|j: int| 0 <= j < i && #[trigger] is_descriptor(ts, j) ==> fits(ts[j]),
        decreases tokens@.len() - i,
    {
        if too_large(tokens, i) {
            assert(is_descriptor(ts, i as int));
            return false;
        }
        i = i + 1;
    }
    true
}

/// The tokens, with each word that is too large for a descriptor moved away from the
/// redirection after it.
pub fn separate_descriptors(tokens: &Vec<ShellToken>) -> (out: Vec<ShellToken>)
    ensures
        token_views(out@) == set_apart(token_views(tokens@)),
{
    let ghost ts = token_views(tokens@);
    let mut out: Vec<ShellToken> = Vec::new();
    let mut i: usize = 0;
    while i < tokens.len()
        invariant
            i <= tokens@.len(),
            ts == token_views(tokens@),
            token_views(out@) == set_apart(ts).take(i as int),
        decreases tokens@.len() - i,
    {
        let ghost before = out@;
        assert(ts[i as int] == tokens@[i as int]@);
        let mut token = copy_token(&tokens[i]);
        if too_large(tokens, i) {
            assert(ts[i + 1] == tokens@[i + 1]@);
            if let (ShellToken::Word(word, at), ShellToken::Operator(_, next)) = (&tokens[i], &tokens[i + 1]) {
                let index: usize = if next.start.index == 0 {
                    1
                } else {
                    0
                };
                let end = Position { index, line: at.end.line, column: at.end.column };
                token = ShellToken::Word(word.as_str().to_owned(), Span { start: at.start, end });
            }
        }
        out.push(token);
        assert(token@ == set_apart(ts)[i as int]);
        assert(token_views(out@) =~= token_views(before).push(token@));
        assert(set_apart(ts).take(i + 1) =~= set_apart(ts).take(i as int).push(token@));
        i = i + 1;
    }
    assert(set_apart(ts).take(i as int) =~= set_apart(ts));
    out
}

/// `a` stands directly before `b` somewhere in the text.
pub open spec fn has_pair(s: Seq<char>, a: char, b: char) -> bool {
    exists|i: int| 0 <= i && i + 1 < s.len() && #[trigger] s[i] == a && s[i + 1] == b
}

/// How many newlines the text ends in.
pub open spec fn newlines_at_end(s: Seq<char>) -> nat
    decreases s.len(),
{
    if s.len() > 0 && s.last() == '\n' {
        newlines_at_end(s.drop_last()) + 1
    } else {
        0
    }
}

/// The end of the text does not come too early for the tokenizer: no here-document is in
/// it, or it ends in newlines enough, four for each other character and four more.
pub open spec fn is_settled(s: Seq<char>) -> bool {
    !has_pair(s, '<', '<') || newlines_at_end(s) >= 4 * (s.len() - newlines_at_end(s) + 1)
}

/// `n` newlines.
pub open spec fn newlines(n: nat) -> Seq<char> {
    Seq::new(n, |_i: int| '\n')
}

/// How many newlines are put at the end of a text to settle it.
pub open spec fn padding(s: Seq<char>) -> nat {
    4 * (s.len() + 1)
}

/// The text with newlines at its end that settle it.
pub open spec fn padded(s: Seq<char>) -> Seq<char> {
    s + newlines(padding(s))
}

/// Of the tokens of the padded text, the last ones are the newlines that were put there but
/// for the first `k`, each by itself.
pub open spec fn keeps_padding(s: Seq<char>, ts: Seq<TokenView>, k: int) -> bool {
    let n = padding(s) - k;
    &&& ts.len() >= n
    &&& forall|j: int|
        0 <= j < n ==> is_newline_at(#[trigger] ts[ts.len() - n + j], s.len() + k + j)
}

/// Nothing in the text reaches beyond its end.
pub open spec fn is_intact(s: Seq<char>, ts: Seq<TokenView>) -> bool {
    keeps_padding(s, ts, 0)
}

/// The token is the newline at this place of the text.
pub open spec fn is_newline_at(t: TokenView, i: int) -> bool {
    t matches TokenView::Operator(o, at) && o == seq!['\n'] && at.end.index == i + 1
}

/// The text with blanks for all but its newlines and its last character.
pub open spec fn blanked(s: Seq<char>) -> Seq<char> {
    Seq::new(
        s.len(),
        |i: int|
            if i + 1 == s.len() || s[i] == '\n' {
                s[i]
            } else {
                ' '
            },
    )
}

proof fn lemma_newlines_at_end(s: Seq<char>, n: nat)
    ensures
        newlines_at_end(s + newlines(n)) == newlines_at_end(s) + n,
        newlines_at_end(s) <= s.len(),
    decreases n, s.len(),
{
    if n > 0 {
        let t = s + newlines(n);
        assert(t.drop_last() =~= s + newlines((n - 1) as nat));
        lemma_newlines_at_end(s, (n - 1) as nat);
    } else {
        assert(s + newlines(0) =~= s);
        if s.len() > 0 && s.last() == '\n' {
            lemma_newlines_at_end(s.drop_last(), 0);
        }
    }
}

/// Padding settles a text.
pub proof fn lemma_padded_is_settled(s: Seq<char>)
    ensures
        is_settled(padded(s)),
{
    lemma_newlines_at_end(s, padding(s));
}

/// A text of blanks is settled.
proof fn lemma_blanked_is_settled(s: Seq<char>)
    requires
        s.len() > 0,
        s.last() == '\\',
    ensures
        is_settled(blanked(s)),
{
    let b = blanked(s);
    assert forall|i: int| 0 <= i && i + 1 < b.len() implies #[trigger] b[i] != '<' by {}
}

fn find_pair(v: &[char], a: char, b: char) -> (r: bool)
    ensures
        r == has_pair(v@, a, b),
{
    let mut i: usize = 0;
    while i < v.len()
        invariant
            i <= v@.len(),
            forall|j: int| 0 <= j < i && j + 1 < v@.len() && #[trigger] v@[j] == a ==> v@[j + 1] != b,
        decreases v@.len() - i,
    {
        if v.len() - i > 1 && same(v[i], a) && same(v[i + 1], b) {
            assert(v@[i as int] == a && v@[i + 1] == b);
            return true;
        }
        i = i + 1;
    }
    false
}

/// Whether the end of the text does not come too early for the tokenizer.
pub fn check_settled(source: &str) -> (r: bool)
    ensures
        r == is_settled(source@),
{
    let v = chars_of(source);
    if !find_pair(v.as_slice(), '<', '<') {
        return true;
    }
    let mut rest: usize = v.len();
    assert(v@.take(rest as int) =~= v@);
    while rest > 0 && v[rest - 1] == '\n'
        invariant
            rest <= v@.len(),
            newlines_at_end(v@) == newlines_at_end(v@.take(rest as int)) + (v@.len() - rest),
        decreases rest,
    {
        let ghost now = v@.take(rest as int);
        assert(now.drop_last() =~= v@.take(rest - 1));
        rest = rest - 1;
    }
    let ending: u128 = (v.len() - rest) as u128;
    ending >= 4 * (rest as u128 + 1)
}

/// The text with newlines at its end that settle it.
pub fn pad(source: &str) -> (r: String)
    ensures
        r@ == padded(source@),
        source@.len() < usize::MAX,
{
    let mut v = chars_of(source);
    let n: usize = v.len();
    let mut i: usize = 0;
    assert(v@ =~= source@ + newlines(0));
    loop
        invariant_except_break
            v@ == source@ + newlines((4 * i) as nat),
        invariant
            i <= n,
            n == source@.len(),
        ensures
            v@ == source@ + newlines((4 * (n + 1)) as nat),
        decreases n - i,
    {
        v.push('\n');
        v.push('\n');
        v.push('\n');
        v.push('\n');
        assert(v@ =~= source@ + newlines((4 * (i + 1)) as nat));
        if i == n {
            break;
        }
        i = i + 1;
    }
    assert(v@.len() == source@.len() + 4 * (n + 1) && v.len() == v@.len());
    string_of(v.as_slice())
}

fn blank(source: &str) -> (r: String)
    ensures
        r@ == blanked(source@),
{
    let v = chars_of(source);
    let mut out: Vec<char> = Vec::new();
    let mut i: usize = 0;
    while i < v.len()
        invariant
            i <= v@.len(),
            v@ == source@,
            out@ == blanked(source@).take(i as int),
        decreases v@.len() - i,
    {
        if v.len() - i == 1 || v[i] == '\n' {
            out.push(v[i]);
        } else {
            out.push(' ');
        }
        i = i + 1;
        assert(blanked(source@).take(i as int) =~= blanked(source@).take(i - 1).push(
            blanked(source@)[i - 1],
        ));
    }
    assert(blanked(source@).take(i as int) =~= blanked(source@));
    string_of(out.as_slice())
}

/// Whether the last tokens of a padded text are the newlines that were put there but for the
/// first `k`.
pub fn check_padding(source: &str, tokens: &Vec<ShellToken>, k: usize) -> (r: bool)
    requires
        k <= 4,
    ensures
        r == keeps_padding(source@, token_views(tokens@), k as int),
{
    let ghost ts = token_views(tokens@);
    let v = chars_of(source);
    let wanted: u128 = 4 * (v.len() as u128 + 1) - k as u128;
    if (tokens.len() as u128) < wanted {
        return false;
    }
    let n: usize = wanted as usize;
    let total: usize = tokens.len();
    let from: usize = total - n;
    let mut j: usize = 0;
    while j < n
        invariant
            j <= n,
            n == padding(source@) - k,
            k <= 4,
            v@ == source@,
            ts == token_views(tokens@),
            from + n == total == ts.len() == tokens@.len(),
            forall|i: int|
                0 <= i < j ==> is_newline_at(#[trigger] ts[ts.len() - n + i], source@.len() + k + i),
        decreases n - j,
    {
        assert(ts[ts.len() - n + j] == tokens@[from + j]@);
        let mut kept = false;
        if let ShellToken::Operator(o, at) = &tokens[from + j] {
            let o = chars_of(o.as_str());
            let end: u128 = v.len() as u128 + k as u128 + j as u128 + 1;
            kept = o.len() == 1 && o[0] == '\n' && at.end.index as u128 == end;
            proof {
                if o@.len() == 1 && o@[0] == '\n' {
                    assert(o@ =~= seq!['\n']);
                }
            }
        }
        if !kept {
            assert(!is_newline_at(ts[ts.len() - n + j], source@.len() + k + j));
            return false;
        }
        j = j + 1;
    }
    true
}

#[verifier::external_type_specification]
#[verifier::external_body]
pub struct ExProgram(brush_parser::ast::Program);

/// The tokens that `brush_parser::uncached_tokenize_str` finds in a text with the options
/// of the default parser, or the message of its error.
pub uninterp spec fn tokens_of(source: Seq<char>) -> Result<Seq<TokenView>, Seq<char>>;

/// Calls `brush_parser::uncached_tokenize_str` on the text, with the options that the
/// default parser hands to its tokenizer, and makes a message of its error. Claims that
/// the outcome depends on the text alone. With here-documents the tokenizer can panic or
/// not return at the end of a text. Where a substitution closes before the body of a
/// document that it holds, it takes one character after the body for each bracket that
/// closed it, and panics where there is none. And it does not return where the text ends
/// on the line of an empty tag. So texts with a here-document are left out that do not end
/// in newlines enough for all brackets and tags in them. How deep a text may nest is a
/// matter of the stack.
#[verifier::external_body]
pub(crate) fn tokenize(source: &str) -> (r: Result<Vec<ShellToken>, String>)
    requires
        is_settled(source@),
    ensures
        match r {
            Ok(ts) => tokens_of(source@) == Ok::<Seq<TokenView>, Seq<char>>(token_views(ts@)),
            Err(e) => tokens_of(source@) == Err::<Seq<TokenView>, Seq<char>>(e@),
        },
{
    let options = ParserOptions::default().tokenizer_options();
    let at = |p: &SourcePosition| Position { index: p.index, line: p.line, column: p.column };
    let span = |l: &TokenLocation| Span { start: at(&l.start), end: at(&l.end) };
    let found = brush_parser::uncached_tokenize_str(source, &options).map_err(|e| e.to_string())?;
    Ok(found.into_iter().map(|t| match t {
        Token::Operator(s, l) => ShellToken::Operator(s, span(&l)),
        Token::Word(s, l) => ShellToken::Word(s, span(&l)),
    }).collect())
}

/// The parser does not panic on the text, as its tokens show or, where it is not settled,
/// those of the padded text.
pub open spec fn is_readable(source: Seq<char>) -> bool {
    if is_settled(source) {
        tokens_of(source) matches Ok(ts) ==> descriptors_fit(ts)
    } else {
        tokens_of(padded(source)) matches Ok(ts) && descriptors_fit(ts) && is_intact(source, ts)
    }
}

/// Why a text could not be read: the message, and where the text could not be taken apart
/// further, if that is the reason.
#[derive(Debug)]
pub struct Failure {
    pub message: String,
    pub place: Option<Position>,
}

pub struct FailureView {
    pub message: Seq<char>,
    pub place: Option<Position>,
}

impl View for Failure {
    type V = FailureView;

    open spec fn view(&self) -> FailureView {
        FailureView { message: self.message@, place: self.place }
    }
}

/// The failure in words.
pub open spec fn failure_message(f: FailureView) -> Seq<char> {
    match f.place {
        Some(p) => f.message + " (detected near line "@ + decimal(p.line as nat) + " col "@ + decimal(
            p.column as nat,
        ) + ")"@,
        None => f.message,
    }
}

/// The end of a text.
pub open spec fn end_of(s: Seq<char>) -> Position {
    Position {
        index: s.len() as usize,
        line: (count_of(s, '\n') + 1) as usize,
        column: (after_last(s, '\n').len() + 1) as usize,
    }
}

/// A failure beyond the end of a text is one at its end.
pub open spec fn within(s: Seq<char>, f: FailureView) -> FailureView {
    FailureView {
        message: f.message,
        place: match f.place {
            Some(p) => Some(
                if p.index > s.len() {
                    end_of(s)
                } else {
                    p
                },
            ),
            None => None,
        },
    }
}

/// What `brush_parser::Parser::parse_program` makes of a text with the default
/// options: the program, or its error.
pub uninterp spec fn parsed(source: Seq<char>) -> Result<brush_parser::ast::Program, FailureView>;

/// Calls `brush_parser::Parser::parse_program` on the text, with the default options,
/// and makes a message of its error; an error of the tokenizer keeps its place. Claims that the outcome depends on the text
/// alone. The parser runs the tokenizer of `uncached_tokenize_str` with the same options
/// and works on its tokens; it panics on a word of digits directly before a redirection
/// whose number does not fit an `i32`, so texts with such a word are left out. So are
/// texts on which the tokenizer may panic or not return: a text that is not settled is
/// admitted where the tokens of the padded text show that the tokenizer was done with it at
/// its end. How deep a text may nest is a matter of the stack.
#[verifier::external_body]
pub(crate) fn parse_source(source: &str) -> (r: Result<brush_parser::ast::Program, Failure>)
    requires
        is_readable(source@),
    ensures
        match r {
            Ok(p) => parsed(source@) == Ok::<brush_parser::ast::Program, FailureView>(p),
            Err(e) => parsed(source@) == Err::<brush_parser::ast::Program, FailureView>(e@),
        },
{
    let options = ParserOptions::default();
    let info = SourceInfo::default();
    let mut parser = Parser::new(source.as_bytes(), &options, &info);
    parser.parse_program().map_err(|e| match e {
        ParseError::Tokenizing { inner, position: Some(p) } => Failure {
            message: inner.to_string(),
            place: Some(Position { index: p.index, line: p.line, column: p.column }),
        },
        other => Failure { message: other.to_string(), place: None },
    })
}

/// What `brush_parser::parse_tokens` makes of tokens with the default options: the
/// program, or the message of the error.
pub uninterp spec fn parsed_tokens(tokens: Seq<TokenView>) -> Result<
    brush_parser::ast::Program,
    Seq<char>,
>;

/// Calls `brush_parser::parse_tokens`, with the default options, and makes a message of its
/// error. Claims that the outcome depends on the tokens alone. Tokens with a word of
/// digits directly before a redirection whose number does not fit an `i32` are left out:
/// the parser panics on them. How deep they may nest is a matter of the stack.
#[verifier::external_body]
pub(crate) fn parse_tokens(tokens: &Vec<ShellToken>) -> (r: Result<brush_parser::ast::Program, String>)
    requires
        descriptors_fit(token_views(tokens@)),
    ensures
        match r {
            Ok(p) => parsed_tokens(token_views(tokens@)) == Ok::<brush_parser::ast::Program, Seq<char>>(p),
            Err(e) => parsed_tokens(token_views(tokens@)) == Err::<
                brush_parser::ast::Program,
                Seq<char>,
            >(e@),
        },
{
    let at = |p: &Position| Arc::new(SourcePosition { index: p.index, line: p.line, column: p.column });
    let location = |s: &Span| TokenLocation { start: at(&s.start), end: at(&s.end) };
    let all = tokens.iter().map(|t| match t {
        ShellToken::Operator(s, at) => Token::Operator(s.clone(), location(at)),
        ShellToken::Word(s, at) => Token::Word(s.clone(), location(at)),
    }).collect();
    let (options, info) = (ParserOptions::default(), SourceInfo::default());
    brush_parser::parse_tokens(&all, &options, &info).map_err(|e| e.to_string())
}

/// What tokens are read as. Where a word of digits before a redirection is too large for a
/// descriptor, which the parser cannot take, it is read as an ordinary word.
pub open spec fn script_of_tokens(ts: Seq<TokenView>) -> Result<brush_parser::ast::Program, Seq<char>> {
    parsed_tokens(set_apart(ts))
}

/// What a result of the parser holds, with its failure in words.
pub open spec fn in_words(r: Result<brush_parser::ast::Program, FailureView>) -> Result<
    brush_parser::ast::Program,
    Seq<char>,
> {
    match r {
        Ok(p) => Ok(p),
        Err(f) => Err(failure_message(f)),
    }
}

/// What a settled text is read as: what the parser makes of it, as far as it can take it.
pub open spec fn script_of_settled(source: Seq<char>) -> Result<
    brush_parser::ast::Program,
    Seq<char>,
> {
    if is_readable(source) {
        in_words(parsed(source))
    } else {
        script_of_tokens(tokens_of(source)->Ok_0)
    }
}

/// Of the tokens of the padded text, those from `i` on are a here-document whose tag ends
/// the text: the operator, the tag, the body and the tag again.
pub open spec fn is_last_document(s: Seq<char>, ts: Seq<TokenView>, i: int) -> bool {
    &&& 0 <= i && i + 3 < ts.len()
    &&& ts[i] matches TokenView::Operator(o, _) && o.len() >= 2 && o[0] == '<' && o[1] == '<'
    &&& match (ts[i + 1], ts[i + 3]) {
        (TokenView::Word(tag, _), TokenView::Word(last, at)) => tag == last && at.end.index
            == s.len() + 1,
        _ => false,
    }
}

/// The text does not end in the middle of something: nothing in it reaches beyond its end,
/// or only the tag of a here-document, which may end without a newline.
pub open spec fn is_whole(s: Seq<char>, ts: Seq<TokenView>) -> bool {
    is_intact(s, ts) || (keeps_padding(s, ts, 1) && exists|i: int| is_last_document(s, ts, i))
}

/// The failure of a text that ends in the middle of something.
pub open spec fn early_end(s: Seq<char>) -> FailureView {
    FailureView { message: "unexpected end of text"@, place: Some(end_of(s)) }
}

/// What a text is read as: what the parser makes of it. Where the end of the text could come
/// too early for it, the tokens of the padded text are read in its place, and what fails
/// beyond the end of the text fails at its end. A text that ends in the middle of an escape
/// or a here-document is an error; that of the escape does not depend on what comes before.
pub open spec fn script_of(source: Seq<char>) -> Result<brush_parser::ast::Program, Seq<char>> {
    if is_settled(source) {
        script_of_settled(source)
    } else {
        match tokens_of(padded(source)) {
            Err(_) => match parsed(padded(source)) {
                Ok(p) => Ok(p),
                Err(f) => Err(failure_message(within(source, f))),
            },
            Ok(ts) => if is_readable(source) {
                in_words(parsed(source))
            } else if is_whole(source, ts) {
                script_of_tokens(ts)
            } else if source.last() == '\\' {
                script_of_settled(blanked(source))
            } else {
                Err(failure_message(early_end(source)))
            },
        }
    }
}

/// What a result holds.
pub open spec fn script_view(r: Result<brush_parser::ast::Program, String>) -> Result<
    brush_parser::ast::Program,
    Seq<char>,
> {
    match r {
        Ok(p) => Ok(p),
        Err(e) => Err(e@),
    }
}

fn put_in_words(f: &Failure) -> (r: String)
    ensures
        r@ == failure_message(f@),
{
    let mut v = chars_of(f.message.as_str());
    if let Some(p) = f.place {
        let line = decimal_chars(p.line as u128);
        let column = decimal_chars(p.column as u128);
        extend_str(&mut v, " (detected near line ");
        extend(&mut v, line.as_slice());
        extend_str(&mut v, " col ");
        extend(&mut v, column.as_slice());
        extend_str(&mut v, ")");
    }
    string_of(v.as_slice())
}

/// The end of a text.
fn find_end(source: &str) -> (r: Position)
    requires
        source@.len() < usize::MAX,
    ensures
        r == end_of(source@),
{
    let v = chars_of(source);
    let mut line: usize = 1;
    let mut column: usize = 1;
    let mut i: usize = 0;
    assert(v@.take(0) =~= Seq::<char>::empty());
    while i < v.len()
        invariant
            i <= v@.len() < usize::MAX,
            v@ == source@,
            line == count_of(v@.take(i as int), '\n') + 1,
            line <= i + 1,
            column == after_last(v@.take(i as int), '\n').len() + 1,
            column <= i + 1,
        decreases v@.len() - i,
    {
        assert(v@.take(i + 1).drop_last() =~= v@.take(i as int));
        if v[i] == '\n' {
            line = line + 1;
            column = 1;
        } else {
            column = column + 1;
        }
        i = i + 1;
    }
    assert(v@.take(i as int) =~= source@);
    Position { index: v.len(), line, column }
}

/// A failure beyond the end of the text is put at its end.
fn put_within(source: &str, f: Failure) -> (r: Failure)
    ensures
        r@ == within(source@, f@),
{
    match f.place {
        Some(p) => {
            let v = chars_of(source);
            if p.index <= v.len() {
                f
            } else {
                Failure { message: f.message, place: Some(find_end(source)) }
            }
        },
        None => f,
    }
}

/// Whether a here-document whose tag ends the text is among the tokens of the padded text.
fn ends_in_document(source: &str, tokens: &Vec<ShellToken>) -> (r: bool)
    ensures
        r == exists|i: int| is_last_document(source@, token_views(tokens@), i),
{
    let ghost ts = token_views(tokens@);
    let v = chars_of(source);
    let mut i: usize = 0;
    while i < tokens.len()
        invariant
            i <= tokens@.len(),
            ts == token_views(tokens@),
            v@ == source@,
            forall|j: int| 0 <= j < i ==> !is_last_document(source@, ts, j),
        decreases tokens@.len() - i,
    {
        if tokens.len() - i > 3 {
            assert(ts[i as int] == tokens@[i as int]@);
            assert(ts[i + 1] == tokens@[i + 1]@);
            assert(ts[i + 3] == tokens@[i + 3]@);
            if let ShellToken::Operator(o, _) = &tokens[i] {
                let o = chars_of(o.as_str());
                if o.len() >= 2 && o[0] == '<' && o[1] == '<' {
                    if let (ShellToken::Word(tag, _), ShellToken::Word(last, at)) = (
                        &tokens[i + 1],
                        &tokens[i + 3],
                    ) {
                        if str_equal(tag.as_str(), last.as_str()) && at.end.index as u128 == v.len() as u128
                            + 1 {
                            assert(is_last_document(source@, ts, i as int));
                            return true;
                        }
                    }
                }
            }
            assert(!is_last_document(source@, ts, i as int));
        }
        i = i + 1;
    }
    false
}

fn read_tokens(tokens: &Vec<ShellToken>) -> (r: Result<brush_parser::ast::Program, String>)
    ensures
        script_view(r) == script_of_tokens(token_views(tokens@)),
{
    proof {
        lemma_set_apart_fits(token_views(tokens@));
    }
    let separated = separate_descriptors(tokens);
    parse_tokens(&separated)
}

fn read_text(source: &str) -> (r: Result<brush_parser::ast::Program, String>)
    requires
        is_readable(source@),
    ensures
        script_view(r) == in_words(parsed(source@)),
{
    match parse_source(source) {
        Ok(p) => Ok(p),
        Err(f) => Err(put_in_words(&f)),
    }
}

fn read_settled(source: &str) -> (r: Result<brush_parser::ast::Program, String>)
    requires
        is_settled(source@),
    ensures
        script_view(r) == script_of_settled(source@),
{
    if let Ok(tokens) = tokenize(source) {
        if !check_descriptors(&tokens) {
            return read_tokens(&tokens);
        }
    }
    read_text(source)
}

/// Reads a shell script.
pub fn read_script(source: &str) -> (r: Result<brush_parser::ast::Program, String>)
    ensures
        script_view(r) == script_of(source@),
{
    if check_settled(source) {
        return read_settled(source);
    }
    let wide = pad(source);
    proof {
        lemma_padded_is_settled(source@);
    }
    let tokens = match tokenize(wide.as_str()) {
        Ok(tokens) => tokens,
        Err(_) => {
            return match parse_source(wide.as_str()) {
                Ok(p) => Ok(p),
                Err(f) => {
                    let at = put_within(source, f);
                    Err(put_in_words(&at))
                },
            };
        },
    };
    let intact = check_padding(source, &tokens, 0);
    if intact && check_descriptors(&tokens) {
        return read_text(source);
    }
    if intact || (check_padding(source, &tokens, 1) && ends_in_document(source, &tokens)) {
        return read_tokens(&tokens);
    }
    let v = chars_of(source);
    if v.len() > 0 && v[v.len() - 1] == '\\' {
        let blanks = blank(source);
        proof {
            lemma_blanked_is_settled(source@);
        }
        return read_settled(blanks.as_str());
    }
    let end = find_end(source);
    Err(put_in_words(&Failure { message: "unexpected end of text".to_owned(), place: Some(end) }))
}

/// A text on which the parser does not panic is read as the parser reads it; and every text
/// without here-documents and without descriptors that are too large is one.
pub proof fn lemma_the_parser_decides(source: Seq<char>)
    ensures
        is_readable(source) ==> script_of(source) == in_words(parsed(source)),
        !has_pair(source, '<', '<') && (tokens_of(source) matches Ok(ts) ==> descriptors_fit(ts))
            ==> is_readable(source),
{
}

/// The words and operators stay what they are and where they begin, and but for numbers that
/// are too large for descriptors nothing changes.
pub proof fn lemma_words_are_kept(ts: Seq<TokenView>, i: int)
    requires
        0 <= i < ts.len(),
    ensures
        set_apart(ts).len() == ts.len(),
        match (ts[i], set_apart(ts)[i]) {
            (TokenView::Word(a, x), TokenView::Word(b, y)) => a == b && x.start == y.start && (x == y || (
            i + 1 < ts.len() && ts[i + 1] is Operator && parse_at_most(a, i32::MAX as int) is None)),
            (TokenView::Operator(a, x), TokenView::Operator(b, y)) => a == b && x == y,
            _ => false,
        },
{
}

/// The end of a text is on the line after its last newline, behind the last character there.
pub proof fn lemma_where_a_text_ends(a: Seq<char>, b: Seq<char>)
    requires
        a.len() + b.len() + 2 < usize::MAX,
        !b.contains('\n'),
    ensures
        end_of(b).line == 1,
        end_of(b).column == b.len() + 1,
        end_of(a + seq!['\n'] + b).line == end_of(a).line + 1,
        end_of(a + seq!['\n'] + b).column == b.len() + 1,
        end_of(a + seq!['\n'] + b).index == a.len() + 1 + b.len(),
{
    let s = a + seq!['\n'] + b;
    let k = a.len() as int;
    lemma_count_of_parts(a + seq!['\n'], b, '\n', '\n');
    lemma_count_of_parts(a, seq!['\n'], '\n', '\n');
    lemma_no_newline(b);
    lemma_count_at_most(a);
    assert(s[k] == '\n');
    assert forall|j: int| k < j < s.len() implies s[j] != '\n' by {
        assert(b.contains(b[j - k - 1]));
    }
    lemma_after_last(s, '\n', k);
    assert(s.skip(k + 1) =~= b);
}

proof fn lemma_no_newline(b: Seq<char>)
    requires
        !b.contains('\n'),
    ensures
        count_of(b, '\n') == 0,
        after_last(b, '\n') == b,
    decreases b.len(),
{
    if b.len() > 0 {
        let front = b.drop_last();
        assert(b.contains(b.last()));
        assert(!front.contains('\n')) by {
            assert forall|i: int| 0 <= i < front.len() implies front[i] != '\n' by {
                assert(b.contains(b[i]));
            }
        }
        lemma_no_newline(front);
        assert(front.push(b.last()) =~= b);
    } else {
        assert(after_last(b, '\n') =~= b);
    }
}

proof fn lemma_count_at_most(s: Seq<char>)
    ensures
        count_of(s, '\n') <= s.len(),
    decreases s.len(),
{
    if s.len() > 0 {
        lemma_count_at_most(s.drop_last());
    }
}

} // verus!
