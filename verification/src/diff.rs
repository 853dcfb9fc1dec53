//! The operands of a failed comparison, and where they differ.

use similar::{ChangeTag, TextDiff};
use vstd::prelude::*;

use crate::diagnostics::BracketExpr;
use crate::text::{extend_str, starts_with, str_equal, string_of};

verus! {

/// A part of two texts: in both, in the first alone, or in the second alone.
#[derive(Debug)]
pub enum Change {
    Equal(String),
    Delete(String),
    Insert(String),
}

pub enum ChangeView {
    Equal(Seq<char>),
    Delete(Seq<char>),
    Insert(Seq<char>),
}

impl View for Change {
    type V = ChangeView;

    open spec fn view(&self) -> ChangeView {
        match *self {
            Change::Equal(s) => ChangeView::Equal(s@),
            Change::Delete(s) => ChangeView::Delete(s@),
            Change::Insert(s) => ChangeView::Insert(s@),
        }
    }
}

/// What the changes hold.
pub open spec fn change_views(s: Seq<Change>) -> Seq<ChangeView> {
    s.map(|_i: int, c: Change| c@)
}

/// The changes from `left` to `right` that `similar::TextDiff::from_chars` finds.
pub uninterp spec fn char_changes(left: Seq<char>, right: Seq<char>) -> Seq<ChangeView>;

/// Calls `similar::TextDiff::from_chars` and `iter_all_changes`. Claims that the
/// changes depend on the two texts alone; which of several shortest ways from one text
/// to the other they take is not said.
#[verifier::external_body]
pub(crate) fn diff_chars(left: &str, right: &str) -> (r: Vec<Change>)
    ensures
        change_views(r@) == char_changes(left@, right@),
{
    let diff = TextDiff::from_chars(left, right);
    diff.iter_all_changes().map(|c| match c.tag() {
        ChangeTag::Equal => Change::Equal(c.value().to_string()),
        ChangeTag::Delete => Change::Delete(c.value().to_string()),
        ChangeTag::Insert => Change::Insert(c.value().to_string()),
    }).collect()
}

/// The first text, with what is in it alone in red.
pub open spec fn left_marked(cs: Seq<ChangeView>) -> Seq<char>
    decreases cs.len(),
{
    if cs.len() == 0 {
        Seq::empty()
    } else {
        let before = left_marked(cs.drop_last());
        match cs.last() {
            ChangeView::Equal(v) => before + v,
            ChangeView::Delete(v) => before + "\x1b[31m"@ + v + "\x1b[0m"@,
            ChangeView::Insert(_) => before,
        }
    }
}

/// The second text, with what is in it alone in green.
pub open spec fn right_marked(cs: Seq<ChangeView>) -> Seq<char>
    decreases cs.len(),
{
    if cs.len() == 0 {
        Seq::empty()
    } else {
        let before = right_marked(cs.drop_last());
        match cs.last() {
            ChangeView::Equal(v) => before + v,
            ChangeView::Delete(_) => before,
            ChangeView::Insert(v) => before + "\x1b[32m"@ + v + "\x1b[0m"@,
        }
    }
}

/// Both texts, with what is in one of them alone in colour.
pub fn mark_changes(changes: &Vec<Change>) -> (r: (String, String))
    ensures
        r.0@ == left_marked(change_views(changes@)),
        r.1@ == right_marked(change_views(changes@)),
{
    let mut left: Vec<char> = Vec::new();
    let mut right: Vec<char> = Vec::new();
    let ghost all = change_views(changes@);
    let mut i: usize = 0;
    while i < changes.len()
        invariant
            i <= changes@.len(),
            all == change_views(changes@),
            left@ == left_marked(all.take(i as int)),
            right@ == right_marked(all.take(i as int)),
        decreases changes@.len() - i,
    {
        proof {
            assert(all.take(i + 1).drop_last() =~= all.take(i as int));
            assert(all.take(i + 1).last() == changes@[i as int]@);
        }
        match &changes[i] {
            Change::Equal(v) => {
                extend_str(&mut left, v.as_str());
                extend_str(&mut right, v.as_str());
            },
            Change::Delete(v) => {
                extend_str(&mut left, "\x1b[31m");
                extend_str(&mut left, v.as_str());
                extend_str(&mut left, "\x1b[0m");
            },
            Change::Insert(v) => {
                extend_str(&mut right, "\x1b[32m");
                extend_str(&mut right, v.as_str());
                extend_str(&mut right, "\x1b[0m");
            },
        }
        i = i + 1;
    }
    assert(all.take(i as int) =~= all);
    (string_of(left.as_slice()), string_of(right.as_slice()))
}

/// The comparison asks for equality, and the operands differ.
pub open spec fn shows_diff(left: Seq<char>, op: Seq<char>, right: Seq<char>) -> bool {
    (op == "="@ || op == "!="@) && left != right
}

/// The lines that show the operands.
pub open spec fn operand_lines(left: Seq<char>, right: Seq<char>) -> Seq<char> {
    "\n  left: \""@ + left + "\"\n right: \""@ + right + "\"\n"@
}

/// The lines that show where the operands differ.
pub open spec fn diff_lines(cs: Seq<ChangeView>) -> Seq<char> {
    "  diff: \""@ + left_marked(cs) + "\"\n        \""@ + right_marked(cs) + "\"\n"@
}

/// The comparison between the operands of a bracket expression.
pub open spec fn bracket_report(left: Seq<char>, op: Seq<char>, right: Seq<char>) -> Seq<char> {
    operand_lines(left, right) + if shows_diff(left, op, right) {
        diff_lines(char_changes(left, right))
    } else {
        Seq::empty()
    }
}

/// The lines that show where two texts differ, from the changes between them.
pub fn render_changes(changes: &Vec<Change>) -> (r: String)
    ensures
        r@ == diff_lines(change_views(changes@)),
{
    let (left, right) = mark_changes(changes);
    let mut v: Vec<char> = Vec::new();
    extend_str(&mut v, "  diff: \"");
    extend_str(&mut v, left.as_str());
    extend_str(&mut v, "\"\n        \"");
    extend_str(&mut v, right.as_str());
    extend_str(&mut v, "\"\n");
    assert(v@ =~= diff_lines(change_views(changes@)));
    string_of(v.as_slice())
}

/// Render a comparison between bracket expression operands.
pub fn render_bracket_diff(expr: &BracketExpr) -> (r: String)
    ensures
        r@ == bracket_report(expr.left@, expr.op@, expr.right@),
{
    let mut v: Vec<char> = Vec::new();
    extend_str(&mut v, "\n  left: \"");
    extend_str(&mut v, expr.left.as_str());
    extend_str(&mut v, "\"\n right: \"");
    extend_str(&mut v, expr.right.as_str());
    extend_str(&mut v, "\"\n");
    assert(v@ =~= operand_lines(expr.left@, expr.right@));
    // For equality operators, show inline diff if values differ
    if (str_equal(expr.op.as_str(), "=") || str_equal(expr.op.as_str(), "!=")) && !str_equal(
        expr.left.as_str(),
        expr.right.as_str(),
    ) {
        let changes = diff_chars(expr.left.as_str(), expr.right.as_str());
        let lines = render_changes(&changes);
        extend_str(&mut v, lines.as_str());
    }
    assert(v@ =~= bracket_report(expr.left@, expr.op@, expr.right@));
    string_of(v.as_slice())
}

/// The changes are marked one by one: each text shows what is in both as it is, what is in it
/// alone between a colour and its end, and nothing of what is in the other alone.
pub proof fn lemma_changes_are_marked_one_by_one(a: Seq<ChangeView>, b: Seq<ChangeView>, v: Seq<char>)
    ensures
        left_marked(a + b) == left_marked(a) + left_marked(b),
        right_marked(a + b) == right_marked(a) + right_marked(b),
        left_marked(seq![ChangeView::Equal(v)]) == v,
        right_marked(seq![ChangeView::Equal(v)]) == v,
        left_marked(seq![ChangeView::Delete(v)]) == "\x1b[31m"@ + v + "\x1b[0m"@,
        right_marked(seq![ChangeView::Delete(v)]) == Seq::<char>::empty(),
        left_marked(seq![ChangeView::Insert(v)]) == Seq::<char>::empty(),
        right_marked(seq![ChangeView::Insert(v)]) == "\x1b[32m"@ + v + "\x1b[0m"@,
    decreases b.len(),
{
    if b.len() == 0 {
        assert(a + b =~= a);
        assert(left_marked(a) + left_marked(b) =~= left_marked(a));
        assert(right_marked(a) + right_marked(b) =~= right_marked(a));
    } else {
        lemma_changes_are_marked_one_by_one(a, b.drop_last(), v);
        assert((a + b).drop_last() =~= a + b.drop_last());
        assert(left_marked(a + b) =~= left_marked(a) + left_marked(b));
        assert(right_marked(a + b) =~= right_marked(a) + right_marked(b));
    }
    let none = Seq::<ChangeView>::empty();
    assert(left_marked(none) =~= Seq::<char>::empty() && right_marked(none) =~= Seq::<char>::empty());
    let e = seq![ChangeView::Equal(v)];
    let d = seq![ChangeView::Delete(v)];
    let i = seq![ChangeView::Insert(v)];
    assert(e.drop_last() =~= none && d.drop_last() =~= none && i.drop_last() =~= none);
    assert(left_marked(e) =~= v && right_marked(e) =~= v);
    assert(left_marked(d) =~= "\x1b[31m"@ + v + "\x1b[0m"@);
    assert(right_marked(i) =~= "\x1b[32m"@ + v + "\x1b[0m"@);
}

/// Where the operands differ is shown for comparisons for equality of operands that differ, and
/// for no others; the operands themselves are always shown.
pub proof fn lemma_difference_is_shown(left: Seq<char>, op: Seq<char>, right: Seq<char>)
    ensures
        starts_with(bracket_report(left, op, right), operand_lines(left, right)),
        bracket_report(left, op, right) == operand_lines(left, right) <==> left == right || (op != "="@ && op
            != "!="@),
        left != right && (op == "="@ || op == "!="@) ==> bracket_report(left, op, right) == operand_lines(
            left,
            right,
        ) + diff_lines(char_changes(left, right)),
{
    let a = operand_lines(left, right);
    let b = diff_lines(char_changes(left, right));
    assert(b.len() > 0) by {
        reveal_strlit("  diff: \"");
    }
    assert((a + b).take(a.len() as int) =~= a);
    assert(a + Seq::<char>::empty() =~= a);
    assert((a + b).len() > a.len());
    assert(a.take(a.len() as int) =~= a);
}

} // verus!
