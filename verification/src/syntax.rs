//! Shell scripts as the tree that the parser reads, as far as it tells where
//! functions are defined.

use vstd::prelude::*;

use crate::order::lex;

verus! {

/// A complete shell script.
#[derive(Debug)]
pub struct Script {
    pub complete_commands: Vec<CompoundList>,
}

/// Commands one after the other.
#[derive(Debug)]
pub struct CompoundList(pub Vec<AndOrList>);

/// Pipelines connected by `&&` and `||`.
#[derive(Debug)]
pub struct AndOrList {
    pub first: Pipeline,
    pub additional: Vec<AndOr>,
}

#[derive(Debug)]
pub enum AndOr {
    And(Pipeline),
    Or(Pipeline),
}

/// Commands connected by `|`.
#[derive(Debug)]
pub struct Pipeline {
    pub seq: Vec<Command>,
}

#[derive(Debug)]
pub enum Command {
    Simple,
    Compound(CompoundCommand),
    Function(FunctionDefinition),
    ExtendedTest,
}

#[derive(Debug)]
pub enum CompoundCommand {
    Arithmetic,
    ArithmeticForClause(CompoundList),
    BraceGroup(CompoundList),
    Subshell(CompoundList),
    ForClause(CompoundList),
    CaseClause(Vec<Option<CompoundList>>),
    IfClause(IfClause),
    WhileClause(CompoundList, CompoundList),
    UntilClause(CompoundList, CompoundList),
}

#[derive(Debug)]
pub struct IfClause {
    pub condition: CompoundList,
    pub body: CompoundList,
    pub elses: Option<Vec<ElseClause>>,
}

/// An `elif` with its condition, or the `else`.
#[derive(Debug)]
pub struct ElseClause {
    pub condition: Option<CompoundList>,
    pub body: CompoundList,
}

/// A function: its name, and its definition as shell text.
#[derive(Debug)]
pub struct FunctionDefinition {
    pub name: String,
    pub text: String,
}

pub struct FunctionView {
    pub name: Seq<char>,
    pub text: Seq<char>,
}

impl View for FunctionDefinition {
    type V = FunctionView;

    open spec fn view(&self) -> FunctionView {
        FunctionView { name: self.name@, text: self.text@ }
    }
}

/// What the functions hold.
pub open spec fn function_views(s: Seq<FunctionDefinition>) -> Seq<FunctionView> {
    s.map(|_i: int, f: FunctionDefinition| f@)
}

/// The functions that a script defines, in the order of its text; those that are
/// defined when a function runs are not among them.
pub open spec fn in_script(p: Script) -> Seq<FunctionView> {
    in_commands(p.complete_commands@)
}

pub open spec fn in_commands(s: Seq<CompoundList>) -> Seq<FunctionView>
    decreases s.len(),
{
    if s.len() == 0 {
        Seq::empty()
    } else {
        in_commands(s.drop_last()) + in_list(s.last())
    }
}

pub open spec fn in_list(l: CompoundList) -> Seq<FunctionView>
    decreases l, l.0@.len() + 1,
{
    in_items(l, l.0@.len())
}

/// The functions in the first `n` items of a list.
pub open spec fn in_items(l: CompoundList, n: nat) -> Seq<FunctionView>
    decreases l, n,
{
    if n == 0 || n > l.0@.len() {
        Seq::empty()
    } else {
        in_items(l, (n - 1) as nat) + in_and_or(l.0[n - 1])
    }
}

pub open spec fn in_and_or(a: AndOrList) -> Seq<FunctionView>
    decreases a, a.additional@.len() + 1,
{
    in_pipeline(a.first) + in_additional(a, a.additional@.len())
}

/// The functions in the first `n` further pipelines.
pub open spec fn in_additional(a: AndOrList, n: nat) -> Seq<FunctionView>
    decreases a, n,
{
    if n == 0 || n > a.additional@.len() {
        Seq::empty()
    } else {
        in_additional(a, (n - 1) as nat) + match a.additional[n - 1] {
            AndOr::And(p) => in_pipeline(p),
            AndOr::Or(p) => in_pipeline(p),
        }
    }
}

pub open spec fn in_pipeline(p: Pipeline) -> Seq<FunctionView>
    decreases p, p.seq@.len() + 1,
{
    in_stages(p, p.seq@.len())
}

/// The functions in the first `n` commands of a pipeline.
pub open spec fn in_stages(p: Pipeline, n: nat) -> Seq<FunctionView>
    decreases p, n,
{
    if n == 0 || n > p.seq@.len() {
        Seq::empty()
    } else {
        in_stages(p, (n - 1) as nat) + match p.seq[n - 1] {
            Command::Function(f) => seq![f@],
            Command::Compound(c) => in_compound(c),
            Command::Simple => Seq::empty(),
            Command::ExtendedTest => Seq::empty(),
        }
    }
}

pub open spec fn in_compound(c: CompoundCommand) -> Seq<FunctionView>
    decreases c,
{
    match c {
        CompoundCommand::Arithmetic => Seq::empty(),
        CompoundCommand::ArithmeticForClause(l) => in_list(l),
        CompoundCommand::BraceGroup(l) => in_list(l),
        CompoundCommand::Subshell(l) => in_list(l),
        CompoundCommand::ForClause(l) => in_list(l),
        CompoundCommand::CaseClause(v) => in_cases(v, v@.len()),
        CompoundCommand::IfClause(i) => in_list(i.condition) + in_list(i.body) + match i.elses {
            Some(v) => in_elses(v, v@.len()),
            None => Seq::empty(),
        },
        CompoundCommand::WhileClause(l, m) => in_list(l) + in_list(m),
        CompoundCommand::UntilClause(l, m) => in_list(l) + in_list(m),
    }
}

/// The functions in the first `n` branches of a `case`.
pub open spec fn in_cases(v: Vec<Option<CompoundList>>, n: nat) -> Seq<FunctionView>
    decreases v, n,
{
    if n == 0 || n > v@.len() {
        Seq::empty()
    } else {
        in_cases(v, (n - 1) as nat) + match v[n - 1] {
            Some(l) => in_list(l),
            None => Seq::empty(),
        }
    }
}

/// The functions in the first `n` else clauses of an `if`.
pub open spec fn in_elses(v: Vec<ElseClause>, n: nat) -> Seq<FunctionView>
    decreases v, n,
{
    if n == 0 || n > v@.len() {
        Seq::empty()
    } else {
        in_elses(v, (n - 1) as nat) + match v[n - 1].condition {
            Some(l) => in_list(l),
            None => Seq::empty(),
        } + in_list(v[n - 1].body)
    }
}

/// A copy of a function.
pub fn copy_function(f: &FunctionDefinition) -> (r: FunctionDefinition)
    ensures
        r@ == f@,
{
    FunctionDefinition { name: f.name.as_str().to_owned(), text: f.text.as_str().to_owned() }
}

proof fn lemma_views_push(s: Seq<FunctionDefinition>, f: FunctionDefinition)
    ensures
        function_views(s.push(f)) == function_views(s).push(f@),
{
    assert(function_views(s.push(f)) =~= function_views(s).push(f@));
}

/// The functions that a script defines.
pub fn extract_functions(script: &Script) -> (functions: Vec<FunctionDefinition>)
    ensures
        function_views(functions@) == in_script(*script),
{
    let mut functions: Vec<FunctionDefinition> = Vec::new();
    let ghost all = script.complete_commands@;
    let mut i: usize = 0;
    assert(function_views(functions@) =~= in_commands(all.take(0)));
    while i < script.complete_commands.len()
        invariant
            i <= all.len(),
            all == script.complete_commands@,
            function_views(functions@) == in_commands(all.take(i as int)),
        decreases all.len() - i,
    {
        extract_from_compound_list(&script.complete_commands[i], &mut functions);
        assert(all.take(i + 1).drop_last() =~= all.take(i as int));
        i = i + 1;
    }
    assert(all.take(i as int) =~= all);
    functions
}

fn extract_from_compound_list(list: &CompoundList, functions: &mut Vec<FunctionDefinition>)
    ensures
        function_views(final(functions)@) == function_views(old(functions)@) + in_list(*list),
    decreases *list, list.0@.len() + 1,
{
    let ghost before = function_views(functions@);
    let mut i: usize = 0;
    assert(before + in_items(*list, 0) =~= before);
    while i < list.0.len()
        invariant
            i <= list.0@.len(),
            function_views(functions@) == before + in_items(*list, i as nat),
        decreases list.0@.len() - i,
    {
        let and_or = &list.0[i];
        let ghost at = function_views(functions@);
        extract_from_pipeline(&and_or.first, functions);
        let ghost first = in_pipeline(and_or.first);
        let mut k: usize = 0;
        assert(at + first + in_additional(*and_or, 0) =~= at + first);
        while k < and_or.additional.len()
            invariant
                i < list.0@.len(),
                *and_or == list.0@[i as int],
                k <= and_or.additional@.len(),
                function_views(functions@) == at + first + in_additional(*and_or, k as nat),
            decreases and_or.additional@.len() - k,
        {
            let pipeline = match &and_or.additional[k] {
                AndOr::And(p) => p,
                AndOr::Or(p) => p,
            };
            extract_from_pipeline(pipeline, functions);
            k = k + 1;
            assert(function_views(functions@) =~= at + first + in_additional(*and_or, k as nat));
        }
        i = i + 1;
        assert(in_and_or(*and_or) == first + in_additional(*and_or, k as nat));
        assert(function_views(functions@) =~= before + in_items(*list, i as nat));
    }
}

fn extract_from_pipeline(pipeline: &Pipeline, functions: &mut Vec<FunctionDefinition>)
    ensures
        function_views(final(functions)@) == function_views(old(functions)@) + in_pipeline(*pipeline),
    decreases *pipeline, pipeline.seq@.len() + 1,
{
    let ghost before = function_views(functions@);
    let mut i: usize = 0;
    assert(before + in_stages(*pipeline, 0) =~= before);
    while i < pipeline.seq.len()
        invariant
            i <= pipeline.seq@.len(),
            function_views(functions@) == before + in_stages(*pipeline, i as nat),
        decreases pipeline.seq@.len() - i,
    {
        let ghost at = function_views(functions@);
        match &pipeline.seq[i] {
            Command::Function(func) => {
                let copy = copy_function(func);
                proof {
                    lemma_views_push(functions@, copy);
                }
                functions.push(copy);
                assert(function_views(functions@) =~= at + seq![func@]);
            },
            Command::Compound(compound) => extract_from_compound(compound, functions),
            Command::Simple => {
                assert(at =~= at + Seq::empty());
            },
            Command::ExtendedTest => {
                assert(at =~= at + Seq::empty());
            },
        }
        i = i + 1;
        assert(function_views(functions@) =~= before + in_stages(*pipeline, i as nat));
    }
}

fn extract_from_compound(compound: &CompoundCommand, functions: &mut Vec<FunctionDefinition>)
    ensures
        function_views(final(functions)@) == function_views(old(functions)@) + in_compound(*compound),
    decreases *compound,
{
    let ghost before = function_views(functions@);
    match compound {
        CompoundCommand::BraceGroup(l) => extract_from_compound_list(l, functions),
        CompoundCommand::Subshell(l) => extract_from_compound_list(l, functions),
        CompoundCommand::ForClause(l) => extract_from_compound_list(l, functions),
        CompoundCommand::ArithmeticForClause(l) => extract_from_compound_list(l, functions),
        CompoundCommand::WhileClause(l, m) => {
            extract_from_compound_list(l, functions);
            extract_from_compound_list(m, functions);
            assert(function_views(functions@) =~= before + (in_list(*l) + in_list(*m)));
        },
        CompoundCommand::IfClause(c) => {
            extract_from_compound_list(&c.condition, functions);
            extract_from_compound_list(&c.body, functions);
            let ghost at = function_views(functions@);
            assert(at =~= before + (in_list(c.condition) + in_list(c.body)));
            if let Some(elses) = &c.elses {
                extract_from_elses(elses, functions);
            }
            assert(function_views(functions@) =~= before + in_compound(*compound));
        },
        CompoundCommand::CaseClause(v) => extract_from_cases(v, functions),
        CompoundCommand::UntilClause(l, m) => {
            extract_from_compound_list(l, functions);
            extract_from_compound_list(m, functions);
            assert(function_views(functions@) =~= before + (in_list(*l) + in_list(*m)));
        },
        CompoundCommand::Arithmetic => {
            assert(before =~= before + Seq::empty());
        },
    }
}

fn extract_from_elses(elses: &Vec<ElseClause>, functions: &mut Vec<FunctionDefinition>)
    ensures
        function_views(final(functions)@) == function_views(old(functions)@) + in_elses(
            *elses,
            elses@.len(),
        ),
    decreases *elses,
{
    let ghost before = function_views(functions@);
    let mut i: usize = 0;
    assert(before + in_elses(*elses, 0) =~= before);
    while i < elses.len()
        invariant
            i <= elses@.len(),
            function_views(functions@) == before + in_elses(*elses, i as nat),
        decreases elses@.len() - i,
    {
        let ghost now = function_views(functions@);
        assert(decreases_to!(*elses => elses[i as int]));
        if let Some(cond) = &elses[i].condition {
            extract_from_compound_list(cond, functions);
        } else {
            assert(now =~= now + Seq::empty());
        }
        extract_from_compound_list(&elses[i].body, functions);
        i = i + 1;
        assert(function_views(functions@) =~= before + in_elses(*elses, i as nat));
    }
}

fn extract_from_cases(cases: &Vec<Option<CompoundList>>, functions: &mut Vec<FunctionDefinition>)
    ensures
        function_views(final(functions)@) == function_views(old(functions)@) + in_cases(
            *cases,
            cases@.len(),
        ),
    decreases *cases,
{
    let ghost before = function_views(functions@);
    let mut i: usize = 0;
    assert(before + in_cases(*cases, 0) =~= before);
    while i < cases.len()
        invariant
            i <= cases@.len(),
            function_views(functions@) == before + in_cases(*cases, i as nat),
        decreases cases@.len() - i,
    {
        let ghost now = function_views(functions@);
        assert(decreases_to!(*cases => cases[i as int]));
        if let Some(cmd) = &cases[i] {
            extract_from_compound_list(cmd, functions);
        } else {
            assert(now =~= now + Seq::empty());
        }
        i = i + 1;
        assert(function_views(functions@) =~= before + in_cases(*cases, i as nat));
    }
}

/// The function to which a way through a list of commands leads. A way names the item, the
/// pipeline in it and the command in that; within a compound command, the list to go on with.
pub open spec fn at_list(l: CompoundList, way: Seq<int>) -> Option<FunctionView>
    decreases way.len(), 0nat,
{
    if way.len() > 0 && 0 <= way[0] < l.0@.len() {
        at_and_or(l.0@[way[0]], way.drop_first())
    } else {
        None
    }
}

pub open spec fn at_and_or(a: AndOrList, way: Seq<int>) -> Option<FunctionView>
    decreases way.len(), 0nat,
{
    if way.len() > 0 && way[0] == 0 {
        at_pipeline(a.first, way.drop_first())
    } else if way.len() > 0 && 0 < way[0] <= a.additional@.len() {
        match a.additional@[way[0] - 1] {
            AndOr::And(p) => at_pipeline(p, way.drop_first()),
            AndOr::Or(p) => at_pipeline(p, way.drop_first()),
        }
    } else {
        None
    }
}

pub open spec fn at_pipeline(p: Pipeline, way: Seq<int>) -> Option<FunctionView>
    decreases way.len(), 0nat,
{
    if way.len() > 0 && 0 <= way[0] < p.seq@.len() {
        at_command(p.seq@[way[0]], way.drop_first())
    } else {
        None
    }
}

/// A function is at the end of its way: what its own body defines is on none.
pub open spec fn at_command(c: Command, way: Seq<int>) -> Option<FunctionView>
    decreases way.len(), 1nat,
{
    match c {
        Command::Function(f) => if way.len() == 0 {
            Some(f@)
        } else {
            None
        },
        Command::Compound(k) => at_compound(k, way),
        Command::Simple => None,
        Command::ExtendedTest => None,
    }
}

pub open spec fn at_compound(c: CompoundCommand, way: Seq<int>) -> Option<FunctionView>
    decreases way.len(), 0nat,
{
    if way.len() > 0 {
        match part_of(c, way[0]) {
            Some(l) => at_list(l, way.drop_first()),
            None => None,
        }
    } else {
        None
    }
}

/// The lists of commands in a compound command, by the order in which they are written.
pub open spec fn part_of(c: CompoundCommand, i: int) -> Option<CompoundList> {
    match c {
        CompoundCommand::Arithmetic => None,
        CompoundCommand::ArithmeticForClause(l) => only(l, i),
        CompoundCommand::BraceGroup(l) => only(l, i),
        CompoundCommand::Subshell(l) => only(l, i),
        CompoundCommand::ForClause(l) => only(l, i),
        CompoundCommand::CaseClause(v) => if 0 <= i < v@.len() {
            v@[i]
        } else {
            None
        },
        CompoundCommand::IfClause(k) => if i == 0 {
            Some(k.condition)
        } else if i == 1 {
            Some(k.body)
        } else {
            match k.elses {
                Some(v) => if 0 <= (i - 2) / 2 < v@.len() && i >= 2 {
                    if i % 2 == 0 {
                        v@[(i - 2) / 2].condition
                    } else {
                        Some(v@[(i - 2) / 2].body)
                    }
                } else {
                    None
                },
                None => None,
            }
        },
        CompoundCommand::WhileClause(l, m) => both(l, m, i),
        CompoundCommand::UntilClause(l, m) => both(l, m, i),
    }
}

pub open spec fn only(l: CompoundList, i: int) -> Option<CompoundList> {
    if i == 0 {
        Some(l)
    } else {
        None
    }
}

pub open spec fn both(l: CompoundList, m: CompoundList, i: int) -> Option<CompoundList> {
    if i == 0 {
        Some(l)
    } else if i == 1 {
        Some(m)
    } else {
        None
    }
}

/// One way comes before another in the text.
pub open spec fn earlier(a: Seq<int>, b: Seq<int>) -> bool {
    lex(a, b, |x: int, y: int| x < y)
}

/// The functions are at the end of these ways: all that lead to one, in the order of the text.
pub open spec fn at_ways(
    at: spec_fn(Seq<int>) -> Option<FunctionView>,
    out: Seq<FunctionView>,
    ways: Seq<Seq<int>>,
) -> bool {
    &&& ways.len() == out.len()
    &&& forall|i: int| 0 <= i < ways.len() ==> at(#[trigger] ways[i]) == Some(out[i])
    &&& forall|i: int, j: int| 0 <= i < j < ways.len() ==> earlier(#[trigger] ways[i], #[trigger] ways[j])
    &&& forall|way: Seq<int>| #[trigger] at(way) is Some ==> ways.contains(way)
}

/// The functions that have number `k` at this point of the way.
spec fn under(at: spec_fn(Seq<int>) -> Option<FunctionView>, k: int) -> spec_fn(Seq<int>) -> Option<
    FunctionView,
> {
    |w: Seq<int>|
        if w.len() > 0 && w[0] == k {
            at(w.drop_first())
        } else {
            None
        }
}

/// The functions whose way goes on with a number below `k`.
spec fn up_to(at: spec_fn(Seq<int>) -> Option<FunctionView>, k: int) -> spec_fn(Seq<int>) -> Option<
    FunctionView,
> {
    |w: Seq<int>|
        if w.len() > 0 && w[0] < k {
            at(w)
        } else {
            None
        }
}

proof fn lemma_under(
    at: spec_fn(Seq<int>) -> Option<FunctionView>,
    k: int,
    out: Seq<FunctionView>,
    ways: Seq<Seq<int>>,
) -> (longer: Seq<Seq<int>>)
    requires
        at_ways(at, out, ways),
    ensures
        at_ways(under(at, k), out, longer),
{
    let f = under(at, k);
    let longer = Seq::new(ways.len(), |i: int| seq![k] + ways[i]);
    assert forall|i: int| 0 <= i < longer.len() implies f(#[trigger] longer[i]) == Some(out[i]) by {
        assert(longer[i].drop_first() =~= ways[i]);
        assert(at(ways[i]) == Some(out[i]));
    }
    assert forall|i: int, j: int| 0 <= i < j < longer.len() implies earlier(
        #[trigger] longer[i],
        #[trigger] longer[j],
    ) by {
        assert(longer[i].drop_first() =~= ways[i]);
        assert(longer[j].drop_first() =~= ways[j]);
        assert(earlier(ways[i], ways[j]));
    }
    assert forall|w: Seq<int>| #[trigger] f(w) is Some implies longer.contains(w) by {
        let rest = w.drop_first();
        assert(at(rest) is Some);
        let i = choose|i: int| 0 <= i < ways.len() && ways[i] == rest;
        assert(seq![k] + rest =~= w);
        assert(longer[i] == w);
    }
    longer
}

/// The functions whose way goes on with `k` come after those whose way goes on with less.
proof fn lemma_one_more(
    at: spec_fn(Seq<int>) -> Option<FunctionView>,
    deep: spec_fn(Seq<int>) -> Option<FunctionView>,
    k: int,
    out: Seq<FunctionView>,
    ways: Seq<Seq<int>>,
    more: Seq<FunctionView>,
    inner: Seq<Seq<int>>,
) -> (all: Seq<Seq<int>>)
    requires
        at_ways(up_to(at, k), out, ways),
        at_ways(deep, more, inner),
        forall|w: Seq<int>|
            w.len() > 0 && w[0] == k ==> #[trigger] at(w) == deep(w.drop_first()),
    ensures
        at_ways(up_to(at, k + 1), out + more, all),
{
    let longer = lemma_under(deep, k, more, inner);
    let f = up_to(at, k);
    let g = under(deep, k);
    let h = up_to(at, k + 1);
    let all = ways + longer;
    let there = out + more;
    let n = ways.len() as int;
    assert forall|i: int| 0 <= i < all.len() implies h(#[trigger] all[i]) == Some(there[i]) by {
        if i < n {
            assert(f(ways[i]) == Some(out[i]));
        } else {
            let w = longer[i - n];
            assert(g(w) == Some(more[i - n]));
            assert(at(w) == deep(w.drop_first()));
        }
    }
    assert forall|i: int, j: int| 0 <= i < j < all.len() implies earlier(#[trigger] all[i], #[trigger] all[j]) by {
        if j < n {
            assert(earlier(ways[i], ways[j]));
        } else if i >= n {
            assert(earlier(longer[i - n], longer[j - n]));
        } else {
            assert(f(ways[i]) is Some);
            assert(g(longer[j - n]) is Some);
            assert(ways[i][0] < longer[j - n][0]);
        }
    }
    assert forall|w: Seq<int>| #[trigger] h(w) is Some implies all.contains(w) by {
        if w[0] < k {
            assert(f(w) is Some);
            let i = choose|i: int| 0 <= i < ways.len() && ways[i] == w;
            assert(all[i] == w);
        } else {
            assert(at(w) == deep(w.drop_first()));
            assert(g(w) is Some);
            let i = choose|i: int| 0 <= i < longer.len() && longer[i] == w;
            assert(all[n + i] == w);
        }
    }
    all
}

proof fn lemma_same_ways(
    f: spec_fn(Seq<int>) -> Option<FunctionView>,
    g: spec_fn(Seq<int>) -> Option<FunctionView>,
    out: Seq<FunctionView>,
    ways: Seq<Seq<int>>,
)
    requires
        at_ways(f, out, ways),
        forall|w: Seq<int>| #[trigger] f(w) == g(w),
    ensures
        at_ways(g, out, ways),
{
    assert forall|i: int| 0 <= i < ways.len() implies g(#[trigger] ways[i]) == Some(out[i]) by {
        assert(f(ways[i]) == g(ways[i]));
    }
    assert forall|w: Seq<int>| #[trigger] g(w) is Some implies ways.contains(w) by {
        assert(f(w) == g(w));
    }
}

/// The functions of a list of commands are those to which a way leads, in the order of the
/// text, each as often as ways lead to it.
pub proof fn lemma_every_function_is_found(l: CompoundList) -> (ways: Seq<Seq<int>>)
    ensures
        at_ways(|w: Seq<int>| at_list(l, w), in_list(l), ways),
    decreases l, l.0@.len() + 1,
{
    let ways = lemma_ways_in_items(l, l.0@.len());
    lemma_same_ways(
        up_to(|w: Seq<int>| at_list(l, w), l.0@.len() as int),
        |w: Seq<int>| at_list(l, w),
        in_list(l),
        ways,
    );
    ways
}

proof fn lemma_no_ways(at: spec_fn(Seq<int>) -> Option<FunctionView>)
    requires
        forall|w: Seq<int>| #[trigger] at(w) is None,
    ensures
        at_ways(at, Seq::empty(), Seq::empty()),
{
}

proof fn lemma_ways_in_items(l: CompoundList, n: nat) -> (ways: Seq<Seq<int>>)
    requires
        n <= l.0@.len(),
    ensures
        at_ways(up_to(|w: Seq<int>| at_list(l, w), n as int), in_items(l, n), ways),
    decreases l, n,
{
    let at = |w: Seq<int>| at_list(l, w);
    if n == 0 {
        lemma_no_ways(up_to(at, 0));
        Seq::empty()
    } else {
        let k = (n - 1) as nat;
        let before = lemma_ways_in_items(l, k);
        let inner = lemma_ways_in_and_or(l.0@[k as int]);
        lemma_one_more(
            at,
            |w: Seq<int>| at_and_or(l.0@[k as int], w),
            k as int,
            in_items(l, k),
            before,
            in_and_or(l.0@[k as int]),
            inner,
        )
    }
}

proof fn lemma_ways_in_and_or(a: AndOrList) -> (ways: Seq<Seq<int>>)
    ensures
        at_ways(|w: Seq<int>| at_and_or(a, w), in_and_or(a), ways),
    decreases a, a.additional@.len() + 1,
{
    let at = |w: Seq<int>| at_and_or(a, w);
    let ways = lemma_ways_in_additional(a, a.additional@.len());
    lemma_same_ways(up_to(at, a.additional@.len() as int + 1), at, in_and_or(a), ways);
    ways
}

proof fn lemma_ways_in_additional(a: AndOrList, n: nat) -> (ways: Seq<Seq<int>>)
    requires
        n <= a.additional@.len(),
    ensures
        at_ways(
            up_to(|w: Seq<int>| at_and_or(a, w), n as int + 1),
            in_pipeline(a.first) + in_additional(a, n),
            ways,
        ),
    decreases a, n,
{
    let at = |w: Seq<int>| at_and_or(a, w);
    if n == 0 {
        lemma_no_ways(up_to(at, 0));
        let inner = lemma_ways_in_pipeline(a.first);
        let ways = lemma_one_more(
            at,
            |w: Seq<int>| at_pipeline(a.first, w),
            0,
            Seq::empty(),
            Seq::empty(),
            in_pipeline(a.first),
            inner,
        );
        assert(Seq::<FunctionView>::empty() + in_pipeline(a.first) =~= in_pipeline(a.first) + in_additional(
            a,
            0,
        ));
        ways
    } else {
        let k = (n - 1) as nat;
        let before = lemma_ways_in_additional(a, k);
        let p = match a.additional@[k as int] {
            AndOr::And(p) => p,
            AndOr::Or(p) => p,
        };
        assert(decreases_to!(a.additional@[k as int] => p));
        assert(decreases_to!(a => a.additional@[k as int]));
        let inner = lemma_ways_in_pipeline(p);
        let ways = lemma_one_more(
            at,
            |w: Seq<int>| at_pipeline(p, w),
            n as int,
            in_pipeline(a.first) + in_additional(a, k),
            before,
            in_pipeline(p),
            inner,
        );
        assert(in_pipeline(a.first) + in_additional(a, k) + in_pipeline(p) =~= in_pipeline(a.first)
            + in_additional(a, n));
        ways
    }
}

proof fn lemma_ways_in_pipeline(p: Pipeline) -> (ways: Seq<Seq<int>>)
    ensures
        at_ways(|w: Seq<int>| at_pipeline(p, w), in_pipeline(p), ways),
    decreases p, p.seq@.len() + 1,
{
    let at = |w: Seq<int>| at_pipeline(p, w);
    let ways = lemma_ways_in_stages(p, p.seq@.len());
    lemma_same_ways(up_to(at, p.seq@.len() as int), at, in_pipeline(p), ways);
    ways
}

proof fn lemma_ways_in_stages(p: Pipeline, n: nat) -> (ways: Seq<Seq<int>>)
    requires
        n <= p.seq@.len(),
    ensures
        at_ways(up_to(|w: Seq<int>| at_pipeline(p, w), n as int), in_stages(p, n), ways),
    decreases p, n,
{
    let at = |w: Seq<int>| at_pipeline(p, w);
    if n == 0 {
        lemma_no_ways(up_to(at, 0));
        Seq::empty()
    } else {
        let k = (n - 1) as nat;
        let c = p.seq@[k as int];
        let before = lemma_ways_in_stages(p, k);
        let deep = |w: Seq<int>| at_command(c, w);
        let more = match c {
            Command::Function(f) => seq![f@],
            Command::Compound(m) => in_compound(m),
            Command::Simple => Seq::empty(),
            Command::ExtendedTest => Seq::empty(),
        };
        assert(decreases_to!(p => c));
        let inner = match c {
            Command::Function(f) => {
                let none = Seq::<int>::empty();
                let one = seq![none];
                assert forall|w: Seq<int>| #[trigger] deep(w) is Some implies one.contains(w) by {
                    assert(w =~= none);
                    assert(one[0] == w);
                }
                one
            },
            Command::Compound(m) => {
                let ways = lemma_ways_in_compound(m);
                lemma_same_ways(|w: Seq<int>| at_compound(m, w), deep, more, ways);
                ways
            },
            Command::Simple => {
                lemma_no_ways(deep);
                Seq::empty()
            },
            Command::ExtendedTest => {
                lemma_no_ways(deep);
                Seq::empty()
            },
        };
        lemma_one_more(at, deep, k as int, in_stages(p, k), before, more, inner)
    }
}

/// Ways into the next list of a compound command.
proof fn lemma_next_part(
    c: CompoundCommand,
    l: CompoundList,
    k: int,
    out: Seq<FunctionView>,
    ways: Seq<Seq<int>>,
    inner: Seq<Seq<int>>,
) -> (all: Seq<Seq<int>>)
    requires
        part_of(c, k) == Some(l),
        at_ways(up_to(|w: Seq<int>| at_compound(c, w), k), out, ways),
        at_ways(|w: Seq<int>| at_list(l, w), in_list(l), inner),
    ensures
        at_ways(up_to(|w: Seq<int>| at_compound(c, w), k + 1), out + in_list(l), all),
{
    lemma_one_more(
        |w: Seq<int>| at_compound(c, w),
        |w: Seq<int>| at_list(l, w),
        k,
        out,
        ways,
        in_list(l),
        inner,
    )
}

/// A compound command without a list at this place.
proof fn lemma_no_part(c: CompoundCommand, k: int, out: Seq<FunctionView>, ways: Seq<Seq<int>>)
    requires
        part_of(c, k) is None,
        at_ways(up_to(|w: Seq<int>| at_compound(c, w), k), out, ways),
    ensures
        at_ways(up_to(|w: Seq<int>| at_compound(c, w), k + 1), out, ways),
{
    let at = |w: Seq<int>| at_compound(c, w);
    lemma_same_ways(up_to(at, k), up_to(at, k + 1), out, ways);
}

proof fn lemma_ways_start(c: CompoundCommand)
    ensures
        at_ways(up_to(|w: Seq<int>| at_compound(c, w), 0), Seq::empty(), Seq::empty()),
{
    let at = |w: Seq<int>| at_compound(c, w);
    assert forall|w: Seq<int>| #[trigger] up_to(at, 0)(w) is None by {
        if w.len() > 0 && w[0] < 0 {
            assert(part_of(c, w[0]) is None);
        }
    }
    lemma_no_ways(up_to(at, 0));
}

proof fn lemma_ways_in_compound(c: CompoundCommand) -> (ways: Seq<Seq<int>>)
    ensures
        at_ways(|w: Seq<int>| at_compound(c, w), in_compound(c), ways),
    decreases c,
{
    let at = |w: Seq<int>| at_compound(c, w);
    let none = Seq::<FunctionView>::empty();
    lemma_ways_start(c);
    let (n, ways): (int, Seq<Seq<int>>) = match c {
        CompoundCommand::Arithmetic => (0, Seq::empty()),
        CompoundCommand::ArithmeticForClause(l) => (1, lemma_ways_in_part(c, l, 0, none, Seq::empty())),
        CompoundCommand::BraceGroup(l) => (1, lemma_ways_in_part(c, l, 0, none, Seq::empty())),
        CompoundCommand::Subshell(l) => (1, lemma_ways_in_part(c, l, 0, none, Seq::empty())),
        CompoundCommand::ForClause(l) => (1, lemma_ways_in_part(c, l, 0, none, Seq::empty())),
        CompoundCommand::CaseClause(v) => (v@.len() as int, lemma_ways_in_cases(c, v, v@.len())),
        CompoundCommand::IfClause(i) => {
            let a = lemma_ways_in_part(c, i.condition, 0, none, Seq::empty());
            let b = lemma_ways_in_part(c, i.body, 1, none + in_list(i.condition), a);
            let start = none + in_list(i.condition) + in_list(i.body);
            assert(start =~= in_list(i.condition) + in_list(i.body));
            match i.elses {
                Some(v) => (2 + 2 * v@.len() as int, lemma_ways_in_elses(c, i, v, v@.len(), b)),
                None => (2, b),
            }
        },
        CompoundCommand::WhileClause(l, m) => {
            let a = lemma_ways_in_part(c, l, 0, none, Seq::empty());
            (2, lemma_ways_in_part(c, m, 1, none + in_list(l), a))
        },
        CompoundCommand::UntilClause(l, m) => {
            let a = lemma_ways_in_part(c, l, 0, none, Seq::empty());
            (2, lemma_ways_in_part(c, m, 1, none + in_list(l), a))
        },
    };
    let out = in_compound(c);
    assert(at_ways(up_to(at, n), out, ways)) by {
        match c {
            CompoundCommand::Arithmetic => {},
            CompoundCommand::ArithmeticForClause(l) => {
                assert(none + in_list(l) =~= out);
            },
            CompoundCommand::BraceGroup(l) => {
                assert(none + in_list(l) =~= out);
            },
            CompoundCommand::Subshell(l) => {
                assert(none + in_list(l) =~= out);
            },
            CompoundCommand::ForClause(l) => {
                assert(none + in_list(l) =~= out);
            },
            CompoundCommand::CaseClause(v) => {},
            CompoundCommand::IfClause(i) => {
                assert(in_list(i.condition) + in_list(i.body) + none =~= in_list(i.condition) + in_list(
                    i.body,
                ));
            },
            CompoundCommand::WhileClause(l, m) => {
                assert(none + in_list(l) + in_list(m) =~= out);
            },
            CompoundCommand::UntilClause(l, m) => {
                assert(none + in_list(l) + in_list(m) =~= out);
            },
        }
    }
    assert forall|w: Seq<int>| #[trigger] up_to(at, n)(w) == at(w) by {
        if w.len() > 0 && w[0] >= n {
            assert(part_of(c, w[0]) is None);
        }
    }
    lemma_same_ways(up_to(at, n), at, out, ways);
    ways
}

proof fn lemma_ways_in_part(
    c: CompoundCommand,
    l: CompoundList,
    k: int,
    out: Seq<FunctionView>,
    ways: Seq<Seq<int>>,
) -> (all: Seq<Seq<int>>)
    requires
        part_of(c, k) == Some(l),
        at_ways(up_to(|w: Seq<int>| at_compound(c, w), k), out, ways),
    ensures
        at_ways(up_to(|w: Seq<int>| at_compound(c, w), k + 1), out + in_list(l), all),
    decreases l, l.0@.len() + 2,
{
    let inner = lemma_every_function_is_found(l);
    lemma_next_part(c, l, k, out, ways, inner)
}

proof fn lemma_ways_in_cases(c: CompoundCommand, v: Vec<Option<CompoundList>>, n: nat) -> (ways: Seq<Seq<int>>)
    requires
        c == CompoundCommand::CaseClause(v),
        n <= v@.len(),
    ensures
        at_ways(up_to(|w: Seq<int>| at_compound(c, w), n as int), in_cases(v, n), ways),
    decreases v, n,
{
    if n == 0 {
        lemma_ways_start(c);
        Seq::empty()
    } else {
        let k = (n - 1) as nat;
        let before = lemma_ways_in_cases(c, v, k);
        assert(decreases_to!(v => v@[k as int]));
        match v@[k as int] {
            Some(l) => lemma_ways_in_part(c, l, k as int, in_cases(v, k), before),
            None => {
                lemma_no_part(c, k as int, in_cases(v, k), before);
                assert(in_cases(v, k) + Seq::<FunctionView>::empty() =~= in_cases(v, k));
                before
            },
        }
    }
}

proof fn lemma_ways_in_elses(
    c: CompoundCommand,
    i: IfClause,
    v: Vec<ElseClause>,
    n: nat,
    start: Seq<Seq<int>>,
) -> (ways: Seq<Seq<int>>)
    requires
        c == CompoundCommand::IfClause(i),
        i.elses == Some(v),
        n <= v@.len(),
        at_ways(
            up_to(|w: Seq<int>| at_compound(c, w), 2),
            in_list(i.condition) + in_list(i.body),
            start,
        ),
    ensures
        at_ways(
            up_to(|w: Seq<int>| at_compound(c, w), 2 + 2 * n as int),
            in_list(i.condition) + in_list(i.body) + in_elses(v, n),
            ways,
        ),
    decreases v, n,
{
    let first = in_list(i.condition) + in_list(i.body);
    if n == 0 {
        assert(first + in_elses(v, 0) =~= first);
        start
    } else {
        let k = (n - 1) as nat;
        let before = lemma_ways_in_elses(c, i, v, k, start);
        let e = v@[k as int];
        assert(decreases_to!(v => e));
        let p = 2 + 2 * k as int;
        assert((p - 2) / 2 == k && p % 2 == 0);
        assert((p + 1 - 2) / 2 == k && (p + 1) % 2 == 1);
        let out = first + in_elses(v, k);
        let (mid, out2) = match e.condition {
            Some(l) => (lemma_ways_in_part(c, l, p, out, before), out + in_list(l)),
            None => {
                lemma_no_part(c, p, out, before);
                (before, out)
            },
        };
        let ways = lemma_ways_in_part(c, e.body, p + 1, out2, mid);
        assert(out2 + in_list(e.body) =~= first + in_elses(v, n));
        ways
    }
}

/// The function to which a way through a script leads; it begins with the number of a
/// complete command.
pub open spec fn at_script(p: Script, way: Seq<int>) -> Option<FunctionView> {
    if way.len() > 0 && 0 <= way[0] < p.complete_commands@.len() {
        at_list(p.complete_commands@[way[0]], way.drop_first())
    } else {
        None
    }
}

/// The functions of a script are those to which a way leads, however deep, in the order of the
/// text, each as often as ways lead to it.
pub proof fn lemma_every_function_of_a_script_is_found(p: Script) -> (ways: Seq<Seq<int>>)
    ensures
        at_ways(|w: Seq<int>| at_script(p, w), in_script(p), ways),
{
    let at = |w: Seq<int>| at_script(p, w);
    let all = p.complete_commands@;
    let ways = lemma_ways_in_commands(p, all.len());
    assert(all.take(all.len() as int) =~= all);
    lemma_same_ways(up_to(at, all.len() as int), at, in_script(p), ways);
    ways
}

proof fn lemma_ways_in_commands(p: Script, n: nat) -> (ways: Seq<Seq<int>>)
    requires
        n <= p.complete_commands@.len(),
    ensures
        at_ways(
            up_to(|w: Seq<int>| at_script(p, w), n as int),
            in_commands(p.complete_commands@.take(n as int)),
            ways,
        ),
    decreases n,
{
    let at = |w: Seq<int>| at_script(p, w);
    let all = p.complete_commands@;
    if n == 0 {
        lemma_no_ways(up_to(at, 0));
        Seq::empty()
    } else {
        let k = (n - 1) as nat;
        let before = lemma_ways_in_commands(p, k);
        let inner = lemma_every_function_is_found(all[k as int]);
        assert(all.take(n as int).drop_last() =~= all.take(k as int));
        lemma_one_more(
            at,
            |w: Seq<int>| at_list(all[k as int], w),
            k as int,
            in_commands(all.take(k as int)),
            before,
            in_list(all[k as int]),
            inner,
        )
    }
}

} // verus!
