//! The search for a cgroup under which the cgroups of tests can be made.

use vstd::prelude::*;
use vstd::utf8::encode_utf8;

use crate::cgroup::{text_of, Created};
use crate::path::{below, components, joined, lemma_joined_below, lemma_parent_components, parent, same_path, UnixPath};
use crate::text::{chars_of, copy_range, equal, has_prefix, rows, starts_with, str_equal, string_of};
use crate::utf8::lemma_no_leading_slash;
use crate::words::{lines, lines_of, trim, trim_start_of, trimmed, trimmed_start_of, words, words_of};

verus! {

/// The type of a cgroup, from the contents of `cgroup.type`; a file that cannot be read
/// stands for a domain.
pub open spec fn type_of(content: Option<Seq<char>>) -> Seq<char> {
    match content {
        Some(s) => trim(s),
        None => "domain"@,
    }
}

/// The type of a cgroup.
pub fn cgroup_type(content: Option<&str>) -> (r: String)
    ensures
        r@ == type_of(text_of(content)),
{
    match content {
        Some(s) => {
            let v = chars_of(s);
            let t = trimmed(v.as_slice());
            string_of(t.as_slice())
        },
        None => "domain".to_owned(),
    }
}

/// Whether a cgroup is a domain, from the contents of `cgroup.type`.
pub fn is_domain(content: Option<&str>) -> (r: bool)
    ensures
        r == (type_of(text_of(content)) == "domain"@),
{
    let t = cgroup_type(content);
    str_equal(t.as_str(), "domain")
}

/// The root of all cgroups.
pub open spec fn cgroup_root() -> Seq<u8> {
    encode_utf8("/sys/fs/cgroup"@)
}

/// The next cgroup up, unless that is the root of all cgroups or none at all.
pub open spec fn useful_parent(p: Seq<u8>) -> Option<Seq<u8>> {
    match parent(p) {
        Some(q) => if below(q, cgroup_root()) && !same_path(q, cgroup_root()) {
            Some(q)
        } else {
            None
        },
        None => None,
    }
}

/// Move `ancestor` up one level within `/sys/fs/cgroup`. Returns false when
/// already at the cgroup root (no useful parent remains).
pub fn try_parent(ancestor: &mut UnixPath) -> (r: bool)
    ensures
        match useful_parent(old(ancestor)@) {
            Some(q) => r && final(ancestor)@ == q,
            None => !r && *final(ancestor) == *old(ancestor),
        },
{
    let root = UnixPath::new("/sys/fs/cgroup");
    match ancestor.parent() {
        Some(p) => {
            if p.starts_with(&root) && !p.same_as(&root) {
                *ancestor = p;
                true
            } else {
                false
            }
        },
        None => false,
    }
}

/// What is done next to make a cgroup a usable domain.
#[derive(Clone, Copy, PartialEq, Eq, Structural, Debug)]
pub enum DomainStep {
    /// Create it.
    Create,
    /// One was there already: is it a domain?
    CheckExisting,
    /// It is stale: remove it with all below it, and create it again.
    PurgeThenCreate,
    /// Is it a domain now?
    CheckMade,
    /// It can be used.
    Usable,
    /// It cannot be used: remove it.
    RemoveAndGiveUp,
    /// There is none that can be used.
    GiveUp,
}

/// How a step went.
#[derive(Clone, Copy, PartialEq, Eq, Structural, Debug)]
pub enum DomainEvent {
    Created(Created),
    /// Whether the cgroup is a domain.
    Checked(bool),
}

/// The event answers the step.
pub open spec fn answers(step: DomainStep, event: DomainEvent) -> bool {
    match step {
        DomainStep::Create | DomainStep::PurgeThenCreate => event is Created,
        DomainStep::CheckExisting | DomainStep::CheckMade => event is Checked,
        _ => false,
    }
}

/// The step after a step: a cgroup that is there but no domain is created anew, once; what
/// was made or found must be a domain in the end, and is removed where it is not.
pub open spec fn domain_step(step: DomainStep, event: DomainEvent) -> DomainStep {
    match (step, event) {
        (_, DomainEvent::Created(Created::Created)) => DomainStep::CheckMade,
        (DomainStep::Create, DomainEvent::Created(Created::Exists)) => DomainStep::CheckExisting,
        (_, DomainEvent::Created(_)) => DomainStep::GiveUp,
        (DomainStep::CheckExisting, DomainEvent::Checked(domain)) => if domain {
            DomainStep::CheckMade
        } else {
            DomainStep::PurgeThenCreate
        },
        (_, DomainEvent::Checked(domain)) => if domain {
            DomainStep::Usable
        } else {
            DomainStep::RemoveAndGiveUp
        },
    }
}

/// How many steps may follow.
pub open spec fn domain_rank(step: DomainStep) -> nat {
    match step {
        DomainStep::Create => 4,
        DomainStep::CheckExisting => 3,
        DomainStep::PurgeThenCreate => 2,
        DomainStep::CheckMade => 1,
        _ => 0,
    }
}

/// Ensure a cgroup is a usable "domain" cgroup, creating or recovering it as needed: says
/// what to do after a step.
pub fn ensure_domain_cgroup(step: DomainStep, event: DomainEvent) -> (r: DomainStep)
    requires
        answers(step, event),
    ensures
        r == domain_step(step, event),
        domain_rank(r) < domain_rank(step),
{
    match event {
        DomainEvent::Created(outcome) => {
            if outcome == Created::Created {
                DomainStep::CheckMade
            } else if outcome == Created::Exists && step == DomainStep::Create {
                DomainStep::CheckExisting
            } else {
                DomainStep::GiveUp
            }
        },
        DomainEvent::Checked(domain) => {
            if step == DomainStep::CheckExisting {
                if domain {
                    DomainStep::CheckMade
                } else {
                    DomainStep::PurgeThenCreate
                }
            } else if domain {
                DomainStep::Usable
            } else {
                DomainStep::RemoveAndGiveUp
            }
        },
    }
}

/// Where the search stands.
#[derive(Clone, Copy, PartialEq, Eq, Structural, Debug)]
pub enum SearchState {
    /// Is the ancestor a domain?
    CheckAncestor,
    /// Can a base be made below it?
    EnsureBase,
    /// Can a leaf for this process be made below the base?
    EnsureMain,
    /// Can this process enter the leaf?
    EnterMain,
    /// Can a forked child move to a sibling of the leaf?
    Probe,
    /// The base can be used.
    Found,
    /// There is none.
    NotFound,
}

/// How the step went that the search asked for.
#[derive(Clone, Copy, PartialEq, Eq, Structural, Debug)]
pub enum SearchEvent {
    Yes,
    No,
    /// The cgroup is in a threaded subtree; nothing above it is better.
    Unsupported,
}

/// What is undone before the search goes on.
#[derive(Debug)]
pub enum Cleanup {
    RemoveDir(UnixPath),
    /// Moves this process back by writing its pid to the file.
    WritePid(UnixPath),
}

pub enum CleanupView {
    RemoveDir(Seq<u8>),
    WritePid(Seq<u8>),
}

impl View for Cleanup {
    type V = CleanupView;

    open spec fn view(&self) -> CleanupView {
        match *self {
            Cleanup::RemoveDir(p) => CleanupView::RemoveDir(p@),
            Cleanup::WritePid(p) => CleanupView::WritePid(p@),
        }
    }
}

pub open spec fn cleanup_views(s: Seq<Cleanup>) -> Seq<CleanupView> {
    s.map(|_i: int, c: Cleanup| c@)
}

/// A search: the cgroup it has come to, and where it stands.
#[derive(Debug)]
pub struct BaseSearch {
    pub ancestor: UnixPath,
    pub state: SearchState,
}

pub open spec fn base_of(ancestor: Seq<u8>) -> Seq<u8> {
    joined(ancestor, encode_utf8("attest"@))
}

pub open spec fn main_of(ancestor: Seq<u8>) -> Seq<u8> {
    joined(base_of(ancestor), encode_utf8("main"@))
}

/// How far a state is from the end of its ancestor.
pub open spec fn state_rank(s: SearchState) -> nat {
    match s {
        SearchState::CheckAncestor => 5,
        SearchState::EnsureBase => 4,
        SearchState::EnsureMain => 3,
        SearchState::EnterMain => 2,
        SearchState::Probe => 1,
        SearchState::Found => 0,
        SearchState::NotFound => 0,
    }
}

/// The state in which the search goes on below the same ancestor.
pub open spec fn state_after(s: SearchState) -> SearchState {
    match s {
        SearchState::CheckAncestor => SearchState::EnsureBase,
        SearchState::EnsureBase => SearchState::EnsureMain,
        SearchState::EnsureMain => SearchState::EnterMain,
        SearchState::EnterMain => SearchState::Probe,
        _ => SearchState::Found,
    }
}

/// What is undone when a step has failed.
pub open spec fn undone(s: SearchState, ancestor: Seq<u8>) -> Seq<CleanupView> {
    match s {
        SearchState::EnsureMain => seq![CleanupView::RemoveDir(base_of(ancestor))],
        SearchState::EnterMain => seq![
            CleanupView::RemoveDir(main_of(ancestor)),
            CleanupView::RemoveDir(base_of(ancestor)),
        ],
        SearchState::Probe => seq![
            CleanupView::WritePid(joined(ancestor, encode_utf8("cgroup.procs"@))),
            CleanupView::RemoveDir(main_of(ancestor)),
            CleanupView::RemoveDir(base_of(ancestor)),
        ],
        _ => Seq::empty(),
    }
}

/// The line of `/proc/self/cgroup` that tells the cgroup of the process.
pub open spec fn own_cgroup(ls: Seq<Seq<char>>, i: int) -> Option<Seq<char>>
    decreases ls.len() - i,
{
    if i >= ls.len() {
        None
    } else if starts_with(ls[i], "0::"@) {
        Some(trim(ls[i].skip("0::"@.len() as int)))
    } else {
        own_cgroup(ls, i + 1)
    }
}

/// The cgroup at which the search begins.
pub open spec fn first_ancestor(rel: Seq<char>) -> Seq<u8> {
    joined(cgroup_root(), encode_utf8(trim_start_of(rel, '/')))
}

impl BaseSearch {
    /// The search has come to its end.
    pub open spec fn is_over(self) -> bool {
        self.state == SearchState::Found || self.state == SearchState::NotFound
    }

    /// How many steps the search can take at most.
    pub open spec fn steps_left(self) -> nat {
        if self.state == SearchState::NotFound {
            0
        } else {
            components(self.ancestor@).len() * 6 + state_rank(self.state)
        }
    }

    /// The search begins at the cgroup of the process, as `/proc/self/cgroup` tells.
    pub fn start(cg_content: Option<&str>) -> (r: Option<BaseSearch>)
        ensures
            match text_of(cg_content) {
                None => r is None,
                Some(s) => match own_cgroup(lines(s), 0) {
                    None => r is None,
                    Some(rel) => r matches Some(b) && b.ancestor@ == first_ancestor(rel) && b.state
                        == SearchState::CheckAncestor,
                },
            },
    {
        let s = match cg_content {
            Some(s) => s,
            None => {
                return None;
            },
        };
        let v = chars_of(s);
        let ls = lines_of(v.as_slice());
        let prefix = chars_of("0::");
        let ghost all = lines(s@);
        let mut i: usize = 0;
        while i < ls.len()
            invariant
                i <= ls@.len(),
                all == rows(ls@),
                all == lines(s@),
                prefix@ == "0::"@,
                text_of(cg_content) == Some(s@),
                own_cgroup(all, 0) == own_cgroup(all, i as int),
            decreases ls@.len() - i,
        {
            assert(all[i as int] == ls@[i as int]@);
            if has_prefix(ls[i].as_slice(), prefix.as_slice()) {
                let total: usize = ls[i].len();
                let rel = copy_range(ls[i].as_slice(), prefix.len(), total);
                assert(rel@ =~= ls@[i as int]@.skip(prefix@.len() as int));
                let rel = trimmed(rel.as_slice());
                let rel = trimmed_start_of(rel.as_slice(), '/');
                let rel = string_of(rel.as_slice());
                let root = UnixPath::new("/sys/fs/cgroup");
                return Some(
                    BaseSearch {
                        ancestor: root.join(rel.as_str()),
                        state: SearchState::CheckAncestor,
                    },
                );
            }
            i = i + 1;
        }
        None
    }

    /// The base below the ancestor.
    pub fn base(&self) -> (r: UnixPath)
        ensures
            r@ == base_of(self.ancestor@),
    {
        self.ancestor.join("attest")
    }

    /// The leaf for this process below the base.
    pub fn main(&self) -> (r: UnixPath)
        ensures
            r@ == main_of(self.ancestor@),
    {
        let base = self.base();
        base.join("main")
    }

    fn undo(&self) -> (r: Vec<Cleanup>)
        ensures
            cleanup_views(r@) == undone(self.state, self.ancestor@),
    {
        let mut r: Vec<Cleanup> = Vec::new();
        if self.state == SearchState::Probe {
            r.push(Cleanup::WritePid(self.ancestor.join("cgroup.procs")));
        }
        if self.state == SearchState::Probe || self.state == SearchState::EnterMain {
            r.push(Cleanup::RemoveDir(self.main()));
        }
        if self.state == SearchState::Probe || self.state == SearchState::EnterMain || self.state
            == SearchState::EnsureMain {
            r.push(Cleanup::RemoveDir(self.base()));
        }
        assert(cleanup_views(r@) =~= undone(self.state, self.ancestor@));
        r
    }

    /// Goes on after a step. Where the step has failed, says what to undo and turns to
    /// the next cgroup up, if there is one.
    pub fn step(&mut self, event: SearchEvent) -> (r: Vec<Cleanup>)
        requires
            !old(self).is_over(),
        ensures
            event == SearchEvent::Yes ==> {
                &&& r@.len() == 0
                &&& final(self).ancestor == old(self).ancestor
                &&& final(self).state == state_after(old(self).state)
            },
            event != SearchEvent::Yes ==> {
                &&& cleanup_views(r@) == undone(old(self).state, old(self).ancestor@)
                &&& match useful_parent(old(self).ancestor@) {
                    Some(q) => if event == SearchEvent::Unsupported && old(self).state
                        == SearchState::EnterMain {
                        final(self).state == SearchState::NotFound
                    } else {
                        final(self).state == SearchState::CheckAncestor && final(self).ancestor@ == q
                    },
                    None => final(self).state == SearchState::NotFound,
                }
            },
            final(self).steps_left() < old(self).steps_left(),
    {
        if event == SearchEvent::Yes {
            self.state = match self.state {
                SearchState::CheckAncestor => SearchState::EnsureBase,
                SearchState::EnsureBase => SearchState::EnsureMain,
                SearchState::EnsureMain => SearchState::EnterMain,
                SearchState::EnterMain => SearchState::Probe,
                _ => SearchState::Found,
            };
            return Vec::new();
        }
        let ghost before = self.ancestor@;
        let r = self.undo();
        if event == SearchEvent::Unsupported && self.state == SearchState::EnterMain {
            self.state = SearchState::NotFound;
            return r;
        }
        if try_parent(&mut self.ancestor) {
            proof {
                lemma_parent_components(before);
            }
            self.state = SearchState::CheckAncestor;
        } else {
            self.state = SearchState::NotFound;
        }
        r
    }
}

proof fn lemma_trimmed_start(s: Seq<char>, c: char)
    ensures
        trim_start_of(s, c).len() > 0 ==> trim_start_of(s, c)[0] != c,
    decreases s.len(),
{
    if s.len() > 0 && s[0] == c {
        lemma_trimmed_start(s.drop_first(), c);
    }
}

/// The search begins below the root of all cgroups, and a move up stays below it and
/// never comes to it.
pub proof fn lemma_search_stays_below_root(rel: Seq<char>, ancestor: Seq<u8>)
    ensures
        below(first_ancestor(rel), cgroup_root()),
        useful_parent(ancestor) matches Some(q) ==> below(q, cgroup_root()) && !same_path(
            q,
            cgroup_root(),
        ),
{
    let t = trim_start_of(rel, '/');
    lemma_trimmed_start(rel, '/');
    if t.len() > 0 {
        lemma_no_leading_slash(t);
    } else {
        assert(encode_utf8(t).len() == 0);
    }
    lemma_joined_below(cgroup_root(), encode_utf8(t));
}

/// The names of the controllers that are asked for.
pub open spec fn wanted() -> Seq<Seq<char>> {
    seq!["cpu"@, "memory"@, "io"@, "pids"@]
}

/// The controllers that are asked for and that are there, each with a plus sign.
pub open spec fn enabled(wanted: Seq<Seq<char>>, available: Seq<Seq<char>>) -> Seq<Seq<char>>
    decreases wanted.len(),
{
    if wanted.len() == 0 {
        Seq::empty()
    } else {
        let r = enabled(wanted.drop_last(), available);
        if available.contains(wanted.last()) {
            r.push("+"@ + wanted.last())
        } else {
            r
        }
    }
}

fn has_word(ws: &Vec<Vec<char>>, w: &[char]) -> (r: bool)
    ensures
        r == rows(ws@).contains(w@),
{
    let mut i: usize = 0;
    while i < ws.len()
        invariant
            i <= ws@.len(),
            forall|k: int| 0 <= k < i ==> rows(ws@)[k] != w@,
        decreases ws@.len() - i,
    {
        if equal(ws[i].as_slice(), w) {
            assert(rows(ws@)[i as int] == w@);
            return true;
        }
        i = i + 1;
    }
    false
}

fn push_enabled(out: &mut Vec<String>, ws: &Vec<Vec<char>>, name: &str, Ghost(before): Ghost<Seq<Seq<char>>>)
    requires
        crate::text::texts(old(out)@) == enabled(before, rows(ws@)),
    ensures
        crate::text::texts(final(out)@) == enabled(before.push(name@), rows(ws@)),
{
    let w = chars_of(name);
    let ghost o = out@;
    proof {
        assert(before.push(name@).drop_last() =~= before);
    }
    if has_word(ws, w.as_slice()) {
        let mut v = chars_of("+");
        crate::text::extend(&mut v, w.as_slice());
        let s = string_of(v.as_slice());
        out.push(s);
        assert(crate::text::texts(out@) =~= crate::text::texts(o).push("+"@ + name@));
    }
}

/// The controllers to enable below a base: of those that are asked for, the ones that
/// were delegated to it.
pub fn controllers_to_enable(available: &str) -> (r: Vec<String>)
    ensures
        crate::text::texts(r@) == enabled(wanted(), words(available@)),
{
    let v = chars_of(available);
    let ws = words_of(v.as_slice());
    let mut r: Vec<String> = Vec::new();
    let ghost none = Seq::<Seq<char>>::empty();
    assert(crate::text::texts(r@) =~= enabled(none, rows(ws@)));
    push_enabled(&mut r, &ws, "cpu", Ghost(none));
    push_enabled(&mut r, &ws, "memory", Ghost(none.push("cpu"@)));
    push_enabled(&mut r, &ws, "io", Ghost(none.push("cpu"@).push("memory"@)));
    push_enabled(&mut r, &ws, "pids", Ghost(none.push("cpu"@).push("memory"@).push("io"@)));
    assert(none.push("cpu"@).push("memory"@).push("io"@).push("pids"@) =~= wanted());
    r
}

/// A cgroup is used only where it was found to be a domain after it was made or found; it is
/// purged only where it was there and found to be none; and what was made and is none is
/// removed. A second attempt to create it is the last.
pub proof fn lemma_a_cgroup_is_used_only_as_a_domain(step: DomainStep, event: DomainEvent)
    requires
        answers(step, event),
    ensures
        ({
            let next = domain_step(step, event);
            &&& next == DomainStep::Usable <==> step == DomainStep::CheckMade && event
                == DomainEvent::Checked(true)
            &&& next == DomainStep::RemoveAndGiveUp <==> step == DomainStep::CheckMade && event
                == DomainEvent::Checked(false)
            &&& next == DomainStep::PurgeThenCreate <==> step == DomainStep::CheckExisting && event
                == DomainEvent::Checked(false)
            &&& next == DomainStep::CheckExisting <==> step == DomainStep::Create && event
                == DomainEvent::Created(Created::Exists)
            &&& next == DomainStep::GiveUp <==> event == DomainEvent::Created(Created::Failed) || (step
                == DomainStep::PurgeThenCreate && event == DomainEvent::Created(Created::Exists))
            &&& next != DomainStep::Create
        }),
{
}

/// What a search has made: directories, and where this process is.
pub struct Site {
    pub dirs: Set<Seq<u8>>,
    pub home: Seq<u8>,
}

/// What a step that went well has made, where the search stood in a state.
pub open spec fn made(s: SearchState, ancestor: Seq<u8>, site: Site) -> Site {
    match s {
        SearchState::EnsureBase => Site { dirs: site.dirs.insert(base_of(ancestor)), ..site },
        SearchState::EnsureMain => Site { dirs: site.dirs.insert(main_of(ancestor)), ..site },
        SearchState::EnterMain => Site { home: main_of(ancestor), ..site },
        _ => site,
    }
}

/// What there is when the search comes to a state, where all steps before it went well.
pub open spec fn site_at(s: SearchState, ancestor: Seq<u8>, start: Site) -> Site {
    let a = made(SearchState::CheckAncestor, ancestor, start);
    let b = made(SearchState::EnsureBase, ancestor, a);
    let c = made(SearchState::EnsureMain, ancestor, b);
    let d = made(SearchState::EnterMain, ancestor, c);
    match s {
        SearchState::CheckAncestor => start,
        SearchState::EnsureBase => a,
        SearchState::EnsureMain => b,
        SearchState::EnterMain => c,
        _ => d,
    }
}

/// A cleanup can be done: a directory is removed that is there, holds no other, and in which
/// this process is not; the process moves to a cgroup by writing to its file.
pub open spec fn can_clean(c: CleanupView, site: Site) -> bool {
    match c {
        CleanupView::RemoveDir(p) => {
            &&& site.dirs.contains(p)
            &&& site.home != p
            &&& forall|q: Seq<u8>| #[trigger] site.dirs.contains(q) ==> q == p || !below(q, p)
        },
        CleanupView::WritePid(_) => true,
    }
}

/// What there is after a cleanup.
pub open spec fn cleaned(c: CleanupView, site: Site, ancestor: Seq<u8>) -> Site {
    match c {
        CleanupView::RemoveDir(p) => Site { dirs: site.dirs.remove(p), ..site },
        CleanupView::WritePid(file) => if file == joined(ancestor, encode_utf8("cgroup.procs"@)) {
            Site { home: ancestor, ..site }
        } else {
            site
        },
    }
}

/// All cleanups can be done, one after the other, and lead from one site to another.
pub open spec fn clean_to(cs: Seq<CleanupView>, from: Site, to: Site, ancestor: Seq<u8>) -> bool
    decreases cs.len(),
{
    if cs.len() == 0 {
        from == to
    } else {
        can_clean(cs[0], from) && clean_to(cs.drop_first(), cleaned(cs[0], from, ancestor), to, ancestor)
    }
}

proof fn lemma_places_of_search(ancestor: Seq<u8>)
    ensures
        components(base_of(ancestor)) == components(ancestor).push(encode_utf8("attest"@)),
        components(main_of(ancestor)) == components(base_of(ancestor)).push(encode_utf8("main"@)),
{
    assert(encode_utf8("attest"@).len() >= 6 && !encode_utf8("attest"@).contains(47u8)) by {
        reveal_strlit("attest");
        crate::utf8::lemma_no_slash("attest"@);
        crate::diagnostics::lemma_len_bound("attest"@);
    }
    assert(encode_utf8("main"@).len() >= 4 && !encode_utf8("main"@).contains(47u8)) by {
        reveal_strlit("main");
        crate::utf8::lemma_no_slash("main"@);
        crate::diagnostics::lemma_len_bound("main"@);
    }
    crate::path::lemma_joined_name(ancestor, encode_utf8("attest"@));
    crate::path::lemma_joined_name(base_of(ancestor), encode_utf8("main"@));
}

/// A search that turns away from a cgroup leaves nothing behind: what it undoes can be undone
/// in that order, and brings back what there was when it came there.
pub proof fn lemma_search_leaves_nothing_behind(s: SearchState, ancestor: Seq<u8>)
    requires
        s != SearchState::Found,
        s != SearchState::NotFound,
    ensures
        ({
            let start = Site { dirs: Set::empty(), home: ancestor };
            clean_to(undone(s, ancestor), site_at(s, ancestor, start), start, ancestor)
        }),
{
    let start = Site { dirs: Set::empty(), home: ancestor };
    let base = base_of(ancestor);
    let main = main_of(ancestor);
    lemma_places_of_search(ancestor);
    let (ca, cb, cm) = (components(ancestor), components(base), components(main));
    assert(cb.len() == ca.len() + 1 && cm.len() == ca.len() + 2);
    assert(base != main && base != ancestor && main != ancestor);
    assert(!below(base, main));
    let none = Set::<Seq<u8>>::empty();
    let one = none.insert(base);
    let two = one.insert(main);
    assert(one.remove(base) =~= none);
    assert(two.remove(main) =~= one);
    let site0 = start;
    let site1 = Site { dirs: one, home: ancestor };
    let site2 = Site { dirs: two, home: ancestor };
    let site3 = Site { dirs: two, home: main };
    let r1 = seq![CleanupView::RemoveDir(base)];
    let r2 = seq![CleanupView::RemoveDir(main), CleanupView::RemoveDir(base)];
    let nothing = Seq::<CleanupView>::empty();
    assert(clean_to(nothing, site0, start, ancestor));
    assert(r1.drop_first() =~= nothing);
    assert(cleaned(r1[0], site1, ancestor) == site0);
    assert(clean_to(r1, site1, start, ancestor));
    assert(r2.drop_first() =~= r1);
    assert(cleaned(r2[0], site2, ancestor) == site1);
    assert(clean_to(r2, site2, start, ancestor));
    if s == SearchState::Probe {
        let r3 = undone(s, ancestor);
        assert(r3.drop_first() =~= r2);
        assert(cleaned(r3[0], site3, ancestor) == site2);
        assert(clean_to(r3, site3, start, ancestor));
    }
}

/// A base is found only after every step below one ancestor went well, in their order.
pub proof fn lemma_search_goes_through_all_steps(s: SearchState)
    requires
        s != SearchState::Found,
        s != SearchState::NotFound,
    ensures
        state_after(s) == SearchState::Found <==> s == SearchState::Probe,
        state_after(s) == SearchState::Probe <==> s == SearchState::EnterMain,
        state_after(s) == SearchState::EnterMain <==> s == SearchState::EnsureMain,
        state_after(s) == SearchState::EnsureMain <==> s == SearchState::EnsureBase,
        state_after(s) == SearchState::EnsureBase <==> s == SearchState::CheckAncestor,
{
}

/// The cgroup of a process is told by the first line that begins with `0::`, wherever it
/// stands, and is what follows there.
pub proof fn lemma_own_cgroup_is_read(ls: Seq<Seq<char>>, i: int, k: int, rel: Seq<char>)
    requires
        0 <= i <= k < ls.len(),
        forall|j: int|
            i <= j < k ==> !((#[trigger] ls[j]).len() >= 3 && ls[j][0] == '0' && ls[j][1] == ':' && ls[j][2]
                == ':'),
        ls[k] == seq!['0', ':', ':'] + rel,
    ensures
        own_cgroup(ls, i) == Some(trim(rel)),
    decreases k - i,
{
    let mark = "0::"@;
    assert(mark =~= seq!['0', ':', ':']) by {
        reveal_strlit("0::");
    }
    if i < k {
        let l = ls[i];
        if starts_with(l, mark) {
            assert(l.take(3)[0] == l[0] && l.take(3)[1] == l[1] && l.take(3)[2] == l[2]);
        }
        lemma_own_cgroup_is_read(ls, i + 1, k, rel);
    } else {
        assert(ls[k].take(3) =~= mark);
        assert(ls[k].skip(3) =~= rel);
    }
}

/// The path of a cgroup, which begins with a slash, is taken from the root of all cgroups.
pub proof fn lemma_search_begins_at_own_cgroup(rel: Seq<char>)
    requires
        rel.len() > 0,
        rel[0] != '/',
    ensures
        first_ancestor(seq!['/'] + rel) == cgroup_root() + seq![47u8] + encode_utf8(rel),
{
    let s = seq!['/'] + rel;
    assert(s.drop_first() =~= rel);
    assert(trim_start_of(s, '/') == trim_start_of(rel, '/'));
    assert(trim_start_of(rel, '/') == rel);
    lemma_no_leading_slash(rel);
    let root = "/sys/fs/cgroup"@;
    let front = root.drop_last();
    assert(root.len() == 14 && root.last() == 'p') by {
        reveal_strlit("/sys/fs/cgroup");
    }
    assert(front + seq!['p'] =~= root);
    crate::utf8::lemma_encode_concat(front, seq!['p']);
    let p = seq!['p'];
    crate::utf8::lemma_no_slash(p);
    crate::diagnostics::lemma_len_bound(p);
    let e = encode_utf8(p);
    assert(cgroup_root().last() == e.last());
    assert(e.contains(e.last()));
    assert(first_ancestor(s) =~= cgroup_root() + seq![47u8] + encode_utf8(rel));
}

/// A move up takes the last component away, as long as what is left is below the root of all
/// cgroups.
pub proof fn lemma_a_move_up_takes_one_component(p: Seq<u8>)
    requires
        below(p, cgroup_root()),
    ensures
        useful_parent(p) is Some <==> components(p).len() > components(cgroup_root()).len() + 1,
        useful_parent(p) matches Some(q) ==> components(q) == components(p).drop_last(),
{
    let c = components(p);
    let r = components(cgroup_root());
    assert(r.len() > 0) by {
        lemma_root_has_components();
    }
    if c.len() > 1 {
        crate::path::lemma_has_parent(p);
    }
    if parent(p) is Some {
        lemma_parent_components(p);
        let q = components(parent(p)->0);
        if q.len() >= r.len() {
            assert(q.take(r.len() as int) =~= c.take(r.len() as int));
        }
        if q.len() == r.len() && below(parent(p)->0, cgroup_root()) {
            assert(q.take(r.len() as int) =~= q);
        }
    }
}

proof fn lemma_root_has_components()
    ensures
        components(cgroup_root()).len() > 0,
{
    reveal_strlit("/sys/fs/cgroup");
    let s = "/sys/fs/cgroup"@;
    let n = s[0] as u32;
    assert(n == 47);
    assert(47u32 & 0x7f == 47u32) by (bit_vector);
    let head = vstd::utf8::encode_scalar(n);
    assert(head =~= seq![47u8]);
    assert(encode_utf8(s) == head + encode_utf8(s.drop_first()));
    assert(crate::path::is_absolute(cgroup_root()));
}

/// A controller is enabled where it is one of those that are asked for and it is there.
pub proof fn lemma_what_is_there_is_enabled(available: Seq<Seq<char>>, name: Seq<char>)
    ensures
        enabled(wanted(), available).contains("+"@ + name) <==> available.contains(name) && (name == "cpu"@
            || name == "memory"@ || name == "io"@ || name == "pids"@),
        enabled(wanted(), available).len() <= 4,
{
    let w = wanted();
    lemma_enabled(w, available, name);
    assert(w[0] == "cpu"@ && w[1] == "memory"@ && w[2] == "io"@ && w[3] == "pids"@);
}

proof fn lemma_enabled(ws: Seq<Seq<char>>, available: Seq<Seq<char>>, name: Seq<char>)
    ensures
        enabled(ws, available).contains("+"@ + name) <==> available.contains(name) && ws.contains(name),
        enabled(ws, available).len() <= ws.len(),
    decreases ws.len(),
{
    if ws.len() > 0 {
        let front = ws.drop_last();
        let last = ws.last();
        lemma_enabled(front, available, name);
        let a = enabled(front, available);
        let r = enabled(ws, available);
        let plus = "+"@ + name;
        assert(("+"@ + last).skip("+"@.len() as int) =~= last);
        assert(plus.skip("+"@.len() as int) =~= name);
        if a.contains(plus) {
            let k = choose|k: int| 0 <= k < a.len() && a[k] == plus;
            assert(r[k] == plus);
            let j = choose|j: int| 0 <= j < front.len() && front[j] == name;
            assert(ws[j] == name);
        }
        if last == name {
            assert(ws[ws.len() - 1] == name);
            if available.contains(name) {
                assert(r[a.len() as int] == plus);
            }
        }
        if r.contains(plus) {
            let k = choose|k: int| 0 <= k < r.len() && r[k] == plus;
            if k < a.len() {
                assert(a[k] == plus);
            }
        }
        if ws.contains(name) && last != name {
            let j = choose|j: int| 0 <= j < ws.len() && ws[j] == name;
            assert(front[j] == name);
        }
    }
}

/// A cgroup is a domain where its type could not be read, or is the word `domain` and nothing
/// more, but for white space around it.
pub proof fn lemma_what_counts_as_a_domain(content: Option<&str>, r: bool, before: Seq<char>, word: Seq<char>, after: Seq<char>)
    requires
        call_ensures(is_domain, (content,), r),
        content is None || content->0@ == before + word + after,
        forall|i: int| 0 <= i < before.len() ==> crate::words::is_whitespace(#[trigger] before[i]),
        forall|i: int| 0 <= i < after.len() ==> crate::words::is_whitespace(#[trigger] after[i]),
        word.len() > 0,
        !crate::words::is_whitespace(word[0]),
        !crate::words::is_whitespace(word.last()),
    ensures
        r <==> content is None || word == "domain"@,
{
    if content is Some {
        crate::words::lemma_trim_leaves_the_word(before, word, after);
    }
}

} // verus!
