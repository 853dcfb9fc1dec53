//! What a test sees: which file each path names once its root is set up.
//!
//! The mounts of the setup are followed one by one. What comes out is what isolation is
//! for: a test finds its context and the live mounts of the host at their paths, everything
//! else is a layer of its own, and no mount is made where the host would notice.

use vstd::prelude::*;
use vstd::utf8::{encode_utf8, is_ascii_chars_encode_utf8};

use crate::diagnostics::lemma_len_bound;
use crate::number::{decimal, lemma_decimal_round_trip};
use crate::overlay::{in_context, options_text, Mode, OverlayError, OverlayErrorView};
use crate::path::{components, dot, is_absolute, joined, lemma_joined_name, lemma_root_alone, lemma_seen_from_base, slash, UnixPath};
use crate::root::{root_plan, step_at, steps_of, sub_options, target_of, RootBuild, RootOverlay, RootView, StepView};
use crate::setup::{action_views, after_step, all_submount_actions, first_actions, last_actions, old_root, setup_of, setup_root, submount_actions, ActionView, AfterStep, SetupAction, SetupView};
use crate::submounts::Submount;
use crate::text::{join, lemma_split_join, split, starts_with};
use crate::utf8::{lemma_encode_concat, lemma_no_slash};

verus! {

/// A file that a path can name: one of the host, or one of a layer with the given options,
/// by the way that leads to it.
pub enum Place {
    Host(Seq<Seq<u8>>),
    Layer { opts: Seq<char>, at: Seq<Seq<u8>> },
}

/// What lies further along the way.
pub open spec fn further(f: Place, rest: Seq<Seq<u8>>) -> Place {
    match f {
        Place::Host(at) => Place::Host(at + rest),
        Place::Layer { opts, at } => Place::Layer { opts, at: at + rest },
    }
}

/// The file system as a process sees it.
pub struct World {
    /// What each path names, by its components.
    pub names: spec_fn(Seq<Seq<u8>>) -> Place,
    /// Where the former root can be seen, and what its paths name.
    pub old: Option<Seq<Seq<u8>>>,
    pub old_names: spec_fn(Seq<Seq<u8>>) -> Place,
    /// The working directory.
    pub cwd: Seq<u8>,
    /// The process has mounts of its own: the mode in which it got them, and how its user
    /// and its group are mapped.
    pub entered: Option<(Mode, Seq<char>, Seq<char>)>,
    /// Its mounts are private.
    pub private: bool,
    /// The host has noticed a mount.
    pub noticed: bool,
}

/// The root, and the way from it.
pub open spec fn rooted(rest: Seq<Seq<u8>>) -> Seq<Seq<u8>> {
    seq![slash()] + rest
}

/// The file that a path names.
pub open spec fn seen(w: World, p: Seq<Seq<u8>>) -> Place {
    match w.old {
        Some(at) => if starts_with(p, at) {
            (w.old_names)(rooted(p.skip(at.len() as int)))
        } else {
            (w.names)(p)
        },
        None => (w.names)(p),
    }
}

/// What follows when `names` holds for the paths below `at` and all others stay.
pub open spec fn mounted(w: World, at: Seq<Seq<u8>>, names: spec_fn(Seq<Seq<u8>>) -> Place) -> World {
    World {
        names: |p: Seq<Seq<u8>>|
            if starts_with(p, at) {
                names(p.skip(at.len() as int))
            } else {
                seen(w, p)
            },
        noticed: w.noticed || !w.private,
        ..w
    }
}

/// The world after a step.
pub open spec fn after(w: World, step: SetupView) -> World {
    match step {
        SetupView::EnterNamespace { mode, uid_map, gid_map } => World {
            entered: Some((mode, uid_map, gid_map)),
            ..w
        },
        SetupView::PrivatizeMounts => World { private: w.entered is Some, ..w },
        SetupView::MountOverlay { target, opts } => mounted(
            w,
            components(target),
            |rest: Seq<Seq<u8>>| Place::Layer { opts, at: rest },
        ),
        SetupView::BindTree { src, dst } => mounted(
            w,
            components(dst),
            |rest: Seq<Seq<u8>>| seen(w, components(src) + rest),
        ),
        SetupView::BindDir { src, dst } => mounted(
            w,
            components(dst),
            |rest: Seq<Seq<u8>>| further(seen(w, components(src)), rest),
        ),
        SetupView::PivotRoot { new_root, put_old } => World {
            names: |p: Seq<Seq<u8>>| seen(w, components(new_root) + p.drop_first()),
            old: Some(rooted(components(put_old).skip(components(new_root).len() as int))),
            old_names: |p: Seq<Seq<u8>>| seen(w, p),
            ..w
        },
        SetupView::Detach { path } => World {
            old: if w.old == Some(components(path)) {
                None
            } else {
                w.old
            },
            ..w
        },
        SetupView::ChangeDir { path } => World { cwd: path, ..w },
        SetupView::MakeDir { .. } | SetupView::MakeFile { .. } | SetupView::RemoveDir { .. } => w,
    }
}

/// The world of the host, seen from a directory.
pub open spec fn host(cwd: Seq<u8>) -> World {
    World {
        names: |p: Seq<Seq<u8>>| Place::Host(p),
        old: None,
        old_names: |p: Seq<Seq<u8>>| Place::Host(p),
        cwd,
        entered: None,
        private: false,
        noticed: false,
    }
}

/// The world after the first `n` actions, of which those happened that `done` tells.
pub open spec fn after_all(w: World, actions: Seq<ActionView>, done: spec_fn(int) -> bool, n: int) -> World
    decreases n,
{
    if n <= 0 {
        w
    } else {
        let before = after_all(w, actions, done, n - 1);
        if done(n - 1) {
            after(before, actions[n - 1].step)
        } else {
            before
        }
    }
}

/// A setup that went through: what must not fail has happened.
pub open spec fn went_through(actions: Seq<ActionView>, done: spec_fn(int) -> bool) -> bool {
    forall|i: int| 0 <= i < actions.len() && (#[trigger] actions[i]).fatal ==> done(i)
}

/// The former root was taken away.
pub open spec fn is_detached(actions: Seq<ActionView>, done: spec_fn(int) -> bool) -> bool {
    forall|i: int| 0 <= i < actions.len() && (#[trigger] actions[i]).step is Detach ==> done(i)
}

/// The live mount at `source` was bound.
pub open spec fn is_bound(actions: Seq<ActionView>, done: spec_fn(int) -> bool, source: Seq<u8>) -> bool {
    forall|i: int|
        0 <= i < actions.len() && ((#[trigger] actions[i]).step matches SetupView::BindTree { src, .. }
            && src == source) ==> done(i)
}

/// Of the submounts, the last above the path is the one at `i`.
pub open spec fn is_holder_of(sms: Seq<Submount>, n: int, i: int, p: Seq<Seq<u8>>) -> bool {
    &&& 0 <= i < n
    &&& starts_with(p, components(sms[i].source@))
    &&& forall|j: int| i < j < n ==> !starts_with(p, #[trigger] components(sms[j].source@))
}

/// No submount lies above the path.
pub open spec fn is_outside(sms: Seq<Submount>, n: int, p: Seq<Seq<u8>>) -> bool {
    forall|j: int| 0 <= j < n ==> !starts_with(p, #[trigger] components(sms[j].source@))
}

/// A live submount lies above the path.
pub open spec fn is_below_live(sms: Seq<Submount>, n: int, p: Seq<Seq<u8>>) -> bool {
    exists|j: int|
        0 <= j < n && !sms[j].ephemeral && starts_with(p, #[trigger] components(sms[j].source@))
}

/// What the paths below `merged` name once the first `n` submounts were made, and that all
/// other paths still name what they did.
spec fn is_built(
    w: World,
    mode: Mode,
    context: Seq<u8>,
    sms: Seq<Submount>,
    root_opts: Seq<char>,
    actions: Seq<ActionView>,
    done: spec_fn(int) -> bool,
    n: int,
) -> bool {
    let m = components(in_context(context, "merged"@));
    &&& w.old is None
    &&& w.private && !w.noticed
    &&& forall|p: Seq<Seq<u8>>| !starts_with(p, m) ==> #[trigger] (w.names)(p) == Place::Host(p)
    &&& forall|x: Seq<Seq<u8>>|
        !starts_with(rooted(x), components(context)) ==> is_built_at(
            #[trigger] (w.names)(m + x),
            mode,
            context,
            sms,
            root_opts,
            actions,
            done,
            n,
            rooted(x),
        )
}

/// What a path that is not below the context names, where the first `n` submounts were
/// made.
pub open spec fn is_built_at(
    f: Place,
    mode: Mode,
    context: Seq<u8>,
    sms: Seq<Submount>,
    root_opts: Seq<char>,
    actions: Seq<ActionView>,
    done: spec_fn(int) -> bool,
    n: int,
    p: Seq<Seq<u8>>,
) -> bool {
    &&& f matches Place::Host(h) ==> h == p && is_below_live(sms, n, p)
    &&& is_outside(sms, n, p) ==> f == (Place::Layer { opts: root_opts, at: p.drop_first() })
    &&& forall|i: int| #[trigger]
        is_holder_of(sms, n, i, p) ==> if sms[i].ephemeral {
            f == (Place::Layer {
                opts: sub_options(mode, context, sms, i),
                at: p.skip(components(sms[i].source@).len() as int),
            })
        } else {
            is_bound(actions, done, sms[i].source@) ==> f == Place::Host(p)
        }
}

proof fn lemma_below_base(m: Seq<Seq<u8>>, x: Seq<Seq<u8>>, s: Seq<Seq<u8>>)
    requires
        s.len() > 0,
        s[0] == slash(),
    ensures
        starts_with(m + x, m + s.drop_first()) == starts_with(rooted(x), s),
        starts_with(rooted(x), s) ==> (m + x).skip((m + s.drop_first()).len() as int) == rooted(
            x,
        ).skip(s.len() as int) && s + rooted(x).skip(s.len() as int) == rooted(x),
{
    let t = m + s.drop_first();
    let r = rooted(x);
    assert(s =~= rooted(s.drop_first()));
    if starts_with(m + x, t) {
        assert forall|i: int| 0 <= i < s.len() implies r[i] == s[i] by {
            if i > 0 {
                assert((m + x).take(t.len() as int)[m.len() + i - 1] == t[m.len() + i - 1]);
            }
        }
        assert(r.take(s.len() as int) =~= s);
    }
    if starts_with(r, s) {
        assert forall|i: int| 0 <= i < t.len() implies (m + x)[i] == t[i] by {
            if i >= m.len() {
                assert(r.take(s.len() as int)[i - m.len() + 1] == s[i - m.len() + 1]);
            }
        }
        assert((m + x).take(t.len() as int) =~= t);
        assert((m + x).skip(t.len() as int) =~= r.skip(s.len() as int));
        assert(s + r.skip(s.len() as int) =~= r);
    }
}

/// What is not below a path is not below a longer one.
proof fn lemma_not_below(p: Seq<Seq<u8>>, a: Seq<Seq<u8>>, rest: Seq<Seq<u8>>)
    requires
        !starts_with(p, a),
    ensures
        !starts_with(p, a + rest),
{
    if starts_with(p, a + rest) {
        assert(p.take(a.len() as int) =~= p.take((a + rest).len() as int).take(a.len() as int));
        assert((a + rest).take(a.len() as int) =~= a);
    }
}

proof fn lemma_actions_at(steps: Seq<StepView>, k: int)
    requires
        0 <= k < steps.len(),
    ensures
        all_submount_actions(steps).len() == 2 * steps.len(),
        all_submount_actions(steps)[2 * k] == submount_actions(steps[k])[0],
        all_submount_actions(steps)[2 * k + 1] == submount_actions(steps[k])[1],
    decreases steps.len(),
{
    let front = steps.drop_last();
    lemma_step_count(steps);
    lemma_step_count(front);
    if k < front.len() {
        lemma_actions_at(front, k);
        assert(front[k] == steps[k]);
    }
}

proof fn lemma_step_count(steps: Seq<StepView>)
    ensures
        all_submount_actions(steps).len() == 2 * steps.len(),
    decreases steps.len(),
{
    if steps.len() > 0 {
        lemma_step_count(steps.drop_last());
    }
}

proof fn lemma_steps_at(mode: Mode, context: Seq<u8>, sms: Seq<Submount>, n: int, steps: Seq<StepView>)
    requires
        0 <= n,
        steps_of(mode, context, sms, n) == Ok::<Seq<StepView>, OverlayErrorView>(steps),
    ensures
        steps.len() == n,
        forall|k: int|
            0 <= k < n ==> step_at(mode, context, sms, k) == Ok::<StepView, OverlayErrorView>(
                #[trigger] steps[k],
            ),
    decreases n,
{
    if n > 0 {
        let before = steps_of(mode, context, sms, n - 1)->Ok_0;
        lemma_steps_at(mode, context, sms, n - 1, before);
        assert forall|k: int| 0 <= k < n implies step_at(mode, context, sms, k) == Ok::<
            StepView,
            OverlayErrorView,
        >(#[trigger] steps[k]) by {
            if k < n - 1 {
                assert(steps[k] == before[k]);
            }
        }
    }
}

/// A name without a slash that is longer than a dot.
proof fn lemma_plain_name(name: Seq<char>)
    requires
        name.len() > 1,
        !name.contains('/'),
    ensures
        encode_utf8(name).len() > 1,
        !encode_utf8(name).contains(47u8),
        encode_utf8(name) != dot(),
{
    lemma_no_slash(name);
    lemma_len_bound(name);
}

proof fn lemma_merged(context: Seq<u8>)
    requires
        is_absolute(context),
    ensures
        ({
            let m = in_context(context, "merged"@);
            &&& m.len() > 0
            &&& components(m) == components(context).push(encode_utf8("merged"@))
            &&& components(context)[0] == slash()
            &&& components(context).len() > 0
        }),
{
    reveal_strlit("merged");
    lemma_plain_name("merged"@);
    lemma_joined_name(context, encode_utf8("merged"@));
    lemma_seen_from_base(context, context);
}

proof fn lemma_target(context: Seq<u8>, source: Seq<u8>)
    requires
        is_absolute(context),
        is_absolute(source),
    ensures
        components(target_of(context, source)) == components(in_context(context, "merged"@))
            + components(source).drop_first(),
        components(source).len() > 0,
        components(source)[0] == slash(),
{
    lemma_merged(context);
    lemma_seen_from_base(in_context(context, "merged"@), source);
}

/// One more submount.
proof fn lemma_build_step(
    w: World,
    mode: Mode,
    context: Seq<u8>,
    sms: Seq<Submount>,
    root_opts: Seq<char>,
    actions: Seq<ActionView>,
    done: spec_fn(int) -> bool,
    n: int,
    k: int,
    v: World,
)
    requires
        is_absolute(context),
        0 <= n < sms.len(),
        is_absolute(sms[n].source@),
        is_built(w, mode, context, sms, root_opts, actions, done, n),
        step_at(mode, context, sms, n) is Ok,
        went_through(actions, done),
        0 <= k < actions.len(),
        actions[k] == submount_actions(step_at(mode, context, sms, n)->Ok_0)[1],
        v == (if done(k) {
            after(w, actions[k].step)
        } else {
            w
        }),
    ensures
        is_built(v, mode, context, sms, root_opts, actions, done, n + 1),
{
    let c = components(context);
    let m = components(in_context(context, "merged"@));
    let source = sms[n].source@;
    let s = components(source);
    let t = components(target_of(context, source));
    lemma_merged(context);
    lemma_target(context, source);
    assert forall|p: Seq<Seq<u8>>| !starts_with(p, m) implies #[trigger] (v.names)(p) == Place::Host(p) by {
        lemma_not_below(p, m, s.drop_first());
        assert((w.names)(p) == Place::Host(p));
    }
    assert forall|x: Seq<Seq<u8>>| !starts_with(rooted(x), c) implies is_built_at(
        #[trigger] (v.names)(m + x),
        mode,
        context,
        sms,
        root_opts,
        actions,
        done,
        n + 1,
        rooted(x),
    ) by {
        let p = rooted(x);
        lemma_below_base(m, x, s);
        let before = (w.names)(m + x);
        assert(is_built_at(before, mode, context, sms, root_opts, actions, done, n, p));
        let f = (v.names)(m + x);
        let covers = starts_with(p, s);
        if is_below_live(sms, n, p) {
            let j = choose|j: int|
                0 <= j < n && !sms[j].ephemeral && starts_with(p, #[trigger] components(sms[j].source@));
            assert(starts_with(p, components(sms[j].source@)));
            assert(is_below_live(sms, n + 1, p));
        }
        if covers && !sms[n].ephemeral {
            assert(starts_with(p, components(sms[n].source@)));
            assert(is_below_live(sms, n + 1, p));
            lemma_not_below(p, c, seq![encode_utf8("merged"@)]);
            assert(c + seq![encode_utf8("merged"@)] =~= m);
            assert((w.names)(p) == Place::Host(p));
            if done(k) {
                assert(f == seen(w, s + p.skip(s.len() as int)));
            }
        }
        if is_outside(sms, n + 1, p) {
            assert(!starts_with(p, components(sms[n].source@)));
            assert forall|j: int| 0 <= j < n implies !starts_with(
                p,
                #[trigger] components(sms[j].source@),
            ) by {}
            assert(is_outside(sms, n, p));
        }
        assert forall|i: int| #[trigger] is_holder_of(sms, n + 1, i, p) implies if sms[i].ephemeral {
            f == (Place::Layer {
                opts: sub_options(mode, context, sms, i),
                at: p.skip(components(sms[i].source@).len() as int),
            })
        } else {
            is_bound(actions, done, sms[i].source@) ==> f == Place::Host(p)
        } by {
            if covers {
                if i < n {
                    assert(starts_with(p, components(sms[n].source@)));
                }
                assert(i == n);
                if sms[n].ephemeral {
                    assert(actions[k].fatal);
                } else if is_bound(actions, done, source) {
                    assert(done(k));
                }
            } else {
                assert(i < n);
                assert(is_holder_of(sms, n, i, p));
            }
        }
    }
}

proof fn lemma_built(
    mode: Mode,
    context: Seq<u8>,
    sms: Seq<Submount>,
    p: RootView,
    cwd: Seq<u8>,
    done: spec_fn(int) -> bool,
    n: int,
)
    requires
        is_absolute(context),
        forall|i: int| 0 <= i < sms.len() ==> is_absolute((#[trigger] sms[i]).source@),
        steps_of(mode, context, sms, sms.len() as int) == Ok::<Seq<StepView>, OverlayErrorView>(
            p.steps,
        ),
        p.merged == in_context(context, "merged"@),
        went_through(setup_of(p), done),
        0 <= n <= sms.len(),
    ensures
        is_built(
            after_all(host(cwd), setup_of(p), done, 3 + 2 * n),
            mode,
            context,
            sms,
            p.root_opts,
            setup_of(p),
            done,
            n,
        ),
    decreases n,
{
    let actions = setup_of(p);
    let m = components(p.merged);
    lemma_steps_at(mode, context, sms, sms.len() as int, p.steps);
    lemma_step_count(p.steps);
    if n == 0 {
        reveal_with_fuel(after_all, 4);
        assert(actions[0] == first_actions(p)[0]);
        assert(actions[1] == first_actions(p)[1]);
        assert(actions[2] == first_actions(p)[2]);
        let w = after_all(host(cwd), actions, done, 3);
        assert forall|x: Seq<Seq<u8>>| !starts_with(rooted(x), components(context)) implies is_built_at(
            #[trigger] (w.names)(m + x),
            mode,
            context,
            sms,
            p.root_opts,
            actions,
            done,
            0,
            rooted(x),
        ) by {
            assert((m + x).take(m.len() as int) =~= m);
            assert((m + x).skip(m.len() as int) =~= x);
            assert(rooted(x).drop_first() =~= x);
        }
    } else {
        let k = n - 1;
        lemma_built(mode, context, sms, p, cwd, done, k);
        lemma_actions_at(p.steps, k);
        let at = 3 + 2 * k;
        assert(actions[at] == all_submount_actions(p.steps)[2 * k]);
        assert(actions[at + 1] == all_submount_actions(p.steps)[2 * k + 1]);
        let w = after_all(host(cwd), actions, done, at);
        assert(after_all(host(cwd), actions, done, at + 1) == w);
        lemma_build_step(
            w,
            mode,
            context,
            sms,
            p.root_opts,
            actions,
            done,
            k,
            at + 1,
            after_all(host(cwd), actions, done, at + 2),
        );
    }
}

proof fn lemma_old_root(merged: Seq<u8>)
    requires
        merged.len() > 0,
    ensures
        components(old_root()) == rooted(seq![encode_utf8("oldroot"@)]),
        components(joined(merged, encode_utf8("oldroot"@))) == components(merged).push(
            encode_utf8("oldroot"@),
        ),
{
    reveal_strlit("oldroot");
    reveal_strlit("/");
    reveal_strlit("/oldroot");
    let name = "oldroot"@;
    lemma_plain_name(name);
    lemma_joined_name(merged, encode_utf8(name));
    lemma_joined_name(slash(), encode_utf8(name));
    assert("/oldroot"@ =~= "/"@ + name);
    lemma_encode_concat("/"@, name);
    is_ascii_chars_encode_utf8("/"@);
    assert(encode_utf8("/"@) =~= slash());
    lemma_seen_from_base(slash(), slash());
    let c = components(slash());
    assert(c == seq![slash()] + c.drop_first());
    lemma_root_alone();
    assert(c.push(encode_utf8(name)) =~= rooted(seq![encode_utf8(name)]));
}

/// The map has one line, which takes the number to that of the superuser.
pub open spec fn maps_to_root(map: Seq<char>, id: u32) -> bool {
    split(map, ' ') == seq!["0"@, decimal(id as nat), "1"@]
}

proof fn lemma_map(id: u32)
    ensures
        maps_to_root("0 "@ + decimal(id as nat) + " 1"@, id),
{
    reveal_strlit("0");
    reveal_strlit("1");
    reveal_strlit("0 ");
    reveal_strlit(" 1");
    let d = decimal(id as nat);
    lemma_decimal_round_trip(id as nat);
    assert forall|i: int| 0 <= i < d.len() implies d[i] != ' ' by {
        assert(crate::number::is_digit(d[i]));
    }
    let ps = seq!["0"@, d, "1"@];
    let sep = seq![' '];
    lemma_split_join(ps, ' ');
    assert(ps.drop_last() =~= seq!["0"@, d]);
    assert(seq!["0"@, d].drop_last() =~= seq!["0"@]);
    assert(join(seq!["0"@], sep) =~= "0"@);
    assert(join(seq!["0"@, d], sep) == join(seq!["0"@], sep) + sep + d);
    assert(join(ps, sep) == join(seq!["0"@, d], sep) + sep + "1"@);
    assert(join(ps, sep) =~= "0 "@ + d + " 1"@);
}

/// After the first action the process stays in the namespace that it has entered.
proof fn lemma_entered(p: RootView, cwd: Seq<u8>, done: spec_fn(int) -> bool, n: int)
    requires
        1 <= n <= setup_of(p).len(),
        went_through(setup_of(p), done),
    ensures
        after_all(host(cwd), setup_of(p), done, n).entered == Some((p.mode, p.uid_map, p.gid_map)),
    decreases n,
{
    let actions = setup_of(p);
    assert(actions[0] == first_actions(p)[0]);
    if n == 1 {
        reveal_with_fuel(after_all, 2);
    } else {
        lemma_entered(p, cwd, done, n - 1);
        if actions[n - 1].step is EnterNamespace {
            lemma_enters_once(p, n - 1);
        }
    }
}

proof fn lemma_enters_once(p: RootView, i: int)
    requires
        0 < i < setup_of(p).len(),
    ensures
        !(setup_of(p)[i].step is EnterNamespace),
{
    let first = first_actions(p);
    let middle = all_submount_actions(p.steps);
    lemma_step_count(p.steps);
    if i < 3 {
        assert(setup_of(p)[i] == first[i]);
    } else if i < 3 + middle.len() {
        let k = (i - 3) / 2;
        lemma_actions_at(p.steps, k);
        assert(setup_of(p)[i] == middle[i - 3]);
        assert(i - 3 == 2 * k || i - 3 == 2 * k + 1);
    } else {
        assert(setup_of(p)[i] == last_actions(p)[i - 3 - middle.len()]);
    }
}

/// What a test sees once its root is set up, whichever of the steps that may fail did so.
/// Its context is the host's at its path. A path of the host is otherwise seen below live
/// mounts alone, and names itself. What is below an ephemeral mount is in the layer of that
/// mount, and all else in that of the root. The host has not noticed any mount, the test
/// starts in the directory of the invocation, and its user is mapped to the superuser.
pub proof fn lemma_what_a_test_sees(
    mode: Mode,
    context: Seq<u8>,
    dir: Seq<u8>,
    sms: Seq<Submount>,
    uid: u32,
    gid: u32,
    p: RootView,
    cwd: Seq<u8>,
    done: spec_fn(int) -> bool,
    rest: Seq<Seq<u8>>,
)
    requires
        root_plan(mode, context, dir, sms, uid, gid) == Ok::<RootView, OverlayErrorView>(p),
        is_absolute(context),
        forall|i: int| 0 <= i < sms.len() ==> is_absolute((#[trigger] sms[i]).source@),
        went_through(setup_of(p), done),
        is_detached(setup_of(p), done) || !starts_with(rooted(rest), components(old_root())),
    ensures
        ({
            let w = after_all(host(cwd), setup_of(p), done, setup_of(p).len() as int);
            let path = rooted(rest);
            let root_opts = options_text(
                encode_utf8("/"@),
                in_context(context, "upper"@),
                in_context(context, "work"@),
                mode,
            );
            &&& starts_with(path, components(context)) ==> seen(w, path) == Place::Host(path)
            &&& !starts_with(path, components(context)) ==> is_built_at(
                seen(w, path),
                mode,
                context,
                sms,
                root_opts,
                setup_of(p),
                done,
                sms.len() as int,
                path,
            )
            &&& w.private && !w.noticed
            &&& w.cwd == dir
            &&& w.entered matches Some((m, u, g)) && m == mode && maps_to_root(u, uid) && maps_to_root(
                g,
                gid,
            )
        }),
{
    let actions = setup_of(p);
    let n = sms.len() as int;
    let c = components(context);
    let m = components(p.merged);
    let path = rooted(rest);
    lemma_merged(context);
    lemma_built(mode, context, sms, p, cwd, done, n);
    lemma_steps_at(mode, context, sms, n, p.steps);
    lemma_step_count(p.steps);
    lemma_old_root(p.merged);
    lemma_target(context, context);
    lemma_entered(p, cwd, done, actions.len() as int);
    lemma_map(uid);
    lemma_map(gid);
    let at = 3 + 2 * n;
    let last = last_actions(p);
    assert(actions.len() == at + 9);
    assert forall|i: int| 0 <= i < 9 implies actions[at + i] == #[trigger] last[i] by {}
    assert(actions[at + 0] == last[0]);
    assert(actions[at + 1] == last[1]);
    assert(actions[at + 2] == last[2]);
    assert(actions[at + 3] == last[3]);
    assert(actions[at + 4] == last[4]);
    assert(actions[at + 5] == last[5]);
    assert(actions[at + 6] == last[6]);
    assert(actions[at + 7] == last[7]);
    assert(actions[at + 8] == last[8]);
    let h = host(cwd);
    let w0 = after_all(h, actions, done, at);
    let w1 = after_all(h, actions, done, at + 1);
    let w2 = after_all(h, actions, done, at + 2);
    let w3 = after_all(h, actions, done, at + 3);
    let w4 = after_all(h, actions, done, at + 4);
    let w5 = after_all(h, actions, done, at + 5);
    let w6 = after_all(h, actions, done, at + 6);
    let w7 = after_all(h, actions, done, at + 7);
    let w8 = after_all(h, actions, done, at + 8);
    let w = after_all(h, actions, done, at + 9);
    assert(w1 == w0);
    assert(w2 == after(w1, last[1].step));
    assert(w3 == w2);
    assert(w4 == after(w3, last[3].step));
    assert(w5 == after(w4, last[4].step));
    assert(w6.names == w5.names && w6.old == w5.old && w6.old_names == w5.old_names);
    assert(w7.names == w6.names);
    assert(w == after(w8, last[8].step));
    // The context is bound.
    let d = m + c.drop_first();
    assert(components(p.context.1) == d);
    assert(!starts_with(c, m));
    assert(seen(w1, c) == Place::Host(c));
    lemma_below_base(m, rest, c);
    let f = (w2.names)(m + rest);
    if starts_with(path, c) {
        assert(f == further(Place::Host(c), (m + rest).skip(d.len() as int)));
        assert(f == Place::Host(path));
    } else {
        assert(f == (w0.names)(m + rest));
    }
    // The root is switched.
    assert(path.drop_first() =~= rest);
    assert((w5.names)(path) == f);
    assert(components(p.put_old).skip(m.len() as int) =~= seq![encode_utf8("oldroot"@)]);
    assert(w5.old == Some(components(old_root())));
    assert(seen(w, path) == f);
}

/// So it is with the root that is planned for a test and the steps by which it is set up.
pub proof fn lemma_what_a_test_sees_of_its_plan(
    mode: Mode,
    context: &UnixPath,
    dir: &UnixPath,
    sms: &Vec<Submount>,
    uid: u32,
    gid: u32,
    b: RootBuild,
    p: RootOverlay,
    v: Vec<SetupAction>,
    cwd: Seq<u8>,
    done: spec_fn(int) -> bool,
    rest: Seq<Seq<u8>>,
)
    requires
        call_ensures(RootOverlay::build, (mode, context, dir, sms, uid, gid), b),
        b.plan == Ok::<RootOverlay, OverlayError>(p),
        call_ensures(setup_root, (&p,), v),
        is_absolute(context@),
        forall|i: int| 0 <= i < sms@.len() ==> is_absolute((#[trigger] sms@[i]).source@),
        went_through(action_views(v@), done),
        is_detached(action_views(v@), done) || !starts_with(rooted(rest), components(old_root())),
    ensures
        ({
            let w = after_all(host(cwd), action_views(v@), done, v@.len() as int);
            let path = rooted(rest);
            &&& starts_with(path, components(context@)) ==> seen(w, path) == Place::Host(path)
            &&& seen(w, path) is Host ==> seen(w, path) == Place::Host(path) && (starts_with(
                path,
                components(context@),
            ) || is_below_live(sms@, sms@.len() as int, path))
            &&& w.private && !w.noticed
            &&& w.cwd == dir@
        }),
{
    assert(action_views(v@).len() == v@.len());
    lemma_what_a_test_sees(mode, context@, dir@, sms@, uid, gid, p@, cwd, done, rest);
}

/// A setup that was carried on after every step went through; one in which a step failed that
/// must not is not carried on after it.
pub proof fn lemma_setup_that_is_carried_on_went_through(
    actions: Seq<ActionView>,
    done: spec_fn(int) -> bool,
    next: Seq<AfterStep>,
)
    requires
        next.len() == actions.len(),
        forall|i: int|
            0 <= i < actions.len() ==> call_ensures(
                after_step,
                ((#[trigger] actions[i]).fatal, done(i)),
                next[i],
            ),
    ensures
        (forall|i: int| 0 <= i < next.len() ==> #[trigger] next[i] == AfterStep::Continue) <==> went_through(
            actions,
            done,
        ),
{
    if forall|i: int| 0 <= i < next.len() ==> #[trigger] next[i] == AfterStep::Continue {
        assert forall|i: int| 0 <= i < actions.len() && (#[trigger] actions[i]).fatal implies done(i) by {
            assert(next[i] == AfterStep::Continue);
        }
    }
    if went_through(actions, done) {
        assert forall|i: int| 0 <= i < next.len() implies #[trigger] next[i] == AfterStep::Continue by {
            assert(actions[i].fatal ==> done(i));
        }
    }
}

} // verus!
