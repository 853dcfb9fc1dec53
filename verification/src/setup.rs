//! What the forked child does to enter its ephemeral root, step by step.

use vstd::prelude::*;
use vstd::utf8::encode_utf8;

use crate::overlay::Mode;
use crate::path::{joined, UnixPath};
use crate::root::{MountStep, RootOverlay, RootView, StepView};

verus! {

/// One thing that the child does.
#[derive(Debug)]
pub enum SetupStep {
    /// Enter a mount and a UTS namespace; unprivileged also a user namespace, with the
    /// two id maps.
    EnterNamespace { mode: Mode, uid_map: String, gid_map: String },
    /// Make all mounts private so nothing propagates back to the host.
    PrivatizeMounts,
    /// Mount an overlay.
    MountOverlay { target: UnixPath, opts: String },
    /// Create a directory.
    MakeDir { path: UnixPath },
    /// Create an empty file, unless there is one.
    MakeFile { path: UnixPath },
    /// Bind a mount with all mounts below it.
    BindTree { src: UnixPath, dst: UnixPath },
    /// Bind a directory alone.
    BindDir { src: UnixPath, dst: UnixPath },
    /// Change the working directory.
    ChangeDir { path: UnixPath },
    /// Make `new_root` the root and put the old one at `put_old`.
    PivotRoot { new_root: UnixPath, put_old: UnixPath },
    /// Detach the mount at a path.
    Detach { path: UnixPath },
    /// Remove an empty directory.
    RemoveDir { path: UnixPath },
}

/// A step, and whether its failure ends the setup.
#[derive(Debug)]
pub struct SetupAction {
    pub step: SetupStep,
    pub fatal: bool,
}

pub enum SetupView {
    EnterNamespace { mode: Mode, uid_map: Seq<char>, gid_map: Seq<char> },
    PrivatizeMounts,
    MountOverlay { target: Seq<u8>, opts: Seq<char> },
    MakeDir { path: Seq<u8> },
    MakeFile { path: Seq<u8> },
    BindTree { src: Seq<u8>, dst: Seq<u8> },
    BindDir { src: Seq<u8>, dst: Seq<u8> },
    ChangeDir { path: Seq<u8> },
    PivotRoot { new_root: Seq<u8>, put_old: Seq<u8> },
    Detach { path: Seq<u8> },
    RemoveDir { path: Seq<u8> },
}

pub struct ActionView {
    pub step: SetupView,
    pub fatal: bool,
}

impl View for SetupStep {
    type V = SetupView;

    open spec fn view(&self) -> SetupView {
        match *self {
            SetupStep::EnterNamespace { mode, uid_map, gid_map } => SetupView::EnterNamespace {
                mode,
                uid_map: uid_map@,
                gid_map: gid_map@,
            },
            SetupStep::PrivatizeMounts => SetupView::PrivatizeMounts,
            SetupStep::MountOverlay { target, opts } => SetupView::MountOverlay {
                target: target@,
                opts: opts@,
            },
            SetupStep::MakeDir { path } => SetupView::MakeDir { path: path@ },
            SetupStep::MakeFile { path } => SetupView::MakeFile { path: path@ },
            SetupStep::BindTree { src, dst } => SetupView::BindTree { src: src@, dst: dst@ },
            SetupStep::BindDir { src, dst } => SetupView::BindDir { src: src@, dst: dst@ },
            SetupStep::ChangeDir { path } => SetupView::ChangeDir { path: path@ },
            SetupStep::PivotRoot { new_root, put_old } => SetupView::PivotRoot {
                new_root: new_root@,
                put_old: put_old@,
            },
            SetupStep::Detach { path } => SetupView::Detach { path: path@ },
            SetupStep::RemoveDir { path } => SetupView::RemoveDir { path: path@ },
        }
    }
}

impl View for SetupAction {
    type V = ActionView;

    open spec fn view(&self) -> ActionView {
        ActionView { step: self.step@, fatal: self.fatal }
    }
}

/// What the actions hold.
pub open spec fn action_views(s: Seq<SetupAction>) -> Seq<ActionView> {
    s.map(|_i: int, a: SetupAction| a@)
}

/// A step whose failure ends the setup.
pub open spec fn must(step: SetupView) -> ActionView {
    ActionView { step, fatal: true }
}

/// A step that may fail.
pub open spec fn may(step: SetupView) -> ActionView {
    ActionView { step, fatal: false }
}

/// What is done for a submount. A missing overlay would leave its writes going to the
/// host, so its failure is fatal; a live bind that fails only limits what the test can
/// see at this path.
pub open spec fn submount_actions(step: StepView) -> Seq<ActionView> {
    match step {
        StepView::Overlay { opts, target } => seq![
            may(SetupView::MakeDir { path: target }),
            must(SetupView::MountOverlay { target, opts }),
        ],
        StepView::Bind { src, dst, is_dir } => seq![
            may(
                if is_dir {
                    SetupView::MakeDir { path: dst }
                } else {
                    SetupView::MakeFile { path: dst }
                },
            ),
            may(SetupView::BindTree { src, dst }),
        ],
    }
}

/// What is done for all submounts.
pub open spec fn all_submount_actions(steps: Seq<StepView>) -> Seq<ActionView>
    decreases steps.len(),
{
    if steps.len() == 0 {
        Seq::empty()
    } else {
        all_submount_actions(steps.drop_last()) + submount_actions(steps.last())
    }
}

/// Before the submounts: the namespaces, private mounts, and the overlay of the root.
pub open spec fn first_actions(p: RootView) -> Seq<ActionView> {
    seq![
        must(SetupView::EnterNamespace { mode: p.mode, uid_map: p.uid_map, gid_map: p.gid_map }),
        must(SetupView::PrivatizeMounts),
        must(SetupView::MountOverlay { target: p.merged, opts: p.root_opts }),
    ]
}

pub open spec fn old_root() -> Seq<u8> {
    encode_utf8("/oldroot"@)
}

/// After the submounts: the context is bound, the root switched and the old one
/// dropped, and the test's directory entered.
pub open spec fn last_actions(p: RootView) -> Seq<ActionView> {
    seq![
        may(SetupView::MakeDir { path: p.context.1 }),
        must(SetupView::BindDir { src: p.context.0, dst: p.context.1 }),
        may(SetupView::MakeDir { path: p.put_old }),
        must(SetupView::ChangeDir { path: p.merged }),
        must(SetupView::PivotRoot { new_root: p.merged, put_old: p.put_old }),
        may(SetupView::ChangeDir { path: encode_utf8("/"@) }),
        may(SetupView::Detach { path: old_root() }),
        may(SetupView::RemoveDir { path: old_root() }),
        must(SetupView::ChangeDir { path: p.chdir_to }),
    ]
}

/// All that the child does, in order.
pub open spec fn setup_of(p: RootView) -> Seq<ActionView> {
    first_actions(p) + all_submount_actions(p.steps) + last_actions(p)
}

/// A step without which a test would write to the host.
pub open spec fn isolates(step: SetupView) -> bool {
    step is EnterNamespace || step is PrivatizeMounts || step is MountOverlay || step is PivotRoot
}

proof fn lemma_submounts_isolate(steps: Seq<StepView>, i: int)
    requires
        0 <= i < all_submount_actions(steps).len(),
        isolates(all_submount_actions(steps)[i].step),
    ensures
        all_submount_actions(steps)[i].fatal,
    decreases steps.len(),
{
    let before = all_submount_actions(steps.drop_last());
    if i < before.len() {
        lemma_submounts_isolate(steps.drop_last(), i);
    } else {
        assert(all_submount_actions(steps)[i] == submount_actions(steps.last())[i - before.len()]);
    }
}

/// No step without which a test would write to the host may fail: a setup that goes
/// through has taken all of them.
pub proof fn lemma_isolation_never_fails_silently(p: RootView, i: int)
    requires
        0 <= i < setup_of(p).len(),
        isolates(setup_of(p)[i].step),
    ensures
        setup_of(p)[i].fatal,
{
    let first = first_actions(p);
    let middle = all_submount_actions(p.steps);
    let k = i - first.len();
    if i < first.len() {
        assert(setup_of(p)[i] == first[i]);
    } else if k < middle.len() {
        assert(setup_of(p)[i] == middle[k]);
        lemma_submounts_isolate(p.steps, k);
    } else {
        assert(setup_of(p)[i] == last_actions(p)[k - middle.len()]);
    }
}

fn push_action(v: &mut Vec<SetupAction>, step: SetupStep, fatal: bool)
    ensures
        action_views(final(v)@) == action_views(old(v)@).push(ActionView { step: step@, fatal }),
{
    let ghost before = v@;
    v.push(SetupAction { step, fatal });
    assert(action_views(v@) =~= action_views(before).push(ActionView { step: step@, fatal }));
}

fn push_submounts(v: &mut Vec<SetupAction>, steps: &Vec<MountStep>)
    ensures
        action_views(final(v)@) == action_views(old(v)@) + all_submount_actions(
            crate::root::step_views(steps@),
        ),
{
    let ghost start = action_views(v@);
    let ghost all = crate::root::step_views(steps@);
    let mut i: usize = 0;
    assert(all.take(0) =~= Seq::<StepView>::empty());
    assert(start + all_submount_actions(all.take(0)) =~= start);
    while i < steps.len()
        invariant
            i <= steps@.len(),
            all == crate::root::step_views(steps@),
            action_views(v@) == start + all_submount_actions(all.take(i as int)),
        decreases steps@.len() - i,
    {
        let ghost before = action_views(v@);
        let ghost next = all.take(i + 1);
        proof {
            assert(next.drop_last() =~= all.take(i as int));
            assert(next.last() == steps@[i as int]@);
        }
        match &steps[i] {
            MountStep::Overlay { opts, target } => {
                push_action(v, SetupStep::MakeDir { path: target.clone() }, false);
                push_action(
                    v,
                    SetupStep::MountOverlay {
                        target: target.clone(),
                        opts: opts.as_str().to_owned(),
                    },
                    true,
                );
            },
            MountStep::Bind { src, dst, is_dir } => {
                if *is_dir {
                    push_action(v, SetupStep::MakeDir { path: dst.clone() }, false);
                } else {
                    push_action(v, SetupStep::MakeFile { path: dst.clone() }, false);
                }
                push_action(v, SetupStep::BindTree { src: src.clone(), dst: dst.clone() }, false);
            },
        }
        i = i + 1;
        assert(action_views(v@) =~= before + submount_actions(next.last()));
        assert(action_views(v@) =~= start + all_submount_actions(next));
    }
    assert(all.take(i as int) =~= all);
}

/// All that the child does to build the root and enter it, in order.
pub fn setup_root(p: &RootOverlay) -> (v: Vec<SetupAction>)
    ensures
        action_views(v@) == setup_of(p@),
{
    let mut v: Vec<SetupAction> = Vec::new();
    push_action(
        &mut v,
        SetupStep::EnterNamespace {
            mode: p.mode,
            uid_map: p.uid_map.as_str().to_owned(),
            gid_map: p.gid_map.as_str().to_owned(),
        },
        true,
    );
    push_action(&mut v, SetupStep::PrivatizeMounts, true);
    push_action(
        &mut v,
        SetupStep::MountOverlay {
            target: p.merged.clone(),
            opts: p.root_opts.as_str().to_owned(),
        },
        true,
    );
    assert(action_views(v@) =~= first_actions(p@));
    push_submounts(&mut v, &p.steps);
    let ghost middle = action_views(v@);
    push_action(&mut v, SetupStep::MakeDir { path: p.context.1.clone() }, false);
    push_action(
        &mut v,
        SetupStep::BindDir { src: p.context.0.clone(), dst: p.context.1.clone() },
        true,
    );
    push_action(&mut v, SetupStep::MakeDir { path: p.put_old.clone() }, false);
    push_action(&mut v, SetupStep::ChangeDir { path: p.merged.clone() }, true);
    push_action(
        &mut v,
        SetupStep::PivotRoot { new_root: p.merged.clone(), put_old: p.put_old.clone() },
        true,
    );
    push_action(&mut v, SetupStep::ChangeDir { path: UnixPath::new("/") }, false);
    push_action(&mut v, SetupStep::Detach { path: UnixPath::new("/oldroot") }, false);
    push_action(&mut v, SetupStep::RemoveDir { path: UnixPath::new("/oldroot") }, false);
    push_action(&mut v, SetupStep::ChangeDir { path: p.chdir_to.clone() }, true);
    assert(action_views(v@) =~= middle + last_actions(p@));
    assert(action_views(v@) =~= setup_of(p@));
    v
}

/// What follows a step.
#[derive(Clone, Copy, PartialEq, Eq, Structural, Debug)]
pub enum AfterStep {
    Continue,
    Fail,
}

/// Whether the setup goes on after a step.
pub fn after_step(fatal: bool, succeeded: bool) -> (r: AfterStep)
    ensures
        r == AfterStep::Fail <==> fatal && !succeeded,
{
    if fatal && !succeeded {
        AfterStep::Fail
    } else {
        AfterStep::Continue
    }
}

/// The name of the directory under which a mode is rehearsed.
pub open spec fn probe_name(mode: Mode) -> Seq<char> {
    match mode {
        Mode::Privileged => ".attest-probe-priv"@,
        Mode::Userns => ".attest-probe-userns"@,
    }
}

/// The context directory under which a mode is rehearsed.
pub fn probe_context(scratch: &UnixPath, mode: Mode) -> (r: UnixPath)
    ensures
        r@ == joined(scratch@, encode_utf8(probe_name(mode))),
{
    match mode {
        Mode::Privileged => scratch.join(".attest-probe-priv"),
        Mode::Userns => scratch.join(".attest-probe-userns"),
    }
}

/// What comes next in finding out how per-test roots can be built.
#[derive(Clone, Copy, PartialEq, Eq, Structural, Debug)]
pub enum ProbeStep {
    /// Rehearse the full setup in this mode.
    Probe(Mode),
    /// The mode in which they are built, if there is one.
    Chosen(Option<Mode>),
}

/// The step after a mode was rehearsed, with success or without; the first where none was.
pub open spec fn probe_step(probed: Option<(Mode, bool)>) -> ProbeStep {
    match probed {
        None => ProbeStep::Probe(Mode::Privileged),
        Some((mode, true)) => ProbeStep::Chosen(Some(mode)),
        Some((Mode::Privileged, false)) => ProbeStep::Probe(Mode::Userns),
        Some((Mode::Userns, false)) => ProbeStep::Chosen(None),
    }
}

/// Probe how (if at all) per-test roots can be built: says what to do after a mode was
/// rehearsed. Prefers the privileged mode so tests keep their real uid when the caller
/// has `CAP_SYS_ADMIN`.
pub fn probe_support(probed: Option<(Mode, bool)>) -> (r: ProbeStep)
    ensures
        r == probe_step(probed),
{
    match probed {
        None => ProbeStep::Probe(Mode::Privileged),
        Some((mode, true)) => ProbeStep::Chosen(Some(mode)),
        Some((Mode::Privileged, false)) => ProbeStep::Probe(Mode::Userns),
        Some((Mode::Userns, false)) => ProbeStep::Chosen(None),
    }
}

/// The modes that are rehearsed from a step on and the mode that is chosen, where `works`
/// tells which of them work.
pub open spec fn probes_from(works: spec_fn(Mode) -> bool, step: ProbeStep) -> (Seq<Mode>, Option<Mode>)
    decreases
            match step {
                ProbeStep::Probe(Mode::Privileged) => 2nat,
                ProbeStep::Probe(Mode::Userns) => 1,
                ProbeStep::Chosen(_) => 0,
            },
{
    match step {
        ProbeStep::Probe(mode) => {
            let rest = probes_from(works, probe_step(Some((mode, works(mode)))));
            (seq![mode] + rest.0, rest.1)
        },
        ProbeStep::Chosen(mode) => (Seq::empty(), mode),
    }
}

/// The privileged mode is chosen where it works, and nothing else is rehearsed then; else
/// the unprivileged one where that works, else none.
pub proof fn lemma_privileged_mode_comes_first(works: spec_fn(Mode) -> bool)
    ensures
        probes_from(works, probe_step(None)) == (if works(Mode::Privileged) {
            (seq![Mode::Privileged], Some(Mode::Privileged))
        } else {
            (
                seq![Mode::Privileged, Mode::Userns],
                if works(Mode::Userns) {
                    Some(Mode::Userns)
                } else {
                    None
                },
            )
        }),
{
    reveal_with_fuel(probes_from, 4);
    let r = probes_from(works, probe_step(None));
    if works(Mode::Privileged) {
        assert(r.0 =~= seq![Mode::Privileged]);
    } else {
        assert(r.0 =~= seq![Mode::Privileged, Mode::Userns]);
    }
}

/// How an entry of a directory is copied.
#[derive(Clone, Copy, PartialEq, Eq, Structural, Debug)]
pub enum CopyAction {
    Descend,
    Relink,
    CopyFile,
    Skip,
}

/// How an entry of a directory is copied: directories, symlinks and regular files are
/// reproduced; other special files (e.g. overlay whiteout device nodes for deletions)
/// are skipped.
pub fn copy_action(is_dir: bool, is_symlink: bool, is_file: bool) -> (r: CopyAction)
    ensures
        r == (if is_dir {
            CopyAction::Descend
        } else if is_symlink {
            CopyAction::Relink
        } else if is_file {
            CopyAction::CopyFile
        } else {
            CopyAction::Skip
        }),
{
    if is_dir {
        CopyAction::Descend
    } else if is_symlink {
        CopyAction::Relink
    } else if is_file {
        CopyAction::CopyFile
    } else {
        CopyAction::Skip
    }
}

/// A step that may fail without ending the setup.
pub open spec fn is_optional(step: SetupView) -> bool {
    match step {
        SetupView::MakeDir { .. } => true,
        SetupView::MakeFile { .. } => true,
        SetupView::BindTree { .. } => true,
        SetupView::Detach { .. } => true,
        SetupView::RemoveDir { .. } => true,
        SetupView::ChangeDir { path } => path == encode_utf8("/"@),
        _ => false,
    }
}

/// What may fail is the making of mount points, the sharing of mounts of the host, and the
/// clearing away of the old root; with any other step that fails, and with the last one,
/// which enters the directory of the test, the setup has failed.
pub proof fn lemma_only_optional_steps_may_fail(p: RootView, i: int)
    requires
        0 <= i < setup_of(p).len(),
    ensures
        !setup_of(p)[i].fatal ==> is_optional(setup_of(p)[i].step),
        setup_of(p)[i].fatal && !(setup_of(p)[i].step is ChangeDir) ==> !is_optional(setup_of(p)[i].step),
        setup_of(p).last().fatal,
        setup_of(p).last().step == (SetupView::ChangeDir { path: p.chdir_to }),
{
    let first = first_actions(p);
    let middle = all_submount_actions(p.steps);
    let last = last_actions(p);
    let k = i - first.len();
    assert(setup_of(p).last() == last[8]);
    if i < first.len() {
        assert(setup_of(p)[i] == first[i]);
    } else if k < middle.len() {
        assert(setup_of(p)[i] == middle[k]);
        lemma_submounts_optional(p.steps, k);
    } else {
        assert(setup_of(p)[i] == last[k - middle.len()]);
    }
}

proof fn lemma_submounts_optional(steps: Seq<StepView>, i: int)
    requires
        0 <= i < all_submount_actions(steps).len(),
    ensures
        !all_submount_actions(steps)[i].fatal <==> is_optional(all_submount_actions(steps)[i].step),
    decreases steps.len(),
{
    let before = all_submount_actions(steps.drop_last());
    if i < before.len() {
        lemma_submounts_optional(steps.drop_last(), i);
    } else {
        assert(all_submount_actions(steps)[i] == submount_actions(steps.last())[i - before.len()]);
    }
}

/// Modes are rehearsed in directories of their own.
pub proof fn lemma_probes_are_apart(scratch: &UnixPath, a: UnixPath, b: UnixPath)
    requires
        call_ensures(probe_context, (scratch, Mode::Privileged), a),
        call_ensures(probe_context, (scratch, Mode::Userns), b),
    ensures
        !crate::path::same_path(a@, b@),
        crate::path::components(a@).drop_last() == crate::path::components(scratch@),
        crate::path::components(b@).drop_last() == crate::path::components(scratch@),
{
    let x = probe_name(Mode::Privileged);
    let y = probe_name(Mode::Userns);
    assert(x.len() == 18 && y.len() == 20 && !x.contains('/') && !y.contains('/')) by {
        reveal_strlit(".attest-probe-priv");
        reveal_strlit(".attest-probe-userns");
    }
    crate::utf8::lemma_no_slash(x);
    crate::utf8::lemma_no_slash(y);
    crate::diagnostics::lemma_len_bound(x);
    crate::diagnostics::lemma_len_bound(y);
    vstd::utf8::encode_utf8_decode_utf8(x);
    vstd::utf8::encode_utf8_decode_utf8(y);
    crate::path::lemma_joined_name(scratch@, encode_utf8(x));
    crate::path::lemma_joined_name(scratch@, encode_utf8(y));
    let c = crate::path::components(scratch@);
    assert(c.push(encode_utf8(x)).drop_last() =~= c);
    assert(c.push(encode_utf8(y)).drop_last() =~= c);
    assert(c.push(encode_utf8(x)).last() == encode_utf8(x) && c.push(encode_utf8(y)).last() == encode_utf8(y));
}

/// Of an entry of a directory everything is copied but what is no directory, no symlink and no
/// regular file; and a symlink to something is never followed.
pub proof fn lemma_what_is_copied(is_dir: bool, is_symlink: bool, is_file: bool, r: CopyAction)
    requires
        call_ensures(copy_action, (is_dir, is_symlink, is_file), r),
    ensures
        r == CopyAction::Skip <==> !is_dir && !is_symlink && !is_file,
        is_symlink && !is_dir ==> r == CopyAction::Relink,
        r == CopyAction::Descend <==> is_dir,
{
}

} // verus!
