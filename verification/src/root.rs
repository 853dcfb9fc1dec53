//! The plan for one test's ephemeral root, and the steps that set it up.

use vstd::prelude::*;
use vstd::utf8::{encode_utf8, encode_utf8_decode_utf8, is_ascii_chars_encode_utf8};

use crate::diagnostics::lemma_len_bound;
use crate::mounts::paths;
use crate::number::{decimal, lemma_decimal_injective, lemma_decimal_round_trip};
use crate::overlay::{abs_joined, cstr, id_map, in_context, join_abs, lemma_options_are_read_back, merged_dir, options_text, overlay_opts, sub_name, submount_upper_dir, submount_work_dir, upper_dir, work_dir, Mode, OverlayError, OverlayErrorView};
use crate::path::{below, below_root, components, is_absolute, joined, lemma_below_root_is_relative, lemma_joined_below, lemma_joined_name, lemma_seen_from_base, lemma_slash_in_bytes, same_path, slash, UnixPath};
use crate::submounts::Submount;
use crate::text::split;
use crate::utf8::{lemma_no_leading_slash, lemma_no_slash, lossy};

verus! {

/// One mount action performed inside the child, in order.
#[derive(Debug)]
pub enum MountStep {
    /// Ephemeral overlay mounted at `target`.
    Overlay { opts: String, target: UnixPath },
    /// Live recursive bind of `src` at `dst`.
    Bind { src: UnixPath, dst: UnixPath, is_dir: bool },
}

pub enum StepView {
    Overlay { opts: Seq<char>, target: Seq<u8> },
    Bind { src: Seq<u8>, dst: Seq<u8>, is_dir: bool },
}

impl View for MountStep {
    type V = StepView;

    open spec fn view(&self) -> StepView {
        match *self {
            MountStep::Overlay { opts, target } => StepView::Overlay {
                opts: opts@,
                target: target@,
            },
            MountStep::Bind { src, dst, is_dir } => StepView::Bind {
                src: src@,
                dst: dst@,
                is_dir,
            },
        }
    }
}

/// What the steps hold.
pub open spec fn step_views(s: Seq<MountStep>) -> Seq<StepView> {
    s.map(|_i: int, m: MountStep| m@)
}

/// A precomputed plan for building one test's ephemeral root.
#[derive(Debug)]
pub struct RootOverlay {
    pub mode: Mode,
    pub uid_map: String,
    pub gid_map: String,
    /// Overlay opts for `/`: `lowerdir=/,upperdir=..,workdir=..[,userxattr]`.
    pub root_opts: String,
    /// Mount point of the `/` overlay; also the pivot_root new-root.
    pub merged: UnixPath,
    /// Submount overlays and live binds, shallowest-first.
    pub steps: Vec<MountStep>,
    /// `(source, target)` bind keeping the context dir live inside the new root, so
    /// `functions.sh` and log capture work even though the context falls under an
    /// overlaid mount (it usually lives under `/tmp`).
    pub context: (UnixPath, UnixPath),
    /// `put_old` directory for pivot_root (under `merged`).
    pub put_old: UnixPath,
    /// Absolute invocation dir to `chdir` into after pivoting.
    pub chdir_to: UnixPath,
}

pub struct RootView {
    pub mode: Mode,
    pub uid_map: Seq<char>,
    pub gid_map: Seq<char>,
    pub root_opts: Seq<char>,
    pub merged: Seq<u8>,
    pub steps: Seq<StepView>,
    pub context: (Seq<u8>, Seq<u8>),
    pub put_old: Seq<u8>,
    pub chdir_to: Seq<u8>,
}

impl View for RootOverlay {
    type V = RootView;

    open spec fn view(&self) -> RootView {
        RootView {
            mode: self.mode,
            uid_map: self.uid_map@,
            gid_map: self.gid_map@,
            root_opts: self.root_opts@,
            merged: self.merged@,
            steps: step_views(self.steps@),
            context: (self.context.0@, self.context.1@),
            put_old: self.put_old@,
            chdir_to: self.chdir_to@,
        }
    }
}

/// How many of the first `n` submounts are ephemeral.
pub open spec fn ephemeral_before(sms: Seq<Submount>, n: int) -> nat
    decreases n,
{
    if n <= 0 {
        0
    } else {
        ephemeral_before(sms, n - 1) + if sms[n - 1].ephemeral {
            1nat
        } else {
            0
        }
    }
}

/// Where a submount goes in the new root.
pub open spec fn target_of(context: Seq<u8>, source: Seq<u8>) -> Seq<u8> {
    abs_joined(in_context(context, "merged"@), source)
}

/// The upper and the work directory of the submount at `i`, which is ephemeral.
pub open spec fn layers_of(context: Seq<u8>, sms: Seq<Submount>, i: int) -> (Seq<u8>, Seq<u8>) {
    let k = ephemeral_before(sms, i);
    (in_context(context, sub_name(k, "-upper"@)), in_context(context, sub_name(k, "-work"@)))
}

/// The options of the overlay at `i`.
pub open spec fn sub_options(mode: Mode, context: Seq<u8>, sms: Seq<Submount>, i: int) -> Seq<char> {
    let (upper, work) = layers_of(context, sms, i);
    options_text(sms[i].source@, upper, work, mode)
}

/// The step of the submount at `i`.
pub open spec fn step_at(mode: Mode, context: Seq<u8>, sms: Seq<Submount>, i: int) -> Result<
    StepView,
    OverlayErrorView,
> {
    let source = sms[i].source@;
    let target = target_of(context, source);
    let opts = sub_options(mode, context, sms, i);
    if target.contains(0u8) {
        Err(OverlayErrorView::PathHasNul(target))
    } else if sms[i].ephemeral {
        if opts.contains('\0') {
            Err(OverlayErrorView::OptionsHaveNul)
        } else {
            Ok(StepView::Overlay { opts, target })
        }
    } else if source.contains(0u8) {
        Err(OverlayErrorView::PathHasNul(source))
    } else {
        Ok(StepView::Bind { src: source, dst: target, is_dir: sms[i].is_dir })
    }
}

/// The steps of the first `n` submounts, or the first error.
pub open spec fn steps_of(mode: Mode, context: Seq<u8>, sms: Seq<Submount>, n: int) -> Result<
    Seq<StepView>,
    OverlayErrorView,
>
    decreases n,
{
    if n <= 0 {
        Ok(Seq::empty())
    } else {
        match steps_of(mode, context, sms, n - 1) {
            Ok(s) => match step_at(mode, context, sms, n - 1) {
                Ok(step) => Ok(s.push(step)),
                Err(e) => Err(e),
            },
            Err(e) => Err(e),
        }
    }
}

/// The directories to create for the first `n` submounts, up to the first error.
pub open spec fn dirs_of(mode: Mode, context: Seq<u8>, sms: Seq<Submount>, n: int) -> Seq<Seq<u8>>
    decreases n,
{
    if n <= 0 {
        seq![
            in_context(context, "upper"@),
            in_context(context, "work"@),
            in_context(context, "merged"@),
        ]
    } else {
        let before = dirs_of(mode, context, sms, n - 1);
        let i = n - 1;
        if steps_of(mode, context, sms, i) is Ok && !target_of(context, sms[i].source@).contains(0u8)
            && sms[i].ephemeral {
            let (upper, work) = layers_of(context, sms, i);
            before.push(upper).push(work)
        } else {
            before
        }
    }
}

/// The first of the paths that holds a NUL.
pub open spec fn nul_among(ps: Seq<Seq<u8>>) -> Option<Seq<u8>>
    decreases ps.len(),
{
    if ps.len() == 0 {
        None
    } else if ps[0].contains(0u8) {
        Some(ps[0])
    } else {
        nul_among(ps.drop_first())
    }
}

/// The plan for a test's root, or why there is none.
pub open spec fn root_plan(
    mode: Mode,
    context: Seq<u8>,
    dir: Seq<u8>,
    sms: Seq<Submount>,
    uid: u32,
    gid: u32,
) -> Result<RootView, OverlayErrorView> {
    let merged = in_context(context, "merged"@);
    let put_old = joined(merged, encode_utf8("oldroot"@));
    let inside = abs_joined(merged, context);
    let root_opts = options_text(
        encode_utf8("/"@),
        in_context(context, "upper"@),
        in_context(context, "work"@),
        mode,
    );
    match steps_of(mode, context, sms, sms.len() as int) {
        Err(e) => Err(e),
        Ok(steps) => if root_opts.contains('\0') {
            Err(OverlayErrorView::OptionsHaveNul)
        } else {
            match nul_among(seq![put_old, context, inside, merged, dir]) {
                Some(p) => Err(OverlayErrorView::PathHasNul(p)),
                None => Ok(
                    RootView {
                        mode,
                        uid_map: "0 "@ + decimal(uid as nat) + " 1"@,
                        gid_map: "0 "@ + decimal(gid as nat) + " 1"@,
                        root_opts,
                        merged,
                        steps,
                        context: (context, inside),
                        put_old,
                        chdir_to: dir,
                    },
                ),
            }
        },
    }
}

/// The directories to create, and the plan.
#[derive(Debug)]
pub struct RootBuild {
    pub dirs: Vec<UnixPath>,
    pub plan: Result<RootOverlay, OverlayError>,
}

fn step_for(mode: Mode, context: &UnixPath, merged: &UnixPath, sm: &Submount, eph: usize, dirs: &mut Vec<
    UnixPath,
>, Ghost(sms): Ghost<Seq<Submount>>, Ghost(i): Ghost<int>) -> (r: Result<MountStep, OverlayError>)
    requires
        0 <= i < sms.len(),
        sms[i] == *sm,
        merged@ == in_context(context@, "merged"@),
        eph == ephemeral_before(sms, i),
    ensures
        match r {
            Ok(s) => step_at(mode, context@, sms, i) == Ok::<StepView, OverlayErrorView>(s@),
            Err(e) => step_at(mode, context@, sms, i) == Err::<StepView, OverlayErrorView>(e@),
        },
        paths(final(dirs)@) == (if !target_of(context@, sm.source@).contains(0u8) && sm.ephemeral {
            let (upper, work) = layers_of(context@, sms, i);
            paths(old(dirs)@).push(upper).push(work)
        } else {
            paths(old(dirs)@)
        }),
{
    let target = match cstr(join_abs(merged, &sm.source)) {
        Ok(p) => p,
        Err(e) => {
            return Err(e);
        },
    };
    if sm.ephemeral {
        let sub_upper = submount_upper_dir(context, eph);
        let sub_work = submount_work_dir(context, eph);
        let opts = overlay_opts(&sm.source, &sub_upper, &sub_work, mode);
        let ghost before = dirs@;
        let ghost layers = (sub_upper@, sub_work@);
        dirs.push(sub_upper);
        dirs.push(sub_work);
        assert(paths(dirs@) =~= paths(before).push(layers.0).push(layers.1));
        match opts {
            Ok(opts) => Ok(MountStep::Overlay { opts, target }),
            Err(e) => Err(e),
        }
    } else {
        match cstr(sm.source.clone()) {
            Ok(src) => Ok(MountStep::Bind { src, dst: target, is_dir: sm.is_dir }),
            Err(e) => Err(e),
        }
    }
}

proof fn lemma_first_error(mode: Mode, context: Seq<u8>, sms: Seq<Submount>, k: int, n: int)
    requires
        0 <= k <= n,
        steps_of(mode, context, sms, k) is Err,
    ensures
        steps_of(mode, context, sms, n) == steps_of(mode, context, sms, k),
        dirs_of(mode, context, sms, n) == dirs_of(mode, context, sms, k),
    decreases n - k,
{
    if k < n {
        lemma_first_error(mode, context, sms, k, n - 1);
    }
}

impl RootOverlay {
    /// Build the plan for one test and say which overlay dirs to create under
    /// `context`. `submounts` is the shared plan of all tests.
    pub fn build(
        mode: Mode,
        context: &UnixPath,
        invocation_dir: &UnixPath,
        submounts: &Vec<Submount>,
        uid: u32,
        gid: u32,
    ) -> (r: RootBuild)
        ensures
            paths(r.dirs@) == dirs_of(mode, context@, submounts@, submounts@.len() as int),
            match r.plan {
                Ok(p) => root_plan(mode, context@, invocation_dir@, submounts@, uid, gid) == Ok::<
                    RootView,
                    OverlayErrorView,
                >(p@),
                Err(e) => root_plan(mode, context@, invocation_dir@, submounts@, uid, gid) == Err::<
                    RootView,
                    OverlayErrorView,
                >(e@),
            },
    {
        let merged = merged_dir(context);
        let upper = upper_dir(context);
        let work = work_dir(context);
        let mut dirs: Vec<UnixPath> = Vec::new();
        dirs.push(upper.clone());
        dirs.push(work.clone());
        dirs.push(merged.clone());
        let ghost sms = submounts@;
        let ghost c = context@;
        assert(paths(dirs@) =~= dirs_of(mode, c, sms, 0));
        let mut steps: Vec<MountStep> = Vec::new();
        assert(step_views(steps@) =~= Seq::<StepView>::empty());
        let mut eph: usize = 0;
        let mut i: usize = 0;
        while i < submounts.len()
            invariant
                i <= submounts@.len(),
                sms == submounts@,
                c == context@,
                merged@ == in_context(c, "merged"@),
                eph <= i,
                eph == ephemeral_before(sms, i as int),
                paths(dirs@) == dirs_of(mode, c, sms, i as int),
                steps_of(mode, c, sms, i as int) == Ok::<Seq<StepView>, OverlayErrorView>(
                    step_views(steps@),
                ),
            decreases submounts@.len() - i,
        {
            let r = step_for(
                mode,
                context,
                &merged,
                &submounts[i],
                eph,
                &mut dirs,
                Ghost(sms),
                Ghost(i as int),
            );
            match r {
                Ok(step) => {
                    let ghost before = steps@;
                    steps.push(step);
                    assert(step_views(steps@) =~= step_views(before).push(step@));
                },
                Err(e) => {
                    proof {
                        lemma_first_error(mode, c, sms, i + 1, sms.len() as int);
                    }
                    return RootBuild { dirs, plan: Err(e) };
                },
            }
            if submounts[i].ephemeral {
                eph = eph + 1;
            }
            i = i + 1;
        }
        let plan = finish(mode, context, invocation_dir, upper, work, merged, steps, uid, gid);
        RootBuild { dirs, plan }
    }
}

proof fn lemma_nul_step(ps: Seq<Seq<u8>>, k: int)
    requires
        0 <= k < ps.len(),
    ensures
        nul_among(ps.skip(k)) == (if ps[k].contains(0u8) {
            Some(ps[k])
        } else {
            nul_among(ps.skip(k + 1))
        }),
{
    assert(ps.skip(k).drop_first() =~= ps.skip(k + 1));
}

fn finish(
    mode: Mode,
    context: &UnixPath,
    invocation_dir: &UnixPath,
    upper: UnixPath,
    work: UnixPath,
    merged: UnixPath,
    steps: Vec<MountStep>,
    uid: u32,
    gid: u32,
) -> (r: Result<RootOverlay, OverlayError>)
    requires
        upper@ == in_context(context@, "upper"@),
        work@ == in_context(context@, "work"@),
        merged@ == in_context(context@, "merged"@),
    ensures
        forall|sms: Seq<Submount>|
            #![trigger steps_of(mode, context@, sms, sms.len() as int)]
            steps_of(mode, context@, sms, sms.len() as int) == Ok::<Seq<StepView>, OverlayErrorView>(
                step_views(steps@),
            ) ==> (match r {
                Ok(p) => root_plan(mode, context@, invocation_dir@, sms, uid, gid) == Ok::<
                    RootView,
                    OverlayErrorView,
                >(p@),
                Err(e) => root_plan(mode, context@, invocation_dir@, sms, uid, gid) == Err::<
                    RootView,
                    OverlayErrorView,
                >(e@),
            }),
{
    let root = UnixPath::new("/");
    let root_opts = match overlay_opts(&root, &upper, &work, mode) {
        Ok(o) => o,
        Err(e) => {
            return Err(e);
        },
    };
    let put_old = merged.join("oldroot");
    let inside = join_abs(&merged, context);
    proof {
        let ps = seq![put_old@, context@, inside@, merged@, invocation_dir@];
        assert(ps.skip(0) =~= ps);
        lemma_nul_step(ps, 0);
        lemma_nul_step(ps, 1);
        lemma_nul_step(ps, 2);
        lemma_nul_step(ps, 3);
        lemma_nul_step(ps, 4);
        assert(ps.skip(5) =~= Seq::<Seq<u8>>::empty());
    }
    let put_old = match cstr(put_old) {
        Ok(p) => p,
        Err(e) => {
            return Err(e);
        },
    };
    let context_src = match cstr(context.clone()) {
        Ok(p) => p,
        Err(e) => {
            return Err(e);
        },
    };
    let context_dst = match cstr(inside) {
        Ok(p) => p,
        Err(e) => {
            return Err(e);
        },
    };
    let merged = match cstr(merged) {
        Ok(p) => p,
        Err(e) => {
            return Err(e);
        },
    };
    let chdir_to = match cstr(invocation_dir.clone()) {
        Ok(p) => p,
        Err(e) => {
            return Err(e);
        },
    };
    Ok(
        RootOverlay {
            mode,
            uid_map: id_map(uid),
            gid_map: id_map(gid),
            root_opts,
            merged,
            steps,
            context: (context_src, context_dst),
            put_old,
            chdir_to,
        },
    )
}

/// A submount with an absolute path goes below the merged root, and that lies below the
/// context.
pub proof fn lemma_targets_stay_inside(context: Seq<u8>, source: Seq<u8>)
    requires
        is_absolute(source),
    ensures
        below(target_of(context, source), in_context(context, "merged"@)),
        below(in_context(context, "merged"@), context),
{
    let merged = encode_utf8("merged"@);
    lemma_below_root_is_relative(source);
    lemma_joined_below(in_context(context, "merged"@), below_root(source));
    assert(!is_absolute(merged)) by {
        reveal_strlit("merged");
        is_ascii_chars_encode_utf8("merged"@);
        assert("merged"@[0] as u8 == merged[0]);
    }
    lemma_joined_below(context, merged);
}

proof fn lemma_sub_name_relative(i: nat, suffix: Seq<char>)
    ensures
        !is_absolute(encode_utf8(sub_name(i, suffix))),
{
    reveal_strlit("sub");
    let s = sub_name(i, suffix);
    assert(s[0] == 's');
    lemma_no_leading_slash(s);
}

proof fn lemma_sub_name_injective(i: nat, j: nat, suffix: Seq<char>)
    requires
        sub_name(i, suffix) == sub_name(j, suffix),
    ensures
        i == j,
{
    let (a, b) = (sub_name(i, suffix), sub_name(j, suffix));
    let n = "sub"@.len() as int;
    assert(a.len() == b.len());
    assert(a.subrange(n, a.len() - suffix.len()) =~= decimal(i));
    assert(b.subrange(n, b.len() - suffix.len()) =~= decimal(j));
    lemma_decimal_injective(i, j);
}

/// Different ephemeral submounts have different layers: no two share an upper or a work
/// directory.
pub proof fn lemma_layers_differ(context: Seq<u8>, i: nat, j: nat, suffix: Seq<char>)
    requires
        i != j,
    ensures
        in_context(context, sub_name(i, suffix)) != in_context(context, sub_name(j, suffix)),
{
    let (a, b) = (sub_name(i, suffix), sub_name(j, suffix));
    let (x, y) = (encode_utf8(a), encode_utf8(b));
    lemma_sub_name_relative(i, suffix);
    lemma_sub_name_relative(j, suffix);
    if in_context(context, a) == in_context(context, b) {
        let head = if context.len() > 0 && context.last() != 47 {
            context.push(47u8)
        } else {
            context
        };
        let n = head.len() as int;
        assert((head + x).skip(n) =~= x);
        assert((head + y).skip(n) =~= y);
        encode_utf8_decode_utf8(a);
        encode_utf8_decode_utf8(b);
        lemma_sub_name_injective(i, j, suffix);
    }
}

proof fn lemma_ephemeral_grows(sms: Seq<Submount>, i: int, j: int)
    requires
        0 <= i < j <= sms.len(),
        sms[i].ephemeral,
    ensures
        ephemeral_before(sms, i) < ephemeral_before(sms, j),
    decreases j - i,
{
    if i < j - 1 {
        lemma_ephemeral_grows(sms, i, j - 1);
    }
}

/// Two names of directories in a context lead to two directories.
proof fn lemma_apart(context: Seq<u8>, a: Seq<char>, b: Seq<char>)
    requires
        a.len() > 1,
        b.len() > 1,
        !a.contains('/'),
        !b.contains('/'),
        a != b,
    ensures
        !same_path(in_context(context, a), in_context(context, b)),
        components(in_context(context, a)).drop_last() == components(context),
{
    let (x, y) = (encode_utf8(a), encode_utf8(b));
    lemma_no_slash(a);
    lemma_no_slash(b);
    lemma_len_bound(a);
    lemma_len_bound(b);
    lemma_joined_name(context, x);
    lemma_joined_name(context, y);
    encode_utf8_decode_utf8(a);
    encode_utf8_decode_utf8(b);
    let c = components(context);
    assert(c.push(x).last() == x && c.push(y).last() == y);
    assert(c.push(x).drop_last() =~= c);
}

proof fn lemma_sub_name_plain(i: nat, suffix: Seq<char>)
    requires
        !suffix.contains('/'),
    ensures
        sub_name(i, suffix).len() > 1,
        sub_name(i, suffix)[0] == 's',
        !sub_name(i, suffix).contains('/'),
{
    reveal_strlit("sub");
    lemma_decimal_round_trip(i);
    let s = sub_name(i, suffix);
    assert forall|k: int| 0 <= k < s.len() implies s[k] != '/' by {
        if 3 <= k < 3 + decimal(i).len() {
            assert(s[k] == decimal(i)[k - 3]);
            assert(crate::number::is_digit(decimal(i)[k - 3]));
        } else if k >= 3 {
            assert(s[k] == suffix[k - 3 - decimal(i).len()]);
            assert(suffix.contains(s[k]));
        }
    }
}

/// No overlay of a test writes where another does: all upper and work directories lie
/// directly in the context and are different ones, and none is the mount point of the root.
pub proof fn lemma_overlays_are_apart(context: Seq<u8>, sms: Seq<Submount>, i: int, j: int)
    requires
        0 <= i < sms.len(),
        0 <= j < sms.len(),
        sms[i].ephemeral,
        sms[j].ephemeral,
    ensures
        ({
            let (u, w) = layers_of(context, sms, i);
            let (v, x) = layers_of(context, sms, j);
            let (upper, work) = (in_context(context, "upper"@), in_context(context, "work"@));
            let merged = in_context(context, "merged"@);
            &&& components(u).drop_last() == components(context)
            &&& components(w).drop_last() == components(context)
            &&& components(upper).drop_last() == components(context)
            &&& components(work).drop_last() == components(context)
            &&& !same_path(u, x) && !same_path(upper, work)
            &&& i != j ==> !same_path(u, v) && !same_path(w, x)
            &&& !same_path(u, upper) && !same_path(u, work) && !same_path(u, merged)
            &&& !same_path(w, upper) && !same_path(w, work) && !same_path(w, merged)
            &&& !same_path(upper, merged) && !same_path(work, merged)
        }),
{
    let (k, l) = (ephemeral_before(sms, i), ephemeral_before(sms, j));
    if i < j {
        lemma_ephemeral_grows(sms, i, j);
    } else if j < i {
        lemma_ephemeral_grows(sms, j, i);
    }
    reveal_strlit("-upper");
    reveal_strlit("-work");
    reveal_strlit("upper");
    reveal_strlit("work");
    reveal_strlit("merged");
    let (a, b) = (sub_name(k, "-upper"@), sub_name(k, "-work"@));
    let (c, d) = (sub_name(l, "-upper"@), sub_name(l, "-work"@));
    lemma_sub_name_plain(k, "-upper"@);
    lemma_sub_name_plain(k, "-work"@);
    lemma_sub_name_plain(l, "-upper"@);
    lemma_sub_name_plain(l, "-work"@);
    assert(a.last() == 'r' && d.last() == 'k' && b.last() == 'k');
    assert("upper"@[0] == 'u' && "work"@[0] == 'w' && "merged"@[0] == 'm');
    lemma_apart(context, a, d);
    lemma_apart(context, b, a);
    lemma_apart(context, "upper"@, "work"@);
    lemma_apart(context, "work"@, "merged"@);
    lemma_apart(context, "upper"@, "merged"@);
    lemma_apart(context, a, "upper"@);
    lemma_apart(context, a, "work"@);
    lemma_apart(context, a, "merged"@);
    lemma_apart(context, b, "upper"@);
    lemma_apart(context, b, "work"@);
    lemma_apart(context, b, "merged"@);
    if i != j {
        if a == c {
            lemma_sub_name_injective(k, l, "-upper"@);
        }
        if b == d {
            lemma_sub_name_injective(k, l, "-work"@);
        }
        lemma_apart(context, a, c);
        lemma_apart(context, b, d);
    }
}

proof fn lemma_dirs_stay(mode: Mode, context: Seq<u8>, sms: Seq<Submount>, i: int, n: int, d: Seq<u8>)
    requires
        0 <= i <= n,
        dirs_of(mode, context, sms, i).contains(d),
    ensures
        dirs_of(mode, context, sms, n).contains(d),
    decreases n - i,
{
    if i < n {
        lemma_dirs_stay(mode, context, sms, i, n - 1, d);
        let before = dirs_of(mode, context, sms, n - 1);
        let k = choose|k: int| 0 <= k < before.len() && before[k] == d;
        assert(dirs_of(mode, context, sms, n)[k] == d);
    }
}

proof fn lemma_steps_before(mode: Mode, context: Seq<u8>, sms: Seq<Submount>, i: int, n: int)
    requires
        0 <= i <= n,
        steps_of(mode, context, sms, n) is Ok,
    ensures
        steps_of(mode, context, sms, i) is Ok,
    decreases n - i,
{
    if i < n {
        lemma_steps_before(mode, context, sms, i, n - 1);
    }
}

/// Where there is a plan, every directory that an overlay of it is made of was asked for.
pub proof fn lemma_layers_are_created(
    mode: Mode,
    context: Seq<u8>,
    dir: Seq<u8>,
    sms: Seq<Submount>,
    uid: u32,
    gid: u32,
    i: int,
)
    requires
        root_plan(mode, context, dir, sms, uid, gid) is Ok,
    ensures
        ({
            let dirs = dirs_of(mode, context, sms, sms.len() as int);
            &&& dirs.contains(in_context(context, "upper"@))
            &&& dirs.contains(in_context(context, "work"@))
            &&& dirs.contains(in_context(context, "merged"@))
            &&& 0 <= i < sms.len() && sms[i].ephemeral ==> dirs.contains(
                layers_of(context, sms, i).0,
            ) && dirs.contains(layers_of(context, sms, i).1)
        }),
{
    let n = sms.len() as int;
    let first = dirs_of(mode, context, sms, 0);
    assert(first[0] == in_context(context, "upper"@));
    assert(first[1] == in_context(context, "work"@));
    assert(first[2] == in_context(context, "merged"@));
    lemma_dirs_stay(mode, context, sms, 0, n, first[0]);
    lemma_dirs_stay(mode, context, sms, 0, n, first[1]);
    lemma_dirs_stay(mode, context, sms, 0, n, first[2]);
    if 0 <= i < n && sms[i].ephemeral {
        lemma_steps_before(mode, context, sms, i + 1, n);
        let (u, w) = layers_of(context, sms, i);
        let dirs = dirs_of(mode, context, sms, i + 1);
        assert(step_at(mode, context, sms, i) is Ok);
        assert(dirs[dirs.len() - 2] == u && dirs[dirs.len() - 1] == w);
        lemma_dirs_stay(mode, context, sms, i + 1, n, u);
        lemma_dirs_stay(mode, context, sms, i + 1, n, w);
    }
}

proof fn lemma_step_of_plan(mode: Mode, context: Seq<u8>, sms: Seq<Submount>, n: int, i: int)
    requires
        0 <= i < n,
        steps_of(mode, context, sms, n) is Ok,
    ensures
        steps_of(mode, context, sms, n)->Ok_0.len() == n,
        step_at(mode, context, sms, i) == Ok::<StepView, OverlayErrorView>(
            steps_of(mode, context, sms, n)->Ok_0[i],
        ),
    decreases n,
{
    if i < n - 1 {
        lemma_step_of_plan(mode, context, sms, n - 1, i);
    } else if n > 1 {
        lemma_step_of_plan(mode, context, sms, n - 1, 0);
    } else {
        assert(steps_of(mode, context, sms, 0)->Ok_0.len() == 0);
    }
}

/// Every submount has its step, in their order. An ephemeral one gets an overlay over its own
/// files, with layers of its own, as the kernel reads the options; a live one is bound from
/// where it is. Either goes to its own path below the new root. The root itself is an overlay
/// over the root of the host.
pub proof fn lemma_each_submount_is_made_as_planned(
    mode: Mode,
    context: Seq<u8>,
    dir: Seq<u8>,
    sms: Seq<Submount>,
    uid: u32,
    gid: u32,
    i: int,
)
    requires
        root_plan(mode, context, dir, sms, uid, gid) is Ok,
        0 <= i < sms.len(),
        is_absolute(sms[i].source@),
        context.len() > 0,
        !lossy(sms[i].source@).contains(','),
        !lossy(layers_of(context, sms, i).0).contains(','),
        !lossy(layers_of(context, sms, i).1).contains(','),
        !lossy(in_context(context, "upper"@)).contains(','),
        !lossy(in_context(context, "work"@)).contains(','),
        !lossy(slash()).contains(','),
    ensures
        ({
            let p = root_plan(mode, context, dir, sms, uid, gid)->Ok_0;
            let source = sms[i].source@;
            let there = components(in_context(context, "merged"@)) + components(source).drop_first();
            let root = split(p.root_opts, ',');
            &&& p.steps.len() == sms.len()
            &&& match p.steps[i] {
                StepView::Overlay { opts, target } => {
                    let o = split(opts, ',');
                    &&& sms[i].ephemeral
                    &&& components(target) == there
                    &&& o[0] == "lowerdir="@ + lossy(source)
                    &&& o[1] == "upperdir="@ + lossy(layers_of(context, sms, i).0)
                    &&& o[2] == "workdir="@ + lossy(layers_of(context, sms, i).1)
                    &&& o.len() == 3 <==> mode == Mode::Privileged
                },
                StepView::Bind { src, dst, is_dir } => {
                    &&& !sms[i].ephemeral
                    &&& components(dst) == there
                    &&& src == source
                    &&& is_dir == sms[i].is_dir
                },
            }
            &&& root[0] == "lowerdir="@ + lossy(slash())
            &&& root[1] == "upperdir="@ + lossy(in_context(context, "upper"@))
            &&& root[2] == "workdir="@ + lossy(in_context(context, "work"@))
        }),
{
    let source = sms[i].source@;
    let (upper, work) = layers_of(context, sms, i);
    lemma_step_of_plan(mode, context, sms, sms.len() as int, i);
    lemma_options_are_read_back(source, upper, work, mode);
    lemma_slash_in_bytes();
    lemma_options_are_read_back(slash(), in_context(context, "upper"@), in_context(context, "work"@), mode);
    let merged = in_context(context, "merged"@);
    assert(merged.len() > 0);
    lemma_seen_from_base(merged, source);
}

proof fn lemma_none_has_nul(ps: Seq<Seq<u8>>)
    ensures
        nul_among(ps) is None <==> forall|i: int| 0 <= i < ps.len() ==> !(#[trigger] ps[i]).contains(0u8),
    decreases ps.len(),
{
    if ps.len() > 0 {
        let rest = ps.drop_first();
        lemma_none_has_nul(rest);
        if forall|i: int| 0 <= i < ps.len() ==> !(#[trigger] ps[i]).contains(0u8) {
            assert(!ps[0].contains(0u8));
            assert forall|i: int| 0 <= i < rest.len() implies !(#[trigger] rest[i]).contains(0u8) by {
                assert(rest[i] == ps[i + 1]);
            }
        }
        if nul_among(ps) is None {
            assert forall|i: int| 0 <= i < ps.len() implies !(#[trigger] ps[i]).contains(0u8) by {
                if i > 0 {
                    assert(rest[i - 1] == ps[i]);
                }
            }
        }
    }
}

/// No path and no options of a plan hold a NUL, so that all can be handed to the kernel.
pub proof fn lemma_plan_holds_no_nul(
    mode: Mode,
    context: Seq<u8>,
    dir: Seq<u8>,
    sms: Seq<Submount>,
    uid: u32,
    gid: u32,
    i: int,
)
    requires
        root_plan(mode, context, dir, sms, uid, gid) is Ok,
        0 <= i < sms.len(),
    ensures
        ({
            let p = root_plan(mode, context, dir, sms, uid, gid)->Ok_0;
            &&& !p.root_opts.contains('\0')
            &&& !p.merged.contains(0u8) && !p.put_old.contains(0u8) && !p.chdir_to.contains(0u8)
            &&& !p.context.0.contains(0u8) && !p.context.1.contains(0u8)
            &&& match p.steps[i] {
                StepView::Overlay { opts, target } => !opts.contains('\0') && !target.contains(0u8),
                StepView::Bind { src, dst, .. } => !src.contains(0u8) && !dst.contains(0u8),
            }
        }),
{
    lemma_step_of_plan(mode, context, sms, sms.len() as int, i);
    let merged = in_context(context, "merged"@);
    let put_old = joined(merged, encode_utf8("oldroot"@));
    let inside = abs_joined(merged, context);
    let ps = seq![put_old, context, inside, merged, dir];
    lemma_none_has_nul(ps);
    assert(ps[0] == put_old && ps[1] == context && ps[2] == inside && ps[3] == merged && ps[4] == dir);
}

} // verus!
