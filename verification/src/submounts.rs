//! Which mounts a test's root gets, and how.

use vstd::prelude::*;
use vstd::utf8::encode_utf8;

use crate::mounts::{listed_mounts, parse_mount_points, paths};
use crate::order::{lex, sort, stably_sorted, Ordered};
use crate::path::{below, component_less, components, lemma_path_order, path_less, same_path, UnixPath};
use crate::text::rows;

verus! {

/// A mount under `/` to re-establish inside each test's ephemeral root.
#[derive(Debug)]
pub struct Submount {
    pub source: UnixPath,
    /// Directory mountpoints are recreated with `mkdir`; file binds (e.g.
    /// `/etc/resolv.conf`) get an empty file to bind over.
    pub is_dir: bool,
    /// Re-established as an ephemeral overlay (writes discarded) rather than a
    /// live recursive bind (writes shared with the host).
    pub ephemeral: bool,
}

pub open spec fn root() -> Seq<u8> {
    encode_utf8("/"@)
}

/// How many components a path has.
pub open spec fn depth(p: Seq<u8>) -> nat {
    components(p).len()
}

/// The path is a mount point that no later entry of the list shadows.
pub open spec fn visible(mounts: Seq<Seq<u8>>, p: Seq<u8>) -> bool {
    exists|i: int|
        0 <= i < mounts.len() && #[trigger] mounts[i] == p && forall|j: int|
            i < j < mounts.len() ==> !same_path(#[trigger] mounts[j], p)
}

/// The mount holding `dir`: the longest mount point that is an ancestor of (or equal
/// to) `dir`.
pub open spec fn holds(mounts: Seq<Seq<u8>>, dir: Seq<u8>, p: Seq<u8>) -> bool {
    &&& visible(mounts, p)
    &&& below(dir, p)
    &&& forall|q: Seq<u8>| #[trigger] visible(mounts, q) && below(dir, q) ==> depth(q) <= depth(p)
}

/// A scratch mount gets its own ephemeral overlay, so the common case of tests writing
/// temp files stays isolated.
pub open spec fn is_scratch(p: Seq<u8>) -> bool {
    same_path(p, encode_utf8("/tmp"@)) || same_path(p, encode_utf8("/var/tmp"@))
}

/// The mount becomes an ephemeral overlay: it holds the invocation directory, or is for
/// scratch files. The root is no submount.
pub open spec fn is_ephemeral(mounts: Seq<Seq<u8>>, dir: Seq<u8>, p: Seq<u8>) -> bool {
    !same_path(p, root()) && (holds(mounts, dir, p) || is_scratch(p))
}

/// The mount is shared with the host.
pub open spec fn is_live(mounts: Seq<Seq<u8>>, dir: Seq<u8>, p: Seq<u8>) -> bool {
    visible(mounts, p) && !same_path(p, root()) && !is_ephemeral(mounts, dir, p)
}

/// `p` lies below `k`, and is another path.
pub open spec fn strictly_below(p: Seq<u8>, k: Seq<u8>) -> bool {
    below(p, k) && !same_path(p, k)
}

/// The path is a mount point that becomes an ephemeral overlay.
pub open spec fn is_overlay(mounts: Seq<Seq<u8>>, dir: Seq<u8>, p: Seq<u8>) -> bool {
    visible(mounts, p) && is_ephemeral(mounts, dir, p)
}

/// No overlay lies between `k` and `p`, above the one and below the other.
pub open spec fn is_clear(mounts: Seq<Seq<u8>>, dir: Seq<u8>, k: Seq<u8>, p: Seq<u8>) -> bool {
    forall|e: Seq<u8>|
        #[trigger] is_overlay(mounts, dir, e) ==> !(strictly_below(p, e) && strictly_below(e, k))
}

/// A live mount above `p` carries it along: its recursive bind reaches `p`, as no
/// overlay hides what lies there.
pub open spec fn is_carried(mounts: Seq<Seq<u8>>, dir: Seq<u8>, p: Seq<u8>) -> bool {
    exists|k: Seq<u8>|
        #[trigger] is_live(mounts, dir, k) && strictly_below(p, k) && is_clear(mounts, dir, k, p)
}

/// The mount is re-established by itself: every visible mount but the root, unless it is
/// live and carried along.
pub open spec fn is_planned(mounts: Seq<Seq<u8>>, dir: Seq<u8>, p: Seq<u8>) -> bool {
    &&& visible(mounts, p)
    &&& !same_path(p, root())
    &&& is_ephemeral(mounts, dir, p) || !is_carried(mounts, dir, p)
}

/// Shallower mounts come first; mounts as deep as each other in the order of paths.
pub open spec fn mount_less(a: Seq<u8>, b: Seq<u8>) -> bool {
    depth(a) < depth(b) || (depth(a) == depth(b) && path_less(a, b))
}

/// The sources of the plan.
pub open spec fn sources(plan: Seq<Submount>) -> Seq<Seq<u8>> {
    plan.map(|_i: int, s: Submount| s.source@)
}

proof fn lemma_below_transitive(a: Seq<u8>, b: Seq<u8>, c: Seq<u8>)
    requires
        below(a, b),
        below(b, c),
    ensures
        below(a, c),
{
    let (x, y, z) = (components(a), components(b), components(c));
    assert(x.take(z.len() as int) =~= x.take(y.len() as int).take(z.len() as int));
}

proof fn lemma_strictly_below(a: Seq<u8>, b: Seq<u8>)
    requires
        strictly_below(a, b),
    ensures
        depth(b) < depth(a),
{
    let (x, y) = (components(a), components(b));
    if y.len() == x.len() {
        assert(x.take(y.len() as int) =~= x);
    }
}

/// Of the entries with one path a single one is visible.
proof fn lemma_visible_once(mounts: Seq<Seq<u8>>, p: Seq<u8>, q: Seq<u8>)
    requires
        visible(mounts, p),
        visible(mounts, q),
        same_path(p, q),
    ensures
        p == q,
{
    let i = choose|i: int|
        0 <= i < mounts.len() && #[trigger] mounts[i] == p && forall|j: int|
            i < j < mounts.len() ==> !same_path(#[trigger] mounts[j], p);
    let k = choose|k: int|
        0 <= k < mounts.len() && #[trigger] mounts[k] == q && forall|j: int|
            k < j < mounts.len() ==> !same_path(#[trigger] mounts[j], q);
    if i < k {
        assert(!same_path(mounts[k], p));
    } else if k < i {
        assert(!same_path(mounts[i], q));
    }
}

/// Of two paths above a third, one lies below the other.
proof fn lemma_ancestors(p: Seq<u8>, a: Seq<u8>, b: Seq<u8>)
    requires
        below(p, a),
        below(p, b),
        depth(a) <= depth(b),
    ensures
        below(b, a),
        depth(a) == depth(b) ==> same_path(a, b),
{
    let (x, y, z) = (components(p), components(a), components(b));
    assert(z.take(y.len() as int) =~= x.take(y.len() as int));
    if y.len() == z.len() {
        assert(z.take(y.len() as int) =~= z);
    }
}

/// What a live mount carries, a live mount that carries it carries too.
proof fn lemma_clear_above(mounts: Seq<Seq<u8>>, dir: Seq<u8>, top: Seq<u8>, k: Seq<u8>, p: Seq<u8>)
    requires
        is_live(mounts, dir, k),
        strictly_below(p, k),
        below(k, top),
        is_clear(mounts, dir, k, p),
        is_clear(mounts, dir, top, k),
    ensures
        is_clear(mounts, dir, top, p),
{
    assert forall|e: Seq<u8>| #[trigger] is_overlay(mounts, dir, e) implies !(strictly_below(p, e)
        && strictly_below(e, top)) by {
        if strictly_below(p, e) && strictly_below(e, top) {
            if depth(k) < depth(e) {
                lemma_ancestors(p, k, e);
                assert(strictly_below(e, k));
            } else {
                lemma_ancestors(p, e, k);
                if same_path(k, e) {
                    lemma_visible_once(mounts, k, e);
                }
                assert(strictly_below(k, e));
            }
        }
    }
}

/// Every live mount is in the plan, or below a live mount of the plan that carries it:
/// no overlay lies between them.
pub proof fn lemma_live_mounts_are_covered(mounts: Seq<Seq<u8>>, dir: Seq<u8>, p: Seq<u8>)
    requires
        is_live(mounts, dir, p),
    ensures
        exists|k: Seq<u8>|
            #[trigger] is_planned(mounts, dir, k) && is_live(mounts, dir, k) && below(p, k)
                && is_clear(mounts, dir, k, p),
    decreases depth(p),
{
    if is_carried(mounts, dir, p) {
        let k = choose|k: Seq<u8>|
            #[trigger] is_live(mounts, dir, k) && strictly_below(p, k) && is_clear(mounts, dir, k, p);
        lemma_strictly_below(p, k);
        lemma_live_mounts_are_covered(mounts, dir, k);
        let top = choose|t: Seq<u8>|
            #[trigger] is_planned(mounts, dir, t) && is_live(mounts, dir, t) && below(k, t)
                && is_clear(mounts, dir, t, k);
        lemma_below_transitive(p, k, top);
        lemma_clear_above(mounts, dir, top, k, p);
        assert(is_planned(mounts, dir, top));
    } else {
        assert(components(p).take(components(p).len() as int) =~= components(p));
        assert forall|e: Seq<u8>| #[trigger] is_overlay(mounts, dir, e) implies !(strictly_below(
            p,
            e,
        ) && strictly_below(e, p)) by {
            if strictly_below(p, e) && strictly_below(e, p) {
                lemma_strictly_below(p, e);
                lemma_strictly_below(e, p);
            }
        }
        assert(is_planned(mounts, dir, p));
    }
}

/// Every visible mount but the root is in the plan, or below a live mount of the plan with
/// no overlay between them.
pub proof fn lemma_every_mount_is_covered(mounts: Seq<Seq<u8>>, dir: Seq<u8>, p: Seq<u8>)
    requires
        visible(mounts, p),
        !same_path(p, root()),
    ensures
        is_planned(mounts, dir, p) || exists|k: Seq<u8>|
            #[trigger] is_planned(mounts, dir, k) && is_live(mounts, dir, k) && below(p, k)
                && is_clear(mounts, dir, k, p),
{
    if !is_ephemeral(mounts, dir, p) {
        lemma_live_mounts_are_covered(mounts, dir, p);
    }
}

/// The plan re-establishes the mounts that it has to, shallowest first, each in its way.
pub open spec fn plans<F: Fn(&UnixPath) -> bool>(
    mounts: Seq<Seq<u8>>,
    dir: Seq<u8>,
    is_dir: F,
    out: Seq<Submount>,
) -> bool {
    &&& forall|p: Seq<u8>| #[trigger] sources(out).contains(p) <==> is_planned(mounts, dir, p)
    &&& forall|i: int, j: int|
        0 <= i < j < out.len() ==> mount_less(
            (#[trigger] out[i]).source@,
            (#[trigger] out[j]).source@,
        )
    &&& forall|i: int| 0 <= i < out.len() ==> flags_fit(mounts, dir, is_dir, #[trigger] out[i])
}

/// The mount is marked as it has to be; what is no overlay is a directory as `is_dir`
/// says.
pub open spec fn flags_fit<F: Fn(&UnixPath) -> bool>(
    mounts: Seq<Seq<u8>>,
    dir: Seq<u8>,
    is_dir: F,
    s: Submount,
) -> bool {
    &&& s.ephemeral == is_ephemeral(mounts, dir, s.source@)
    &&& if s.ephemeral {
        s.is_dir
    } else {
        call_ensures(is_dir, (&s.source,), s.is_dir)
    }
}

/// A mount point, ordered by its depth.
#[derive(Debug)]
pub struct MountEntry(pub UnixPath);

impl Ordered for MountEntry {
    open spec fn before(self, other: Self) -> bool {
        mount_less(self.0@, other.0@)
    }

    proof fn lemma_irreflexive(a: Self) {
        UnixPath::lemma_irreflexive(a.0);
    }

    proof fn lemma_weak(a: Self, b: Self, c: Self) {
        if depth(a.0@) == depth(c.0@) && depth(b.0@) == depth(a.0@) {
            UnixPath::lemma_weak(a.0, b.0, c.0);
        }
    }

    proof fn lemma_transitive(a: Self, b: Self, c: Self) {
        if depth(a.0@) == depth(b.0@) && depth(b.0@) == depth(c.0@) {
            UnixPath::lemma_transitive(a.0, b.0, c.0);
        }
    }

    fn precedes(&self, other: &Self) -> (r: bool) {
        let a: usize = depth_of(&self.0);
        let b: usize = depth_of(&other.0);
        a < b || (a == b && self.0.precedes(&other.0))
    }
}

fn depth_of(p: &UnixPath) -> (n: usize)
    ensures
        n == depth(p@),
{
    let c = p.components();
    assert(rows(c@).len() == c@.len());
    c.len()
}

/// The order of mounts is total: of two paths that differ, one comes first.
proof fn lemma_mounts_differ(a: Seq<u8>, b: Seq<u8>)
    requires
        !mount_less(b, a),
        !same_path(a, b),
    ensures
        mount_less(a, b),
{
    lemma_path_order();
    let l = |x: Seq<Seq<u8>>, y: Seq<Seq<u8>>| lex(x, y, component_less());
    let (x, y) = (components(a), components(b));
    assert(x == y || l(x, y) || l(y, x));
}

/// The index of the mount that holds `dir`: of the longest that are an ancestor of it,
/// the last.
pub open spec fn is_holder(mounts: Seq<Seq<u8>>, dir: Seq<u8>, i: int) -> bool {
    &&& 0 <= i < mounts.len()
    &&& below(dir, mounts[i])
    &&& forall|j: int|
        #![trigger mounts[j]]
        0 <= j < mounts.len() && below(dir, mounts[j]) ==> depth(mounts[j]) <= depth(mounts[i]) && (j
            > i ==> depth(mounts[j]) < depth(mounts[i]))
}

/// The mount holding `dir`: the longest mount point that is an ancestor of (or equal
/// to) `dir`; `/` when the root filesystem itself holds it.
pub fn mount_of(dir: &UnixPath, mounts: &Vec<UnixPath>) -> (r: UnixPath)
    ensures
        (exists|i: int| #[trigger] is_holder(paths(mounts@), dir@, i) && r@ == mounts@[i]@) || (r@
            == root() && forall|j: int| 0 <= j < mounts@.len() ==> !below(dir@, (#[trigger] mounts@[j])@)),
{
    let ghost all = paths(mounts@);
    let mut best: Option<usize> = None;
    let mut most: usize = 0;
    let mut i: usize = 0;
    while i < mounts.len()
        invariant
            i <= mounts@.len(),
            all == paths(mounts@),
            best matches Some(b) ==> b < i && is_holder(all.take(i as int), dir@, b as int) && most
                == depth(all[b as int]),
            best is None ==> forall|j: int| 0 <= j < i ==> !below(dir@, #[trigger] all[j]),
        decreases mounts@.len() - i,
    {
        let ghost now = all.take(i as int);
        let ghost next = all.take(i + 1);
        assert(all[i as int] == mounts@[i as int]@);
        assert(forall|j: int| 0 <= j < i ==> now[j] == all[j] && next[j] == all[j]);
        assert(next[i as int] == all[i as int]);
        if dir.starts_with(&mounts[i]) {
            let d: usize = depth_of(&mounts[i]);
            if best.is_none() || d >= most {
                proof {
                    assert forall|j: int|
                        #![trigger next[j]]
                        0 <= j < next.len() && below(dir@, next[j]) implies depth(next[j])
                        <= depth(next[i as int]) && (j > i ==> depth(next[j]) < depth(
                        next[i as int],
                    )) by {
                        if j < i {
                            assert(below(dir@, now[j]));
                        }
                    }
                    assert(is_holder(next, dir@, i as int));
                }
                best = Some(i);
                most = d;
            } else {
                proof {
                    let b = best->0;
                    assert forall|j: int|
                        #![trigger next[j]]
                        0 <= j < next.len() && below(dir@, next[j]) implies depth(next[j])
                        <= depth(next[b as int]) && (j > b ==> depth(next[j]) < depth(
                        next[b as int],
                    )) by {
                        if j < i {
                            assert(below(dir@, now[j]));
                        }
                    }
                    assert(is_holder(next, dir@, b as int));
                }
            }
        } else {
            proof {
                if let Some(b) = best {
                    assert forall|j: int|
                        #![trigger next[j]]
                        0 <= j < next.len() && below(dir@, next[j]) implies depth(next[j])
                        <= depth(next[b as int]) && (j > b ==> depth(next[j]) < depth(
                        next[b as int],
                    )) by {
                        if j < i {
                            assert(below(dir@, now[j]));
                        }
                    }
                    assert(is_holder(next, dir@, b as int));
                }
            }
        }
        i = i + 1;
    }
    assert(all.take(i as int) =~= all);
    match best {
        Some(b) => {
            assert(is_holder(all, dir@, b as int));
            mounts[b].clone()
        },
        None => {
            assert forall|j: int| 0 <= j < mounts@.len() implies !below(
                dir@,
                (#[trigger] mounts@[j])@,
            ) by {
                assert(all[j] == mounts@[j]@);
            }
            UnixPath::new("/")
        },
    }
}

/// The list without the entries that a later one shadows.
pub fn visible_mounts(mounts: Vec<UnixPath>) -> (uniq: Vec<UnixPath>)
    ensures
        forall|p: Seq<u8>|
            #[trigger] paths(uniq@).contains(p) <==> visible(paths(mounts@), p),
        forall|a: int, b: int|
            0 <= a < b < uniq@.len() ==> !same_path(
                (#[trigger] uniq@[a])@,
                (#[trigger] uniq@[b])@,
            ),
{
    let ghost all = paths(mounts@);
    let mut uniq: Vec<UnixPath> = Vec::new();
    let mut i: usize = 0;
    assert forall|p: Seq<u8>| #[trigger] paths(uniq@).contains(p) <==> visible(all.take(0), p) by {}
    while i < mounts.len()
        invariant
            i <= mounts@.len(),
            all == paths(mounts@),
            forall|p: Seq<u8>|
                #[trigger] paths(uniq@).contains(p) <==> visible(all.take(i as int), p),
            forall|a: int, b: int|
                0 <= a < b < uniq@.len() ==> !same_path(
                    (#[trigger] uniq@[a])@,
                    (#[trigger] uniq@[b])@,
                ),
        decreases mounts@.len() - i,
    {
        let m = mounts[i].clone();
        let ghost before = uniq@;
        let mut k: usize = 0;
        while k < uniq.len() && !uniq[k].same_as(&m)
            invariant
                k <= uniq@.len(),
                forall|a: int| 0 <= a < k ==> !same_path((#[trigger] uniq@[a])@, m@),
            decreases uniq@.len() - k,
        {
            k = k + 1;
        }
        let ghost at = k as int;
        if k < uniq.len() {
            let shadowed = uniq.remove(k);
        }
        let ghost kept = uniq@;
        proof {
            assert forall|a: int| 0 <= a < kept.len() implies !same_path((#[trigger] kept[a])@, m@) by {
                if a >= at {
                    assert(kept[a] == before[a + 1]);
                    if same_path(before[a + 1]@, m@) {
                        assert(same_path(before[at]@, before[a + 1]@));
                    }
                }
            }
            assert forall|p: Seq<u8>|
                paths(kept).contains(p) <==> paths(before).contains(p) && !same_path(p, m@) by {
                if paths(kept).contains(p) {
                    let a = choose|a: int| 0 <= a < paths(kept).len() && paths(kept)[a] == p;
                    assert(kept[a]@ == p);
                    if a < at {
                        assert(paths(before)[a] == p);
                    } else {
                        assert(paths(before)[a + 1] == p);
                    }
                }
                if paths(before).contains(p) && !same_path(p, m@) {
                    let a = choose|a: int| 0 <= a < paths(before).len() && paths(before)[a] == p;
                    assert(before[a]@ == p);
                    if a < at {
                        assert(paths(kept)[a] == p);
                    } else {
                        assert(paths(kept)[a - 1] == p);
                    }
                }
            }
        }
        uniq.push(m);
        proof {
            assert(paths(uniq@) =~= paths(kept).push(m@));
            assert(all[i as int] == m@);
            assert forall|p: Seq<u8>|
                #[trigger] paths(uniq@).contains(p) <==> visible(all.take(i + 1), p) by {
                lemma_visible_step(all, i as int, p);
                assert(paths(kept).push(m@).contains(p) <==> paths(kept).contains(p) || p == m@) by {
                    if paths(kept).contains(p) {
                        let a = choose|a: int| 0 <= a < paths(kept).len() && paths(kept)[a] == p;
                        assert(paths(kept).push(m@)[a] == p);
                    }
                    assert(paths(kept).push(m@)[paths(kept).len() as int] == m@);
                }
            }
        }
        i = i + 1;
    }
    assert(all.take(i as int) =~= all);
    uniq
}

proof fn lemma_visible_step(all: Seq<Seq<u8>>, i: int, p: Seq<u8>)
    requires
        0 <= i < all.len(),
    ensures
        visible(all.take(i + 1), p) <==> (p == all[i] || (visible(all.take(i), p) && !same_path(
            p,
            all[i],
        ))),
{
    let now = all.take(i);
    let next = all.take(i + 1);
    assert(forall|j: int| 0 <= j < i ==> now[j] == next[j]);
    assert(next[i] == all[i]);
    if visible(next, p) {
        let k = choose|k: int|
            0 <= k < next.len() && #[trigger] next[k] == p && forall|j: int|
                k < j < next.len() ==> !same_path(#[trigger] next[j], p);
        if k < i {
            assert(now[k] == p);
            assert(!same_path(next[i], p));
        }
    }
    if p == all[i] {
        assert(next[i] == p);
    } else if visible(now, p) && !same_path(p, all[i]) {
        let k = choose|k: int|
            0 <= k < now.len() && #[trigger] now[k] == p && forall|j: int|
                k < j < now.len() ==> !same_path(#[trigger] now[j], p);
        assert(next[k] == p);
        assert forall|j: int| k < j < next.len() implies !same_path(#[trigger] next[j], p) by {
            if j < i {
                assert(now[j] == next[j]);
            }
        }
    }
}

/// What `mount_of` finds among the visible mounts is the mount that holds `dir`.
proof fn lemma_project(all: Seq<Seq<u8>>, uniq: Seq<UnixPath>, dir: Seq<u8>, r: Seq<u8>, p: Seq<u8>)
    requires
        forall|q: Seq<u8>| #[trigger] paths(uniq).contains(q) <==> visible(all, q),
        forall|a: int, b: int|
            0 <= a < b < uniq.len() ==> !same_path((#[trigger] uniq[a])@, (#[trigger] uniq[b])@),
        (exists|i: int| #[trigger] is_holder(paths(uniq), dir, i) && r == uniq[i]@) || (r == root()
            && forall|j: int| 0 <= j < uniq.len() ==> !below(dir, (#[trigger] uniq[j])@)),
        visible(all, p),
        !same_path(p, root()),
    ensures
        same_path(p, r) <==> holds(all, dir, p),
{
    let u = paths(uniq);
    assert(u.contains(p));
    let a = choose|a: int| 0 <= a < u.len() && u[a] == p;
    assert(uniq[a]@ == p);
    if exists|i: int| #[trigger] is_holder(u, dir, i) && r == uniq[i]@ {
        let i = choose|i: int| #[trigger] is_holder(u, dir, i) && r == uniq[i]@;
        assert(u[i] == r);
        if same_path(p, r) {
            if a != i {
                assert(same_path(uniq[a]@, uniq[i]@) && same_path(uniq[i]@, uniq[a]@));
            }
            assert(p == r);
            assert forall|q: Seq<u8>| #[trigger] visible(all, q) && below(dir, q) implies depth(q)
                <= depth(p) by {
                assert(u.contains(q));
                let j = choose|j: int| 0 <= j < u.len() && u[j] == q;
                assert(below(dir, u[j]));
            }
        }
        if holds(all, dir, p) {
            assert(u.contains(u[i]));
            assert(visible(all, r));
            assert(depth(u[a]) <= depth(u[i]));
            let d = components(dir);
            assert(components(p) =~= d.take(depth(p) as int));
            assert(components(r) =~= d.take(depth(r) as int));
        }
    }
}

/// Plan how each mount under `/` is re-established inside per-test roots: the
/// project mount (holding `invocation_dir`) and the scratch mounts become ephemeral
/// overlays, everything else a live recursive bind. Mounts already carried by a live
/// ancestor's recursive bind are dropped; children of ephemeral mounts are kept (an
/// overlay does not cross into them), also where a live mount stands above both. Sorted shallowest-first so parents mount before
/// children.
pub fn plan_submounts<F: Fn(&UnixPath) -> bool>(
    mounts: Vec<UnixPath>,
    invocation_dir: &UnixPath,
    is_dir: F,
) -> (out: Vec<Submount>)
    requires
        forall|p: &UnixPath| #[trigger] call_requires(is_dir, (p,)),
    ensures
        plans(paths(mounts@), invocation_dir@, is_dir, out@),
{
    let ghost all = paths(mounts@);
    let ghost dir = invocation_dir@;
    let uniq = visible_mounts(mounts);
    let ghost seen = uniq@;
    let root = UnixPath::new("/");
    let tmp = UnixPath::new("/tmp");
    let var_tmp = UnixPath::new("/var/tmp");
    let project = mount_of(invocation_dir, &uniq);
    let entries = into_entries(uniq);
    let ghost unsorted = entries@;
    let order = sort(entries);
    proof {
        lemma_sorted_entries(seen, unsorted, order@);
        assert forall|p: Seq<u8>|
            visible(all, p) && !same_path(p, self::root()) implies (#[trigger] same_path(p, project@)
            <==> holds(all, dir, p)) by {
            lemma_project(all, seen, dir, project@, p);
        }
        assert(order@.take(0) =~= Seq::<MountEntry>::empty());
    }
    let mut out: Vec<Submount> = Vec::new();
    let mut i: usize = 0;
    while i < order.len()
        invariant
            i <= order@.len(),
            dir == invocation_dir@,
            root@ == self::root(),
            tmp@ == encode_utf8("/tmp"@),
            var_tmp@ == encode_utf8("/var/tmp"@),
            forall|p: &UnixPath| #[trigger] call_requires(is_dir, (p,)),
            forall|p: Seq<u8>|
                visible(all, p) && !same_path(p, self::root()) ==> (#[trigger] same_path(p, project@)
                    <==> holds(all, dir, p)),
            forall|a: int, b: int|
                0 <= a < b < order@.len() ==> mount_less(
                    (#[trigger] order@[a]).0@,
                    (#[trigger] order@[b]).0@,
                ),
            forall|p: Seq<u8>| #[trigger] entry_paths(order@).contains(p) <==> visible(all, p),
            plans_part(all, dir, is_dir, order@.take(i as int), out@),
        decreases order@.len() - i,
    {
        let m = &order[i].0;
        let ghost now = order@.take(i as int);
        let ghost next = order@.take(i + 1);
        proof {
            assert(entry_paths(order@)[i as int] == m@);
            assert(entry_paths(order@).contains(m@));
            assert(next =~= now.push(order@[i as int]));
        }
        if m.same_as(&root) {
            proof {
                lemma_plan_skip(all, dir, is_dir, now, order@[i as int], out@);
            }
            i = i + 1;
            continue;
        }
        let ephemeral = m.same_as(&project) || m.same_as(&tmp) || m.same_as(&var_tmp);
        assert(ephemeral == is_ephemeral(all, dir, m@));
        let carried = carried_by(&out, m);
        proof {
            lemma_carried(all, dir, is_dir, order@, i as int, out@);
        }
        if !ephemeral && carried {
            proof {
                lemma_plan_skip(all, dir, is_dir, now, order@[i as int], out@);
            }
            i = i + 1;
            continue;
        }
        let source = m.clone();
        let is_dir_here = ephemeral || is_dir(&source);
        let ghost before = out@;
        let entry = Submount { source, is_dir: is_dir_here, ephemeral };
        out.push(entry);
        proof {
            lemma_plan_push(all, dir, is_dir, now, order@[i as int], before, entry);
        }
        i = i + 1;
    }
    assert(order@.take(i as int) =~= order@);
    out
}

/// The paths of the entries.
pub open spec fn entry_paths(s: Seq<MountEntry>) -> Seq<Seq<u8>> {
    s.map(|_i: int, e: MountEntry| e.0@)
}

fn into_entries(v: Vec<UnixPath>) -> (r: Vec<MountEntry>)
    ensures
        r@.len() == v@.len(),
        forall|i: int| 0 <= i < v@.len() ==> (#[trigger] r@[i]).0@ == v@[i]@,
{
    let mut r: Vec<MountEntry> = Vec::new();
    let mut i: usize = 0;
    while i < v.len()
        invariant
            i <= v@.len(),
            r@.len() == i,
            forall|k: int| 0 <= k < i ==> (#[trigger] r@[k]).0@ == v@[k]@,
        decreases v@.len() - i,
    {
        r.push(MountEntry(v[i].clone()));
        i = i + 1;
    }
    r
}

/// Sorted entries with different paths: the same paths, in strict order.
proof fn lemma_sorted_entries(seen: Seq<UnixPath>, unsorted: Seq<MountEntry>, order: Seq<MountEntry>)
    requires
        unsorted.len() == seen.len(),
        forall|i: int| 0 <= i < seen.len() ==> (#[trigger] unsorted[i]).0@ == seen[i]@,
        forall|a: int, b: int|
            0 <= a < b < seen.len() ==> !same_path((#[trigger] seen[a])@, (#[trigger] seen[b])@),
        stably_sorted(unsorted, order),
    ensures
        forall|p: Seq<u8>|
            #[trigger] entry_paths(order).contains(p) <==> paths(seen).contains(p),
        forall|a: int, b: int|
            0 <= a < b < order.len() ==> mount_less(
                (#[trigger] order[a]).0@,
                (#[trigger] order[b]).0@,
            ),
{
    unsorted.to_multiset_ensures();
    order.to_multiset_ensures();
    assert forall|e: MountEntry| order.contains(e) <==> unsorted.contains(e) by {
        assert(order.contains(e) <==> order.to_multiset().count(e) > 0);
        assert(unsorted.contains(e) <==> unsorted.to_multiset().count(e) > 0);
    }
    assert forall|a: int, b: int|
        0 <= a < unsorted.len() && 0 <= b < unsorted.len() && a != b implies !same_path(
        (#[trigger] unsorted[a]).0@,
        (#[trigger] unsorted[b]).0@,
    ) by {
        assert(unsorted[a].0@ == seen[a]@ && unsorted[b].0@ == seen[b]@);
        if a < b {
            assert(!same_path(seen[a]@, seen[b]@));
        } else {
            assert(!same_path(seen[b]@, seen[a]@));
        }
    }
    assert(unsorted.no_duplicates()) by {
        assert forall|a: int, b: int|
            0 <= a < unsorted.len() && 0 <= b < unsorted.len() && a != b implies unsorted[a]
            != unsorted[b] by {
            assert(!same_path(unsorted[a].0@, unsorted[b].0@));
        }
    }
    unsorted.lemma_multiset_has_no_duplicates();
    order.lemma_multiset_has_no_duplicates_conv();
    assert forall|p: Seq<u8>| #[trigger] entry_paths(order).contains(p) <==> paths(seen).contains(p) by {
        if entry_paths(order).contains(p) {
            let a = choose|a: int| 0 <= a < entry_paths(order).len() && entry_paths(order)[a] == p;
            assert(order.contains(order[a]));
            let b = choose|b: int| 0 <= b < unsorted.len() && unsorted[b] == order[a];
            assert(paths(seen)[b] == p);
        }
        if paths(seen).contains(p) {
            let b = choose|b: int| 0 <= b < paths(seen).len() && paths(seen)[b] == p;
            assert(unsorted[b].0@ == p);
            assert(unsorted.contains(unsorted[b]));
            let a = choose|a: int| 0 <= a < order.len() && order[a] == unsorted[b];
            assert(entry_paths(order)[a] == p);
        }
    }
    assert forall|a: int, b: int| 0 <= a < b < order.len() implies mount_less(
        (#[trigger] order[a]).0@,
        (#[trigger] order[b]).0@,
    ) by {
        assert(order.contains(order[a]) && order.contains(order[b]));
        let c = choose|c: int| 0 <= c < unsorted.len() && unsorted[c] == order[a];
        let d = choose|d: int| 0 <= d < unsorted.len() && unsorted[d] == order[b];
        assert(c != d);
        assert(!same_path(unsorted[c].0@, unsorted[d].0@));
        assert(!order[b].before(order[a]));
        lemma_mounts_differ(order[a].0@, order[b].0@);
    }
}

/// `out` plans the entries of `done`.
spec fn plans_part<F: Fn(&UnixPath) -> bool>(
    all: Seq<Seq<u8>>,
    dir: Seq<u8>,
    is_dir: F,
    done: Seq<MountEntry>,
    out: Seq<Submount>,
) -> bool {
    &&& forall|p: Seq<u8>|
        #[trigger] sources(out).contains(p) <==> entry_paths(done).contains(p) && is_planned(
            all,
            dir,
            p,
        )
    &&& forall|i: int, j: int|
        0 <= i < j < out.len() ==> mount_less(
            (#[trigger] out[i]).source@,
            (#[trigger] out[j]).source@,
        )
    &&& forall|i: int| 0 <= i < out.len() ==> flags_fit(all, dir, is_dir, #[trigger] out[i])
}

proof fn lemma_entry_push(done: Seq<MountEntry>, e: MountEntry, p: Seq<u8>)
    ensures
        entry_paths(done.push(e)).contains(p) <==> entry_paths(done).contains(p) || p == e.0@,
{
    let s = entry_paths(done);
    let t = entry_paths(done.push(e));
    assert(t =~= s.push(e.0@));
    if s.contains(p) {
        let a = choose|a: int| 0 <= a < s.len() && s[a] == p;
        assert(t[a] == p);
    }
    assert(t[s.len() as int] == e.0@);
}

proof fn lemma_plan_skip<F: Fn(&UnixPath) -> bool>(
    all: Seq<Seq<u8>>,
    dir: Seq<u8>,
    is_dir: F,
    done: Seq<MountEntry>,
    e: MountEntry,
    out: Seq<Submount>,
)
    requires
        plans_part(all, dir, is_dir, done, out),
        !is_planned(all, dir, e.0@),
    ensures
        plans_part(all, dir, is_dir, done.push(e), out),
{
    assert forall|p: Seq<u8>| #[trigger] sources(out).contains(p) <==> entry_paths(
        done.push(e),
    ).contains(p) && is_planned(all, dir, p) by {
        lemma_entry_push(done, e, p);
    }
}

proof fn lemma_plan_push<F: Fn(&UnixPath) -> bool>(
    all: Seq<Seq<u8>>,
    dir: Seq<u8>,
    is_dir: F,
    done: Seq<MountEntry>,
    e: MountEntry,
    out: Seq<Submount>,
    s: Submount,
)
    requires
        plans_part(all, dir, is_dir, done, out),
        is_planned(all, dir, e.0@),
        s.source@ == e.0@,
        flags_fit(all, dir, is_dir, s),
        forall|a: int| 0 <= a < done.len() ==> mount_less((#[trigger] done[a]).0@, e.0@),
    ensures
        plans_part(all, dir, is_dir, done.push(e), out.push(s)),
{
    let r = out.push(s);
    assert(sources(r) =~= sources(out).push(s.source@));
    assert forall|p: Seq<u8>| #[trigger] sources(r).contains(p) <==> entry_paths(
        done.push(e),
    ).contains(p) && is_planned(all, dir, p) by {
        lemma_entry_push(done, e, p);
        assert(sources(r).contains(p) <==> sources(out).contains(p) || p == s.source@) by {
            if sources(out).contains(p) {
                let a = choose|a: int| 0 <= a < sources(out).len() && sources(out)[a] == p;
                assert(sources(r)[a] == p);
            }
            assert(sources(r)[sources(out).len() as int] == s.source@);
        }
    }
    assert forall|i: int, j: int| 0 <= i < j < r.len() implies mount_less(
        (#[trigger] r[i]).source@,
        (#[trigger] r[j]).source@,
    ) by {
        if j == out.len() {
            assert(sources(out)[i] == out[i].source@);
            assert(sources(out).contains(out[i].source@));
            let a = choose|a: int|
                0 <= a < entry_paths(done).len() && entry_paths(done)[a] == out[i].source@;
            assert(done[a].0@ == out[i].source@);
        }
    }
}

/// The mount at `k` of the plan is live and above `m`, with no overlay of the plan between.
spec fn carries(out: Seq<Submount>, k: int, m: Seq<u8>) -> bool {
    &&& 0 <= k < out.len()
    &&& !out[k].ephemeral
    &&& strictly_below(m, out[k].source@)
    &&& forall|e: int|
        0 <= e < out.len() && (#[trigger] out[e]).ephemeral ==> !(strictly_below(m, out[e].source@)
            && strictly_below(out[e].source@, out[k].source@))
}

fn is_strictly_below(p: &UnixPath, k: &UnixPath) -> (r: bool)
    ensures
        r == strictly_below(p@, k@),
{
    p.starts_with(k) && !p.same_as(k)
}

fn carried_by(out: &Vec<Submount>, m: &UnixPath) -> (r: bool)
    ensures
        r == exists|k: int| carries(out@, k, m@),
{
    let mut k: usize = 0;
    while k < out.len()
        invariant
            k <= out@.len(),
            forall|j: int| 0 <= j < k ==> !carries(out@, j, m@),
        decreases out@.len() - k,
    {
        if !out[k].ephemeral && is_strictly_below(m, &out[k].source) {
            let mut hidden = false;
            let mut e: usize = 0;
            while e < out.len()
                invariant
                    k < out@.len(),
                    e <= out@.len(),
                    hidden == exists|j: int|
                        0 <= j < e && (#[trigger] out@[j]).ephemeral && strictly_below(
                            m@,
                            out@[j].source@,
                        ) && strictly_below(out@[j].source@, out@[k as int].source@),
                decreases out@.len() - e,
            {
                if out[e].ephemeral && is_strictly_below(m, &out[e].source) && is_strictly_below(
                    &out[e].source,
                    &out[k].source,
                ) {
                    hidden = true;
                    assert(out@[e as int].ephemeral);
                }
                e = e + 1;
            }
            if !hidden {
                assert(carries(out@, k as int, m@));
                return true;
            }
        }
        k = k + 1;
    }
    false
}

proof fn lemma_carried<F: Fn(&UnixPath) -> bool>(
    all: Seq<Seq<u8>>,
    dir: Seq<u8>,
    is_dir: F,
    order: Seq<MountEntry>,
    i: int,
    out: Seq<Submount>,
)
    requires
        0 <= i < order.len(),
        plans_part(all, dir, is_dir, order.take(i), out),
        forall|a: int, b: int|
            0 <= a < b < order.len() ==> mount_less(
                (#[trigger] order[a]).0@,
                (#[trigger] order[b]).0@,
            ),
        forall|p: Seq<u8>| #[trigger] entry_paths(order).contains(p) <==> visible(all, p),
    ensures
        is_carried(all, dir, order[i].0@) <==> exists|k: int| carries(out, k, order[i].0@),
{
    let m = order[i].0@;
    assert forall|p: Seq<u8>|
        #[trigger] is_planned(all, dir, p) && depth(p) < depth(m) implies sources(out).contains(p) by {
        lemma_planned_before(all, dir, is_dir, order, i, out, p);
    }
    if is_carried(all, dir, m) {
        let k = choose|k: Seq<u8>|
            #[trigger] is_live(all, dir, k) && strictly_below(m, k) && is_clear(all, dir, k, m);
        lemma_live_mounts_are_covered(all, dir, k);
        let top = choose|t: Seq<u8>|
            #[trigger] is_planned(all, dir, t) && is_live(all, dir, t) && below(k, t) && is_clear(
                all,
                dir,
                t,
                k,
            );
        lemma_below_transitive(m, k, top);
        lemma_clear_above(all, dir, top, k, m);
        lemma_strictly_below(m, k);
        assert(sources(out).contains(top));
        let c = choose|c: int| 0 <= c < sources(out).len() && sources(out)[c] == top;
        assert(out[c].source@ == top);
        assert(flags_fit(all, dir, is_dir, out[c]));
        assert forall|e: int| 0 <= e < out.len() && (#[trigger] out[e]).ephemeral implies !(
        strictly_below(m, out[e].source@) && strictly_below(out[e].source@, top)) by {
            assert(sources(out)[e] == out[e].source@);
            assert(sources(out).contains(out[e].source@));
            assert(flags_fit(all, dir, is_dir, out[e]));
            assert(is_overlay(all, dir, out[e].source@));
        }
        assert(carries(out, c, m));
    }
    if exists|k: int| carries(out, k, m) {
        let k = choose|k: int| carries(out, k, m);
        let above = out[k].source@;
        assert(sources(out)[k] == above);
        assert(sources(out).contains(above));
        assert(flags_fit(all, dir, is_dir, out[k]));
        assert(is_live(all, dir, above));
        assert forall|e: Seq<u8>| #[trigger] is_overlay(all, dir, e) implies !(strictly_below(m, e)
            && strictly_below(e, above)) by {
            if strictly_below(m, e) && strictly_below(e, above) {
                lemma_strictly_below(m, e);
                assert(is_planned(all, dir, e));
                assert(sources(out).contains(e));
                let c = choose|c: int| 0 <= c < sources(out).len() && sources(out)[c] == e;
                assert(out[c].source@ == e);
                assert(flags_fit(all, dir, is_dir, out[c]));
                assert(out[c].ephemeral);
            }
        }
        assert(is_clear(all, dir, above, m));
    }
}

/// What is planned and less deep than an entry is planned before it.
proof fn lemma_planned_before<F: Fn(&UnixPath) -> bool>(
    all: Seq<Seq<u8>>,
    dir: Seq<u8>,
    is_dir: F,
    order: Seq<MountEntry>,
    i: int,
    out: Seq<Submount>,
    p: Seq<u8>,
)
    requires
        0 <= i < order.len(),
        plans_part(all, dir, is_dir, order.take(i), out),
        forall|a: int, b: int|
            0 <= a < b < order.len() ==> mount_less(
                (#[trigger] order[a]).0@,
                (#[trigger] order[b]).0@,
            ),
        forall|q: Seq<u8>| #[trigger] entry_paths(order).contains(q) <==> visible(all, q),
        is_planned(all, dir, p),
        depth(p) < depth(order[i].0@),
    ensures
        sources(out).contains(p),
{
    assert(entry_paths(order).contains(p));
    let a = choose|a: int| 0 <= a < entry_paths(order).len() && entry_paths(order)[a] == p;
    assert(order[a].0@ == p);
    if a > i {
        assert(mount_less(order[i].0@, order[a].0@));
    }
    assert(a < i);
    assert(entry_paths(order.take(i))[a] == p);
    assert(entry_paths(order.take(i)).contains(p));
}

/// In a plan, a mount comes after every mount above it.
pub proof fn lemma_parents_first<F: Fn(&UnixPath) -> bool>(
    mounts: Seq<Seq<u8>>,
    dir: Seq<u8>,
    is_dir: F,
    plan: Seq<Submount>,
    parent: int,
    child: int,
)
    requires
        plans(mounts, dir, is_dir, plan),
        0 <= parent < plan.len(),
        0 <= child < plan.len(),
        strictly_below(plan[child].source@, plan[parent].source@),
    ensures
        parent < child,
{
    lemma_strictly_below(plan[child].source@, plan[parent].source@);
    if child < parent {
        assert(mount_less(plan[child].source@, plan[parent].source@));
    }
}

/// Every path of `a` is among those of `b`.
pub open spec fn among(a: Seq<Seq<u8>>, b: Seq<Seq<u8>>) -> bool {
    forall|i: int| 0 <= i < a.len() ==> has_path(b, #[trigger] a[i])
}

/// The path is in the list.
pub open spec fn has_path(mounts: Seq<Seq<u8>>, p: Seq<u8>) -> bool {
    exists|j: int| 0 <= j < mounts.len() && same_path(#[trigger] mounts[j], p)
}

/// The visible entry for a path of the list.
proof fn lemma_has_visible(mounts: Seq<Seq<u8>>, p: Seq<u8>) -> (q: Seq<u8>)
    requires
        has_path(mounts, p),
    ensures
        visible(mounts, q),
        same_path(q, p),
    decreases mounts.len(),
{
    let n = mounts.len() - 1;
    if same_path(mounts[n], p) {
        mounts[n]
    } else {
        let rest = mounts.drop_last();
        let j = choose|j: int| 0 <= j < mounts.len() && same_path(#[trigger] mounts[j], p);
        assert(same_path(rest[j], p));
        let q = lemma_has_visible(rest, p);
        assert(rest =~= mounts.take(n));
        assert(mounts.take(n + 1) =~= mounts);
        lemma_visible_step(mounts, n, q);
        q
    }
}

/// The entry of one list that is visible where `p` is visible in the other.
proof fn lemma_counterpart(a: Seq<Seq<u8>>, b: Seq<Seq<u8>>, p: Seq<u8>) -> (q: Seq<u8>)
    requires
        among(a, b),
        visible(a, p),
    ensures
        visible(b, q),
        same_path(q, p),
{
    let i = choose|i: int| 0 <= i < a.len() && #[trigger] a[i] == p;
    assert(has_path(b, a[i]));
    lemma_has_visible(b, p)
}

proof fn lemma_same_ephemeral(a: Seq<Seq<u8>>, b: Seq<Seq<u8>>, dir: Seq<u8>, p: Seq<u8>, q: Seq<u8>)
    requires
        among(a, b),
        among(b, a),
        visible(a, p),
        visible(b, q),
        same_path(p, q),
    ensures
        is_ephemeral(a, dir, p) == is_ephemeral(b, dir, q),
{
    if holds(a, dir, p) {
        assert forall|r: Seq<u8>| #[trigger] visible(b, r) && below(dir, r) implies depth(r) <= depth(
            q,
        ) by {
            let s = lemma_counterpart(b, a, r);
            assert(below(dir, s));
        }
    }
    if holds(b, dir, q) {
        assert forall|r: Seq<u8>| #[trigger] visible(a, r) && below(dir, r) implies depth(r) <= depth(
            p,
        ) by {
            let s = lemma_counterpart(a, b, r);
            assert(below(dir, s));
        }
    }
}

proof fn lemma_same_carried(a: Seq<Seq<u8>>, b: Seq<Seq<u8>>, dir: Seq<u8>, p: Seq<u8>, q: Seq<u8>)
    requires
        among(a, b),
        among(b, a),
        same_path(p, q),
        is_carried(a, dir, p),
    ensures
        is_carried(b, dir, q),
{
    let k = choose|k: Seq<u8>|
        #[trigger] is_live(a, dir, k) && strictly_below(p, k) && is_clear(a, dir, k, p);
    let l = lemma_counterpart(a, b, k);
    lemma_same_ephemeral(a, b, dir, k, l);
    assert(is_live(b, dir, l));
    assert(strictly_below(q, l));
    assert forall|e: Seq<u8>| #[trigger] is_overlay(b, dir, e) implies !(strictly_below(q, e)
        && strictly_below(e, l)) by {
        let d = lemma_counterpart(b, a, e);
        lemma_same_ephemeral(a, b, dir, d, e);
        assert(is_overlay(a, dir, d));
    }
}

/// What is planned of one list has its counterpart in what is planned of the other.
proof fn lemma_same_planned(a: Seq<Seq<u8>>, b: Seq<Seq<u8>>, dir: Seq<u8>, p: Seq<u8>) -> (q: Seq<u8>)
    requires
        among(a, b),
        among(b, a),
        is_planned(a, dir, p),
    ensures
        is_planned(b, dir, q),
        same_path(p, q),
        is_ephemeral(a, dir, p) == is_ephemeral(b, dir, q),
{
    let q = lemma_counterpart(a, b, p);
    lemma_same_ephemeral(a, b, dir, p, q);
    if is_carried(b, dir, q) {
        lemma_same_carried(b, a, dir, q, p);
    }
    q
}

/// The answer for a path does not depend on when it is asked for or how it is spelled.
pub open spec fn is_steady<F: Fn(&UnixPath) -> bool>(is_dir: F) -> bool {
    forall|p: UnixPath, q: UnixPath, r: bool, s: bool|
        #[trigger] call_ensures(is_dir, (&p,), r) && #[trigger] call_ensures(is_dir, (&q,), s)
            && same_path(p@, q@) ==> r == s
}

/// Two submounts are for one path and marked alike.
pub open spec fn alike(a: Submount, b: Submount) -> bool {
    same_path(a.source@, b.source@) && a.is_dir == b.is_dir && a.ephemeral == b.ephemeral
}

/// Where the entry at `i` of one plan stands in the plan of a list with the same paths.
proof fn lemma_place_in_plan<F: Fn(&UnixPath) -> bool>(
    a: Seq<Seq<u8>>,
    b: Seq<Seq<u8>>,
    dir: Seq<u8>,
    is_dir: F,
    x: Seq<Submount>,
    y: Seq<Submount>,
    i: int,
) -> (j: int)
    requires
        among(a, b),
        among(b, a),
        is_steady(is_dir),
        plans(a, dir, is_dir, x),
        plans(b, dir, is_dir, y),
        0 <= i < x.len(),
    ensures
        0 <= j < y.len(),
        alike(x[i], y[j]),
{
    let p = x[i].source@;
    assert(sources(x)[i] == p);
    assert(sources(x).contains(p));
    let q = lemma_same_planned(a, b, dir, p);
    assert(sources(y).contains(q));
    let j = choose|j: int| 0 <= j < sources(y).len() && sources(y)[j] == q;
    assert(y[j].source@ == q);
    assert(flags_fit(a, dir, is_dir, x[i]));
    assert(flags_fit(b, dir, is_dir, y[j]));
    j
}

/// The order of mounts is one of paths, and strict.
proof fn lemma_order_of_paths(a: UnixPath, b: UnixPath, c: UnixPath, d: UnixPath)
    requires
        same_path(a@, d@),
        mount_less(a@, b@),
    ensures
        !same_path(a@, b@),
        same_path(b@, c@) ==> !mount_less(c@, d@),
{
    MountEntry::lemma_irreflexive(MountEntry(a));
    if same_path(b@, c@) && mount_less(c@, d@) {
        assert(mount_less(b@, a@));
        MountEntry::lemma_transitive(MountEntry(a), MountEntry(b), MountEntry(a));
    }
}

/// Two plans for the same paths agree up to `i`.
proof fn lemma_plans_agree<F: Fn(&UnixPath) -> bool>(
    a: Seq<Seq<u8>>,
    b: Seq<Seq<u8>>,
    dir: Seq<u8>,
    is_dir: F,
    x: Seq<Submount>,
    y: Seq<Submount>,
    i: int,
)
    requires
        among(a, b),
        among(b, a),
        is_steady(is_dir),
        plans(a, dir, is_dir, x),
        plans(b, dir, is_dir, y),
        0 <= i < x.len(),
    ensures
        i < y.len(),
        forall|k: int| #![trigger x[k]] #![trigger y[k]] 0 <= k <= i ==> alike(x[k], y[k]),
    decreases i,
{
    if i > 0 {
        lemma_plans_agree(a, b, dir, is_dir, x, y, i - 1);
    }
    let j = lemma_place_in_plan(a, b, dir, is_dir, x, y, i);
    if j < i {
        assert(alike(x[j], y[j]));
        lemma_order_of_paths(x[j].source, x[i].source, x[i].source, x[j].source);
    }
    if j > i {
        let k = lemma_place_in_plan(b, a, dir, is_dir, y, x, i);
        lemma_order_of_paths(y[i].source, y[j].source, x[i].source, x[k].source);
        if k < i {
            assert(alike(x[k], y[k]));
            lemma_order_of_paths(y[k].source, y[i].source, y[i].source, y[k].source);
        }
        if k > i {
            assert(mount_less(x[i].source@, x[k].source@));
        }
    }
}

/// The plan depends on the set of mounts alone: for a list with the same paths, in any
/// order and with any repetitions, it has the same entries in the same order.
pub proof fn lemma_plan_depends_on_the_set<F: Fn(&UnixPath) -> bool>(
    a: Seq<Seq<u8>>,
    b: Seq<Seq<u8>>,
    dir: Seq<u8>,
    is_dir: F,
    x: Seq<Submount>,
    y: Seq<Submount>,
)
    requires
        among(a, b),
        among(b, a),
        is_steady(is_dir),
        plans(a, dir, is_dir, x),
        plans(b, dir, is_dir, y),
    ensures
        x.len() == y.len(),
        forall|i: int| #![trigger x[i]] #![trigger y[i]] 0 <= i < x.len() ==> alike(x[i], y[i]),
{
    if x.len() > 0 {
        lemma_plans_agree(a, b, dir, is_dir, x, y, x.len() - 1);
    }
    if y.len() > 0 {
        lemma_plans_agree(b, a, dir, is_dir, y, x, y.len() - 1);
    }
}

/// The plan for the mounts that mountinfo lists.
pub fn compute_submounts<F: Fn(&UnixPath) -> bool>(
    mountinfo: &[u8],
    invocation_dir: &UnixPath,
    is_dir: F,
) -> (out: Vec<Submount>)
    requires
        forall|p: &UnixPath| #[trigger] call_requires(is_dir, (p,)),
    ensures
        plans(listed_mounts(mountinfo@), invocation_dir@, is_dir, out@),
{
    plan_submounts(parse_mount_points(mountinfo), invocation_dir, is_dir)
}

/// Of the mounts above a directory, if there is any, one is the deepest.
proof fn lemma_one_is_deepest(mounts: Seq<Seq<u8>>, dir: Seq<u8>, q: Seq<u8>, n: nat) -> (p: Seq<u8>)
    requires
        visible(mounts, q),
        below(dir, q),
        depth(dir) <= depth(q) + n,
    ensures
        holds(mounts, dir, p),
        depth(p) >= depth(q),
    decreases n,
{
    if holds(mounts, dir, q) {
        q
    } else {
        let r = choose|r: Seq<u8>| #[trigger] visible(mounts, r) && below(dir, r) && depth(r) > depth(q);
        assert(depth(r) <= depth(dir));
        lemma_one_is_deepest(mounts, dir, r, (n - 1) as nat)
    }
}

/// What a test writes in its working directory is never shared with the host: below every live
/// mount that leads there lies an overlay that leads there too.
pub proof fn lemma_working_directory_is_not_shared(mounts: Seq<Seq<u8>>, dir: Seq<u8>, k: Seq<u8>) -> (e:
    Seq<u8>)
    requires
        is_live(mounts, dir, k),
        below(dir, k),
        depth(k) > 0,
    ensures
        is_planned(mounts, dir, e),
        is_ephemeral(mounts, dir, e),
        below(dir, e),
        strictly_below(e, k),
{
    let p = lemma_one_is_deepest(mounts, dir, k, depth(dir));
    lemma_ancestors(dir, k, p);
    if same_path(p, k) {
        lemma_visible_once(mounts, p, k);
    }
    assert(!same_path(p, root())) by {
        if same_path(p, root()) {
            crate::path::lemma_slash_in_bytes();
            crate::path::lemma_root_alone();
            lemma_strictly_below(p, k);
        }
    }
    p
}

/// Temporary files are never shared with the host where `/tmp` or `/var/tmp` is a mount, and
/// every mount that neither is one of them nor holds the working directory is live.
pub proof fn lemma_only_these_are_overlays(mounts: Seq<Seq<u8>>, dir: Seq<u8>, p: Seq<u8>)
    requires
        visible(mounts, p),
        !same_path(p, root()),
    ensures
        p == encode_utf8("/tmp"@) || p == encode_utf8("/var/tmp"@) ==> is_planned(mounts, dir, p)
            && is_ephemeral(mounts, dir, p),
        !below(dir, p) && !same_path(p, encode_utf8("/tmp"@)) && !same_path(p, encode_utf8("/var/tmp"@))
            ==> is_live(mounts, dir, p),
{
}

/// Of the mounts that lead to the working directory only the innermost is an overlay, unless it
/// is one for temporary files: a mount with another one between it and the directory is live.
pub proof fn lemma_outer_mounts_stay_live(mounts: Seq<Seq<u8>>, dir: Seq<u8>, p: Seq<u8>, q: Seq<u8>)
    requires
        visible(mounts, p),
        visible(mounts, q),
        below(dir, p),
        below(dir, q),
        strictly_below(q, p),
        !same_path(p, root()),
        !same_path(p, encode_utf8("/tmp"@)),
        !same_path(p, encode_utf8("/var/tmp"@)),
    ensures
        is_live(mounts, dir, p),
{
    lemma_strictly_below(q, p);
}

/// Nothing is bound twice: what the bind of a live mount reaches has no step of its own.
pub proof fn lemma_nothing_is_bound_twice(mounts: Seq<Seq<u8>>, dir: Seq<u8>, p: Seq<u8>, k: Seq<u8>)
    requires
        is_live(mounts, dir, p),
        is_live(mounts, dir, k),
        strictly_below(p, k),
        is_clear(mounts, dir, k, p),
    ensures
        !is_planned(mounts, dir, p),
{
}

/// The last mount at a path hides those before it.
pub proof fn lemma_last_mount_counts(mounts: Seq<Seq<u8>>, p: Seq<u8>, q: Seq<u8>)
    ensures
        visible(mounts.push(p), p),
        same_path(q, p) && visible(mounts.push(p), q) ==> q == p,
        !same_path(q, p) ==> (visible(mounts.push(p), q) <==> visible(mounts, q)),
{
    let all = mounts.push(p);
    let n = mounts.len() as int;
    assert(all[n] == p);
    if visible(all, q) {
        let i = choose|i: int|
            0 <= i < all.len() && #[trigger] all[i] == q && forall|j: int|
                i < j < all.len() ==> !same_path(#[trigger] all[j], q);
        if i < n {
            assert(!same_path(all[n], q));
            assert(mounts[i] == q);
            assert forall|j: int| i < j < mounts.len() implies !same_path(#[trigger] mounts[j], q) by {
                assert(all[j] == mounts[j]);
            }
            assert(visible(mounts, q));
        }
    }
    if visible(mounts, q) && !same_path(q, p) {
        let i = choose|i: int|
            0 <= i < mounts.len() && #[trigger] mounts[i] == q && forall|j: int|
                i < j < mounts.len() ==> !same_path(#[trigger] mounts[j], q);
        assert(all[i] == q);
        assert forall|j: int| i < j < all.len() implies !same_path(#[trigger] all[j], q) by {
            if j < n {
                assert(all[j] == mounts[j]);
            }
        }
        assert(visible(all, q));
    }
}

} // verus!
