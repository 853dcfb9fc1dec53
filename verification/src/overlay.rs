//! Per-test whole-root overlayfs isolation.
//!
//! Each test runs inside a private copy-on-write view of the filesystem: the lower
//! (read-only) layer is `/`, writes land in a per-test upper layer, and the child
//! pivots into the merged view. overlayfs does not cross into the lower layer's
//! submounts, so after overlaying `/` they are re-established inside the new root:
//! ephemeral ones as overlays of their own, every other one as a live recursive bind.

use vstd::prelude::*;
use vstd::utf8::encode_utf8;

use crate::number::{decimal, decimal_chars};
use crate::path::{below_root, is_absolute, joined, UnixPath};

use crate::text::{chars_of, extend, extend_str, find_symbol, join, lemma_split_join, split, string_of};
use crate::utf8::lossy;

verus! {

/// How a per-test overlay can be mounted in this environment.
#[derive(Clone, Copy, PartialEq, Eq, Structural, Debug)]
pub enum Mode {
    /// Have `CAP_SYS_ADMIN`: unshare only a mount namespace (test keeps its uid).
    Privileged,
    /// Unprivileged: unshare a user + mount namespace and map the caller to uid 0
    /// inside it (the test runs as root within its own namespace).
    Userns,
}

/// An absolute path seen from `base`.
pub open spec fn abs_joined(base: Seq<u8>, abs: Seq<u8>) -> Seq<u8> {
    if is_absolute(abs) {
        joined(base, below_root(abs))
    } else {
        joined(base, abs)
    }
}

/// Join an absolute path onto `base` (e.g. `base=/x/merged`, `abs=/proc` →
/// `/x/merged/proc`).
pub fn join_abs(base: &UnixPath, abs: &UnixPath) -> (r: UnixPath)
    ensures
        r@ == abs_joined(base@, abs@),
{
    if abs.absolute() {
        let rest = abs.below_root();
        base.join_path(&rest)
    } else {
        base.join_path(abs)
    }
}

/// A directory in a test's context.
pub open spec fn in_context(context: Seq<u8>, name: Seq<char>) -> Seq<u8> {
    joined(context, encode_utf8(name))
}

/// Layout of one test's overlay dirs inside its context dir. Owned here so the
/// runner and this module never disagree about names.
pub fn upper_dir(context: &UnixPath) -> (r: UnixPath)
    ensures
        r@ == in_context(context@, "upper"@),
{
    context.join("upper")
}

pub fn work_dir(context: &UnixPath) -> (r: UnixPath)
    ensures
        r@ == in_context(context@, "work"@),
{
    context.join("work")
}

pub fn merged_dir(context: &UnixPath) -> (r: UnixPath)
    ensures
        r@ == in_context(context@, "merged"@),
{
    context.join("merged")
}

/// The name of a directory of the i-th ephemeral submount.
pub open spec fn sub_name(i: nat, suffix: Seq<char>) -> Seq<char> {
    "sub"@ + decimal(i) + suffix
}

fn sub_dir(context: &UnixPath, i: usize, suffix: &str) -> (r: UnixPath)
    ensures
        r@ == in_context(context@, sub_name(i as nat, suffix@)),
{
    let mut v = chars_of("sub");
    let n = decimal_chars(i as u128);
    extend(&mut v, n.as_slice());
    extend_str(&mut v, suffix);
    let name = string_of(v.as_slice());
    context.join(name.as_str())
}

/// Upper layer of the i-th ephemeral submount, counting `ephemeral` entries of
/// the submount plan in order.
pub fn submount_upper_dir(context: &UnixPath, i: usize) -> (r: UnixPath)
    ensures
        r@ == in_context(context@, sub_name(i as nat, "-upper"@)),
{
    sub_dir(context, i, "-upper")
}

pub fn submount_work_dir(context: &UnixPath, i: usize) -> (r: UnixPath)
    ensures
        r@ == in_context(context@, sub_name(i as nat, "-work"@)),
{
    sub_dir(context, i, "-work")
}

/// Why a root could not be planned: a path or the options of an overlay hold a NUL.
#[derive(Debug)]
pub enum OverlayError {
    PathHasNul(UnixPath),
    OptionsHaveNul,
}

pub enum OverlayErrorView {
    PathHasNul(Seq<u8>),
    OptionsHaveNul,
}

impl View for OverlayError {
    type V = OverlayErrorView;

    open spec fn view(&self) -> OverlayErrorView {
        match *self {
            OverlayError::PathHasNul(p) => OverlayErrorView::PathHasNul(p@),
            OverlayError::OptionsHaveNul => OverlayErrorView::OptionsHaveNul,
        }
    }
}

impl OverlayError {
    /// The error in words.
    pub fn message(&self) -> (r: String)
        ensures
            match *self {
                OverlayError::PathHasNul(p) => r@ == "path contains NUL: "@ + lossy(p@),
                OverlayError::OptionsHaveNul => r@ == "overlay options contain NUL"@,
            },
    {
        match self {
            OverlayError::PathHasNul(p) => {
                let mut v = chars_of("path contains NUL: ");
                let text = p.display();
                extend_str(&mut v, text.as_str());
                string_of(v.as_slice())
            },
            OverlayError::OptionsHaveNul => "overlay options contain NUL".to_owned(),
        }
    }
}

/// The options of an overlay mount. A user namespace cannot set `trusted.*` xattrs, so
/// there the overlay keeps its own under `user.*`.
pub open spec fn options_text(lower: Seq<u8>, upper: Seq<u8>, work: Seq<u8>, mode: Mode) -> Seq<char> {
    "lowerdir="@ + lossy(lower) + ",upperdir="@ + lossy(upper) + ",workdir="@ + lossy(work)
        + if mode == Mode::Userns {
        ",userxattr"@
    } else {
        ""@
    }
}

/// Build the overlay mount option string, adding `userxattr` for unprivileged
/// mounts.
pub fn overlay_opts(lower: &UnixPath, upper: &UnixPath, work: &UnixPath, mode: Mode) -> (r: Result<
    String,
    OverlayError,
>)
    ensures
        match r {
            Ok(s) => s@ == options_text(lower@, upper@, work@, mode) && !s@.contains('\0'),
            Err(e) => e@ == OverlayErrorView::OptionsHaveNul && options_text(
                lower@,
                upper@,
                work@,
                mode,
            ).contains('\0'),
        },
{
    let mut v = chars_of("lowerdir=");
    let text = lower.display();
    extend_str(&mut v, text.as_str());
    extend_str(&mut v, ",upperdir=");
    let text = upper.display();
    extend_str(&mut v, text.as_str());
    extend_str(&mut v, ",workdir=");
    let text = work.display();
    extend_str(&mut v, text.as_str());
    if mode == Mode::Userns {
        extend_str(&mut v, ",userxattr");
    } else {
        extend_str(&mut v, "");
    }
    assert(v@ =~= options_text(lower@, upper@, work@, mode));
    match find_symbol(v.as_slice(), '\0') {
        Some(i) => {
            assert(v@.contains(v@[i as int]));
            Err(OverlayError::OptionsHaveNul)
        },
        None => Ok(string_of(v.as_slice())),
    }
}

/// A path that can be handed to the system: it holds no NUL.
pub fn cstr(path: UnixPath) -> (r: Result<UnixPath, OverlayError>)
    ensures
        match r {
            Ok(p) => p@ == path@ && !path@.contains(0u8),
            Err(e) => e@ == OverlayErrorView::PathHasNul(path@) && path@.contains(0u8),
        },
{
    match find_symbol(path.bytes.as_slice(), 0u8) {
        Some(i) => {
            assert(path@.contains(path@[i as int]));
            Err(OverlayError::PathHasNul(path))
        },
        None => Ok(path),
    }
}

/// The map contents (`0 <id> 1`) that map the caller to root inside a new user
/// namespace.
pub fn id_map(id: u32) -> (r: String)
    ensures
        r@ == "0 "@ + decimal(id as nat) + " 1"@,
{
    let mut v = chars_of("0 ");
    let n = decimal_chars(id as u128);
    extend(&mut v, n.as_slice());
    extend_str(&mut v, " 1");
    string_of(v.as_slice())
}

/// The kernel reads options apart at the commas, and finds the three directories under their
/// names; for an unprivileged mount, and for no other, that attributes are the user's.
pub proof fn lemma_options_are_read_back(lower: Seq<u8>, upper: Seq<u8>, work: Seq<u8>, mode: Mode)
    requires
        !lossy(lower).contains(','),
        !lossy(upper).contains(','),
        !lossy(work).contains(','),
    ensures
        ({
            let dirs = seq![
                "lowerdir="@ + lossy(lower),
                "upperdir="@ + lossy(upper),
                "workdir="@ + lossy(work),
            ];
            split(options_text(lower, upper, work, mode), ',') == match mode {
                Mode::Privileged => dirs,
                Mode::Userns => dirs.push("userxattr"@),
            }
        }),
{
    reveal_strlit("lowerdir=");
    reveal_strlit("upperdir=");
    reveal_strlit("workdir=");
    reveal_strlit(",upperdir=");
    reveal_strlit(",workdir=");
    reveal_strlit(",userxattr");
    reveal_strlit("userxattr");
    reveal_strlit("");
    let (l, u, w) = (lossy(lower), lossy(upper), lossy(work));
    let sep = seq![','];
    let dirs = seq!["lowerdir="@ + l, "upperdir="@ + u, "workdir="@ + w];
    lemma_no_comma("lowerdir="@, l);
    lemma_no_comma("upperdir="@, u);
    lemma_no_comma("workdir="@, w);
    assert(dirs.drop_last() =~= seq![dirs[0], dirs[1]]);
    assert(seq![dirs[0], dirs[1]].drop_last() =~= seq![dirs[0]]);
    assert(join(seq![dirs[0]], sep) =~= dirs[0]);
    assert(join(seq![dirs[0], dirs[1]], sep) == join(seq![dirs[0]], sep) + sep + dirs[1]);
    assert(join(dirs, sep) == join(seq![dirs[0], dirs[1]], sep) + sep + dirs[2]);
    let text = options_text(lower, upper, work, mode);
    match mode {
        Mode::Privileged => {
            assert(text =~= join(dirs, sep));
            lemma_split_join(dirs, ',');
        },
        Mode::Userns => {
            let all = dirs.push("userxattr"@);
            assert(all.drop_last() =~= dirs);
            assert(join(all, sep) == join(dirs, sep) + sep + all[3]);
            assert(text =~= join(all, sep));
            lemma_split_join(all, ',');
        },
    }
}

proof fn lemma_no_comma(key: Seq<char>, value: Seq<char>)
    requires
        !value.contains(','),
        !key.contains(','),
    ensures
        !(key + value).contains(','),
{
    let s = key + value;
    assert forall|i: int| 0 <= i < s.len() implies s[i] != ',' by {
        if i < key.len() {
            assert(key.contains(key[i]));
        } else {
            assert(value.contains(value[i - key.len()]));
        }
    }
}

} // verus!
