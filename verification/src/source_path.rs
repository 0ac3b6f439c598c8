//! Lexical path identity for source provenance. Build drivers store each
//! function's source path relative to the sidecar's own directory, and a
//! debugger adapter resolves those entries back against the directory it
//! loaded the map from. Both directions are lexical only: paths are joined
//! and `.`/`..`-folded as component lists, never resolved through the
//! filesystem. The platform's own path parsing, joining and rendering do
//! the textual work; the folding and the relative walk are verified over
//! the component lists.

use std::path::{Component, Path, PathBuf};
use vstd::prelude::*;

verus! {

/// One component of a path, as the platform's path parser splits it.
#[derive(Debug, Clone, PartialEq, Eq)]
pub enum PathPart {
    /// A platform prefix such as a drive letter.
    Prefix(String),
    /// The root directory.
    RootDir,
    /// A leading `.`.
    CurDir,
    /// A `..`.
    ParentDir,
    /// A named component.
    Normal(String),
}

/// A path component as plain text.
pub enum PartView {
    Prefix(Seq<char>),
    RootDir,
    CurDir,
    ParentDir,
    Normal(Seq<char>),
}

impl View for PathPart {
    type V = PartView;

    open spec fn view(&self) -> PartView {
        match self {
            PathPart::Prefix(s) => PartView::Prefix(s@),
            PathPart::RootDir => PartView::RootDir,
            PathPart::CurDir => PartView::CurDir,
            PathPart::ParentDir => PartView::ParentDir,
            PathPart::Normal(s) => PartView::Normal(s@),
        }
    }
}

/// Components as plain text.
pub open spec fn parts_view(s: Seq<PathPart>) -> Seq<PartView> {
    s.map_values(|p: PathPart| p@)
}

/// The components the platform's parser finds in `path`.
pub uninterp spec fn path_parts_of(path: Seq<char>) -> Seq<PartView>;

/// Whether the platform considers `path` absolute.
pub uninterp spec fn path_is_absolute(path: Seq<char>) -> bool;

/// `p` joined onto `base` by the platform.
pub uninterp spec fn path_joined(base: Seq<char>, p: Seq<char>) -> Seq<char>;

/// The path the platform builds by pushing `parts` in order onto an empty
/// path.
pub uninterp spec fn path_of_parts(parts: Seq<PartView>) -> Seq<char>;

/// `Path::components`: the components of `path`, each carried over as the
/// matching `PathPart`.
#[verifier::external_body]
fn path_parts(path: &str) -> (r: Vec<PathPart>)
    ensures
        parts_view(r@) == path_parts_of(path@),
{
    Path::new(path).components().map(|c| match c {
        Component::Prefix(p) => PathPart::Prefix(p.as_os_str().to_string_lossy().into_owned()),
        Component::RootDir => PathPart::RootDir,
        Component::CurDir => PathPart::CurDir,
        Component::ParentDir => PathPart::ParentDir,
        Component::Normal(s) => PathPart::Normal(s.to_string_lossy().into_owned()),
    }).collect()
}

/// `Path::is_absolute`.
#[verifier::external_body]
fn is_absolute(path: &str) -> (r: bool)
    ensures
        r == path_is_absolute(path@),
{
    Path::new(path).is_absolute()
}

/// `Path::join`: `p` joined onto `base`.
#[verifier::external_body]
fn join(base: &str, p: &str) -> (r: String)
    ensures
        r@ == path_joined(base@, p@),
{
    Path::new(base).join(p).to_string_lossy().into_owned()
}

/// `PathBuf::push` of each part in order onto an empty path.
#[verifier::external_body]
fn build_path(parts: &[PathPart]) -> (r: String)
    ensures
        r@ == path_of_parts(parts_view(parts@)),
{
    let mut out = PathBuf::new();
    for part in parts {
        match part {
            PathPart::Prefix(s) => out.push(s.as_str()),
            PathPart::RootDir => out.push(Component::RootDir),
            PathPart::CurDir => out.push(Component::CurDir),
            PathPart::ParentDir => out.push(Component::ParentDir),
            PathPart::Normal(s) => out.push(s.as_str()),
        }
    }
    out.to_string_lossy().into_owned()
}

/// One component folded onto the parts kept so far: `.` vanishes, `..`
/// takes back a named component, is dropped right after a root or
/// prefix, and is kept otherwise; anything else is kept.
pub open spec fn fold_step(out: Seq<PartView>, c: PartView) -> Seq<PartView> {
    match c {
        PartView::CurDir => out,
        PartView::ParentDir => if out.len() > 0 && out.last() is Normal {
            out.drop_last()
        } else if out.len() > 0 && (out.last() is RootDir || out.last() is Prefix) {
            out
        } else {
            out.push(PartView::ParentDir)
        },
        _ => out.push(c),
    }
}

/// The first `n` components folded in order.
pub open spec fn fold_upto(parts: Seq<PartView>, n: int) -> Seq<PartView>
    decreases n,
{
    if n <= 0 {
        seq![]
    } else {
        fold_step(fold_upto(parts, n - 1), parts[n - 1])
    }
}

/// All components folded in order.
pub open spec fn folded(parts: Seq<PartView>) -> Seq<PartView> {
    fold_upto(parts, parts.len() as int)
}

/// The number of leading components `a` and `b` share.
pub open spec fn shared_len(a: Seq<PartView>, b: Seq<PartView>) -> nat
    decreases a.len(),
{
    if a.len() > 0 && b.len() > 0 && a[0] == b[0] {
        1 + shared_len(a.drop_first(), b.drop_first())
    } else {
        0
    }
}

/// The relative walk from `base` to `target`: one `..` per component of
/// `base` past the shared prefix, then the rest of `target`; `.` when that
/// is nothing; none when the two share no leading component.
pub open spec fn relative_walk(base: Seq<PartView>, target: Seq<PartView>) -> Option<Seq<PartView>> {
    let k = shared_len(base, target);
    if k == 0 {
        None
    } else {
        let walk = Seq::new((base.len() - k) as nat, |i: int| PartView::ParentDir) + target.skip(k as int);
        if walk.len() == 0 {
            Some(seq![PartView::CurDir])
        } else {
            Some(walk)
        }
    }
}

/// A copy of `p`.
fn copy_part(p: &PathPart) -> (r: PathPart)
    ensures
        r@ == p@,
{
    match p {
        PathPart::Prefix(s) => PathPart::Prefix(s.clone()),
        PathPart::RootDir => PathPart::RootDir,
        PathPart::CurDir => PathPart::CurDir,
        PathPart::ParentDir => PathPart::ParentDir,
        PathPart::Normal(s) => PathPart::Normal(s.clone()),
    }
}

/// Whether two components are the same.
fn same_part(a: &PathPart, b: &PathPart) -> (r: bool)
    ensures
        r == (a@ == b@),
{
    match a {
        PathPart::Prefix(x) => match b {
            PathPart::Prefix(y) => *x == *y,
            _ => false,
        },
        PathPart::RootDir => match b {
            PathPart::RootDir => true,
            _ => false,
        },
        PathPart::CurDir => match b {
            PathPart::CurDir => true,
            _ => false,
        },
        PathPart::ParentDir => match b {
            PathPart::ParentDir => true,
            _ => false,
        },
        PathPart::Normal(x) => match b {
            PathPart::Normal(y) => *x == *y,
            _ => false,
        },
    }
}

/// Fold `.` and `..` components lexically (see [`fold_step`]).
pub fn fold_parts(parts: &[PathPart]) -> (r: Vec<PathPart>)
    ensures
        parts_view(r@) == folded(parts_view(parts@)),
{
    let ghost pv = parts_view(parts@);
    let mut out: Vec<PathPart> = Vec::new();
    let mut i: usize = 0;
    while i < parts.len()
        invariant
            i <= parts@.len(),
            pv == parts_view(parts@),
            parts_view(out@) == fold_upto(pv, i as int),
        decreases parts@.len() - i,
    {
        let ghost before = out@;
        proof {
            assert(pv[i as int] == parts@[i as int]@);
        }
        match &parts[i] {
            PathPart::CurDir => {},
            PathPart::ParentDir => {
                let n = out.len();
                let last_normal = n > 0 && match &out[n - 1] {
                    PathPart::Normal(_) => true,
                    _ => false,
                };
                let last_anchor = n > 0 && match &out[n - 1] {
                    PathPart::RootDir => true,
                    PathPart::Prefix(_) => true,
                    _ => false,
                };
                if last_normal {
                    out.pop();
                    proof {
                        assert(parts_view(out@) =~= parts_view(before).drop_last());
                    }
                } else if !last_anchor {
                    out.push(PathPart::ParentDir);
                    proof {
                        assert(parts_view(out@) =~= parts_view(before).push(PartView::ParentDir));
                    }
                }
            },
            other => {
                out.push(copy_part(other));
                proof {
                    assert(parts_view(out@) =~= parts_view(before).push(pv[i as int]));
                }
            },
        }
        i = i + 1;
    }
    proof {
        assert(pv.len() == parts@.len());
    }
    out
}

/// The relative walk from `base` to `target` (see [`relative_walk`]).
pub fn relative_parts(base: &[PathPart], target: &[PathPart]) -> (r: Option<Vec<PathPart>>)
    ensures
        match relative_walk(parts_view(base@), parts_view(target@)) {
            None => r is None,
            Some(w) => r matches Some(v) && parts_view(v@) == w,
        },
{
    let ghost bv = parts_view(base@);
    let ghost tv = parts_view(target@);
    let mut k: usize = 0;
    proof {
        assert(bv.skip(0) =~= bv);
        assert(tv.skip(0) =~= tv);
    }
    while k < base.len() && k < target.len() && same_part(&base[k], &target[k])
        invariant
            k <= base@.len(),
            k <= target@.len(),
            bv == parts_view(base@),
            tv == parts_view(target@),
            shared_len(bv, tv) == k + shared_len(bv.skip(k as int), tv.skip(k as int)),
        decreases base@.len() - k,
    {
        proof {
            let bs = bv.skip(k as int);
            let ts = tv.skip(k as int);
            assert(bs[0] == bv[k as int]);
            assert(ts[0] == tv[k as int]);
            assert(bs.drop_first() =~= bv.skip(k + 1));
            assert(ts.drop_first() =~= tv.skip(k + 1));
        }
        k = k + 1;
    }
    proof {
        let bs = bv.skip(k as int);
        let ts = tv.skip(k as int);
        if k < base@.len() && k < target@.len() {
            assert(bs[0] == bv[k as int]);
            assert(ts[0] == tv[k as int]);
        }
        assert(shared_len(bs, ts) == 0);
        assert(bv.skip(0) =~= bv);
        assert(tv.skip(0) =~= tv);
    }
    if k == 0 {
        return None;
    }
    let mut out: Vec<PathPart> = Vec::new();
    let mut j: usize = k;
    while j < base.len()
        invariant
            k <= j <= base@.len(),
            parts_view(out@) == Seq::new((j - k) as nat, |i: int| PartView::ParentDir),
        decreases base@.len() - j,
    {
        let ghost prev = out@;
        out.push(PathPart::ParentDir);
        j = j + 1;
        proof {
            assert(parts_view(out@) =~= parts_view(prev).push(PartView::ParentDir));
            assert(parts_view(out@) =~= Seq::new((j - k) as nat, |i: int| PartView::ParentDir));
        }
    }
    let ghost ups = parts_view(out@);
    let mut m: usize = k;
    proof {
        assert(ups + tv.subrange(k as int, k as int) =~= ups);
    }
    while m < target.len()
        invariant
            k <= m <= target@.len(),
            tv == parts_view(target@),
            parts_view(out@) == ups + tv.subrange(k as int, m as int),
        decreases target@.len() - m,
    {
        let ghost prev = out@;
        out.push(copy_part(&target[m]));
        m = m + 1;
        proof {
            assert(tv[m - 1] == target@[m - 1]@);
            assert(parts_view(out@) =~= parts_view(prev).push(tv[m - 1]));
            assert(parts_view(out@) =~= ups + tv.subrange(k as int, m as int));
        }
    }
    if out.len() == 0 {
        out.push(PathPart::CurDir);
        proof {
            assert(parts_view(out@) =~= seq![PartView::CurDir]);
        }
    }
    proof {
        assert(tv.subrange(k as int, target@.len() as int) =~= tv.skip(k as int));
    }
    Some(out)
}

/// Joins `p` onto `base` when `p` is relative and folds `.` and `..`
/// components lexically; a `..` that would climb past the root is dropped,
/// and an absolute `p` is folded but not re-anchored.
pub fn lexical_absolute(base: &str, p: &str) -> (r: String)
    ensures
        r@ == path_of_parts(folded(path_parts_of(
            if path_is_absolute(p@) { p@ } else { path_joined(base@, p@) },
        ))),
{
    let joined: String = if is_absolute(p) {
        p.to_owned()
    } else {
        join(base, p)
    };
    let parts = path_parts(joined.as_str());
    let out = fold_parts(parts.as_slice());
    build_path(out.as_slice())
}

/// The lexical relative path from `base_dir` to `target`, both already
/// absolute and folded; none when they share no leading component (such
/// as different drive prefixes, or one rooted and one not).
pub fn relative_to(base_dir: &str, target: &str) -> (r: Option<String>)
    ensures
        match relative_walk(path_parts_of(base_dir@), path_parts_of(target@)) {
            None => r is None,
            Some(w) => r matches Some(s) && s@ == path_of_parts(w),
        },
{
    let b = path_parts(base_dir);
    let t = path_parts(target);
    match relative_parts(b.as_slice(), t.as_slice()) {
        None => None,
        Some(walk) => Some(build_path(walk.as_slice())),
    }
}

/// A folded path: no `.` or `..` components, and every component after the
/// first is a named one.
pub open spec fn is_clean(s: Seq<PartView>) -> bool {
    &&& forall|i: int| 0 <= i < s.len() ==> !(#[trigger] s[i] is CurDir) && !(s[i] is ParentDir)
    &&& forall|i: int| 1 <= i < s.len() ==> #[trigger] s[i] is Normal
}

/// The components of `t` folded in order onto `out`.
pub open spec fn fold_onto(out: Seq<PartView>, t: Seq<PartView>) -> Seq<PartView>
    decreases t.len(),
{
    if t.len() == 0 {
        out
    } else {
        fold_step(fold_onto(out, t.drop_last()), t.last())
    }
}

/// Folding a concatenation folds the second part onto the folded first.
proof fn lemma_fold_concat(s: Seq<PartView>, t: Seq<PartView>)
    ensures
        folded(s + t) == fold_onto(folded(s), t),
    decreases t.len(),
{
    lemma_fold_prefix(s + t, s.len() as int, s);
    if t.len() > 0 {
        lemma_fold_concat(s, t.drop_last());
        assert((s + t).drop_last() =~= s + t.drop_last());
        lemma_fold_prefix(s + t, (s + t).len() - 1, s + t.drop_last());
    } else {
        assert(s + t =~= s);
    }
}

/// Folding only reads the components it covers.
proof fn lemma_fold_prefix(a: Seq<PartView>, n: int, b: Seq<PartView>)
    requires
        0 <= n <= a.len(),
        n <= b.len(),
        forall|i: int| 0 <= i < n ==> a[i] == b[i],
    ensures
        fold_upto(a, n) == fold_upto(b, n),
    decreases n,
{
    if n > 0 {
        lemma_fold_prefix(a, n - 1, b);
    }
}

/// A clean path folds to itself.
proof fn lemma_fold_clean(s: Seq<PartView>, n: int)
    requires
        is_clean(s),
        0 <= n <= s.len(),
    ensures
        fold_upto(s, n) == s.take(n),
    decreases n,
{
    if n > 0 {
        lemma_fold_clean(s, n - 1);
        assert(s.take(n - 1).push(s[n - 1]) =~= s.take(n));
    } else {
        assert(s.take(0) =~= Seq::<PartView>::empty());
    }
}

/// `..`s take back named components one each.
proof fn lemma_fold_ups(s: Seq<PartView>, k: int, j: int)
    requires
        is_clean(s),
        1 <= k <= s.len(),
        0 <= j <= s.len() - k,
    ensures
        fold_onto(s, Seq::new(j as nat, |i: int| PartView::ParentDir)) == s.take(s.len() - j),
    decreases j,
{
    let ups = Seq::new(j as nat, |i: int| PartView::ParentDir);
    if j > 0 {
        let fewer = Seq::new((j - 1) as nat, |i: int| PartView::ParentDir);
        assert(ups.drop_last() =~= fewer);
        lemma_fold_ups(s, k, j - 1);
        let kept = s.take(s.len() - (j - 1));
        assert(kept.last() == s[s.len() - j]);
        assert(kept.drop_last() =~= s.take(s.len() - j));
    } else {
        assert(s.take(s.len() as int) =~= s);
    }
}

/// Named components are pushed as they come.
proof fn lemma_fold_named(out: Seq<PartView>, t: Seq<PartView>)
    requires
        forall|i: int| 0 <= i < t.len() ==> #[trigger] t[i] is Normal,
    ensures
        fold_onto(out, t) == out + t,
    decreases t.len(),
{
    if t.len() > 0 {
        lemma_fold_named(out, t.drop_last());
        assert(out + t.drop_last() + seq![t.last()] =~= out + t);
        assert((out + t.drop_last()).push(t.last()) =~= out + t);
    } else {
        assert(out + t =~= out);
    }
}

/// The shared prefix is shared.
proof fn lemma_shared_prefix(a: Seq<PartView>, b: Seq<PartView>)
    ensures
        shared_len(a, b) <= a.len(),
        shared_len(a, b) <= b.len(),
        forall|i: int| 0 <= i < shared_len(a, b) ==> a[i] == b[i],
    decreases a.len(),
{
    if a.len() > 0 && b.len() > 0 && a[0] == b[0] {
        lemma_shared_prefix(a.drop_first(), b.drop_first());
        assert forall|i: int| 0 <= i < shared_len(a, b) implies a[i] == b[i] by {
            if i > 0 {
                assert(a.drop_first()[i - 1] == a[i]);
                assert(b.drop_first()[i - 1] == b[i]);
            }
        }
    }
}

/// Resolving the relative walk against its base gives back the target:
/// for folded `base` and `target` sharing a leading component, folding
/// `base` followed by the walk from `base` to `target` is `target`.
pub proof fn law_relative_walk_resolves_back(base: Seq<PartView>, target: Seq<PartView>)
    requires
        is_clean(base),
        is_clean(target),
        relative_walk(base, target) is Some,
    ensures
        folded(base + relative_walk(base, target)->Some_0) == target,
{
    let k = shared_len(base, target) as int;
    lemma_shared_prefix(base, target);
    let ups = Seq::new((base.len() - k) as nat, |i: int| PartView::ParentDir);
    let rest = target.skip(k);
    let walk = ups + rest;
    lemma_fold_clean(base, base.len() as int);
    assert(base.take(base.len() as int) =~= base);
    lemma_fold_ups(base, k, base.len() - k);
    assert(base.take(k) =~= target.take(k));
    lemma_fold_named(target.take(k), rest);
    assert(target.take(k) + rest =~= target);
    if walk.len() == 0 {
        assert(base.len() == k);
        assert(target.len() == k);
        lemma_fold_concat(base, seq![PartView::CurDir]);
        assert(seq![PartView::CurDir].drop_last() =~= Seq::<PartView>::empty());
        assert(base =~= target);
        assert(relative_walk(base, target)->Some_0 =~= seq![PartView::CurDir]);
        assert(fold_onto(base, Seq::<PartView>::empty()) == base);
        assert(seq![PartView::CurDir].last() == PartView::CurDir);
        assert(fold_onto(base, seq![PartView::CurDir]) == base);
    } else {
        assert(relative_walk(base, target)->Some_0 =~= walk);
        lemma_fold_concat(base, walk);
        assert(folded(base) == base);
        lemma_fold_onto_concat(base, ups, rest);
        assert(fold_onto(base, ups) == base.take(k));
        assert(folded(base + walk) == fold_onto(base, ups + rest));
    }
}

/// Folding onto a concatenation folds the parts in turn.
proof fn lemma_fold_onto_concat(out: Seq<PartView>, a: Seq<PartView>, b: Seq<PartView>)
    ensures
        fold_onto(out, a + b) == fold_onto(fold_onto(out, a), b),
    decreases b.len(),
{
    if b.len() > 0 {
        lemma_fold_onto_concat(out, a, b.drop_last());
        assert((a + b).drop_last() =~= a + b.drop_last());
    } else {
        assert(a + b =~= a);
    }
}

} // verus!
