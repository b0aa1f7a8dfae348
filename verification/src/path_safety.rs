//! Path safety: validation of relative paths, resolution of paths that do
//! not exist yet, and containment under a base directory.
//!
//! Paths are POSIX paths: `/` separates components, empty components and
//! `.` components inside a path mean nothing, and `..` is the parent
//! directory. Nothing here touches the disk: what the disk says of a path
//! is handed in as a [`Probe`].

use crate::text::{
    append_chars, chars_eq, copy_chars, from_chars, join, join_chars, lemma_split_pieces,
    parts_view, split, split_chars, to_chars,
};
use vstd::prelude::*;

verus! {

/// Why a path was refused.
#[derive(Clone, Copy, Debug, PartialEq, Eq, Structural)]
pub enum PathEscape {
    /// The path has a `..` component.
    ParentDir,
    /// The path starts at the root.
    Absolute,
    /// The probes do not settle where the path leads.
    Unresolved,
    /// The base directory has no canonical form.
    BaseMissing,
    /// The path leads outside the base directory.
    Outside,
}

/// What the disk says of one path.
#[derive(Clone, Debug, PartialEq, Eq)]
pub enum Probe {
    /// Nothing exists at the path.
    Missing,
    /// The path exists, and this is its canonical absolute form.
    Canonical(String),
    /// The path exists but has no canonical form.
    Unreadable,
}

/// The model of a [`Probe`].
pub enum ProbeView {
    Missing,
    Canonical(Seq<char>),
    Unreadable,
}

impl DeepView for Probe {
    type V = ProbeView;

    open spec fn deep_view(&self) -> ProbeView {
        match self {
            Probe::Missing => ProbeView::Missing,
            Probe::Canonical(c) => ProbeView::Canonical(c@),
            Probe::Unreadable => ProbeView::Unreadable,
        }
    }
}

/// How far the resolution of a path has come.
#[derive(Clone, Debug, PartialEq, Eq)]
pub enum Resolution {
    /// The path resolves to this one.
    Resolved(String),
    /// The probe of this path is needed next.
    Pending(String),
    /// An ancestor exists but has no canonical form.
    Failed,
}

/// The model of a [`Resolution`].
pub enum ResolutionView {
    Resolved(Seq<char>),
    Pending(Seq<char>),
    Failed,
}

impl DeepView for Resolution {
    type V = ResolutionView;

    open spec fn deep_view(&self) -> ResolutionView {
        match self {
            Resolution::Resolved(p) => ResolutionView::Resolved(p@),
            Resolution::Pending(p) => ResolutionView::Pending(p@),
            Resolution::Failed => ResolutionView::Failed,
        }
    }
}

/// The component that stands for the root directory.
pub open spec fn root_mark() -> Seq<char> {
    seq!['/']
}

/// The component `.`.
pub open spec fn cur_dir() -> Seq<char> {
    seq!['.']
}

/// The component `..`.
pub open spec fn parent_dir() -> Seq<char> {
    seq!['.', '.']
}

/// Whether the path starts at the root.
pub open spec fn is_absolute(p: Seq<char>) -> bool {
    p.len() > 0 && p[0] == '/'
}

/// Whether one of the path's components is `..`.
pub open spec fn has_parent_dir(p: Seq<char>) -> bool {
    split(p, '/').contains(parent_dir())
}

/// A relative path is accepted when it neither starts at the root nor has
/// a `..` component. The root is found first.
pub open spec fn validate_relative_spec(p: Seq<char>) -> Result<(), PathEscape> {
    if is_absolute(p) {
        Err(PathEscape::Absolute)
    } else if has_parent_dir(p) {
        Err(PathEscape::ParentDir)
    } else {
        Ok(())
    }
}

/// Whether a piece between separators is a component: it is neither empty
/// nor `.`.
pub open spec fn is_name(seg: Seq<char>) -> bool {
    seg.len() > 0 && seg != cur_dir()
}

/// The pieces that are components, in order.
pub open spec fn names(segs: Seq<Seq<char>>) -> Seq<Seq<char>>
    decreases segs.len(),
{
    if segs.len() == 0 {
        Seq::empty()
    } else if is_name(segs.last()) {
        names(segs.drop_last()).push(segs.last())
    } else {
        names(segs.drop_last())
    }
}

/// What stands before the names: the root of an absolute path, or the `.`
/// that a relative path starts with.
pub open spec fn lead(p: Seq<char>) -> Seq<Seq<char>> {
    if is_absolute(p) {
        seq![root_mark()]
    } else if split(p, '/')[0] == cur_dir() {
        seq![cur_dir()]
    } else {
        Seq::empty()
    }
}

/// The components of a path: its lead, then its names.
pub open spec fn components(p: Seq<char>) -> Seq<Seq<char>> {
    lead(p) + names(split(p, '/'))
}

/// Whether a component is an ordinary name, one that can be taken off the
/// end of a path.
pub open spec fn is_plain(c: Seq<char>) -> bool {
    c != root_mark() && c != cur_dir() && c != parent_dir()
}

/// The path made of the given components.
pub open spec fn rebuild(comps: Seq<Seq<char>>) -> Seq<char> {
    if comps.len() > 0 && comps[0] == root_mark() {
        root_mark() + join(comps.skip(1), '/')
    } else {
        join(comps, '/')
    }
}

/// `base` with one more name at its end.
pub open spec fn push_name(base: Seq<char>, name: Seq<char>) -> Seq<char> {
    if base.len() == 0 || base.last() == '/' {
        base + name
    } else {
        base.push('/') + name
    }
}

/// `base` with the given names at its end, in order.
pub open spec fn push_names(base: Seq<char>, tail: Seq<Seq<char>>) -> Seq<char>
    decreases tail.len(),
{
    if tail.len() == 0 {
        base
    } else {
        push_name(push_names(base, tail.drop_last()), tail.last())
    }
}

/// The path itself, or its ancestor with `i` names taken off its end.
/// A relative path with every name taken off, and so the empty path
/// too, is the current directory, `.`.
pub open spec fn ancestor(p: Seq<char>, i: nat) -> Seq<char> {
    if components(p).len() <= i {
        cur_dir()
    } else if i == 0 {
        p
    } else {
        rebuild(components(p).take(components(p).len() - i))
    }
}

/// Resolution from the ancestor with `i` names taken off, where
/// `probes[j]` is the probe of `ancestor(p, j)`.
pub open spec fn resolve_from(p: Seq<char>, probes: Seq<ProbeView>, i: nat) -> ResolutionView
    decreases components(p).len() - i,
{
    let comps = components(p);
    let n = comps.len();
    if i >= probes.len() {
        ResolutionView::Pending(ancestor(p, i))
    } else {
        match probes[i as int] {
            ProbeView::Canonical(c) => ResolutionView::Resolved(push_names(c, comps.skip(n - i))),
            ProbeView::Unreadable => ResolutionView::Failed,
            ProbeView::Missing => if i < n && is_plain(comps[n - 1 - i]) {
                resolve_from(p, probes, i + 1)
            } else {
                ResolutionView::Resolved(p)
            },
        }
    }
}

/// The canonical form of the longest existing ancestor of `p`, with the
/// names that do not exist yet put back at its end. The last ancestor of
/// a relative path is the current directory. A path that is missing, and
/// from whose end no ordinary name is left to take off, resolves to
/// itself.
pub open spec fn resolve_spec(p: Seq<char>, probes: Seq<ProbeView>) -> ResolutionView {
    resolve_from(p, probes, 0)
}

/// Whether `resolved` lies in `base`: the components of `base` are the
/// first components of `resolved`.
pub open spec fn is_under(resolved: Seq<char>, base: Seq<char>) -> bool {
    components(base).is_prefix_of(components(resolved))
}

/// The resolved target where it lies in the canonical base, an error
/// otherwise.
pub open spec fn ensure_under_spec(
    target: Seq<char>,
    probes: Seq<ProbeView>,
    base: ProbeView,
) -> Result<Seq<char>, PathEscape> {
    match resolve_spec(target, probes) {
        ResolutionView::Resolved(r) => match base {
            ProbeView::Canonical(b) => if is_under(r, b) {
                Ok(r)
            } else {
                Err(PathEscape::Outside)
            },
            _ => Err(PathEscape::BaseMissing),
        },
        _ => Err(PathEscape::Unresolved),
    }
}

/// Whether `c` is exactly the text `a`, or `a` then `b`.
fn is_dots(c: &Vec<char>, count: usize) -> (b: bool)
    requires
        count == 1 || count == 2,
    ensures
        b == (c@ == if count == 1 {
            cur_dir()
        } else {
            parent_dir()
        }),
{
    if c.len() != count {
        return false;
    }
    let mut i: usize = 0;
    while i < count
        invariant
            i <= count,
            c.len() == count,
            forall|j: int| 0 <= j < i ==> c@[j] == '.',
        decreases count - i,
    {
        if c[i] != '.' {
            return false;
        }
        i = i + 1;
    }
    proof {
        if count == 1 {
            assert(c@ =~= cur_dir());
        } else {
            assert(c@ =~= parent_dir());
        }
    }
    true
}

/// Rejects a relative path that has a `..` component or starts at the
/// root.
pub fn validate_relative(rel: &str) -> (r: Result<(), PathEscape>)
    ensures
        r == validate_relative_spec(rel@),
{
    let p = to_chars(rel);
    validate_relative_chars(&p)
}

/// [`validate_relative`] on characters.
pub fn validate_relative_chars(p: &Vec<char>) -> (r: Result<(), PathEscape>)
    ensures
        r == validate_relative_spec(p@),
{
    if p.len() > 0 && p[0] == '/' {
        return Err(PathEscape::Absolute);
    }
    let segs = split_chars(p, '/');
    let mut i: usize = 0;
    while i < segs.len()
        invariant
            i <= segs.len(),
            !is_absolute(p@),
            parts_view(segs@) == split(p@, '/'),
            forall|j: int| 0 <= j < i ==> split(p@, '/')[j] != parent_dir(),
        decreases segs.len() - i,
    {
        assert(parts_view(segs@)[i as int] == segs@[i as int]@);
        if is_dots(&segs[i], 2) {
            assert(split(p@, '/')[i as int] == parent_dir());
            return Err(PathEscape::ParentDir);
        }
        i = i + 1;
    }
    Ok(())
}

/// The components of the path `p`.
pub fn components_chars(p: &Vec<char>) -> (comps: Vec<Vec<char>>)
    ensures
        parts_view(comps@) == components(p@),
{
    let segs = split_chars(p, '/');
    proof {
        lemma_split_pieces(p@, '/');
        assert(parts_view(segs@).len() == segs.len());
        assert(parts_view(segs@)[0] == segs@[0]@);
    }
    let mut comps: Vec<Vec<char>> = Vec::new();
    if p.len() > 0 && p[0] == '/' {
        let mut root: Vec<char> = Vec::new();
        root.push('/');
        assert(root@ =~= root_mark());
        comps.push(root);
    } else if is_dots(&segs[0], 1) {
        comps.push(copy_chars(&segs[0]));
    }
    assert(parts_view(comps@) =~= lead(p@));
    let ghost all = split(p@, '/');
    let mut i: usize = 0;
    assert(all.take(0) =~= Seq::<Seq<char>>::empty());
    while i < segs.len()
        invariant
            i <= segs.len(),
            all == split(p@, '/'),
            parts_view(segs@) == all,
            parts_view(comps@) == lead(p@) + names(all.take(i as int)),
        decreases segs.len() - i,
    {
        let seg = &segs[i];
        proof {
            assert(all[i as int] == seg@);
            assert(all.take(i + 1).drop_last() =~= all.take(i as int));
            assert(all.take(i + 1).last() == seg@);
        }
        if seg.len() > 0 && !is_dots(seg, 1) {
            let ghost before = parts_view(comps@);
            let name = copy_chars(seg);
            comps.push(name);
            assert(parts_view(comps@) =~= before.push(seg@));
            assert(parts_view(comps@) =~= lead(p@) + names(all.take(i + 1)));
        }
        i = i + 1;
    }
    assert(all.take(segs.len() as int) =~= all);
    comps
}

/// Whether `c` is an ordinary name: none of `/`, `.` and `..`.
pub fn is_plain_chars(c: &Vec<char>) -> (b: bool)
    ensures
        b == is_plain(c@),
{
    if c.len() == 1 && c[0] == '/' {
        assert(c@ =~= root_mark());
        return false;
    }
    assert(c@ != root_mark()) by {
        if c@ == root_mark() {
            assert(c@.len() == 1 && c@[0] == '/');
        }
    }
    !is_dots(c, 1) && !is_dots(c, 2)
}

/// The path made of the first `count` components of `comps`.
fn rebuild_chars(comps: &Vec<Vec<char>>, count: usize) -> (out: Vec<char>)
    requires
        count <= comps.len(),
    ensures
        out@ == rebuild(parts_view(comps@).take(count as int)),
{
    let ghost head = parts_view(comps@).take(count as int);
    if count > 0 && comps[0].len() == 1 && comps[0][0] == '/' {
        proof {
            assert(head[0] == comps@[0]@);
            assert(comps@[0]@ =~= root_mark());
            assert(head.skip(1) =~= parts_view(comps@).subrange(1, count as int));
        }
        let mut out: Vec<char> = Vec::new();
        out.push('/');
        assert(out@ =~= root_mark());
        let rest = join_chars(comps, 1, count, '/');
        append_chars(&mut out, &rest);
        out
    } else {
        proof {
            if count > 0 {
                assert(head[0] == comps@[0]@);
                if head[0] == root_mark() {
                    assert(comps@[0]@.len() == 1 && comps@[0]@[0] == '/');
                }
            }
            assert(head =~= parts_view(comps@).subrange(0, count as int));
        }
        join_chars(comps, 0, count, '/')
    }
}

/// `base` with the components of `comps` from position `from` on at its
/// end.
fn push_names_chars(base: &Vec<char>, comps: &Vec<Vec<char>>, from: usize) -> (out: Vec<char>)
    requires
        from <= comps.len(),
    ensures
        out@ == push_names(base@, parts_view(comps@).skip(from as int)),
{
    let mut out = copy_chars(base);
    let mut j: usize = from;
    assert(parts_view(comps@).subrange(from as int, from as int) =~= Seq::<Seq<char>>::empty());
    while j < comps.len()
        invariant
            from <= j <= comps.len(),
            out@ == push_names(base@, parts_view(comps@).subrange(from as int, j as int)),
        decreases comps.len() - j,
    {
        let ghost before = parts_view(comps@).subrange(from as int, j as int);
        let ghost after = parts_view(comps@).subrange(from as int, j + 1);
        proof {
            assert(after.drop_last() =~= before);
            assert(after.last() == comps@[j as int]@);
        }
        if out.len() > 0 && out[out.len() - 1] != '/' {
            out.push('/');
        }
        append_chars(&mut out, &comps[j]);
        j = j + 1;
    }
    assert(parts_view(comps@).subrange(from as int, comps.len() as int) =~= parts_view(comps@).skip(
        from as int,
    ));
    out
}

/// The path `rel` under the directory `root`.
pub fn destination(root: &str, rel: &str) -> (out: String)
    ensures
        out@ == push_name(root@, rel@),
{
    let mut out = to_chars(root);
    if out.len() > 0 && out[out.len() - 1] != '/' {
        out.push('/');
    }
    append_chars(&mut out, &to_chars(rel));
    from_chars(&out)
}

/// Once there are more probes than the path has components, the
/// resolution is settled.
pub proof fn lemma_resolution_settles(p: Seq<char>, probes: Seq<ProbeView>, i: nat)
    requires
        i <= components(p).len(),
        probes.len() > components(p).len(),
    ensures
        !(resolve_from(p, probes, i) is Pending),
    decreases components(p).len() - i,
{
    let comps = components(p);
    let n = comps.len();
    if probes[i as int] is Missing && i < n && is_plain(comps[n - 1 - i]) {
        lemma_resolution_settles(p, probes, i + 1);
    }
}

/// Resolves a path that may not exist yet: the canonical form of its
/// longest existing ancestor, with the names that do not exist put back
/// at its end.
///
/// `probes[i]` is what the disk says of the path with `i` names taken off
/// its end (`probes[0]` of the path itself). Where a probe is lacking, the
/// result names the path to probe next.
pub fn resolve_nonexistent(path: &str, probes: &Vec<Probe>) -> (r: Resolution)
    ensures
        r.deep_view() == resolve_spec(path@, probes.deep_view()),
        r is Pending ==> probes.len() <= components(path@).len(),
{
    let p = to_chars(path);
    let comps = components_chars(&p);
    let n = comps.len();
    assert(parts_view(comps@).len() == n);
    let mut i: usize = 0;
    loop
        invariant
            i <= n,
            n == comps.len(),
            p@ == path@,
            parts_view(comps@) == components(p@),
            resolve_spec(path@, probes.deep_view()) == resolve_from(
                p@,
                probes.deep_view(),
                i as nat,
            ),
        decreases n - i,
    {
        if i >= probes.len() {
            let next = if i == n {
                let mut here: Vec<char> = Vec::new();
                here.push('.');
                assert(here@ =~= cur_dir());
                here
            } else if i == 0 {
                copy_chars(&p)
            } else {
                rebuild_chars(&comps, n - i)
            };
            return Resolution::Pending(from_chars(&next));
        }
        assert(probes.deep_view()[i as int] == probes@[i as int].deep_view());
        match &probes[i] {
            Probe::Canonical(c) => {
                let base = to_chars(c.as_str());
                let out = push_names_chars(&base, &comps, n - i);
                return Resolution::Resolved(from_chars(&out));
            },
            Probe::Unreadable => {
                return Resolution::Failed;
            },
            Probe::Missing => {
                proof {
                    if i < n {
                        assert(parts_view(comps@)[n - 1 - i] == comps@[n - 1 - i]@);
                    }
                }
                if i < n && is_plain_chars(&comps[n - 1 - i]) {
                    i = i + 1;
                } else {
                    return Resolution::Resolved(from_chars(&p));
                }
            },
        }
    }
}

/// Whether the components `a` are the first components of `b`.
fn is_prefix_chars(a: &Vec<Vec<char>>, b: &Vec<Vec<char>>) -> (r: bool)
    ensures
        r == parts_view(a@).is_prefix_of(parts_view(b@)),
{
    if a.len() > b.len() {
        return false;
    }
    let mut i: usize = 0;
    while i < a.len()
        invariant
            i <= a.len() <= b.len(),
            forall|j: int| 0 <= j < i ==> a@[j]@ == b@[j]@,
        decreases a.len() - i,
    {
        if !chars_eq(&a[i], &b[i]) {
            assert(parts_view(a@)[i as int] == a@[i as int]@);
            assert(parts_view(b@).subrange(0, a.len() as int)[i as int] == b@[i as int]@);
            return false;
        }
        i = i + 1;
    }
    assert(parts_view(a@) =~= parts_view(b@).subrange(0, a.len() as int));
    true
}

/// Checks that `target`, once resolved, lies in the base directory.
///
/// `probes` are the probes of `target` as [`resolve_nonexistent`] takes
/// them, and `base` is the probe of the base directory. The result is the
/// resolved target.
pub fn ensure_under(target: &str, probes: &Vec<Probe>, base: &Probe) -> (r: Result<
    String,
    PathEscape,
>)
    ensures
        match r {
            Ok(resolved) => ensure_under_spec(target@, probes.deep_view(), base.deep_view()) == Ok::<
                Seq<char>,
                PathEscape,
            >(resolved@),
            Err(e) => ensure_under_spec(target@, probes.deep_view(), base.deep_view()) == Err::<
                Seq<char>,
                PathEscape,
            >(e),
        },
{
    match resolve_nonexistent(target, probes) {
        Resolution::Resolved(resolved) => match base {
            Probe::Canonical(b) => {
                let rc = components_chars(&to_chars(resolved.as_str()));
                let bc = components_chars(&to_chars(b.as_str()));
                if is_prefix_chars(&bc, &rc) {
                    Ok(resolved)
                } else {
                    Err(PathEscape::Outside)
                }
            },
            _ => Err(PathEscape::BaseMissing),
        },
        _ => Err(PathEscape::Unresolved),
    }
}

} // verus!
