//! A model of the data directory and of what performing a plan does to
//! it.
//!
//! The model knows regular files only: each has a content and a
//! modification time, and is named by its path relative to the data root,
//! spelled as the plans spell it. Whatever writes a file stamps it with the
//! time of the run. What the driver reads while it performs a composite
//! action (the content of a marker, the modification time of a
//! destination) is read from the model; what it reads from elsewhere (the
//! listing of the plugins directory, the source directories) is given by
//! the [`Env`].

use crate::action::{fatal_spec, touches, ActionView};
use crate::line_config::{ensure_line_spec, remove_line_spec};
use crate::manifest::ManifestView;
use crate::path_safety::ProbeView;
use crate::plugins::{
    install_spec, remove_plugin_spec, remove_stale_spec, InstallError, SourceFileView,
};
use vstd::prelude::*;

verus! {

/// One regular file.
pub struct FileModel {
    pub content: Seq<char>,
    pub mtime: int,
}

/// The regular files under the data root, by relative path.
pub type Tree = Map<Seq<char>, FileModel>;

/// What a run meets outside the data directory.
pub struct Env {
    /// The time of the run: every file written is stamped with it.
    pub now: int,
    /// The data root, and what the disk says of it.
    pub root: Seq<char>,
    pub base: ProbeView,
    /// The desired state.
    pub manifest: ManifestView,
    /// The entries of the plugins directory, in the order in which the
    /// driver lists them.
    pub entries: Seq<Seq<char>>,
    /// The files of each source directory that exists, in walk order. The
    /// destination's modification time is not taken from here: it is read
    /// from the tree.
    pub listings: Map<Seq<char>, Seq<SourceFileView>>,
    /// The content of the source files, by the path that a copy names.
    pub sources: Map<Seq<char>, Seq<char>>,
}

/// The content of a file, a missing one read as empty.
pub open spec fn content_of(t: Tree, path: Seq<char>) -> Seq<char> {
    if t.contains_key(path) {
        t[path].content
    } else {
        Seq::empty()
    }
}

/// The modification time of a file, if it exists.
pub open spec fn mtime_of(t: Tree, path: Seq<char>) -> Option<int> {
    if t.contains_key(path) {
        Some(t[path].mtime)
    } else {
        None
    }
}

/// The tree with `content` written to `path` at the time of the run.
pub open spec fn written(t: Tree, path: Seq<char>, content: Seq<char>, env: Env) -> Tree {
    t.insert(path, FileModel { content, mtime: env.now })
}

/// What a simple action does. Composite actions are not performed here.
pub open spec fn perform_simple(t: Tree, a: ActionView, env: Env) -> Tree {
    match a {
        ActionView::Write { path, content } => written(t, path, content, env),
        ActionView::Rename { from, to } => if t.contains_key(from) {
            t.remove(from).insert(to, t[from])
        } else {
            t
        },
        ActionView::EnsureLine { path, line } => match ensure_line_spec(content_of(t, path), line) {
            None => t,
            Some(text) => written(t, path, content_of(t, path) + text, env),
        },
        ActionView::RemoveLine { path, line } => if t.contains_key(path) {
            match remove_line_spec(t[path].content, line) {
                None => t,
                Some(content) => written(t, path, content, env),
            }
        } else {
            t
        },
        ActionView::Remove { path } => t.remove(path),
        ActionView::Copy { from, to } => written(t, to, env.sources[from], env),
        _ => t,
    }
}

/// What a plan of simple actions does, in order.
pub open spec fn run_simple(t: Tree, plan: Seq<ActionView>, env: Env) -> Tree
    decreases plan.len(),
{
    if plan.len() == 0 {
        t
    } else {
        perform_simple(run_simple(t, plan.drop_last(), env), plan.last(), env)
    }
}

/// What an action does, the removal of a plugin included: its marker is
/// read from the tree, and the plan made from it is performed.
pub open spec fn perform_step(t: Tree, a: ActionView, env: Env) -> Tree {
    match a {
        ActionView::RemovePlugin { name, marker } => run_simple(
            t,
            remove_plugin_spec(marker, content_of(t, marker)),
            env,
        ),
        _ => perform_simple(t, a, env),
    }
}

/// What a plan of such actions does, in order.
pub open spec fn run_steps(t: Tree, plan: Seq<ActionView>, env: Env) -> Tree
    decreases plan.len(),
{
    if plan.len() == 0 {
        t
    } else {
        perform_step(run_steps(t, plan.drop_last(), env), plan.last(), env)
    }
}

/// The files of a listing as the driver finds them: the destination's
/// modification time is the one in the tree.
pub open spec fn observe(t: Tree, files: Seq<SourceFileView>) -> Seq<SourceFileView> {
    Seq::new(
        files.len(),
        |i: int|
            SourceFileView {
                rel: files[i].rel,
                probes: files[i].probes,
                src_mtime: files[i].src_mtime,
                dest_mtime: mtime_of(t, files[i].rel),
            },
    )
}

/// What the driver finds in a source directory: its files, or nothing
/// where the directory is missing.
pub open spec fn found(t: Tree, source_dir: Seq<char>, env: Env) -> Option<Seq<SourceFileView>> {
    if env.listings.contains_key(source_dir) {
        Some(observe(t, env.listings[source_dir]))
    } else {
        None
    }
}

/// What any action does. The removal of stale plugins plans from the
/// listing of the plugins directory; an installation plans from what the
/// driver finds, and fails where the planning fails.
pub open spec fn perform(t: Tree, a: ActionView, env: Env) -> Result<Tree, InstallError> {
    match a {
        ActionView::RemoveStale => Ok(
            run_steps(t, remove_stale_spec(env.entries, env.manifest), env),
        ),
        ActionView::Install { name, source_dir } => match install_spec(
            env.root,
            env.base,
            name,
            source_dir,
            found(t, source_dir, env),
        ) {
            Err(e) => Err(e),
            Ok(done) => Ok(run_steps(t, done.actions, env)),
        },
        _ => Ok(perform_step(t, a, env)),
    }
}

/// What a plan does, in order. It stops at the first failure.
pub open spec fn run(t: Tree, plan: Seq<ActionView>, env: Env) -> Result<Tree, InstallError>
    decreases plan.len(),
{
    if plan.len() == 0 {
        Ok(t)
    } else {
        match run(t, plan.drop_last(), env) {
            Err(e) => Err(e),
            Ok(mid) => perform(mid, plan.last(), env),
        }
    }
}

/// Only an action whose failure ends the run makes a run fail.
pub proof fn lemma_only_fatal_actions_fail(t: Tree, a: ActionView, env: Env)
    requires
        perform(t, a, env) is Err,
    ensures
        fatal_spec(a),
{
}

/// Performing two plans one after the other is performing them as one.
pub proof fn lemma_run_simple_concat(t: Tree, a: Seq<ActionView>, b: Seq<ActionView>, env: Env)
    ensures
        run_simple(t, a + b, env) == run_simple(run_simple(t, a, env), b, env),
    decreases b.len(),
{
    if b.len() == 0 {
        assert(a + b =~= a);
    } else {
        assert((a + b).drop_last() =~= a + b.drop_last());
        lemma_run_simple_concat(t, a, b.drop_last(), env);
    }
}

/// Performing two plans one after the other is performing them as one.
pub proof fn lemma_run_steps_concat(t: Tree, a: Seq<ActionView>, b: Seq<ActionView>, env: Env)
    ensures
        run_steps(t, a + b, env) == run_steps(run_steps(t, a, env), b, env),
    decreases b.len(),
{
    if b.len() == 0 {
        assert(a + b =~= a);
    } else {
        assert((a + b).drop_last() =~= a + b.drop_last());
        lemma_run_steps_concat(t, a, b.drop_last(), env);
    }
}

/// A simple action leaves alone every path that it does not touch.
pub proof fn lemma_frame_simple(t: Tree, a: ActionView, env: Env, p: Seq<char>)
    requires
        !touches(a, p),
    ensures
        perform_simple(t, a, env).contains_key(p) == t.contains_key(p),
        t.contains_key(p) ==> perform_simple(t, a, env)[p] == t[p],
{
}

/// A plan without the removal of a plugin leaves alone every path that
/// none of its actions touches.
pub proof fn lemma_frame_steps(t: Tree, plan: Seq<ActionView>, env: Env, p: Seq<char>)
    requires
        forall|i: int|
            0 <= i < plan.len() ==> !((#[trigger] plan[i]) is RemovePlugin) && !touches(plan[i], p),
    ensures
        run_steps(t, plan, env).contains_key(p) == t.contains_key(p),
        t.contains_key(p) ==> run_steps(t, plan, env)[p] == t[p],
    decreases plan.len(),
{
    if plan.len() > 0 {
        let init = plan.drop_last();
        assert forall|i: int| 0 <= i < init.len() implies !((#[trigger] init[i]) is RemovePlugin)
            && !touches(init[i], p) by {
            assert(init[i] == plan[i]);
        }
        lemma_frame_steps(t, init, env, p);
        assert(!(plan[plan.len() - 1] is RemovePlugin));
        lemma_frame_simple(run_steps(t, init, env), plan.last(), env, p);
    }
}

/// A plan with one more action at its end does what the plan does, and
/// then what the action does.
pub proof fn lemma_run_push(t: Tree, plan: Seq<ActionView>, a: ActionView, env: Env)
    ensures
        run(t, plan.push(a), env) == match run(t, plan, env) {
            Err(e) => Err::<Tree, InstallError>(e),
            Ok(mid) => perform(mid, a, env),
        },
{
    assert(plan.push(a).drop_last() =~= plan);
}

/// Where a plan succeeds, each of its beginnings has succeeded.
pub proof fn lemma_run_prefix_ok(t: Tree, plan: Seq<ActionView>, k: int, env: Env)
    requires
        0 <= k <= plan.len(),
        run(t, plan, env) is Ok,
    ensures
        run(t, plan.take(k), env) is Ok,
    decreases plan.len() - k,
{
    if k == plan.len() {
        assert(plan.take(k) =~= plan);
    } else {
        lemma_run_prefix_ok(t, plan, k + 1, env);
        assert(plan.take(k + 1).drop_last() =~= plan.take(k));
    }
}

/// A plan of one action does what the action does.
pub proof fn lemma_run_steps_one(t: Tree, a: ActionView, env: Env)
    ensures
        run_steps(t, seq![a], env) == perform_step(t, a, env),
{
    reveal_with_fuel(run_steps, 2);
    assert(seq![a].drop_last() =~= Seq::<ActionView>::empty());
}

/// A plan of one simple action does what the action does.
pub proof fn lemma_run_simple_one(t: Tree, a: ActionView, env: Env)
    ensures
        run_simple(t, seq![a], env) == perform_simple(t, a, env),
{
    reveal_with_fuel(run_simple, 2);
    assert(seq![a].drop_last() =~= Seq::<ActionView>::empty());
}

/// Whether the action writes and nothing else: it makes a directory,
/// writes or copies a file, adds a line, or reports.
pub open spec fn only_writes(a: ActionView) -> bool {
    a is Copy || a is Write || a is EnsureLine || a is CreateDirAll || a is WarnSourceMissing
}

/// Whether every file of `before` is in `after`, as it was or stamped
/// with `now`.
pub open spec fn kept_or_stamped(before: Tree, after: Tree, now: int) -> bool {
    forall|p: Seq<char>|
        #[trigger] before.contains_key(p) ==> after.contains_key(p) && (after[p] == before[p]
            || after[p].mtime == now)
}

/// A simple action that only writes keeps every file, as it was or
/// stamped with the time of the run.
pub proof fn lemma_write_keeps(t: Tree, a: ActionView, env: Env)
    requires
        only_writes(a),
    ensures
        kept_or_stamped(t, perform_simple(t, a, env), env.now),
{
}

/// A plan of actions that only write keeps every file, as it was or
/// stamped with the time of the run.
pub proof fn lemma_writes_keep(t: Tree, plan: Seq<ActionView>, env: Env)
    requires
        forall|c: int| 0 <= c < plan.len() ==> only_writes(#[trigger] plan[c]),
    ensures
        kept_or_stamped(t, run_steps(t, plan, env), env.now),
    decreases plan.len(),
{
    if plan.len() > 0 {
        let init = plan.drop_last();
        assert forall|c: int| 0 <= c < init.len() implies only_writes(#[trigger] init[c]) by {
            assert(init[c] == plan[c]);
        }
        lemma_writes_keep(t, init, env);
        assert(only_writes(plan[plan.len() - 1]));
        let mid = run_steps(t, init, env);
        lemma_write_keeps(mid, plan.last(), env);
        let after = run_steps(t, plan, env);
        assert(after == perform_simple(mid, plan.last(), env));
        assert forall|p: Seq<char>| t.contains_key(p) implies after.contains_key(p) && (after[p]
            == t[p] || after[p].mtime == env.now) by {
            assert(mid.contains_key(p));
            assert(after.contains_key(p));
        }
    }
}

} // verus!
