//! Convergence: after a run that succeeds, the plugins that are
//! installed are exactly the plugins that are desired.
//!
//! A plugin is installed when its name is made of name characters and its
//! marker exists. The law is stated of the model of a run, and holds
//! whatever was installed before and in whatever order the plugins
//! directory is listed.

use crate::action::{touches, ActionView};
use crate::manifest::ManifestView;
use crate::model::{
    content_of, found, kept_or_stamped, lemma_frame_steps, lemma_run_prefix_ok, lemma_run_push,
    lemma_run_steps_concat, lemma_run_steps_one, lemma_writes_keep, observe, only_writes, perform,
    perform_simple, perform_step, run, run_simple, run_steps, Env, Tree,
};
use crate::plugins::{
    entry_removal, install_spec, line_removal, lines_removal, marker_name, marker_path,
    marker_suffix, marker_text, plan_of, plugins_prefix, register_spec, registry_path,
    remove_plugin_spec, remove_stale_spec, sync_spec, valid_name, walk_spec, InstallError,
    SourceFileView,
};
use crate::safety::lemma_walk_copies;
use crate::text::lines;
use vstd::prelude::*;

verus! {

/// The plugins that are installed: those whose marker exists.
pub open spec fn installed(t: Tree) -> Set<Seq<char>> {
    Set::new(|name: Seq<char>| valid_name(name) && t.contains_key(marker_path(name)))
}

/// Whether the listing of the plugins directory shows every marker that
/// the tree holds.
pub open spec fn lists_markers(entries: Seq<Seq<char>>, t: Tree) -> bool {
    forall|name: Seq<char>|
        valid_name(name) && t.contains_key(#[trigger] marker_path(name)) ==> entries.contains(
            name + marker_suffix(),
        )
}

/// Whether every desired plugin has its source directory.
pub open spec fn sources_present(env: Env) -> bool {
    forall|i: int|
        0 <= i < env.manifest.plugins.len() ==> env.listings.contains_key(
            (#[trigger] env.manifest.plugins[i]).source_dir,
        )
}

/// Whether the path is the marker of a plugin that is not desired.
pub open spec fn is_stray_marker(p: Seq<char>, m: ManifestView) -> bool {
    exists|name: Seq<char>| valid_name(name) && p == #[trigger] marker_path(name) && !m.wants(name)
}

/// Whether no file of the listing goes to the marker of a plugin that is
/// not desired.
pub open spec fn plants_no_stray(listing: Seq<SourceFileView>, m: ManifestView) -> bool {
    forall|j: int| 0 <= j < listing.len() ==> !is_stray_marker((#[trigger] listing[j]).rel, m)
}

/// Whether the plugin at position `i` has its source directory.
pub open spec fn has_source(env: Env, i: int) -> bool {
    env.listings.contains_key(env.manifest.plugins[i].source_dir)
}

/// Whether no source directory of a desired plugin holds a file whose
/// destination is the marker of a plugin that is not desired. A file
/// that goes to the marker of a desired plugin does no harm: the
/// installation of that plugin writes the marker anyway.
pub open spec fn no_stray_marker(env: Env) -> bool {
    forall|i: int|
        0 <= i < env.manifest.plugins.len() && has_source(env, i) ==> plants_no_stray(
            env.listings[(#[trigger] env.manifest.plugins[i]).source_dir],
            env.manifest,
        )
}

/// Whether an action of a removal: one that deletes, takes a line out, or
/// reports.
pub open spec fn only_removes(a: ActionView) -> bool {
    a is RemoveLine || a is Remove || a is WarnSuspiciousPath || a is WarnInvalidMarker
        || a is RemovePlugin
}

/// Whether every action of the plan is one of a removal.
pub open spec fn plan_only_removes(plan: Seq<ActionView>) -> bool {
    forall|i: int| 0 <= i < plan.len() ==> only_removes(#[trigger] plan[i])
}

/// Whether every file of `after` is a file of `before`.
pub open spec fn no_new_file(before: Tree, after: Tree) -> bool {
    forall|p: Seq<char>| after.contains_key(p) ==> before.contains_key(p)
}

/// A simple action of a removal adds no file.
pub proof fn lemma_simple_removal_adds_nothing(t: Tree, a: ActionView, env: Env)
    requires
        only_removes(a),
    ensures
        no_new_file(t, perform_simple(t, a, env)),
{
}

/// A plan of simple actions of a removal adds no file.
pub proof fn lemma_simple_removals_add_nothing(t: Tree, plan: Seq<ActionView>, env: Env)
    requires
        plan_only_removes(plan),
    ensures
        no_new_file(t, run_simple(t, plan, env)),
    decreases plan.len(),
{
    if plan.len() > 0 {
        let init = plan.drop_last();
        assert forall|i: int| 0 <= i < init.len() implies only_removes(#[trigger] init[i]) by {
            assert(init[i] == plan[i]);
        }
        lemma_simple_removals_add_nothing(t, init, env);
        assert(only_removes(plan[plan.len() - 1]));
        lemma_simple_removal_adds_nothing(run_simple(t, init, env), plan.last(), env);
    }
}

/// What the lines of a marker ask for are actions of a removal.
pub proof fn lemma_lines_removal_only_removes(ls: Seq<Seq<char>>)
    ensures
        plan_only_removes(lines_removal(ls)),
    decreases ls.len(),
{
    if ls.len() > 0 {
        lemma_lines_removal_only_removes(ls.drop_last());
        let a = lines_removal(ls.drop_last());
        let b = line_removal(ls.last());
        assert forall|i: int| 0 <= i < (a + b).len() implies only_removes(#[trigger] (a + b)[i]) by {
            if i < a.len() {
                assert((a + b)[i] == a[i]);
            } else {
                assert((a + b)[i] == b[i - a.len()]);
            }
        }
    }
}

/// The removal of a plugin adds no file, and leaves no marker behind.
pub proof fn lemma_remove_plugin_effect(t: Tree, name: Seq<char>, marker: Seq<char>, env: Env)
    ensures
        no_new_file(t, perform_step(t, (ActionView::RemovePlugin { name, marker }), env)),
        !perform_step(t, (ActionView::RemovePlugin { name, marker }), env).contains_key(marker),
{
    let body = lines_removal(lines(content_of(t, marker)));
    let plan = remove_plugin_spec(marker, content_of(t, marker));
    lemma_lines_removal_only_removes(lines(content_of(t, marker)));
    assert(plan.drop_last() =~= body);
    lemma_simple_removals_add_nothing(t, body, env);
}

/// An action of a removal adds no file.
pub proof fn lemma_removal_adds_nothing(t: Tree, a: ActionView, env: Env)
    requires
        only_removes(a),
    ensures
        no_new_file(t, perform_step(t, a, env)),
{
    match a {
        ActionView::RemovePlugin { name, marker } => {
            lemma_remove_plugin_effect(t, name, marker, env);
        },
        _ => {
            lemma_simple_removal_adds_nothing(t, a, env);
        },
    }
}

/// A plan of actions of a removal adds no file.
pub proof fn lemma_removals_add_nothing(t: Tree, plan: Seq<ActionView>, env: Env)
    requires
        plan_only_removes(plan),
    ensures
        no_new_file(t, run_steps(t, plan, env)),
    decreases plan.len(),
{
    if plan.len() > 0 {
        let init = plan.drop_last();
        assert forall|i: int| 0 <= i < init.len() implies only_removes(#[trigger] init[i]) by {
            assert(init[i] == plan[i]);
        }
        lemma_removals_add_nothing(t, init, env);
        assert(only_removes(plan[plan.len() - 1]));
        lemma_removal_adds_nothing(run_steps(t, init, env), plan.last(), env);
    }
}

/// The marker of `name` is the entry `name` with the marker suffix.
pub proof fn lemma_marker_entry(name: Seq<char>)
    ensures
        marker_name(name + marker_suffix()) == Some(name),
        plugins_prefix() + (name + marker_suffix()) == marker_path(name),
{
    let entry = name + marker_suffix();
    assert(entry.skip(entry.len() - marker_suffix().len()) =~= marker_suffix());
    assert(entry.take(entry.len() - marker_suffix().len()) =~= name);
    assert(plugins_prefix() + entry =~= marker_path(name));
}

/// Two plugins with the same marker are the same plugin.
pub proof fn lemma_marker_path_injective(a: Seq<char>, b: Seq<char>)
    requires
        marker_path(a) == marker_path(b),
    ensures
        a == b,
{
    let k = plugins_prefix().len() as int;
    let pa = marker_path(a);
    let pb = marker_path(b);
    assert(pa.len() == k + a.len() + marker_suffix().len());
    assert(pb.len() == k + b.len() + marker_suffix().len());
    assert(a =~= pa.subrange(k, k + a.len()));
    assert(b =~= pb.subrange(k, k + b.len()));
}

/// What the removal of stale plugins does to the marker of a plugin that
/// is not desired: where the listing shows the marker, or the marker was
/// missing before, it is missing afterwards.
pub proof fn lemma_stale_marker_goes(t: Tree, entries: Seq<Seq<char>>, name: Seq<char>, env: Env)
    requires
        valid_name(name),
        !env.manifest.wants(name),
        entries.contains(name + marker_suffix()) || !t.contains_key(marker_path(name)),
    ensures
        !run_steps(t, remove_stale_spec(entries, env.manifest), env).contains_key(
            marker_path(name),
        ),
        plan_only_removes(remove_stale_spec(entries, env.manifest)),
    decreases entries.len(),
{
    let m = env.manifest;
    let entry = name + marker_suffix();
    if entries.len() > 0 {
        let init = entries.drop_last();
        let last = entries.last();
        let head = remove_stale_spec(init, m);
        let tail = entry_removal(last, m);
        lemma_stale_plan_only_removes(init, m);
        lemma_stale_plan_only_removes(entries, m);
        lemma_run_steps_concat(t, head, tail, env);
        let mid = run_steps(t, head, env);
        if last == entry {
            lemma_marker_entry(name);
            assert(tail =~= seq![
                (ActionView::RemovePlugin { name, marker: plugins_prefix() + entry }),
            ]);
            lemma_run_steps_one(mid, tail[0], env);
            lemma_remove_plugin_effect(mid, name, plugins_prefix() + entry, env);
        } else {
            if entries.contains(entry) {
                let i = choose|i: int| 0 <= i < entries.len() && entries[i] == entry;
                assert(init[i] == entry);
                assert(init.contains(entry));
            }
            lemma_stale_marker_goes(t, init, name, env);
            assert(plan_only_removes(tail));
            lemma_removals_add_nothing(mid, tail, env);
        }
    }
}

/// The plan that removes stale plugins is made of actions of a removal.
pub proof fn lemma_stale_plan_only_removes(entries: Seq<Seq<char>>, m: ManifestView)
    ensures
        plan_only_removes(remove_stale_spec(entries, m)),
    decreases entries.len(),
{
    if entries.len() > 0 {
        lemma_stale_plan_only_removes(entries.drop_last(), m);
        let a = remove_stale_spec(entries.drop_last(), m);
        let b = entry_removal(entries.last(), m);
        assert forall|i: int| 0 <= i < (a + b).len() implies only_removes(#[trigger] (a + b)[i]) by {
            if i < a.len() {
                assert((a + b)[i] == a[i]);
            } else {
                assert((a + b)[i] == b[i - a.len()]);
            }
        }
    }
}

/// The registry is no marker, and neither is the directory of the
/// configuration files.
pub proof fn lemma_registry_is_no_marker(name: Seq<char>)
    ensures
        marker_path(name) != registry_path(),
        marker_path(name) != "cfg"@,
{
    reveal_strlit("plugins/");
    reveal_strlit("cfg/plugins.cfg");
    reveal_strlit("cfg");
    assert(marker_path(name)[0] == plugins_prefix()[0]);
}

/// An installation that succeeds only writes: it keeps every file, as
/// it was or stamped with the time of the run.
pub proof fn lemma_install_only_writes(t: Tree, name: Seq<char>, source_dir: Seq<char>, env: Env)
    requires
        env.listings.contains_key(source_dir),
        perform(t, (ActionView::Install { name, source_dir }), env) is Ok,
    ensures
        kept_or_stamped(
            t,
            perform(t, (ActionView::Install { name, source_dir }), env)->Ok_0,
            env.now,
        ),
{
    let files = observe(t, env.listings[source_dir]);
    assert(found(t, source_dir, env) == Some(files));
    let done = install_spec(env.root, env.base, name, source_dir, Some(files))->Ok_0;
    let st = walk_spec(env.root, env.base, source_dir, files)->Ok_0;
    let write = ActionView::Write { path: marker_path(name), content: marker_text(st.marker_lines) };
    let registration = match st.dll_stem {
        Some(stem) => register_spec(stem),
        None => Seq::empty(),
    };
    let plan = done.actions;
    assert(plan =~= st.copies + seq![write] + registration);
    lemma_walk_copies(env.root, env.base, source_dir, files);
    assert forall|c: int| 0 <= c < plan.len() implies only_writes(#[trigger] plan[c]) by {
        if c < st.copies.len() {
            let i = choose|i: int|
                0 <= i < files.len() && st.copies[c] == (ActionView::Copy {
                    from: crate::path_safety::push_name(source_dir, (#[trigger] files[i]).rel),
                    to: files[i].rel,
                });
            assert(plan[c] == st.copies[c]);
        } else if c == st.copies.len() {
            assert(plan[c] == write);
        } else {
            assert(plan[c] == registration[c - st.copies.len() - 1]);
        }
    }
    lemma_writes_keep(t, plan, env);
}

/// What the installation of one plugin does to the markers: it writes
/// the plugin's own marker and takes none away, and it adds the marker of
/// no plugin that is not desired, where none of its files goes to such a
/// marker.
pub proof fn lemma_install_adds_one_marker(
    t: Tree,
    name: Seq<char>,
    source_dir: Seq<char>,
    env: Env,
    other: Seq<char>,
)
    requires
        env.listings.contains_key(source_dir),
        plants_no_stray(env.listings[source_dir], env.manifest),
        perform(t, (ActionView::Install { name, source_dir }), env) is Ok,
        valid_name(other),
    ensures
        valid_name(name),
        t.contains_key(marker_path(other)) || other == name ==> perform(
            t,
            (ActionView::Install { name, source_dir }),
            env,
        )->Ok_0.contains_key(marker_path(other)),
        !env.manifest.wants(other) && perform(
            t,
            (ActionView::Install { name, source_dir }),
            env,
        )->Ok_0.contains_key(marker_path(other)) ==> t.contains_key(marker_path(other)) || other
            == name,
{
    let files = observe(t, env.listings[source_dir]);
    assert(found(t, source_dir, env) == Some(files));
    let done = install_spec(env.root, env.base, name, source_dir, Some(files))->Ok_0;
    let st = walk_spec(env.root, env.base, source_dir, files)->Ok_0;
    let p = marker_path(other);
    let write = ActionView::Write { path: marker_path(name), content: marker_text(st.marker_lines) };
    let registration = match st.dll_stem {
        Some(stem) => register_spec(stem),
        None => Seq::empty(),
    };
    assert(done.actions == plan_of(name, st));
    assert(plan_of(name, st) =~= st.copies + seq![write] + registration);
    lemma_walk_copies(env.root, env.base, source_dir, files);
    lemma_install_only_writes(t, name, source_dir, env);
    let t1 = run_steps(t, st.copies, env);
    // The marker is written.
    lemma_run_steps_one(t1, write, env);
    let t2 = run_steps(t1, seq![write], env);
    // The registration touches no marker.
    lemma_registry_is_no_marker(other);
    assert forall|j: int| 0 <= j < registration.len() implies !((#[trigger] registration[j])
        is RemovePlugin) && !touches(registration[j], p) by {}
    lemma_frame_steps(t2, registration, env, p);
    lemma_run_steps_concat(t, st.copies, seq![write], env);
    lemma_run_steps_concat(t, st.copies + seq![write], registration, env);
    if !env.manifest.wants(other) {
        // No copy goes to the marker of a plugin that is not desired.
        assert forall|j: int| 0 <= j < st.copies.len() implies !((#[trigger] st.copies[j])
            is RemovePlugin) && !touches(st.copies[j], p) by {
            let i = choose|i: int|
                0 <= i < files.len() && st.copies[j] == (ActionView::Copy {
                    from: crate::path_safety::push_name(source_dir, (#[trigger] files[i]).rel),
                    to: files[i].rel,
                });
            assert(files[i].rel == env.listings[source_dir][i].rel);
            assert(!is_stray_marker(env.listings[source_dir][i].rel, env.manifest));
        }
        lemma_frame_steps(t, st.copies, env, p);
        if p == marker_path(name) {
            lemma_marker_path_injective(other, name);
        }
    }
}

/// The installation of a plugin without source directory changes
/// nothing.
pub proof fn lemma_install_without_source(
    t: Tree,
    name: Seq<char>,
    source_dir: Seq<char>,
    env: Env,
)
    requires
        !env.listings.contains_key(source_dir),
    ensures
        perform(t, (ActionView::Install { name, source_dir }), env) == Ok::<Tree, InstallError>(t),
{
    assert(found(t, source_dir, env) is None);
    lemma_run_steps_one(t, (ActionView::WarnSourceMissing { name, source_dir }), env);
}

/// Whether the marker of `name` is left by the removal of stale plugins,
/// or `name` is one of the first `k` plugins and has its source
/// directory.
pub open spec fn installed_so_far(t: Tree, env: Env, k: int, name: Seq<char>) -> bool {
    run_steps(t, remove_stale_spec(env.entries, env.manifest), env).contains_key(marker_path(name))
        || exists|i: int|
        0 <= i < k && (#[trigger] env.manifest.plugins[i]).name == name && has_source(env, i)
}

/// The markers after the first `k` installations of a run: those left by
/// the removal of stale plugins and those of the plugins installed so
/// far are there, and no other marker of a plugin that is not desired.
pub proof fn lemma_installs_add_markers(t: Tree, env: Env, k: int, other: Seq<char>)
    requires
        0 <= k <= env.manifest.plugins.len(),
        no_stray_marker(env),
        run(t, sync_spec(env.manifest), env) is Ok,
        valid_name(other),
    ensures
        run(t, sync_spec(env.manifest).take(4 + k), env) is Ok,
        forall|i: int|
            0 <= i < k && has_source(env, i) ==> valid_name(
                (#[trigger] env.manifest.plugins[i]).name,
            ),
        installed_so_far(t, env, k, other) ==> run(
            t,
            sync_spec(env.manifest).take(4 + k),
            env,
        )->Ok_0.contains_key(marker_path(other)),
        !env.manifest.wants(other) && run(
            t,
            sync_spec(env.manifest).take(4 + k),
            env,
        )->Ok_0.contains_key(marker_path(other)) ==> installed_so_far(t, env, k, other),
    decreases k,
{
    let m = env.manifest;
    let plan = sync_spec(m);
    lemma_run_prefix_ok(t, plan, 4 + k, env);
    if k == 0 {
        let p0 = plan.take(0);
        let p1 = plan.take(1);
        let p2 = plan.take(2);
        let p3 = plan.take(3);
        let p4 = plan.take(4);
        assert(p1 =~= p0.push(plan[0]));
        assert(p2 =~= p1.push(plan[1]));
        assert(p3 =~= p2.push(plan[2]));
        assert(p4 =~= p3.push(plan[3]));
        lemma_run_push(t, p0, plan[0], env);
        lemma_run_push(t, p1, plan[1], env);
        lemma_run_push(t, p2, plan[2], env);
        lemma_run_push(t, p3, plan[3], env);
        assert(run(t, p0, env) == Ok::<Tree, InstallError>(t));
        assert(run(t, p3, env) == Ok::<Tree, InstallError>(t));
    } else {
        lemma_installs_add_markers(t, env, k - 1, other);
        let before = plan.take(4 + k - 1);
        let a = plan[4 + k - 1];
        let plugin = m.plugins[k - 1];
        assert(a == (ActionView::Install { name: plugin.name, source_dir: plugin.source_dir }));
        assert(plan.take(4 + k) =~= before.push(a));
        lemma_run_push(t, before, a, env);
        let mid = run(t, before, env)->Ok_0;
        if has_source(env, k - 1) {
            assert(plants_no_stray(env.listings[m.plugins[k - 1].source_dir], m));
            lemma_install_adds_one_marker(mid, plugin.name, plugin.source_dir, env, other);
        } else {
            lemma_install_without_source(mid, plugin.name, plugin.source_dir, env);
        }
        if exists|i: int|
            0 <= i < k - 1 && (#[trigger] m.plugins[i]).name == other && has_source(env, i) {
            let i = choose|i: int|
                0 <= i < k - 1 && (#[trigger] m.plugins[i]).name == other && has_source(env, i);
            assert(0 <= i < k && m.plugins[i].name == other && has_source(env, i));
        }
        if plugin.name == other && has_source(env, k - 1) {
            assert(0 <= k - 1 < k && m.plugins[k - 1].name == other && has_source(env, k - 1));
        }
        if installed_so_far(t, env, k, other) && !installed_so_far(t, env, k - 1, other) {
            let i = choose|i: int|
                0 <= i < k && (#[trigger] m.plugins[i]).name == other && has_source(env, i);
            if i < k - 1 {
                assert(0 <= i < k - 1 && m.plugins[i].name == other && has_source(env, i));
            }
        }
    }
}

/// After a run that succeeds, every plugin that is installed is desired:
/// no stale plugin is left, whether or not every desired plugin could be
/// installed.
pub proof fn lemma_sync_leaves_no_stale(before: Tree, env: Env, name: Seq<char>)
    requires
        run(before, sync_spec(env.manifest), env) is Ok,
        no_stray_marker(env),
        lists_markers(env.entries, before),
        valid_name(name),
        run(before, sync_spec(env.manifest), env)->Ok_0.contains_key(marker_path(name)),
    ensures
        env.manifest.wants(name),
{
    let m = env.manifest;
    let n = m.plugins.len() as int;
    assert(sync_spec(m).take(4 + n) =~= sync_spec(m));
    if !m.wants(name) {
        lemma_installs_add_markers(before, env, n, name);
        lemma_stale_marker_goes(before, env.entries, name, env);
        let i = choose|i: int|
            0 <= i < n && (#[trigger] m.plugins[i]).name == name && has_source(env, i);
        assert(m.wants(name));
    }
}

/// Convergence. After a run that succeeds, the installed plugins are
/// exactly the desired ones, whatever was installed before and in
/// whatever order the plugins directory is listed.
///
/// This is stated of runs in which every desired plugin has its source
/// directory, no source directory holds a file whose destination is the
/// marker of a plugin that is not desired, and the listing shows every
/// marker that exists: a plugin without a source directory is skipped
/// and gets no marker, and a marker that a source directory plants is
/// installed with its files.
pub proof fn lemma_sync_converges(before: Tree, env: Env)
    requires
        run(before, sync_spec(env.manifest), env) is Ok,
        sources_present(env),
        no_stray_marker(env),
        lists_markers(env.entries, before),
    ensures
        installed(run(before, sync_spec(env.manifest), env)->Ok_0) == env.manifest.wanted(),
{
    let m = env.manifest;
    let plan = sync_spec(m);
    let n = m.plugins.len() as int;
    let after = run(before, plan, env)->Ok_0;
    assert(plan.take(4 + n) =~= plan);
    assert forall|name: Seq<char>| installed(after).contains(name) == m.wanted().contains(
        name,
    ) by {
        if valid_name(name) {
            lemma_installs_add_markers(before, env, n, name);
            if m.wants(name) {
                let i = choose|i: int| 0 <= i < m.plugins.len() && (#[trigger] m.plugins[i]).name
                    == name;
                assert(0 <= i < n && m.plugins[i].name == name && has_source(env, i));
                assert(installed_so_far(before, env, n, name));
            } else if after.contains_key(marker_path(name)) {
                lemma_sync_leaves_no_stale(before, env, name);
            }
        } else {
            if m.wants(name) {
                let i = choose|i: int| 0 <= i < m.plugins.len() && (#[trigger] m.plugins[i]).name
                    == name;
                lemma_installs_add_markers(before, env, n, Seq::<char>::empty());
                assert(has_source(env, i));
                assert(valid_name(m.plugins[i].name));
            }
        }
    }
    assert(installed(after) =~= m.wanted());
}

} // verus!
