//! Containment: no plan writes or deletes a path that leaves the data
//! root.
//!
//! Every path that a plan touches is relative to the data root and passes
//! [`validate_relative_spec`]: it does not start at the root and has no
//! `..` component. A path taken from a marker or from a source directory
//! that does not pass is never touched: the marker line is reported and
//! skipped, and the installation fails.

use crate::action::{touches, ActionView};
use crate::config;
use crate::manifest::ManifestView;
use crate::model::{
    content_of, found, lemma_frame_simple, perform, perform_step, run, run_simple, run_steps, Env,
    Tree,
};
use crate::path_safety::{
    ensure_under_spec, has_parent_dir, is_absolute, is_under, parent_dir, push_name, resolve_spec,
    validate_relative_spec, PathEscape, ProbeView, ResolutionView,
};
use crate::plugins::{
    admit_file, entry_removal, install_spec, is_name_char, line_removal, lines_removal,
    marker_name, marker_path, marker_suffix, marker_text, plan_of, plugins_prefix, register_spec,
    remove_plugin_spec, remove_stale_spec, sync_spec, unregister_spec, valid_name, visit,
    walk_spec, SourceFileView,
};
use crate::text::{index_of, lemma_index_of_bounds, lines, split};
use vstd::prelude::*;

verus! {

/// Whether every path that the plan touches is a safe relative path.
pub open spec fn stays_inside(plan: Seq<ActionView>) -> bool {
    forall|i: int, p: Seq<char>|
        0 <= i < plan.len() && #[trigger] touches(plan[i], p) ==> validate_relative_spec(p) is Ok
}

/// Whether two dots stand at positions `j` and `j + 1` of `p`.
pub open spec fn dot_pair_at(p: Seq<char>, j: int) -> bool {
    0 <= j < p.len() - 1 && p[j] == '.' && p[j + 1] == '.'
}

/// A path with a `..` component holds two dots in a row.
pub proof fn lemma_parent_dir_has_dot_pair(p: Seq<char>)
    requires
        has_parent_dir(p),
    ensures
        exists|j: int| dot_pair_at(p, j),
    decreases p.len(),
{
    lemma_index_of_bounds(p, '/');
    let k = index_of(p, '/');
    let pieces = split(p, '/');
    let i = choose|i: int| 0 <= i < pieces.len() && pieces[i] == parent_dir();
    if 0 <= k < p.len() {
        let rest = p.skip(k + 1);
        if i == 0 {
            assert(pieces[0] == p.take(k));
            assert(p.take(k)[0] == '.' && p.take(k)[1] == '.');
            assert(dot_pair_at(p, 0));
        } else {
            assert(pieces[i] == split(rest, '/')[i - 1]);
            assert(split(rest, '/').contains(parent_dir()));
            lemma_parent_dir_has_dot_pair(rest);
            let j = choose|j: int| dot_pair_at(rest, j);
            assert(rest[j] == p[j + k + 1]);
            assert(rest[j + 1] == p[j + k + 2]);
            assert(dot_pair_at(p, j + k + 1));
        }
    } else {
        assert(pieces =~= seq![p]);
        assert(p[0] == '.' && p[1] == '.');
        assert(dot_pair_at(p, 0));
    }
}

/// A path that does not start at the root and nowhere holds two dots in
/// a row is a safe relative path.
pub proof fn lemma_safe_without_dot_pair(p: Seq<char>)
    requires
        !is_absolute(p),
        forall|j: int| !dot_pair_at(p, j),
    ensures
        validate_relative_spec(p) is Ok,
{
    if has_parent_dir(p) {
        lemma_parent_dir_has_dot_pair(p);
    }
}

/// A path with a `..` component, and a path that starts at the root, is
/// refused.
pub proof fn lemma_escape_is_refused(p: Seq<char>)
    ensures
        has_parent_dir(p) ==> validate_relative_spec(p) is Err,
        is_absolute(p) ==> validate_relative_spec(p) == Err::<(), PathEscape>(PathEscape::Absolute),
{
}

/// The paths that the engine names itself are safe relative paths.
pub proof fn lemma_fixed_paths_safe()
    ensures
        validate_relative_spec("cfg"@) is Ok,
        validate_relative_spec("cfg/plugins.cfg"@) is Ok,
        validate_relative_spec("cfg/nix-config.cfg"@) is Ok,
        validate_relative_spec("cfg/.nix-config.cfg.tmp"@) is Ok,
        validate_relative_spec("cfg/autoexec.cfg"@) is Ok,
        validate_relative_spec("plugins"@) is Ok,
        validate_relative_spec("plugins/settings"@) is Ok,
        validate_relative_spec("data"@) is Ok,
{
    reveal_strlit("cfg");
    reveal_strlit("cfg/plugins.cfg");
    reveal_strlit("cfg/nix-config.cfg");
    reveal_strlit("cfg/.nix-config.cfg.tmp");
    reveal_strlit("cfg/autoexec.cfg");
    reveal_strlit("plugins");
    reveal_strlit("plugins/settings");
    reveal_strlit("data");
    lemma_safe_without_dot_pair("cfg"@);
    lemma_safe_without_dot_pair("cfg/plugins.cfg"@);
    lemma_safe_without_dot_pair("cfg/nix-config.cfg"@);
    lemma_safe_without_dot_pair("cfg/.nix-config.cfg.tmp"@);
    lemma_safe_without_dot_pair("cfg/autoexec.cfg"@);
    lemma_safe_without_dot_pair("plugins"@);
    lemma_safe_without_dot_pair("plugins/settings"@);
    lemma_safe_without_dot_pair("data"@);
}

/// The marker of a plugin whose name is made of name characters is a safe
/// relative path.
pub proof fn lemma_marker_path_safe(name: Seq<char>)
    requires
        valid_name(name),
    ensures
        validate_relative_spec(marker_path(name)) is Ok,
{
    reveal_strlit("plugins/");
    reveal_strlit(".nix-managed");
    let p = marker_path(name);
    let a = plugins_prefix().len() as int;
    let b = a + name.len();
    assert(p.len() == b + marker_suffix().len());
    assert(p[0] == plugins_prefix()[0]);
    assert forall|j: int| !dot_pair_at(p, j) by {
        if 0 <= j < p.len() - 1 {
            if j < a {
                assert(p[j] == plugins_prefix()[j]);
            } else if j < b {
                assert(p[j] == name[j - a]);
                assert(is_name_char(name[j - a]));
            } else {
                assert(p[j] == marker_suffix()[j - b]);
                assert(p[j + 1] == marker_suffix()[j + 1 - b]);
            }
        }
    }
    lemma_safe_without_dot_pair(p);
}

/// Two plans that stay inside make one that stays inside.
pub proof fn lemma_stays_inside_concat(a: Seq<ActionView>, b: Seq<ActionView>)
    requires
        stays_inside(a),
        stays_inside(b),
    ensures
        stays_inside(a + b),
{
    assert forall|i: int, p: Seq<char>|
        0 <= i < (a + b).len() && #[trigger] touches((a + b)[i], p) implies validate_relative_spec(
        p,
    ) is Ok by {
        if i < a.len() {
            assert(touches(a[i], p));
        } else {
            assert(touches(b[i - a.len()], p));
        }
    }
}

/// The plans that register a module, and that take one out of the
/// registry, stay inside.
pub proof fn lemma_registry_stays_inside(stem: Seq<char>)
    ensures
        stays_inside(register_spec(stem)),
        stays_inside(unregister_spec(stem)),
{
    lemma_fixed_paths_safe();
}

/// A marker line that is not a safe relative path has nothing deleted
/// and nothing written: it is reported, or, where it is empty, passed
/// over.
pub proof fn lemma_unsafe_line_is_skipped(line: Seq<char>)
    requires
        validate_relative_spec(line) is Err,
    ensures
        forall|p: Seq<char>, i: int|
            0 <= i < line_removal(line).len() ==> !#[trigger] touches(line_removal(line)[i], p),
{
}

/// What a marker line asks for stays inside.
pub proof fn lemma_line_removal_stays_inside(line: Seq<char>)
    ensures
        stays_inside(line_removal(line)),
{
    lemma_fixed_paths_safe();
}

/// What the lines of a marker ask for stays inside.
pub proof fn lemma_lines_removal_stays_inside(ls: Seq<Seq<char>>)
    ensures
        stays_inside(lines_removal(ls)),
    decreases ls.len(),
{
    if ls.len() > 0 {
        lemma_lines_removal_stays_inside(ls.drop_last());
        lemma_line_removal_stays_inside(ls.last());
        lemma_stays_inside_concat(lines_removal(ls.drop_last()), line_removal(ls.last()));
    }
}

/// The removal of a plugin stays inside, whatever its marker lists, where
/// the marker's own path is safe.
pub proof fn lemma_remove_plugin_stays_inside(marker: Seq<char>, content: Seq<char>)
    requires
        validate_relative_spec(marker) is Ok,
    ensures
        stays_inside(remove_plugin_spec(marker, content)),
{
    let body = lines_removal(lines(content));
    let last = seq![(ActionView::Remove { path: marker })];
    lemma_lines_removal_stays_inside(lines(content));
    assert(remove_plugin_spec(marker, content) =~= body + last);
    lemma_stays_inside_concat(body, last);
}

/// An entry of the plugins directory that is the marker of the plugin
/// `name` lies at that plugin's marker path.
pub proof fn lemma_marker_of_entry(entry: Seq<char>)
    requires
        marker_name(entry) is Some,
    ensures
        plugins_prefix() + entry == marker_path(marker_name(entry)->Some_0),
{
    let name = marker_name(entry)->Some_0;
    assert(entry =~= name + marker_suffix());
    assert(plugins_prefix() + entry =~= marker_path(name));
}

/// The removal of stale plugins stays inside: every marker that it has
/// removed lies at the marker path of a name made of name characters.
pub proof fn lemma_remove_stale_stays_inside(entries: Seq<Seq<char>>, m: ManifestView)
    ensures
        stays_inside(remove_stale_spec(entries, m)),
    decreases entries.len(),
{
    if entries.len() > 0 {
        let entry = entries.last();
        lemma_remove_stale_stays_inside(entries.drop_last(), m);
        if marker_name(entry) is Some {
            let name = marker_name(entry)->Some_0;
            lemma_marker_of_entry(entry);
            if valid_name(name) {
                lemma_marker_path_safe(name);
            }
        }
        assert(stays_inside(entry_removal(entry, m)));
        lemma_stays_inside_concat(remove_stale_spec(entries.drop_last(), m), entry_removal(entry, m));
    }
}

/// What the containment check lets pass lies in the base, and what
/// resolves to a path outside the canonical base is refused, whatever the
/// target is and whatever the disk says of it.
pub proof fn lemma_ensure_under_contains(
    target: Seq<char>,
    probes: Seq<ProbeView>,
    base: ProbeView,
    resolved: Seq<char>,
)
    ensures
        ensure_under_spec(target, probes, base) == Ok::<Seq<char>, PathEscape>(resolved) <==> (
        resolve_spec(target, probes) == ResolutionView::Resolved(resolved) && (base matches ProbeView::Canonical(
            b,
        ) && is_under(resolved, b))),
        resolve_spec(target, probes) == ResolutionView::Resolved(resolved) && (
        base matches ProbeView::Canonical(b) && !is_under(resolved, b)) ==> ensure_under_spec(
            target,
            probes,
            base,
        ) == Err::<Seq<char>, PathEscape>(PathEscape::Outside),
{
}

/// A walk that succeeds has admitted every file: each relative path is
/// safe, and each destination lies in the data root.
pub proof fn lemma_walk_admits_all(
    root: Seq<char>,
    base: ProbeView,
    source_dir: Seq<char>,
    files: Seq<SourceFileView>,
)
    requires
        walk_spec(root, base, source_dir, files) is Ok,
    ensures
        forall|i: int|
            0 <= i < files.len() ==> validate_relative_spec((#[trigger] files[i]).rel) is Ok
                && ensure_under_spec(push_name(root, files[i].rel), files[i].probes, base) is Ok,
    decreases files.len(),
{
    if files.len() > 0 {
        lemma_walk_admits_all(root, base, source_dir, files.drop_last());
        assert(admit_file(root, base, files.last()) is Ok);
        assert forall|i: int| 0 <= i < files.len() implies validate_relative_spec(
            (#[trigger] files[i]).rel,
        ) is Ok && ensure_under_spec(push_name(root, files[i].rel), files[i].probes, base) is Ok by {
            if i < files.len() - 1 {
                assert(files[i] == files.drop_last()[i]);
            }
        }
    }
}

/// A walk that meets a file that is not admitted fails.
pub proof fn lemma_walk_refuses_unsafe(
    root: Seq<char>,
    base: ProbeView,
    source_dir: Seq<char>,
    files: Seq<SourceFileView>,
    i: int,
)
    requires
        0 <= i < files.len(),
        admit_file(root, base, files[i]) is Err,
    ensures
        walk_spec(root, base, source_dir, files) is Err,
{
    if walk_spec(root, base, source_dir, files) is Ok {
        lemma_walk_admits_all(root, base, source_dir, files);
    }
}

/// An installation whose source directory holds a file that is not
/// admitted fails: nothing of it is planned.
pub proof fn lemma_install_refuses_unsafe(
    root: Seq<char>,
    base: ProbeView,
    name: Seq<char>,
    source_dir: Seq<char>,
    files: Seq<SourceFileView>,
    i: int,
)
    requires
        0 <= i < files.len(),
        admit_file(root, base, files[i]) is Err,
    ensures
        install_spec(root, base, name, source_dir, Some(files)) is Err,
{
    lemma_walk_refuses_unsafe(root, base, source_dir, files, i);
}

/// Every copy that a walk decides on goes to the relative path of one of
/// the files.
pub proof fn lemma_walk_copies(
    root: Seq<char>,
    base: ProbeView,
    source_dir: Seq<char>,
    files: Seq<SourceFileView>,
)
    requires
        walk_spec(root, base, source_dir, files) is Ok,
    ensures
        forall|j: int|
            0 <= j < walk_spec(root, base, source_dir, files)->Ok_0.copies.len() ==> exists|
                i: int,
            |
                0 <= i < files.len() && (#[trigger] walk_spec(
                    root,
                    base,
                    source_dir,
                    files,
                )->Ok_0.copies[j]) == (ActionView::Copy {
                    from: push_name(source_dir, (#[trigger] files[i]).rel),
                    to: files[i].rel,
                }),
    decreases files.len(),
{
    if files.len() > 0 {
        let init = files.drop_last();
        lemma_walk_copies(root, base, source_dir, init);
        let before = walk_spec(root, base, source_dir, init)->Ok_0;
        let after = walk_spec(root, base, source_dir, files)->Ok_0;
        assert(after == visit(before, source_dir, files.last()));
        assert forall|j: int| 0 <= j < after.copies.len() implies exists|i: int|
            0 <= i < files.len() && (#[trigger] after.copies[j]) == (ActionView::Copy {
                from: push_name(source_dir, (#[trigger] files[i]).rel),
                to: files[i].rel,
            }) by {
            if j < before.copies.len() {
                assert(after.copies[j] == before.copies[j]);
                let i = choose|i: int|
                    0 <= i < init.len() && before.copies[j] == (ActionView::Copy {
                        from: push_name(source_dir, (#[trigger] init[i]).rel),
                        to: init[i].rel,
                    });
                assert(files[i] == init[i]);
            } else {
                assert(after.copies[j] == (ActionView::Copy {
                    from: push_name(source_dir, files[files.len() - 1].rel),
                    to: files[files.len() - 1].rel,
                }));
            }
        }
    }
}

/// An installation that is planned stays inside: it copies to admitted
/// paths only, and writes the marker of a name made of name characters.
pub proof fn lemma_install_stays_inside(
    root: Seq<char>,
    base: ProbeView,
    name: Seq<char>,
    source_dir: Seq<char>,
    files: Option<Seq<SourceFileView>>,
)
    requires
        install_spec(root, base, name, source_dir, files) is Ok,
    ensures
        stays_inside(install_spec(root, base, name, source_dir, files)->Ok_0.actions),
{
    match files {
        None => {},
        Some(fs) => {
            let st = walk_spec(root, base, source_dir, fs)->Ok_0;
            lemma_walk_admits_all(root, base, source_dir, fs);
            lemma_walk_copies(root, base, source_dir, fs);
            lemma_marker_path_safe(name);
            let marker = seq![
                (ActionView::Write {
                    path: marker_path(name),
                    content: marker_text(st.marker_lines),
                }),
            ];
            let registration = match st.dll_stem {
                Some(stem) => register_spec(stem),
                None => Seq::empty(),
            };
            assert(stays_inside(st.copies)) by {
                assert forall|j: int, p: Seq<char>|
                    0 <= j < st.copies.len() && #[trigger] touches(
                        st.copies[j],
                        p,
                    ) implies validate_relative_spec(p) is Ok by {
                    let i = choose|i: int|
                        0 <= i < fs.len() && st.copies[j] == (ActionView::Copy {
                            from: push_name(source_dir, (#[trigger] fs[i]).rel),
                            to: fs[i].rel,
                        });
                    assert(p == fs[i].rel);
                }
            }
            assert(stays_inside(marker));
            if st.dll_stem is Some {
                lemma_registry_stays_inside(st.dll_stem->Some_0);
            }
            lemma_stays_inside_concat(st.copies, marker);
            assert(st.copies + marker =~= st.copies.push(marker[0]));
            lemma_stays_inside_concat(st.copies + marker, registration);
            assert(plan_of(name, st) =~= (st.copies + marker) + registration);
        },
    }
}

/// The plans of a whole run stay inside.
pub proof fn lemma_sync_stays_inside(m: ManifestView)
    ensures
        stays_inside(sync_spec(m)),
        stays_inside(config::sync_spec(m)),
{
    lemma_fixed_paths_safe();
}

/// Whether the path is in `after` exactly what it is in `before`:
/// missing in both, or the same file.
pub open spec fn untouched(before: Tree, after: Tree, p: Seq<char>) -> bool {
    after.contains_key(p) == before.contains_key(p) && (before.contains_key(p) ==> after[p]
        == before[p])
}

/// Whether every path that the action touches is a safe relative path.
pub open spec fn action_stays_inside(a: ActionView) -> bool {
    forall|q: Seq<char>| #[trigger] touches(a, q) ==> validate_relative_spec(q) is Ok
}

/// The actions of a plan that stays inside stay inside, and so does each
/// of its beginnings.
pub proof fn lemma_stays_inside_parts(plan: Seq<ActionView>)
    requires
        stays_inside(plan),
        plan.len() > 0,
    ensures
        stays_inside(plan.drop_last()),
        action_stays_inside(plan.last()),
{
    let init = plan.drop_last();
    assert forall|i: int, q: Seq<char>|
        0 <= i < init.len() && #[trigger] touches(init[i], q) implies validate_relative_spec(
        q,
    ) is Ok by {
        assert(touches(plan[i], q));
    }
    assert forall|q: Seq<char>| #[trigger] touches(plan.last(), q) implies validate_relative_spec(
        q,
    ) is Ok by {
        assert(touches(plan[plan.len() - 1], q));
    }
}

/// A plan of simple actions that stays inside leaves alone every path
/// that is not a safe relative path.
pub proof fn lemma_simple_plan_stays_in_root(
    t: Tree,
    plan: Seq<ActionView>,
    env: Env,
    p: Seq<char>,
)
    requires
        stays_inside(plan),
        validate_relative_spec(p) is Err,
    ensures
        untouched(t, run_simple(t, plan, env), p),
    decreases plan.len(),
{
    if plan.len() > 0 {
        lemma_stays_inside_parts(plan);
        lemma_simple_plan_stays_in_root(t, plan.drop_last(), env, p);
        assert(!touches(plan.last(), p));
        lemma_frame_simple(run_simple(t, plan.drop_last(), env), plan.last(), env, p);
    }
}

/// An action that stays inside, the removal of a plugin included,
/// leaves alone every path that is not a safe relative path: what an
/// unsafe marker line names is never deleted.
pub proof fn lemma_step_stays_in_root(t: Tree, a: ActionView, env: Env, p: Seq<char>)
    requires
        action_stays_inside(a),
        validate_relative_spec(p) is Err,
    ensures
        untouched(t, perform_step(t, a, env), p),
{
    match a {
        ActionView::RemovePlugin { name, marker } => {
            assert(touches(a, marker));
            lemma_remove_plugin_stays_inside(marker, content_of(t, marker));
            lemma_simple_plan_stays_in_root(
                t,
                remove_plugin_spec(marker, content_of(t, marker)),
                env,
                p,
            );
        },
        _ => {
            assert(!touches(a, p));
            lemma_frame_simple(t, a, env, p);
        },
    }
}

/// A plan of such actions that stays inside leaves alone every path that
/// is not a safe relative path.
pub proof fn lemma_steps_stay_in_root(t: Tree, plan: Seq<ActionView>, env: Env, p: Seq<char>)
    requires
        stays_inside(plan),
        validate_relative_spec(p) is Err,
    ensures
        untouched(t, run_steps(t, plan, env), p),
    decreases plan.len(),
{
    if plan.len() > 0 {
        lemma_stays_inside_parts(plan);
        lemma_steps_stay_in_root(t, plan.drop_last(), env, p);
        lemma_step_stays_in_root(run_steps(t, plan.drop_last(), env), plan.last(), env, p);
    }
}

/// Any action that stays inside leaves alone every path that is not a
/// safe relative path, whatever the plugins directory lists and whatever
/// the source directories hold.
pub proof fn lemma_action_stays_in_root(t: Tree, a: ActionView, env: Env, p: Seq<char>)
    requires
        action_stays_inside(a),
        validate_relative_spec(p) is Err,
        perform(t, a, env) is Ok,
    ensures
        untouched(t, perform(t, a, env)->Ok_0, p),
{
    match a {
        ActionView::RemoveStale => {
            lemma_remove_stale_stays_inside(env.entries, env.manifest);
            lemma_steps_stay_in_root(t, remove_stale_spec(env.entries, env.manifest), env, p);
        },
        ActionView::Install { name, source_dir } => {
            let files = found(t, source_dir, env);
            lemma_install_stays_inside(env.root, env.base, name, source_dir, files);
            lemma_steps_stay_in_root(
                t,
                install_spec(env.root, env.base, name, source_dir, files)->Ok_0.actions,
                env,
                p,
            );
        },
        _ => {
            lemma_step_stays_in_root(t, a, env, p);
        },
    }
}

/// A plan that stays inside and is performed without failure leaves
/// alone every path that is not a safe relative path.
pub proof fn lemma_run_stays_in_root(t: Tree, plan: Seq<ActionView>, env: Env, p: Seq<char>)
    requires
        stays_inside(plan),
        validate_relative_spec(p) is Err,
        run(t, plan, env) is Ok,
    ensures
        untouched(t, run(t, plan, env)->Ok_0, p),
    decreases plan.len(),
{
    if plan.len() > 0 {
        lemma_stays_inside_parts(plan);
        lemma_run_stays_in_root(t, plan.drop_last(), env, p);
        lemma_action_stays_in_root(run(t, plan.drop_last(), env)->Ok_0, plan.last(), env, p);
    }
}

/// Containment. A run never writes or deletes a file whose path, taken
/// relative to the data root, starts at the root or has a `..`
/// component: such a file is after the run exactly what it was before,
/// whatever the markers list and whatever the source directories hold.
pub proof fn lemma_sync_stays_in_root(t: Tree, env: Env, p: Seq<char>)
    requires
        validate_relative_spec(p) is Err,
    ensures
        run(t, sync_spec(env.manifest), env) is Ok ==> untouched(
            t,
            run(t, sync_spec(env.manifest), env)->Ok_0,
            p,
        ),
        run(t, config::sync_spec(env.manifest), env) is Ok ==> untouched(
            t,
            run(t, config::sync_spec(env.manifest), env)->Ok_0,
            p,
        ),
{
    lemma_sync_stays_inside(env.manifest);
    if run(t, sync_spec(env.manifest), env) is Ok {
        lemma_run_stays_in_root(t, sync_spec(env.manifest), env, p);
    }
    if run(t, config::sync_spec(env.manifest), env) is Ok {
        lemma_run_stays_in_root(t, config::sync_spec(env.manifest), env, p);
    }
}

} // verus!
