//! What the removal of stale plugins leaves alone: the marker of every
//! desired plugin stays as it is, unless the marker of a plugin that is
//! removed lists it as one of its files.

use crate::action::{touches, ActionView};
use crate::convergence::{
    lemma_marker_path_injective, lemma_registry_is_no_marker, lemma_stale_marker_goes,
    lists_markers,
};
use crate::model::{
    content_of, lemma_frame_simple, lemma_run_steps_concat, lemma_run_steps_one, perform_simple,
    perform_step, run_simple, run_steps, Env, Tree,
};
use crate::plugins::{
    entry_removal, line_removal, lines_removal, marker_name, marker_path, plugins_prefix,
    registry_path, remove_plugin_spec, remove_stale_spec, valid_name,
};
use crate::safety::{lemma_marker_of_entry, untouched};
use crate::text::{lemma_index_of_is, lines};
use vstd::prelude::*;

verus! {

/// Whether every file of `after` other than the registry is a file of
/// `before`, and the same file: a removal may delete a file but alters
/// none, the registry apart.
pub open spec fn nothing_altered(before: Tree, after: Tree) -> bool {
    forall|q: Seq<char>|
        q != registry_path() && #[trigger] after.contains_key(q) ==> before.contains_key(q)
            && after[q] == before[q]
}

/// Whether the action belongs to the removal of a plugin: it deletes a
/// file, takes a line out of the registry, or reports.
pub open spec fn removes_or_unregisters(a: ActionView) -> bool {
    match a {
        ActionView::Remove { path } => true,
        ActionView::RemoveLine { path, line } => path == registry_path(),
        ActionView::WarnSuspiciousPath { line } => true,
        _ => false,
    }
}

/// What the lines of a marker ask for deletes the files that the lines
/// name, and writes the registry only.
pub proof fn lemma_lines_removal_shape(ls: Seq<Seq<char>>)
    ensures
        forall|i: int|
            0 <= i < lines_removal(ls).len() ==> removes_or_unregisters(
                #[trigger] lines_removal(ls)[i],
            ),
        forall|i: int, p: Seq<char>|
            0 <= i < lines_removal(ls).len() && #[trigger] touches(lines_removal(ls)[i], p) ==> p
                == registry_path() || ls.contains(p),
    decreases ls.len(),
{
    if ls.len() > 0 {
        let init = ls.drop_last();
        let a = lines_removal(init);
        let b = line_removal(ls.last());
        lemma_lines_removal_shape(init);
        assert forall|i: int| 0 <= i < (a + b).len() implies removes_or_unregisters(
            #[trigger] (a + b)[i],
        ) by {
            if i < a.len() {
                assert((a + b)[i] == a[i]);
            } else {
                assert((a + b)[i] == b[i - a.len()]);
            }
        }
        assert forall|i: int, p: Seq<char>|
            0 <= i < (a + b).len() && #[trigger] touches((a + b)[i], p) implies p
            == registry_path() || ls.contains(p) by {
            if i < a.len() {
                assert(touches(a[i], p));
                if init.contains(p) {
                    let k = choose|k: int| 0 <= k < init.len() && init[k] == p;
                    assert(ls[k] == p);
                }
            } else {
                assert(touches(b[i - a.len()], p));
                if p != registry_path() {
                    assert(ls[ls.len() - 1] == p);
                }
            }
        }
    }
}

/// A plan of simple actions leaves alone every path that none of them
/// touches, and where each of them deletes a file, takes a line out of
/// the registry or reports, it alters no file but the registry.
pub proof fn lemma_simple_removals(t: Tree, plan: Seq<ActionView>, env: Env, p: Seq<char>)
    requires
        forall|i: int| 0 <= i < plan.len() ==> removes_or_unregisters(#[trigger] plan[i]),
    ensures
        nothing_altered(t, run_simple(t, plan, env)),
        (forall|i: int| 0 <= i < plan.len() ==> !touches(#[trigger] plan[i], p)) ==> untouched(
            t,
            run_simple(t, plan, env),
            p,
        ),
    decreases plan.len(),
{
    if plan.len() > 0 {
        let init = plan.drop_last();
        let mid = run_simple(t, init, env);
        let after = run_simple(t, plan, env);
        assert forall|i: int| 0 <= i < init.len() implies removes_or_unregisters(
            #[trigger] init[i],
        ) by {
            assert(init[i] == plan[i]);
        }
        lemma_simple_removals(t, init, env, p);
        assert(removes_or_unregisters(plan[plan.len() - 1]));
        assert(after == perform_simple(mid, plan.last(), env));
        assert forall|q: Seq<char>|
            q != registry_path() && #[trigger] after.contains_key(q) implies t.contains_key(q)
            && after[q] == t[q] by {
            assert(mid.contains_key(q));
        }
        if forall|i: int| 0 <= i < plan.len() ==> !touches(#[trigger] plan[i], p) {
            assert forall|i: int| 0 <= i < init.len() implies !touches(#[trigger] init[i], p) by {
                assert(init[i] == plan[i]);
            }
            assert(!touches(plan[plan.len() - 1], p));
            lemma_frame_simple(mid, plan.last(), env, p);
        }
    }
}

/// The removal of a plugin alters no file but the registry, and leaves
/// alone every path that is neither the marker, nor the registry, nor
/// listed in the marker.
pub proof fn lemma_remove_plugin_spares(
    t: Tree,
    name: Seq<char>,
    marker: Seq<char>,
    env: Env,
    p: Seq<char>,
)
    ensures
        nothing_altered(t, perform_step(t, (ActionView::RemovePlugin { name, marker }), env)),
        p != marker && p != registry_path() && !lines(content_of(t, marker)).contains(p)
            ==> untouched(t, perform_step(t, (ActionView::RemovePlugin { name, marker }), env), p),
{
    let ls = lines(content_of(t, marker));
    let body = lines_removal(ls);
    let plan = remove_plugin_spec(marker, content_of(t, marker));
    lemma_lines_removal_shape(ls);
    assert(plan =~= body.push((ActionView::Remove { path: marker })));
    assert forall|i: int| 0 <= i < plan.len() implies removes_or_unregisters(#[trigger] plan[i]) by {
        if i < body.len() {
            assert(plan[i] == body[i]);
        }
    }
    lemma_simple_removals(t, plan, env, p);
    if p != marker && p != registry_path() && !ls.contains(p) {
        assert forall|i: int| 0 <= i < plan.len() implies !touches(#[trigger] plan[i], p) by {
            if i < body.len() {
                assert(plan[i] == body[i]);
                if touches(body[i], p) {
                    assert(p == registry_path() || ls.contains(p));
                }
            }
        }
    }
}

/// Whether no marker of a plugin that is not desired lists the path as
/// one of its files.
pub open spec fn unlisted(t: Tree, env: Env, p: Seq<char>) -> bool {
    forall|stale: Seq<char>|
        valid_name(stale) && !env.manifest.wants(stale) && t.contains_key(
            #[trigger] marker_path(stale),
        ) ==> !lines(t[marker_path(stale)].content).contains(p)
}

/// The removal of stale plugins alters no file but the registry.
pub proof fn lemma_remove_stale_alters_nothing(t: Tree, entries: Seq<Seq<char>>, env: Env)
    ensures
        nothing_altered(t, run_steps(t, remove_stale_spec(entries, env.manifest), env)),
    decreases entries.len(),
{
    let m = env.manifest;
    if entries.len() > 0 {
        let init = entries.drop_last();
        let head = remove_stale_spec(init, m);
        let tail = entry_removal(entries.last(), m);
        let mid = run_steps(t, head, env);
        let after = run_steps(t, remove_stale_spec(entries, m), env);
        lemma_remove_stale_alters_nothing(t, init, env);
        lemma_run_steps_concat(t, head, tail, env);
        if tail.len() == 1 {
            assert(tail =~= seq![tail[0]]);
            lemma_run_steps_one(mid, tail[0], env);
            match tail[0] {
                ActionView::RemovePlugin { name, marker } => {
                    lemma_remove_plugin_spares(mid, name, marker, env, marker);
                },
                _ => {},
            }
        }
        assert forall|q: Seq<char>|
            q != registry_path() && #[trigger] after.contains_key(q) implies t.contains_key(q)
            && after[q] == t[q] by {
            assert(mid.contains_key(q));
        }
    }
}

/// The removal of stale plugins leaves the marker of every desired
/// plugin as it is, whatever the order of the listing, where no marker
/// of a plugin that is not desired lists it as one of its files.
pub proof fn lemma_desired_marker_stays(
    t: Tree,
    entries: Seq<Seq<char>>,
    env: Env,
    name: Seq<char>,
)
    requires
        valid_name(name),
        env.manifest.wants(name),
        unlisted(t, env, marker_path(name)),
    ensures
        untouched(
            t,
            run_steps(t, remove_stale_spec(entries, env.manifest), env),
            marker_path(name),
        ),
    decreases entries.len(),
{
    let m = env.manifest;
    let p = marker_path(name);
    if entries.len() > 0 {
        let init = entries.drop_last();
        let entry = entries.last();
        let head = remove_stale_spec(init, m);
        let tail = entry_removal(entry, m);
        let mid = run_steps(t, head, env);
        lemma_desired_marker_stays(t, init, env, name);
        lemma_remove_stale_alters_nothing(t, init, env);
        lemma_run_steps_concat(t, head, tail, env);
        lemma_registry_is_no_marker(name);
        match marker_name(entry) {
            None => {},
            Some(stale) => {
                if !valid_name(stale) {
                    assert(tail =~= seq![tail[0]]);
                    lemma_run_steps_one(mid, tail[0], env);
                } else if m.wants(stale) {
                } else {
                    let marker = plugins_prefix() + entry;
                    lemma_marker_of_entry(entry);
                    assert(marker == marker_path(stale));
                    assert(tail =~= seq![tail[0]]);
                    lemma_run_steps_one(mid, tail[0], env);
                    if p == marker {
                        lemma_marker_path_injective(name, stale);
                    }
                    lemma_registry_is_no_marker(stale);
                    if mid.contains_key(marker) {
                        assert(t.contains_key(marker) && mid[marker] == t[marker]);
                    } else {
                        assert(content_of(mid, marker) =~= Seq::<char>::empty());
                        lemma_index_of_is(Seq::<char>::empty(), '\n', 0);
                        assert(lines(Seq::<char>::empty()) =~= Seq::<Seq<char>>::empty());
                    }
                    assert(!lines(content_of(mid, marker)).contains(p));
                    lemma_remove_plugin_spares(mid, stale, marker, env, p);
                }
            },
        }
    }
}

/// After the removal of stale plugins, the plugins that are installed
/// are those that were installed and are desired, whatever the order of
/// the listing. This is stated of a listing that shows every marker that
/// exists, and of markers none of which, where its plugin is not
/// desired, lists the marker of a desired plugin as one of its files.
pub proof fn lemma_remove_stale_keeps_the_desired(
    t: Tree,
    entries: Seq<Seq<char>>,
    env: Env,
    name: Seq<char>,
)
    requires
        valid_name(name),
        lists_markers(entries, t),
        env.manifest.wants(name) ==> unlisted(t, env, marker_path(name)),
    ensures
        run_steps(t, remove_stale_spec(entries, env.manifest), env).contains_key(marker_path(name))
            == (t.contains_key(marker_path(name)) && env.manifest.wants(name)),
        env.manifest.wants(name) ==> untouched(
            t,
            run_steps(t, remove_stale_spec(entries, env.manifest), env),
            marker_path(name),
        ),
{
    if env.manifest.wants(name) {
        lemma_desired_marker_stays(t, entries, env, name);
    } else {
        lemma_stale_marker_goes(t, entries, name, env);
    }
}

} // verus!
