//! Idempotence: a second run with the same desired state and the same
//! source directories changes the content of no file, where after the
//! first run no source file is newer than its copy.
//!
//! The law is stated of the model of a run. It rests on what a first run
//! leaves behind for each desired plugin: its files are there and not
//! older than their sources, its marker lists its files, and the registry
//! holds the load line of its primary module.

use crate::action::{touches, ActionView};
use crate::convergence::{
    has_source, is_stray_marker, lemma_install_without_source, lemma_installs_add_markers,
    lemma_marker_path_injective, lemma_registry_is_no_marker, lemma_sync_leaves_no_stale,
    lists_markers, no_stray_marker, plants_no_stray,
};
use crate::line_config::{lemma_ensure_line_idempotent, lemma_lines_after_append, with_line};
use crate::model::{
    content_of, found, kept_or_stamped, lemma_frame_simple, lemma_frame_steps,
    lemma_run_prefix_ok, lemma_run_push, lemma_run_simple_one, lemma_run_steps_concat,
    lemma_run_steps_one, lemma_writes_keep, mtime_of, observe, only_writes, perform,
    perform_simple, perform_step, run, run_steps, written, Env, Tree,
};
use crate::path_safety::{push_name, ProbeView};
use crate::plugins::{
    admit_file, cfg_dir, entry_removal, last_index_of, load_line, marker_name, marker_path,
    marker_text, module_stem, plan_of, plugins_prefix, register_spec, registry_path,
    remove_plugin_spec, remove_stale_spec, should_copy_spec, sync_spec, valid_name, visit,
    walk_spec, InstallError, SourceFileView,
};
use crate::safety::{lemma_marker_of_entry, lemma_walk_admits_all, lemma_walk_copies};
use crate::text::{
    findable, has_char, has_line, is_whitespace, lemma_index_of_bounds, lemma_index_of_is,
    lemma_trim_end_is, lemma_trim_start_is, lines, trim,
};
use vstd::prelude::*;

verus! {

/// Whether the path is the marker of some plugin.
pub open spec fn is_marker(p: Seq<char>) -> bool {
    exists|name: Seq<char>| valid_name(name) && p == #[trigger] marker_path(name)
}

/// Whether no source directory holds a file whose destination is a
/// marker.
pub open spec fn no_planted_marker(env: Env) -> bool {
    forall|dir: Seq<char>, j: int|
        env.listings.contains_key(dir) && 0 <= j < env.listings[dir].len() ==> !is_marker(
            (#[trigger] env.listings[dir][j]).rel,
        )
}

/// Where no source file goes to a marker, none goes to the marker of a
/// plugin that is not desired.
pub proof fn lemma_nothing_planted_nothing_stray(env: Env)
    requires
        no_planted_marker(env),
    ensures
        no_stray_marker(env),
{
    let m = env.manifest;
    assert forall|i: int| 0 <= i < m.plugins.len() && has_source(env, i) implies plants_no_stray(
        env.listings[(#[trigger] m.plugins[i]).source_dir],
        m,
    ) by {
        let dir = m.plugins[i].source_dir;
        assert forall|j: int| 0 <= j < env.listings[dir].len() implies !is_stray_marker(
            (#[trigger] env.listings[dir][j]).rel,
            m,
        ) by {
            assert(!is_marker(env.listings[dir][j].rel));
        }
    }
}

/// The relative paths of the files of a listing, in order.
pub open spec fn rels(files: Seq<SourceFileView>) -> Seq<Seq<char>> {
    Seq::new(files.len(), |j: int| files[j].rel)
}

/// The module of the first path that is one.
pub open spec fn first_stem(paths: Seq<Seq<char>>) -> Option<Seq<char>>
    decreases paths.len(),
{
    if paths.len() == 0 {
        None
    } else {
        match first_stem(paths.drop_last()) {
            Some(stem) => Some(stem),
            None => module_stem(paths.last()),
        }
    }
}

/// Whether the file is to be copied.
pub open spec fn copies_file(f: SourceFileView) -> bool {
    should_copy_spec(f.src_mtime, f.dest_mtime)
}

/// What a walk that succeeds has gathered: the relative paths of the
/// files, in order, and the module of the first of them that is one.
pub proof fn lemma_walk_gathers(
    root: Seq<char>,
    base: ProbeView,
    source_dir: Seq<char>,
    files: Seq<SourceFileView>,
)
    requires
        walk_spec(root, base, source_dir, files) is Ok,
    ensures
        walk_spec(root, base, source_dir, files)->Ok_0.marker_lines == rels(files),
        walk_spec(root, base, source_dir, files)->Ok_0.dll_stem == first_stem(rels(files)),
    decreases files.len(),
{
    if files.len() > 0 {
        let init = files.drop_last();
        lemma_walk_gathers(root, base, source_dir, init);
        let before = walk_spec(root, base, source_dir, init)->Ok_0;
        let after = walk_spec(root, base, source_dir, files)->Ok_0;
        assert(after == visit(before, source_dir, files.last()));
        assert(rels(files).drop_last() =~= rels(init));
        assert(rels(files).last() == files.last().rel);
        assert(after.marker_lines =~= rels(files));
    } else {
        assert(rels(files) =~= Seq::<Seq<char>>::empty());
    }
}

/// A walk in which no file is to be copied decides on no copy.
pub proof fn lemma_walk_without_copies(
    root: Seq<char>,
    base: ProbeView,
    source_dir: Seq<char>,
    files: Seq<SourceFileView>,
)
    requires
        walk_spec(root, base, source_dir, files) is Ok,
        forall|j: int| 0 <= j < files.len() ==> !copies_file(#[trigger] files[j]),
    ensures
        walk_spec(root, base, source_dir, files)->Ok_0.copies.len() == 0,
    decreases files.len(),
{
    if files.len() > 0 {
        let init = files.drop_last();
        assert forall|j: int| 0 <= j < init.len() implies !copies_file(#[trigger] init[j]) by {
            assert(init[j] == files[j]);
        }
        lemma_walk_without_copies(root, base, source_dir, init);
        assert(!copies_file(files[files.len() - 1]));
    }
}

/// A walk decides on a copy for every file that is to be copied.
pub proof fn lemma_walk_copies_each(
    root: Seq<char>,
    base: ProbeView,
    source_dir: Seq<char>,
    files: Seq<SourceFileView>,
    j: int,
)
    requires
        walk_spec(root, base, source_dir, files) is Ok,
        0 <= j < files.len(),
        copies_file(files[j]),
    ensures
        exists|c: int|
            0 <= c < walk_spec(root, base, source_dir, files)->Ok_0.copies.len() && touches(
                #[trigger] walk_spec(root, base, source_dir, files)->Ok_0.copies[c],
                files[j].rel,
            ),
    decreases files.len(),
{
    let init = files.drop_last();
    let before = walk_spec(root, base, source_dir, init)->Ok_0;
    let after = walk_spec(root, base, source_dir, files)->Ok_0;
    assert(after == visit(before, source_dir, files.last()));
    if j == files.len() - 1 {
        let c = after.copies.len() - 1;
        assert(touches(after.copies[c], files[j].rel));
    } else {
        assert(init[j] == files[j]);
        lemma_walk_copies_each(root, base, source_dir, init, j);
        let c = choose|c: int|
            0 <= c < before.copies.len() && touches(#[trigger] before.copies[c], files[j].rel);
        assert(after.copies[c] == before.copies[c]);
        assert(touches(after.copies[c], files[j].rel));
    }
}

/// A walk succeeds where every file is admitted.
pub proof fn lemma_walk_of_admitted(
    root: Seq<char>,
    base: ProbeView,
    source_dir: Seq<char>,
    files: Seq<SourceFileView>,
)
    requires
        forall|j: int| 0 <= j < files.len() ==> admit_file(root, base, #[trigger] files[j]) is Ok,
    ensures
        walk_spec(root, base, source_dir, files) is Ok,
    decreases files.len(),
{
    if files.len() > 0 {
        let init = files.drop_last();
        assert forall|j: int| 0 <= j < init.len() implies admit_file(
            root,
            base,
            #[trigger] init[j],
        ) is Ok by {
            assert(init[j] == files[j]);
        }
        lemma_walk_of_admitted(root, base, source_dir, init);
        assert(admit_file(root, base, files[files.len() - 1]) is Ok);
    }
}

/// After a plan of copies, every destination of a copy is there and
/// stamped with the time of the run.
pub proof fn lemma_copies_stamp(t: Tree, copies: Seq<ActionView>, env: Env, p: Seq<char>)
    requires
        forall|c: int| 0 <= c < copies.len() ==> (#[trigger] copies[c]) is Copy,
        exists|c: int| 0 <= c < copies.len() && touches(#[trigger] copies[c], p),
    ensures
        run_steps(t, copies, env).contains_key(p),
        run_steps(t, copies, env)[p].mtime == env.now,
    decreases copies.len(),
{
    let init = copies.drop_last();
    let last = copies.last();
    let mid = run_steps(t, init, env);
    assert(copies[copies.len() - 1] is Copy);
    assert(run_steps(t, copies, env) == perform_simple(mid, last, env));
    if touches(last, p) {
    } else {
        let c = choose|c: int| 0 <= c < copies.len() && touches(#[trigger] copies[c], p);
        assert(init[c] == copies[c]);
        assert forall|c: int| 0 <= c < init.len() implies (#[trigger] init[c]) is Copy by {
            assert(init[c] == copies[c]);
        }
        lemma_copies_stamp(t, init, env, p);
        lemma_frame_simple(mid, last, env, p);
    }
}

/// A plan of two actions does what the first does, and then what the
/// second does.
pub proof fn lemma_run_steps_two(t: Tree, a: ActionView, b: ActionView, env: Env)
    ensures
        run_steps(t, seq![a, b], env) == perform_step(perform_step(t, a, env), b, env),
{
    assert(seq![a, b].drop_last() =~= seq![a]);
    lemma_run_steps_one(t, a, env);
}

/// A line that is in a file stays in it when another line is made sure
/// of.
pub proof fn lemma_other_lines_stay(content: Seq<char>, added: Seq<char>, line: Seq<char>)
    requires
        !has_char(added, '\n'),
        has_line(content, line),
    ensures
        has_line(with_line(content, added), line),
{
    if !has_line(content, added) {
        let after = with_line(content, added);
        lemma_lines_after_append(content, added);
        let i = choose|i: int|
            0 <= i < lines(content).len() && trim(#[trigger] lines(content)[i]) == line;
        assert(trim(lines(after)[i]) == line);
    }
}

/// The last position of a character lies before the end.
pub proof fn lemma_last_index_bounds(s: Seq<char>, c: char)
    ensures
        -1 <= last_index_of(s, c) < s.len(),
    decreases s.len(),
{
    if s.len() > 0 && s.last() != c {
        lemma_last_index_bounds(s.drop_last(), c);
    }
}

/// The module of a file is never empty.
pub proof fn lemma_module_stem_not_empty(rel: Seq<char>)
    requires
        module_stem(rel) is Some,
    ensures
        module_stem(rel)->Some_0.len() > 0,
{
    let name = crate::plugins::file_name(rel)->Some_0;
    lemma_last_index_bounds(name, '.');
}

/// The primary module of a listing is never empty.
pub proof fn lemma_first_stem_not_empty(paths: Seq<Seq<char>>)
    requires
        first_stem(paths) is Some,
    ensures
        first_stem(paths)->Some_0.len() > 0,
    decreases paths.len(),
{
    if paths.len() > 0 {
        if first_stem(paths.drop_last()) is Some {
            lemma_first_stem_not_empty(paths.drop_last());
        } else {
            lemma_module_stem_not_empty(paths.last());
        }
    }
}

/// The load line of a module is found again once it stands in the
/// registry, where the stem is not empty, does not end with white space
/// and holds no line feed.
pub proof fn lemma_load_line_is_clean(stem: Seq<char>)
    requires
        stem.len() > 0,
        !is_whitespace(stem.last()),
        !has_char(stem, '\n'),
    ensures
        findable(load_line(stem)),
{
    reveal_strlit("plugin load ");
    let head = "plugin load "@;
    let l = load_line(stem);
    assert(l.len() == head.len() + stem.len());
    assert(l[0] == head[0]);
    assert(l.last() == stem.last());
    assert(!is_whitespace(l[0]));
    lemma_trim_start_is(l, 0);
    assert(l.skip(0) =~= l);
    lemma_trim_end_is(l, l.len() as int);
    assert(l.take(l.len() as int) =~= l);
    lemma_index_of_bounds(stem, '\n');
    assert forall|j: int| 0 <= j < l.len() implies l[j] != '\n' by {
        if j < head.len() {
            assert(l[j] == head[j]);
        } else {
            assert(l[j] == stem[j - head.len()]);
        }
    }
    lemma_index_of_is(l, '\n', l.len() as int);
}

/// The primary module of a listing is registered, unless its stem ends
/// with white space or holds a line feed.
pub proof fn lemma_primary_module_is_registered(paths: Seq<Seq<char>>)
    requires
        first_stem(paths) is Some,
        first_stem(paths)->Some_0.len() > 0 ==> !is_whitespace(first_stem(paths)->Some_0.last()),
        !has_char(first_stem(paths)->Some_0, '\n'),
    ensures
        register_spec(first_stem(paths)->Some_0) == seq![
            (ActionView::CreateDirAll { path: cfg_dir() }),
            (ActionView::EnsureLine {
                path: registry_path(),
                line: load_line(first_stem(paths)->Some_0),
            }),
        ],
{
    lemma_first_stem_not_empty(paths);
    lemma_load_line_is_clean(first_stem(paths)->Some_0);
}

/// The action that writes the marker of `name` for a listing.
pub open spec fn marker_write(name: Seq<char>, listing: Seq<SourceFileView>) -> ActionView {
    ActionView::Write { path: marker_path(name), content: marker_text(rels(listing)) }
}

/// The plan that registers the primary module of a listing.
pub open spec fn registration(listing: Seq<SourceFileView>) -> Seq<ActionView> {
    match first_stem(rels(listing)) {
        Some(stem) => register_spec(stem),
        None => Seq::empty(),
    }
}

/// The copies that an installation decides on, from what the driver finds
/// in the tree.
pub open spec fn copies_of(t: Tree, source_dir: Seq<char>, env: Env) -> Seq<ActionView> {
    walk_spec(env.root, env.base, source_dir, observe(t, env.listings[source_dir]))->Ok_0.copies
}

/// The tree after the copies of an installation.
pub open spec fn after_copies(t: Tree, source_dir: Seq<char>, env: Env) -> Tree {
    run_steps(t, copies_of(t, source_dir, env), env)
}

/// The tree after the copies of an installation and the writing of the
/// marker.
pub open spec fn after_marker(t: Tree, name: Seq<char>, source_dir: Seq<char>, env: Env) -> Tree {
    perform_simple(
        after_copies(t, source_dir, env),
        marker_write(name, env.listings[source_dir]),
        env,
    )
}

/// What the driver finds has the paths of the listing.
pub proof fn lemma_observe_rels(t: Tree, listing: Seq<SourceFileView>)
    ensures
        rels(observe(t, listing)) == rels(listing),
{
    assert(rels(observe(t, listing)) =~= rels(listing));
}

/// An installation that succeeds, step by step: the name can name a
/// marker, every file of the listing is admitted, and the tree is what
/// the copies, the writing of the marker and the registration make of it.
pub proof fn lemma_install_unfolds(t: Tree, name: Seq<char>, source_dir: Seq<char>, env: Env)
    requires
        env.listings.contains_key(source_dir),
        perform(t, (ActionView::Install { name, source_dir }), env) is Ok,
    ensures
        valid_name(name),
        name.len() > 0,
        walk_spec(env.root, env.base, source_dir, observe(t, env.listings[source_dir])) is Ok,
        forall|j: int|
            0 <= j < env.listings[source_dir].len() ==> admit_file(
                env.root,
                env.base,
                #[trigger] env.listings[source_dir][j],
            ) is Ok,
        forall|c: int|
            0 <= c < copies_of(t, source_dir, env).len() ==> (#[trigger] copies_of(
                t,
                source_dir,
                env,
            )[c]) is Copy,
        forall|c: int, p: Seq<char>|
            0 <= c < copies_of(t, source_dir, env).len() && #[trigger] touches(
                copies_of(t, source_dir, env)[c],
                p,
            ) ==> rels(env.listings[source_dir]).contains(p),
        perform(t, (ActionView::Install { name, source_dir }), env)->Ok_0 == run_steps(
            after_marker(t, name, source_dir, env),
            registration(env.listings[source_dir]),
            env,
        ),
{
    let listing = env.listings[source_dir];
    let files = observe(t, listing);
    assert(found(t, source_dir, env) == Some(files));
    let st = walk_spec(env.root, env.base, source_dir, files)->Ok_0;
    let copies = st.copies;
    let write = marker_write(name, listing);
    let reg = registration(listing);
    lemma_walk_gathers(env.root, env.base, source_dir, files);
    lemma_observe_rels(t, listing);
    lemma_walk_admits_all(env.root, env.base, source_dir, files);
    lemma_walk_copies(env.root, env.base, source_dir, files);
    assert forall|j: int| 0 <= j < listing.len() implies admit_file(
        env.root,
        env.base,
        #[trigger] listing[j],
    ) is Ok by {
        assert(files[j].rel == listing[j].rel);
    }
    assert forall|c: int| 0 <= c < copies.len() implies (#[trigger] copies[c]) is Copy by {
        let i = choose|i: int|
            0 <= i < files.len() && copies[c] == (ActionView::Copy {
                from: push_name(source_dir, (#[trigger] files[i]).rel),
                to: files[i].rel,
            });
    }
    assert forall|c: int, p: Seq<char>|
        0 <= c < copies.len() && #[trigger] touches(copies[c], p) implies rels(listing).contains(
        p,
    ) by {
        let i = choose|i: int|
            0 <= i < files.len() && copies[c] == (ActionView::Copy {
                from: push_name(source_dir, (#[trigger] files[i]).rel),
                to: files[i].rel,
            });
        assert(rels(listing)[i] == p);
    }
    assert(plan_of(name, st) =~= (copies + seq![write]) + reg);
    lemma_run_steps_concat(t, copies + seq![write], reg, env);
    lemma_run_steps_concat(t, copies, seq![write], env);
    lemma_run_steps_one(run_steps(t, copies, env), write, env);
}

/// What the registration of a listing's primary module does: it touches
/// the registry only, where it makes sure of the module's load line, if
/// that line can be found again.
pub proof fn lemma_registration_effect(t: Tree, listing: Seq<SourceFileView>, env: Env)
    ensures
        kept_or_stamped(t, run_steps(t, registration(listing), env), env.now),
        forall|p: Seq<char>|
            p != registry_path() ==> run_steps(t, registration(listing), env).contains_key(p)
                == t.contains_key(p) && (t.contains_key(p) ==> #[trigger] run_steps(
                t,
                registration(listing),
                env,
            )[p] == t[p]),
        match first_stem(rels(listing)) {
            Some(stem) => findable(load_line(stem)) ==> {
                &&& content_of(run_steps(t, registration(listing), env), registry_path())
                    == with_line(content_of(t, registry_path()), load_line(stem))
                &&& has_line(content_of(t, registry_path()), load_line(stem)) ==> run_steps(
                    t,
                    registration(listing),
                    env,
                ) == t
            },
            None => true,
        },
        first_stem(rels(listing)) is None || !findable(
            load_line(first_stem(rels(listing))->Some_0),
        )
            ==> run_steps(t, registration(listing), env) == t,
{
    let reg = registration(listing);
    match first_stem(rels(listing)) {
        Some(stem) => {
            if findable(load_line(stem)) {
                lemma_run_steps_two(t, reg[0], reg[1], env);
                assert(reg =~= seq![reg[0], reg[1]]);
            } else {
            }
        },
        None => {},
    }
}

/// Whether every source file has a known modification time that is not
/// later than the time of the run.
pub open spec fn sources_settled(env: Env) -> bool {
    forall|dir: Seq<char>, j: int|
        env.listings.contains_key(dir) && 0 <= j < env.listings[dir].len() ==> match (
        #[trigger] env.listings[dir][j]).src_mtime {
            Some(s) => s <= env.now,
            None => false,
        }
}

/// Whether no source directory holds a file whose destination is the
/// registry.
pub open spec fn no_planted_registry(env: Env) -> bool {
    forall|dir: Seq<char>, j: int|
        env.listings.contains_key(dir) && 0 <= j < env.listings[dir].len() ==> (
        #[trigger] env.listings[dir][j]).rel != registry_path()
}

/// Whether every file of the listing is in the tree and not older than
/// its source.
pub open spec fn fresh(t: Tree, listing: Seq<SourceFileView>) -> bool {
    forall|j: int|
        0 <= j < listing.len() ==> match (#[trigger] listing[j]).src_mtime {
            Some(s) => t.contains_key(listing[j].rel) && t[listing[j].rel].mtime >= s,
            None => false,
        }
}

/// Whether no source file of a desired plugin is newer than its copy:
/// every file of every source directory of a desired plugin is in the
/// tree, and not older than its source.
pub open spec fn copies_fresh(t: Tree, env: Env) -> bool {
    forall|i: int|
        0 <= i < env.manifest.plugins.len() && has_source(env, i) ==> fresh(
            t,
            env.listings[(#[trigger] env.manifest.plugins[i]).source_dir],
        )
}

/// Whether the marker of `name` lists the files of the listing.
pub open spec fn marker_kept(t: Tree, name: Seq<char>, listing: Seq<SourceFileView>) -> bool {
    t.contains_key(marker_path(name)) && t[marker_path(name)].content == marker_text(rels(listing))
}

/// Whether the registry holds the load line of the listing's primary
/// module, where that line can be found again.
pub open spec fn registered(t: Tree, listing: Seq<SourceFileView>) -> bool {
    match first_stem(rels(listing)) {
        Some(stem) => findable(load_line(stem)) ==> has_line(
            content_of(t, registry_path()),
            load_line(stem),
        ),
        None => true,
    }
}

/// Whether the tree holds what the installation of a plugin leaves
/// behind.
pub open spec fn settled(t: Tree, name: Seq<char>, listing: Seq<SourceFileView>) -> bool {
    fresh(t, listing) && marker_kept(t, name, listing) && registered(t, listing)
}

/// Whether two trees hold the same files with the same content.
pub open spec fn same_contents(a: Tree, b: Tree) -> bool {
    forall|p: Seq<char>|
        (#[trigger] a.contains_key(p)) == b.contains_key(p) && (a.contains_key(p) ==> a[p].content
            == b[p].content)
}

/// Whether two trees hold the same files but for markers, modification
/// times included.
pub open spec fn same_off_markers(a: Tree, b: Tree) -> bool {
    forall|p: Seq<char>|
        !is_marker(p) ==> (#[trigger] a.contains_key(p)) == b.contains_key(p) && (a.contains_key(p)
            ==> a[p] == b[p])
}

/// An installation settles its own plugin: it writes the marker and
/// registers the primary module, and leaves every file not older than
/// its source where no source is from the future.
pub proof fn lemma_install_settles(t: Tree, name: Seq<char>, source_dir: Seq<char>, env: Env)
    requires
        env.listings.contains_key(source_dir),
        perform(t, (ActionView::Install { name, source_dir }), env) is Ok,
    ensures
        marker_kept(
            perform(t, (ActionView::Install { name, source_dir }), env)->Ok_0,
            name,
            env.listings[source_dir],
        ),
        registered(
            perform(t, (ActionView::Install { name, source_dir }), env)->Ok_0,
            env.listings[source_dir],
        ),
        sources_settled(env) ==> fresh(
            perform(t, (ActionView::Install { name, source_dir }), env)->Ok_0,
            env.listings[source_dir],
        ),
{
    let listing = env.listings[source_dir];
    let files = observe(t, listing);
    let copies = copies_of(t, source_dir, env);
    let t1 = after_copies(t, source_dir, env);
    let t2 = after_marker(t, name, source_dir, env);
    let t3 = perform(t, (ActionView::Install { name, source_dir }), env)->Ok_0;
    let marker = marker_path(name);
    lemma_install_unfolds(t, name, source_dir, env);
    assert forall|c: int| 0 <= c < copies.len() implies only_writes(#[trigger] copies[c]) by {
        assert(copies[c] is Copy);
    }
    lemma_writes_keep(t, copies, env);
    lemma_registration_effect(t2, listing, env);
    lemma_registry_is_no_marker(name);
    // The files are there and not older than their sources.
    assert forall|j: int|
        sources_settled(env) && 0 <= j < listing.len() implies match (
    #[trigger] listing[j]).src_mtime {
        Some(s) => t3.contains_key(listing[j].rel) && t3[listing[j].rel].mtime >= s,
        None => false,
    } by {
        let rel = listing[j].rel;
        let s = listing[j].src_mtime->Some_0;
        assert(files[j].rel == rel && files[j].src_mtime == listing[j].src_mtime);
        assert(files[j].dest_mtime == mtime_of(t, rel));
        if copies_file(files[j]) {
            lemma_walk_copies_each(env.root, env.base, source_dir, files, j);
            lemma_copies_stamp(t, copies, env, rel);
        } else {
            assert(t.contains_key(rel));
            assert(t1.contains_key(rel));
        }
        assert(t1.contains_key(rel) && t1[rel].mtime >= s);
        assert(t2.contains_key(rel) && t2[rel].mtime >= s);
        assert(t3.contains_key(rel));
    }
    // The marker lists the files.
    assert(t2.contains_key(marker) && t2[marker].content == marker_text(rels(listing)));
    assert(t3.contains_key(marker) == t2.contains_key(marker) && t3[marker] == t2[marker]);
    // The registry holds the load line.
    match first_stem(rels(listing)) {
        Some(stem) => {
            if findable(load_line(stem)) {
                lemma_ensure_line_idempotent(content_of(t2, registry_path()), load_line(stem));
            }
        },
        None => {},
    }
}

/// An installation leaves the load line of every other plugin in the
/// registry, and the marker of every plugin of another name as it is.
/// Where no source file is from the future, it leaves the files of
/// every other plugin not older than their sources.
pub proof fn lemma_install_keeps_settled(
    t: Tree,
    name: Seq<char>,
    source_dir: Seq<char>,
    env: Env,
    other: Seq<char>,
    other_dir: Seq<char>,
)
    requires
        env.listings.contains_key(source_dir),
        env.listings.contains_key(other_dir),
        perform(t, (ActionView::Install { name, source_dir }), env) is Ok,
        no_planted_marker(env),
        no_planted_registry(env),
        valid_name(other),
        registered(t, env.listings[other_dir]),
    ensures
        sources_settled(env) && fresh(t, env.listings[other_dir]) ==> fresh(
            perform(t, (ActionView::Install { name, source_dir }), env)->Ok_0,
            env.listings[other_dir],
        ),
        registered(
            perform(t, (ActionView::Install { name, source_dir }), env)->Ok_0,
            env.listings[other_dir],
        ),
        other != name && marker_kept(t, other, env.listings[other_dir]) ==> marker_kept(
            perform(t, (ActionView::Install { name, source_dir }), env)->Ok_0,
            other,
            env.listings[other_dir],
        ),
{
    let listing = env.listings[source_dir];
    let theirs = env.listings[other_dir];
    let copies = copies_of(t, source_dir, env);
    let t1 = after_copies(t, source_dir, env);
    let t2 = after_marker(t, name, source_dir, env);
    let t3 = perform(t, (ActionView::Install { name, source_dir }), env)->Ok_0;
    let marker = marker_path(other);
    let registry = registry_path();
    lemma_install_unfolds(t, name, source_dir, env);
    assert forall|c: int| 0 <= c < copies.len() implies only_writes(#[trigger] copies[c]) by {
        assert(copies[c] is Copy);
    }
    lemma_writes_keep(t, copies, env);
    lemma_registration_effect(t2, listing, env);
    lemma_registry_is_no_marker(other);
    lemma_registry_is_no_marker(name);
    // Their files stay, as they were or stamped with the time of the run.
    assert forall|j: int|
        sources_settled(env) && fresh(t, theirs) && 0 <= j < theirs.len() implies match (
    #[trigger] theirs[j]).src_mtime {
        Some(s) => t3.contains_key(theirs[j].rel) && t3[theirs[j].rel].mtime >= s,
        None => false,
    } by {
        let rel = theirs[j].rel;
        assert(t.contains_key(rel));
        assert(t1.contains_key(rel));
        assert(t2.contains_key(rel));
        assert(t3.contains_key(rel));
    }
    // No copy goes to their marker or to the registry.
    assert forall|c: int| 0 <= c < copies.len() implies !((#[trigger] copies[c]) is RemovePlugin)
        && !touches(copies[c], marker) && !touches(copies[c], registry) by {
        assert(copies[c] is Copy);
        if touches(copies[c], marker) {
            let j = choose|j: int| 0 <= j < rels(listing).len() && rels(listing)[j] == marker;
            assert(listing[j].rel == marker);
            assert(is_marker(marker));
        }
        if touches(copies[c], registry) {
            let j = choose|j: int| 0 <= j < rels(listing).len() && rels(listing)[j] == registry;
            assert(listing[j].rel == registry);
        }
    }
    lemma_frame_steps(t, copies, env, marker);
    lemma_frame_steps(t, copies, env, registry);
    if other != name {
        if marker_path(name) == marker {
            lemma_marker_path_injective(name, other);
        }
        lemma_frame_simple(t1, marker_write(name, listing), env, marker);
        if marker_kept(t, other, theirs) {
            assert(t2.contains_key(marker));
            assert(t3.contains_key(marker) && t3[marker] == t2[marker]);
        }
    }
    lemma_frame_simple(t1, marker_write(name, listing), env, registry);
    // Their load line stays in the registry.
    assert(content_of(t2, registry) == content_of(t, registry));
    match first_stem(rels(theirs)) {
        Some(their_stem) => {
            if findable(load_line(their_stem)) {
                match first_stem(rels(listing)) {
                    Some(stem) => {
                        if findable(load_line(stem)) {
                            lemma_other_lines_stay(
                                content_of(t2, registry),
                                load_line(stem),
                                load_line(their_stem),
                            );
                        }
                    },
                    None => {},
                }
            }
        },
        None => {},
    }
}

/// Whether two trees hold files at the same paths.
pub open spec fn same_keys(a: Tree, b: Tree) -> bool {
    forall|p: Seq<char>| (#[trigger] a.contains_key(p)) == b.contains_key(p)
}

/// An installation on a tree that holds what a first run left behind
/// copies nothing and adds no line: it leaves every file as it is, but
/// for the plugin's marker, which it writes.
pub proof fn lemma_reinstall_changes_nothing(
    t: Tree,
    left: Tree,
    name: Seq<char>,
    source_dir: Seq<char>,
    env: Env,
)
    requires
        env.listings.contains_key(source_dir),
        valid_name(name),
        name.len() > 0,
        forall|j: int|
            0 <= j < env.listings[source_dir].len() ==> admit_file(
                env.root,
                env.base,
                #[trigger] env.listings[source_dir][j],
            ) is Ok,
        no_planted_marker(env),
        fresh(left, env.listings[source_dir]),
        registered(left, env.listings[source_dir]),
        left.contains_key(marker_path(name)),
        same_keys(t, left),
        same_off_markers(t, left),
    ensures
        perform(t, (ActionView::Install { name, source_dir }), env) is Ok,
        perform(t, (ActionView::Install { name, source_dir }), env)->Ok_0 == written(
            t,
            marker_path(name),
            marker_text(rels(env.listings[source_dir])),
            env,
        ),
        same_keys(perform(t, (ActionView::Install { name, source_dir }), env)->Ok_0, left),
        same_off_markers(perform(t, (ActionView::Install { name, source_dir }), env)->Ok_0, left),
{
    let listing = env.listings[source_dir];
    let files = observe(t, listing);
    let marker = marker_path(name);
    let registry = registry_path();
    assert(found(t, source_dir, env) == Some(files));
    assert forall|j: int| 0 <= j < files.len() implies admit_file(
        env.root,
        env.base,
        #[trigger] files[j],
    ) is Ok by {
        assert(admit_file(env.root, env.base, listing[j]) is Ok);
    }
    lemma_walk_of_admitted(env.root, env.base, source_dir, files);
    assert(perform(t, (ActionView::Install { name, source_dir }), env) is Ok);
    lemma_install_unfolds(t, name, source_dir, env);
    // No file is to be copied.
    assert forall|j: int| 0 <= j < files.len() implies !copies_file(#[trigger] files[j]) by {
        let rel = listing[j].rel;
        assert(files[j].rel == rel && files[j].src_mtime == listing[j].src_mtime);
        assert(!is_marker(rel));
        assert(left.contains_key(rel));
        assert(t.contains_key(rel) == left.contains_key(rel));
        assert(t[rel] == left[rel]);
    }
    lemma_walk_without_copies(env.root, env.base, source_dir, files);
    let copies = copies_of(t, source_dir, env);
    assert(copies =~= Seq::<ActionView>::empty());
    let t1 = after_copies(t, source_dir, env);
    assert(t1 == t);
    // The marker is written.
    let t2 = after_marker(t, name, source_dir, env);
    assert(is_marker(marker));
    assert(t2 == written(t, marker, marker_text(rels(listing)), env));
    assert forall|p: Seq<char>| (#[trigger] t2.contains_key(p)) == left.contains_key(p) by {
        assert(t.contains_key(p) == left.contains_key(p));
    }
    assert forall|p: Seq<char>| !is_marker(p) implies (#[trigger] t2.contains_key(p))
        == left.contains_key(p) && (t2.contains_key(p) ==> t2[p] == left[p]) by {
        assert(t.contains_key(p) == left.contains_key(p));
    }
    // The load line is in the registry.
    lemma_registry_is_no_marker(name);
    lemma_registration_effect(t2, listing, env);
    assert(!is_marker(registry)) by {
        if is_marker(registry) {
            let other = choose|other: Seq<char>|
                valid_name(other) && registry == #[trigger] marker_path(other);
            lemma_registry_is_no_marker(other);
        }
    }
    assert(t2.contains_key(registry) == left.contains_key(registry));
    assert(content_of(t2, registry) == content_of(left, registry));
}

/// The listing of the source directory of the plugin at position `i`.
pub open spec fn listing_of(env: Env, i: int) -> Seq<SourceFileView> {
    env.listings[env.manifest.plugins[i].source_dir]
}

/// Whether two runs meet the same desired state, the same data root and
/// the same source directories. The time of the run and the order of the
/// listing may differ.
pub open spec fn same_world(env: Env, again: Env) -> bool {
    &&& again.manifest == env.manifest
    &&& again.root == env.root
    &&& again.base == env.base
    &&& again.listings == env.listings
    &&& again.sources == env.sources
}

/// Whether, among the first `k` plugins, one that comes after the plugin
/// at position `i` has the same name and its source directory: its
/// installation writes the marker again.
pub open spec fn rewritten_later(env: Env, i: int, k: int) -> bool {
    exists|j: int|
        i < j < k && (#[trigger] env.manifest.plugins[j]).name == env.manifest.plugins[i].name
            && has_source(env, j)
}

/// Whether a plugin named `name` that has its source directory is still
/// to be installed after the first `k`.
pub open spec fn still_to_come(env: Env, name: Seq<char>, k: int) -> bool {
    exists|j: int|
        k <= j < env.manifest.plugins.len() && (#[trigger] env.manifest.plugins[j]).name == name
            && has_source(env, j)
}

/// Whether the tree holds what the installation of the plugin at
/// position `i` leaves behind, and that installation can be planned
/// again. Nothing is asked of a plugin without source directory.
pub open spec fn ready(left: Tree, env: Env, i: int) -> bool {
    has_source(env, i) ==> {
        &&& valid_name(env.manifest.plugins[i].name)
        &&& env.manifest.plugins[i].name.len() > 0
        &&& left.contains_key(marker_path(env.manifest.plugins[i].name))
        &&& registered(left, listing_of(env, i))
        &&& !rewritten_later(env, i, env.manifest.plugins.len() as int) ==> marker_kept(
            left,
            env.manifest.plugins[i].name,
            listing_of(env, i),
        )
        &&& forall|j: int|
            0 <= j < listing_of(env, i).len() ==> admit_file(
                env.root,
                env.base,
                #[trigger] listing_of(env, i)[j],
            ) is Ok
    }
}

/// Where every marker in the tree is that of a desired plugin, the
/// removal of stale plugins changes nothing.
pub proof fn lemma_nothing_stale(t: Tree, entries: Seq<Seq<char>>, env: Env)
    requires
        forall|name: Seq<char>|
            valid_name(name) && t.contains_key(#[trigger] marker_path(name))
                ==> env.manifest.wants(name),
    ensures
        run_steps(t, remove_stale_spec(entries, env.manifest), env) == t,
    decreases entries.len(),
{
    let m = env.manifest;
    if entries.len() > 0 {
        let init = entries.drop_last();
        let entry = entries.last();
        let head = remove_stale_spec(init, m);
        let tail = entry_removal(entry, m);
        lemma_nothing_stale(t, init, env);
        lemma_run_steps_concat(t, head, tail, env);
        match marker_name(entry) {
            None => {},
            Some(name) => {
                if !valid_name(name) {
                    lemma_run_steps_one(t, tail[0], env);
                    assert(tail =~= seq![tail[0]]);
                } else if m.wants(name) {
                } else {
                    let marker = plugins_prefix() + entry;
                    lemma_marker_of_entry(entry);
                    assert(!t.contains_key(marker_path(name)));
                    assert(content_of(t, marker) =~= Seq::<char>::empty());
                    lemma_index_of_is(Seq::<char>::empty(), '\n', 0);
                    assert(lines(Seq::<char>::empty()) =~= Seq::<Seq<char>>::empty());
                    let plan = remove_plugin_spec(marker, content_of(t, marker));
                    assert(plan =~= seq![(ActionView::Remove { path: marker })]);
                    lemma_run_simple_one(t, plan[0], env);
                    assert(t.remove(marker) =~= t);
                    assert(tail =~= seq![tail[0]]);
                    lemma_run_steps_one(t, tail[0], env);
                }
            },
        }
    }
}

/// After the first `k` installations of a run, each plugin installed so
/// far has its load line, and its marker lists its files unless a later
/// plugin of the same name has written it again. Where no source file is
/// from the future, its files are there and not older than their
/// sources.
pub proof fn lemma_first_run_settles(before: Tree, env: Env, k: int, i: int)
    requires
        run(before, sync_spec(env.manifest), env) is Ok,
        no_planted_marker(env),
        no_planted_registry(env),
        0 <= i < k <= env.manifest.plugins.len(),
        has_source(env, i),
    ensures
        run(before, sync_spec(env.manifest).take(4 + k), env) is Ok,
        sources_settled(env) ==> fresh(
            run(before, sync_spec(env.manifest).take(4 + k), env)->Ok_0,
            listing_of(env, i),
        ),
        registered(
            run(before, sync_spec(env.manifest).take(4 + k), env)->Ok_0,
            listing_of(env, i),
        ),
        !rewritten_later(env, i, k) ==> marker_kept(
            run(before, sync_spec(env.manifest).take(4 + k), env)->Ok_0,
            env.manifest.plugins[i].name,
            listing_of(env, i),
        ),
    decreases k,
{
    let m = env.manifest;
    let plan = sync_spec(m);
    let prev = plan.take(4 + k - 1);
    let a = plan[4 + k - 1];
    let plugin = m.plugins[k - 1];
    lemma_run_prefix_ok(before, plan, 4 + k, env);
    lemma_run_prefix_ok(before, plan, 4 + k - 1, env);
    assert(a == (ActionView::Install { name: plugin.name, source_dir: plugin.source_dir }));
    assert(plan.take(4 + k) =~= prev.push(a));
    lemma_run_push(before, prev, a, env);
    let mid = run(before, prev, env)->Ok_0;
    if i == k - 1 {
        lemma_install_settles(mid, plugin.name, plugin.source_dir, env);
    } else {
        lemma_first_run_settles(before, env, k - 1, i);
        if has_source(env, k - 1) {
            lemma_nothing_planted_nothing_stray(env);
            lemma_installs_add_markers(before, env, k, Seq::<char>::empty());
            assert(valid_name(m.plugins[i].name));
            lemma_install_keeps_settled(
                mid,
                plugin.name,
                plugin.source_dir,
                env,
                m.plugins[i].name,
                m.plugins[i].source_dir,
            );
            if !rewritten_later(env, i, k) {
                if m.plugins[k - 1].name == m.plugins[i].name {
                    assert(i < k - 1 < k && m.plugins[k - 1].name == m.plugins[i].name
                        && has_source(env, k - 1));
                }
            }
        } else {
            lemma_install_without_source(mid, plugin.name, plugin.source_dir, env);
        }
        if !rewritten_later(env, i, k) {
            if rewritten_later(env, i, k - 1) {
                let j = choose|j: int|
                    i < j < k - 1 && (#[trigger] m.plugins[j]).name == m.plugins[i].name
                        && has_source(env, j);
                assert(i < j < k && m.plugins[j].name == m.plugins[i].name && has_source(env, j));
            }
        }
    }
}

/// What a run that succeeds leaves behind for a desired plugin that has
/// its source directory: every file of the source directory is in the
/// data root and not older than its source, the marker lists those
/// files, one per line and in walk order, and the registry holds the load
/// line of the primary module.
///
/// This is stated of runs in which no source file goes to a marker or to
/// the registry and every source file has a known modification time that
/// is not later than the time of the run, and of a plugin whose name no
/// later plugin of the manifest has.
pub proof fn lemma_sync_settles(before: Tree, env: Env, i: int)
    requires
        run(before, sync_spec(env.manifest), env) is Ok,
        no_planted_marker(env),
        no_planted_registry(env),
        sources_settled(env),
        0 <= i < env.manifest.plugins.len(),
        has_source(env, i),
        !rewritten_later(env, i, env.manifest.plugins.len() as int),
    ensures
        settled(
            run(before, sync_spec(env.manifest), env)->Ok_0,
            env.manifest.plugins[i].name,
            listing_of(env, i),
        ),
{
    let plan = sync_spec(env.manifest);
    let n = env.manifest.plugins.len() as int;
    assert(plan.take(4 + n) =~= plan);
    lemma_first_run_settles(before, env, n, i);
}

/// After a run that succeeds, no source file is newer than its copy,
/// where every source file has a known modification time that is not
/// later than the time of the run.
pub proof fn lemma_sync_leaves_copies_fresh(before: Tree, env: Env)
    requires
        run(before, sync_spec(env.manifest), env) is Ok,
        no_planted_marker(env),
        no_planted_registry(env),
        sources_settled(env),
    ensures
        copies_fresh(run(before, sync_spec(env.manifest), env)->Ok_0, env),
{
    let plan = sync_spec(env.manifest);
    let n = env.manifest.plugins.len() as int;
    let left = run(before, plan, env)->Ok_0;
    assert(plan.take(4 + n) =~= plan);
    assert forall|i: int| 0 <= i < n && has_source(env, i) implies fresh(
        left,
        env.listings[(#[trigger] env.manifest.plugins[i]).source_dir],
    ) by {
        lemma_first_run_settles(before, env, n, i);
    }
}

/// In a run that succeeds, every desired plugin that has its source
/// directory has a name that can name a marker, and every file of its
/// source directory is admitted.
pub proof fn lemma_first_run_admits(before: Tree, env: Env, i: int)
    requires
        run(before, sync_spec(env.manifest), env) is Ok,
        0 <= i < env.manifest.plugins.len(),
        has_source(env, i),
    ensures
        valid_name(env.manifest.plugins[i].name),
        env.manifest.plugins[i].name.len() > 0,
        forall|j: int|
            0 <= j < listing_of(env, i).len() ==> admit_file(
                env.root,
                env.base,
                #[trigger] listing_of(env, i)[j],
            ) is Ok,
{
    let m = env.manifest;
    let plan = sync_spec(m);
    let prev = plan.take(4 + i);
    let a = plan[4 + i];
    let plugin = m.plugins[i];
    lemma_run_prefix_ok(before, plan, 4 + i + 1, env);
    lemma_run_prefix_ok(before, plan, 4 + i, env);
    assert(a == (ActionView::Install { name: plugin.name, source_dir: plugin.source_dir }));
    assert(plan.take(4 + i + 1) =~= prev.push(a));
    lemma_run_push(before, prev, a, env);
    let mid = run(before, prev, env)->Ok_0;
    lemma_install_unfolds(mid, plugin.name, plugin.source_dir, env);
}

/// Whether each marker of `left` has in `t` the content that it has in
/// `left`, unless a plugin of its name is still to be installed after
/// the first `k`.
pub open spec fn markers_agree(t: Tree, left: Tree, env: Env, k: int) -> bool {
    forall|name: Seq<char>|
        valid_name(name) && left.contains_key(#[trigger] marker_path(name)) ==> t[marker_path(
            name,
        )].content == left[marker_path(name)].content || still_to_come(env, name, k)
}

/// The first `k` installations of a second run change the content of no
/// file, but for the markers of plugins that are still to be installed.
pub proof fn lemma_second_run(left: Tree, env: Env, k: int)
    requires
        0 <= k <= env.manifest.plugins.len(),
        no_planted_marker(env),
        copies_fresh(left, env),
        forall|i: int| 0 <= i < env.manifest.plugins.len() ==> ready(left, env, i),
        forall|name: Seq<char>|
            valid_name(name) && left.contains_key(#[trigger] marker_path(name))
                ==> env.manifest.wants(name),
    ensures
        run(left, sync_spec(env.manifest).take(4 + k), env) is Ok,
        same_keys(run(left, sync_spec(env.manifest).take(4 + k), env)->Ok_0, left),
        same_off_markers(run(left, sync_spec(env.manifest).take(4 + k), env)->Ok_0, left),
        markers_agree(run(left, sync_spec(env.manifest).take(4 + k), env)->Ok_0, left, env, k),
    decreases k,
{
    let m = env.manifest;
    let plan = sync_spec(m);
    if k == 0 {
        let p0 = plan.take(0);
        let p1 = plan.take(1);
        let p2 = plan.take(2);
        let p3 = plan.take(3);
        let p4 = plan.take(4);
        assert(p1 =~= p0.push(plan[0]));
        assert(p2 =~= p1.push(plan[1]));
        assert(p3 =~= p2.push(plan[2]));
        assert(p4 =~= p3.push(plan[3]));
        lemma_run_push(left, p0, plan[0], env);
        lemma_run_push(left, p1, plan[1], env);
        lemma_run_push(left, p2, plan[2], env);
        lemma_run_push(left, p3, plan[3], env);
        assert(run(left, p0, env) == Ok::<Tree, InstallError>(left));
        assert(run(left, p3, env) == Ok::<Tree, InstallError>(left));
        lemma_nothing_stale(left, env.entries, env);
        assert(run(left, p4, env) == Ok::<Tree, InstallError>(left));
    } else {
        lemma_second_run(left, env, k - 1);
        let prev = plan.take(4 + k - 1);
        let a = plan[4 + k - 1];
        let plugin = m.plugins[k - 1];
        assert(a == (ActionView::Install { name: plugin.name, source_dir: plugin.source_dir }));
        assert(plan.take(4 + k) =~= prev.push(a));
        lemma_run_push(left, prev, a, env);
        let mid = run(left, prev, env)->Ok_0;
        assert(ready(left, env, k - 1));
        if has_source(env, k - 1) {
            assert(fresh(left, env.listings[m.plugins[k - 1].source_dir]));
            lemma_reinstall_changes_nothing(mid, left, plugin.name, plugin.source_dir, env);
        } else {
            lemma_install_without_source(mid, plugin.name, plugin.source_dir, env);
        }
        let after = run(left, plan.take(4 + k), env)->Ok_0;
        assert forall|name: Seq<char>|
            valid_name(name) && left.contains_key(#[trigger] marker_path(name)) implies after[marker_path(
            name,
        )].content == left[marker_path(name)].content || still_to_come(env, name, k) by {
            let p = marker_path(name);
            if has_source(env, k - 1) && p == marker_path(plugin.name) {
                lemma_marker_path_injective(name, plugin.name);
                if rewritten_later(env, k - 1, m.plugins.len() as int) {
                    let j = choose|j: int|
                        k - 1 < j < m.plugins.len() && (#[trigger] m.plugins[j]).name
                            == m.plugins[k - 1].name && has_source(env, j);
                    assert(k <= j < m.plugins.len() && m.plugins[j].name == name && has_source(
                        env,
                        j,
                    ));
                }
            } else {
                assert(mid.contains_key(p) == left.contains_key(p));
                assert(after[p] == mid[p]);
                if mid[p].content != left[p].content {
                    let j = choose|j: int|
                        k - 1 <= j < m.plugins.len() && (#[trigger] m.plugins[j]).name == name
                            && has_source(env, j);
                    assert(k <= j < m.plugins.len() && m.plugins[j].name == name && has_source(
                        env,
                        j,
                    ));
                }
            }
        }
    }
}

/// Idempotence. A second run with the same desired state, the same data
/// root and the same source directories succeeds and leaves every file
/// with the content that the first run left it with: nothing is removed,
/// nothing is copied, no line is added, and each marker ends with the
/// content that it has.
///
/// This is stated of first runs in which the listing shows every marker
/// that exists and no source file goes to a marker or to the registry,
/// and after which no source file is newer than its copy.
pub proof fn lemma_sync_idempotent(before: Tree, env: Env, again: Env)
    requires
        run(before, sync_spec(env.manifest), env) is Ok,
        no_planted_marker(env),
        lists_markers(env.entries, before),
        no_planted_registry(env),
        copies_fresh(run(before, sync_spec(env.manifest), env)->Ok_0, env),
        same_world(env, again),
    ensures
        run(run(before, sync_spec(env.manifest), env)->Ok_0, sync_spec(env.manifest), again) is Ok,
        same_contents(
            run(
                run(before, sync_spec(env.manifest), env)->Ok_0,
                sync_spec(env.manifest),
                again,
            )->Ok_0,
            run(before, sync_spec(env.manifest), env)->Ok_0,
        ),
{
    let m = env.manifest;
    let plan = sync_spec(m);
    let n = m.plugins.len() as int;
    let left = run(before, plan, env)->Ok_0;
    assert(plan.take(4 + n) =~= plan);
    lemma_nothing_planted_nothing_stray(env);
    assert forall|name: Seq<char>|
        valid_name(name) && left.contains_key(#[trigger] marker_path(name)) implies m.wants(
        name,
    ) by {
        lemma_sync_leaves_no_stale(before, env, name);
    }
    assert forall|i: int| 0 <= i < n implies ready(left, again, i) by {
        if has_source(env, i) {
            lemma_first_run_settles(before, env, n, i);
            lemma_first_run_admits(before, env, i);
            lemma_installs_add_markers(before, env, n, m.plugins[i].name);
            assert(listing_of(again, i) == listing_of(env, i));
            assert(has_source(again, i));
            if !rewritten_later(again, i, n) {
                if rewritten_later(env, i, n) {
                    let j = choose|j: int|
                        i < j < n && (#[trigger] env.manifest.plugins[j]).name
                            == env.manifest.plugins[i].name && has_source(env, j);
                    assert(i < j < n && again.manifest.plugins[j].name
                        == again.manifest.plugins[i].name && has_source(again, j));
                }
            }
        }
    }
    assert(no_planted_marker(again));
    assert(copies_fresh(left, again));
    lemma_second_run(left, again, n);
    let after = run(left, plan, again)->Ok_0;
    assert forall|p: Seq<char>| (#[trigger] after.contains_key(p)) == left.contains_key(p) && (
    after.contains_key(p) ==> after[p].content == left[p].content) by {
        if after.contains_key(p) && is_marker(p) {
            let name = choose|name: Seq<char>| valid_name(name) && p == #[trigger] marker_path(name);
            if still_to_come(again, name, n) {
                let j = choose|j: int|
                    n <= j < again.manifest.plugins.len() && (
                    #[trigger] again.manifest.plugins[j]).name == name && has_source(again, j);
            }
        }
    }
}

} // verus!
