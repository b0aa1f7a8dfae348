//! What one installation leaves behind: every file that is copied holds
//! the content of its source, and the registry holds the load line of the
//! primary module, once, after what it held before.

use crate::action::{touches, ActionView};
use crate::convergence::lemma_registry_is_no_marker;
use crate::idempotence::{
    after_copies, after_marker, copies_file, copies_of, first_stem, lemma_install_unfolds,
    lemma_registration_effect, lemma_walk_copies_each, marker_write, rels,
};
use crate::line_config::{lemma_ensure_line_idempotent, lemma_ensure_line_once, with_line};
use crate::model::{
    content_of, lemma_frame_simple, lemma_frame_steps, observe, perform, perform_simple, run_steps,
    Env, FileModel, Tree,
};
use crate::path_safety::push_name;
use crate::plugins::{load_line, marker_path, registry_path};
use crate::safety::lemma_walk_copies;
use crate::text::{findable, has_line, lines, trim};
use vstd::prelude::*;

verus! {

/// After a plan of copies, a destination that every copy to it takes
/// from one source holds the content of that source, stamped with the
/// time of the run.
pub proof fn lemma_copies_content(
    t: Tree,
    copies: Seq<ActionView>,
    env: Env,
    p: Seq<char>,
    src: Seq<char>,
)
    requires
        forall|c: int|
            0 <= c < copies.len() ==> (#[trigger] copies[c]) is Copy && (touches(copies[c], p)
                ==> copies[c] == (ActionView::Copy { from: src, to: p })),
        exists|c: int| 0 <= c < copies.len() && touches(#[trigger] copies[c], p),
    ensures
        run_steps(t, copies, env).contains_key(p),
        run_steps(t, copies, env)[p] == (FileModel { content: env.sources[src], mtime: env.now }),
    decreases copies.len(),
{
    let init = copies.drop_last();
    let last = copies.last();
    let mid = run_steps(t, init, env);
    assert(copies[copies.len() - 1] is Copy);
    assert(run_steps(t, copies, env) == perform_simple(mid, last, env));
    if touches(last, p) {
        assert(last == (ActionView::Copy { from: src, to: p }));
    } else {
        let c = choose|c: int| 0 <= c < copies.len() && touches(#[trigger] copies[c], p);
        assert(init[c] == copies[c]);
        assert forall|c: int| 0 <= c < init.len() implies (#[trigger] init[c]) is Copy && (touches(
            init[c],
            p,
        ) ==> init[c] == (ActionView::Copy { from: src, to: p })) by {
            assert(init[c] == copies[c]);
        }
        lemma_copies_content(t, init, env, p, src);
        lemma_frame_simple(mid, last, env, p);
    }
}

/// After an installation, every file of the source directory that was
/// missing in the data root, or older than its source, holds the content
/// of its source. This is stated of a file that goes neither to the
/// plugin's marker nor to the registry, which the installation writes
/// afterwards.
pub proof fn lemma_install_copies_content(
    t: Tree,
    name: Seq<char>,
    source_dir: Seq<char>,
    env: Env,
    j: int,
)
    requires
        env.listings.contains_key(source_dir),
        perform(t, (ActionView::Install { name, source_dir }), env) is Ok,
        0 <= j < env.listings[source_dir].len(),
        !t.contains_key(env.listings[source_dir][j].rel) || copies_file(
            observe(t, env.listings[source_dir])[j],
        ),
        env.listings[source_dir][j].rel != marker_path(name),
        env.listings[source_dir][j].rel != registry_path(),
    ensures
        perform(t, (ActionView::Install { name, source_dir }), env)->Ok_0.contains_key(
            env.listings[source_dir][j].rel,
        ),
        perform(t, (ActionView::Install { name, source_dir }), env)->Ok_0[env.listings[source_dir][j].rel].content
            == env.sources[push_name(source_dir, env.listings[source_dir][j].rel)],
{
    let listing = env.listings[source_dir];
    let files = observe(t, listing);
    let rel = listing[j].rel;
    let src = push_name(source_dir, rel);
    let copies = copies_of(t, source_dir, env);
    let t1 = after_copies(t, source_dir, env);
    let t2 = after_marker(t, name, source_dir, env);
    lemma_install_unfolds(t, name, source_dir, env);
    lemma_walk_copies(env.root, env.base, source_dir, files);
    assert(files[j].rel == rel);
    assert(copies_file(files[j]));
    lemma_walk_copies_each(env.root, env.base, source_dir, files, j);
    assert forall|c: int| 0 <= c < copies.len() implies (#[trigger] copies[c]) is Copy && (touches(
        copies[c],
        rel,
    ) ==> copies[c] == (ActionView::Copy { from: src, to: rel })) by {
        let i = choose|i: int|
            0 <= i < files.len() && copies[c] == (ActionView::Copy {
                from: push_name(source_dir, (#[trigger] files[i]).rel),
                to: files[i].rel,
            });
    }
    lemma_copies_content(t, copies, env, rel, src);
    lemma_frame_simple(t1, marker_write(name, listing), env, rel);
    lemma_registration_effect(t2, listing, env);
}

/// After an installation into a data root that holds none of the files
/// of the source directory, every one of them is there with the content
/// of its source.
pub proof fn lemma_first_install_mirrors(
    t: Tree,
    name: Seq<char>,
    source_dir: Seq<char>,
    env: Env,
)
    requires
        env.listings.contains_key(source_dir),
        perform(t, (ActionView::Install { name, source_dir }), env) is Ok,
        forall|j: int|
            0 <= j < env.listings[source_dir].len() ==> !t.contains_key(
                (#[trigger] env.listings[source_dir][j]).rel,
            ) && env.listings[source_dir][j].rel != marker_path(name)
                && env.listings[source_dir][j].rel != registry_path(),
    ensures
        forall|j: int|
            0 <= j < env.listings[source_dir].len() ==> perform(
                t,
                (ActionView::Install { name, source_dir }),
                env,
            )->Ok_0.contains_key((#[trigger] env.listings[source_dir][j]).rel) && perform(
                t,
                (ActionView::Install { name, source_dir }),
                env,
            )->Ok_0[env.listings[source_dir][j].rel].content == env.sources[push_name(
                source_dir,
                env.listings[source_dir][j].rel,
            )],
{
    let done = perform(t, (ActionView::Install { name, source_dir }), env)->Ok_0;
    assert forall|j: int| 0 <= j < env.listings[source_dir].len() implies done.contains_key(
        (#[trigger] env.listings[source_dir][j]).rel,
    ) && done[env.listings[source_dir][j].rel].content == env.sources[push_name(
        source_dir,
        env.listings[source_dir][j].rel,
    )] by {
        lemma_install_copies_content(t, name, source_dir, env, j);
    }
}

/// After an installation, the registry is what it was with the load line
/// of the primary module made sure of: what it held before comes first,
/// and the line is there. Where the registry did not hold the line, it
/// holds it exactly once: the last line is the only one that, trimmed,
/// is the load line. This is stated of a source directory none of whose
/// files goes to the registry.
pub proof fn lemma_install_registers_once(
    t: Tree,
    name: Seq<char>,
    source_dir: Seq<char>,
    env: Env,
    stem: Seq<char>,
)
    requires
        env.listings.contains_key(source_dir),
        perform(t, (ActionView::Install { name, source_dir }), env) is Ok,
        first_stem(rels(env.listings[source_dir])) == Some(stem),
        findable(load_line(stem)),
        forall|j: int|
            0 <= j < env.listings[source_dir].len() ==> (#[trigger] env.listings[source_dir][j]).rel
                != registry_path(),
    ensures
        content_of(
            perform(t, (ActionView::Install { name, source_dir }), env)->Ok_0,
            registry_path(),
        ) == with_line(content_of(t, registry_path()), load_line(stem)),
        content_of(t, registry_path()).is_prefix_of(
            with_line(content_of(t, registry_path()), load_line(stem)),
        ),
        has_line(with_line(content_of(t, registry_path()), load_line(stem)), load_line(stem)),
        !has_line(content_of(t, registry_path()), load_line(stem)) ==> forall|i: int|
            0 <= i < lines(with_line(content_of(t, registry_path()), load_line(stem))).len() ==> (
            trim(#[trigger] lines(with_line(content_of(t, registry_path()), load_line(stem)))[i])
                == load_line(stem) <==> i == lines(
                with_line(content_of(t, registry_path()), load_line(stem)),
            ).len() - 1),
{
    let listing = env.listings[source_dir];
    let registry = registry_path();
    let line = load_line(stem);
    let before = content_of(t, registry);
    let copies = copies_of(t, source_dir, env);
    let t1 = after_copies(t, source_dir, env);
    let t2 = after_marker(t, name, source_dir, env);
    lemma_install_unfolds(t, name, source_dir, env);
    assert forall|c: int| 0 <= c < copies.len() implies !((#[trigger] copies[c]) is RemovePlugin)
        && !touches(copies[c], registry) by {
        assert(copies[c] is Copy);
        if touches(copies[c], registry) {
            let j = choose|j: int| 0 <= j < rels(listing).len() && rels(listing)[j] == registry;
            assert(listing[j].rel == registry);
        }
    }
    lemma_frame_steps(t, copies, env, registry);
    lemma_registry_is_no_marker(name);
    lemma_frame_simple(t1, marker_write(name, listing), env, registry);
    assert(content_of(t2, registry) == before);
    lemma_registration_effect(t2, listing, env);
    lemma_ensure_line_idempotent(before, line);
    if !has_line(before, line) {
        lemma_ensure_line_once(before, line);
    }
    assert(with_line(before, line).subrange(0, before.len() as int) =~= before);
}

} // verus!
