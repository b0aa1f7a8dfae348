//! The primary configuration file: its whole content is replaced in one
//! step, and the host's start-up script is made to run it.

use crate::action::{plan_view, Action, ActionView};
use crate::idempotence::same_contents;
use crate::line_config::{ensure_line_spec, lemma_ensure_line_idempotent, with_line};
use crate::manifest::{Manifest, ManifestView};
use crate::model::{content_of, lemma_run_push, run, written, Env, FileModel, Tree};
use crate::plugins::{cfg_dir, InstallError};
use crate::safety::untouched;
use crate::text::{findable, lemma_index_of_is, lemma_trim_end_is, lemma_trim_start_is};
use vstd::prelude::*;

verus! {

/// The primary configuration file.
pub open spec fn config_path() -> Seq<char> {
    "cfg/nix-config.cfg"@
}

/// The temporary file that the new content is written to first. It lies
/// in the directory of the configuration file.
pub open spec fn temp_path() -> Seq<char> {
    "cfg/.nix-config.cfg.tmp"@
}

/// The host's start-up script.
pub open spec fn autoexec_path() -> Seq<char> {
    "cfg/autoexec.cfg"@
}

/// The line of the start-up script that runs the configuration file.
pub open spec fn exec_line() -> Seq<char> {
    "exec nix-config.cfg"@
}

/// The plan that brings the configuration up to date: the new content
/// goes to the temporary file, which is then renamed over the
/// configuration file, and the start-up script is made to hold the line
/// that runs it.
pub open spec fn sync_spec(m: ManifestView) -> Seq<ActionView> {
    seq![
        (ActionView::CreateDirAll { path: cfg_dir() }),
        (ActionView::Write { path: temp_path(), content: m.config_content }),
        (ActionView::Rename { from: temp_path(), to: config_path() }),
        (ActionView::EnsureLine { path: autoexec_path(), line: exec_line() }),
    ]
}

/// Plans the update of the configuration: the configuration file gets the
/// manifest's content in one step, and the start-up script runs it.
pub fn sync(manifest: &Manifest) -> (plan: Vec<Action>)
    ensures
        plan_view(plan@) == sync_spec(manifest.deep_view()),
{
    let mut plan: Vec<Action> = Vec::new();
    plan.push(Action::CreateDirAll { path: "cfg".to_owned() });
    plan.push(
        Action::Write {
            path: "cfg/.nix-config.cfg.tmp".to_owned(),
            content: manifest.config_content.clone(),
        },
    );
    plan.push(
        Action::Rename {
            from: "cfg/.nix-config.cfg.tmp".to_owned(),
            to: "cfg/nix-config.cfg".to_owned(),
        },
    );
    plan.push(
        Action::EnsureLine {
            path: "cfg/autoexec.cfg".to_owned(),
            line: "exec nix-config.cfg".to_owned(),
        },
    );
    assert(plan_view(plan@) =~= sync_spec(manifest.deep_view()));
    plan
}

/// Whether the configuration file holds exactly `content`.
pub open spec fn config_holds(t: Tree, content: Seq<char>) -> bool {
    t.contains_key(config_path()) && t[config_path()].content == content
}

/// The configuration file is replaced in one step. However many steps of
/// the plan have been performed, the file is either what it was before
/// the run or holds the whole new content: it is what it was until the
/// temporary file has been renamed, and holds the new content from then
/// on.
pub proof fn lemma_config_replaced_in_one_step(t: Tree, env: Env, k: int)
    requires
        0 <= k <= sync_spec(env.manifest).len(),
    ensures
        run(t, sync_spec(env.manifest).take(k), env) is Ok,
        k <= 2 ==> untouched(
            t,
            run(t, sync_spec(env.manifest).take(k), env)->Ok_0,
            config_path(),
        ),
        k >= 3 ==> config_holds(
            run(t, sync_spec(env.manifest).take(k), env)->Ok_0,
            env.manifest.config_content,
        ),
{
    reveal_strlit("cfg/nix-config.cfg");
    reveal_strlit("cfg/.nix-config.cfg.tmp");
    reveal_strlit("cfg/autoexec.cfg");
    let plan = sync_spec(env.manifest);
    let p0 = plan.take(0);
    let p1 = plan.take(1);
    let p2 = plan.take(2);
    let p3 = plan.take(3);
    let p4 = plan.take(4);
    assert(p1 =~= p0.push(plan[0]));
    assert(p2 =~= p1.push(plan[1]));
    assert(p3 =~= p2.push(plan[2]));
    assert(p4 =~= p3.push(plan[3]));
    lemma_run_push(t, p0, plan[0], env);
    lemma_run_push(t, p1, plan[1], env);
    lemma_run_push(t, p2, plan[2], env);
    lemma_run_push(t, p3, plan[3], env);
    assert(run(t, p0, env) == Ok::<Tree, InstallError>(t));
    let t1 = run(t, p1, env)->Ok_0;
    assert(t1 == t);
    let t2 = run(t, p2, env)->Ok_0;
    assert(t2 == t.insert(
        temp_path(),
        FileModel { content: env.manifest.config_content, mtime: env.now },
    ));
    assert(temp_path().len() != config_path().len());
    assert(autoexec_path().len() != config_path().len());
    let t3 = run(t, p3, env)->Ok_0;
    assert(t3.contains_key(config_path()));
    assert(t3[config_path()].content == env.manifest.config_content);
    let t4 = run(t, p4, env)->Ok_0;
    assert(t4.contains_key(config_path()));
    assert(t4[config_path()] == t3[config_path()]);
}

/// The line of the start-up script is found again once it stands there.
pub proof fn lemma_exec_line_is_findable()
    ensures
        findable(exec_line()),
{
    reveal_strlit("exec nix-config.cfg");
    let l = exec_line();
    lemma_trim_start_is(l, 0);
    assert(l.skip(0) =~= l);
    lemma_trim_end_is(l, l.len() as int);
    assert(l.take(l.len() as int) =~= l);
    assert(forall|j: int| 0 <= j < l.len() ==> #[trigger] l[j] != '\n');
    lemma_index_of_is(l, '\n', l.len() as int);
}

/// What the whole plan makes of a tree: the temporary file is gone, the
/// configuration file holds the new content, and the start-up script
/// holds its line.
pub proof fn lemma_config_sync_effect(t: Tree, env: Env)
    ensures
        run(t, sync_spec(env.manifest), env) is Ok,
        run(t, sync_spec(env.manifest), env)->Ok_0 == match ensure_line_spec(
            content_of(t, autoexec_path()),
            exec_line(),
        ) {
            None => written(
                t.remove(temp_path()),
                config_path(),
                env.manifest.config_content,
                env,
            ),
            Some(text) => written(
                written(t.remove(temp_path()), config_path(), env.manifest.config_content, env),
                autoexec_path(),
                content_of(t, autoexec_path()) + text,
                env,
            ),
        },
{
    reveal_strlit("cfg/nix-config.cfg");
    reveal_strlit("cfg/.nix-config.cfg.tmp");
    reveal_strlit("cfg/autoexec.cfg");
    let plan = sync_spec(env.manifest);
    let p0 = plan.take(0);
    let p1 = plan.take(1);
    let p2 = plan.take(2);
    let p3 = plan.take(3);
    assert(p1 =~= p0.push(plan[0]));
    assert(p2 =~= p1.push(plan[1]));
    assert(p3 =~= p2.push(plan[2]));
    assert(plan =~= p3.push(plan[3]));
    lemma_run_push(t, p0, plan[0], env);
    lemma_run_push(t, p1, plan[1], env);
    lemma_run_push(t, p2, plan[2], env);
    lemma_run_push(t, p3, plan[3], env);
    assert(run(t, p0, env) == Ok::<Tree, InstallError>(t));
    assert(temp_path().len() != config_path().len());
    assert(autoexec_path().len() != config_path().len());
    assert(autoexec_path().len() != temp_path().len());
    let t2 = run(t, p2, env)->Ok_0;
    assert(t2 == written(t, temp_path(), env.manifest.config_content, env));
    let t3 = run(t, p3, env)->Ok_0;
    assert(t3 =~= written(t.remove(temp_path()), config_path(), env.manifest.config_content, env));
    assert(content_of(t3, autoexec_path()) == content_of(t, autoexec_path()));
}

/// A second update of the configuration with the same manifest changes
/// the content of no file: the configuration file is replaced by what it
/// holds, and the start-up script has its line.
pub proof fn lemma_config_sync_idempotent(t: Tree, env: Env, again: Env)
    requires
        again.manifest == env.manifest,
    ensures
        run(t, sync_spec(env.manifest), env) is Ok,
        run(run(t, sync_spec(env.manifest), env)->Ok_0, sync_spec(env.manifest), again) is Ok,
        same_contents(
            run(
                run(t, sync_spec(env.manifest), env)->Ok_0,
                sync_spec(env.manifest),
                again,
            )->Ok_0,
            run(t, sync_spec(env.manifest), env)->Ok_0,
        ),
{
    reveal_strlit("cfg/nix-config.cfg");
    reveal_strlit("cfg/.nix-config.cfg.tmp");
    reveal_strlit("cfg/autoexec.cfg");
    assert(temp_path().len() != config_path().len());
    assert(autoexec_path().len() != config_path().len());
    assert(autoexec_path().len() != temp_path().len());
    let first = run(t, sync_spec(env.manifest), env)->Ok_0;
    lemma_config_sync_effect(t, env);
    lemma_config_sync_effect(first, again);
    lemma_exec_line_is_findable();
    lemma_ensure_line_idempotent(content_of(t, autoexec_path()), exec_line());
    assert(content_of(first, autoexec_path()) == with_line(
        content_of(t, autoexec_path()),
        exec_line(),
    ));
    let second = run(first, sync_spec(env.manifest), again)->Ok_0;
    assert(second == written(
        first.remove(temp_path()),
        config_path(),
        env.manifest.config_content,
        again,
    ));
    assert(!first.contains_key(temp_path()));
    assert(first.remove(temp_path()) =~= first);
    assert forall|p: Seq<char>| (#[trigger] second.contains_key(p)) == first.contains_key(p) && (
    second.contains_key(p) ==> second[p].content == first[p].content) by {}
}

} // verus!
