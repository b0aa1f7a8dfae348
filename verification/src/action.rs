//! What the engine asks its driver to do.
//!
//! The engine never touches the disk. It hands out plans, lists of
//! [`Action`]s, and the driver performs them in order. Every path in an
//! action is relative to the data root, but for the source of a copy and
//! the source directory of a plugin.

use vstd::prelude::*;

verus! {

/// One step of a plan.
#[derive(Clone, Debug, PartialEq, Eq)]
pub enum Action {
    /// Create the directory and its missing parents. Failure is fatal.
    CreateDirAll { path: String },
    /// Create or truncate the file and write `content`. Failure is fatal.
    Write { path: String, content: String },
    /// Rename `from` to `to`, replacing `to` in one step. Failure is fatal.
    Rename { from: String, to: String },
    /// Read the file, a missing one as empty, and append what
    /// `ensure_line_present` gives for `line`. Failure to append is fatal.
    EnsureLine { path: String, line: String },
    /// Read the file and write back what `remove_line` gives for `line`.
    /// A file that cannot be read or written is left alone.
    RemoveLine { path: String, line: String },
    /// Delete the file. Failure is ignored.
    Remove { path: String },
    /// Create the missing parents of `to` and copy the file `from` there.
    /// Failure is fatal.
    Copy { from: String, to: String },
    /// Read the marker, an unreadable one as empty, and perform what
    /// `remove_plugin` plans for it.
    RemovePlugin { name: String, marker: String },
    /// List the plugins directory and perform what `remove_stale_plugins`
    /// plans for its entries. A directory that cannot be listed has
    /// nothing to remove.
    RemoveStale,
    /// Walk the source directory and perform what `install_plugin` plans
    /// for its files.
    Install { name: String, source_dir: String },
    /// Report a marker whose name is not a plugin name; it is left alone.
    WarnInvalidMarker { name: String },
    /// Report a marker line that is not a safe relative path; it is
    /// skipped.
    WarnSuspiciousPath { line: String },
    /// Report a plugin whose source directory is missing; it is skipped.
    WarnSourceMissing { name: String, source_dir: String },
}

/// The model of an [`Action`].
pub enum ActionView {
    CreateDirAll { path: Seq<char> },
    Write { path: Seq<char>, content: Seq<char> },
    Rename { from: Seq<char>, to: Seq<char> },
    EnsureLine { path: Seq<char>, line: Seq<char> },
    RemoveLine { path: Seq<char>, line: Seq<char> },
    Remove { path: Seq<char> },
    Copy { from: Seq<char>, to: Seq<char> },
    RemovePlugin { name: Seq<char>, marker: Seq<char> },
    RemoveStale,
    Install { name: Seq<char>, source_dir: Seq<char> },
    WarnInvalidMarker { name: Seq<char> },
    WarnSuspiciousPath { line: Seq<char> },
    WarnSourceMissing { name: Seq<char>, source_dir: Seq<char> },
}

impl DeepView for Action {
    type V = ActionView;

    open spec fn deep_view(&self) -> ActionView {
        match self {
            Action::CreateDirAll { path } => ActionView::CreateDirAll { path: path@ },
            Action::Write { path, content } => ActionView::Write { path: path@, content: content@ },
            Action::Rename { from, to } => ActionView::Rename { from: from@, to: to@ },
            Action::EnsureLine { path, line } => ActionView::EnsureLine { path: path@, line: line@ },
            Action::RemoveLine { path, line } => ActionView::RemoveLine { path: path@, line: line@ },
            Action::Remove { path } => ActionView::Remove { path: path@ },
            Action::Copy { from, to } => ActionView::Copy { from: from@, to: to@ },
            Action::RemovePlugin { name, marker } => ActionView::RemovePlugin {
                name: name@,
                marker: marker@,
            },
            Action::RemoveStale => ActionView::RemoveStale,
            Action::Install { name, source_dir } => ActionView::Install {
                name: name@,
                source_dir: source_dir@,
            },
            Action::WarnInvalidMarker { name } => ActionView::WarnInvalidMarker { name: name@ },
            Action::WarnSuspiciousPath { line } => ActionView::WarnSuspiciousPath { line: line@ },
            Action::WarnSourceMissing { name, source_dir } => ActionView::WarnSourceMissing {
                name: name@,
                source_dir: source_dir@,
            },
        }
    }
}

/// Whether the action writes, creates or deletes the path `p` under the
/// data root.
pub open spec fn touches(a: ActionView, p: Seq<char>) -> bool {
    match a {
        ActionView::CreateDirAll { path } => p == path,
        ActionView::Write { path, content } => p == path,
        ActionView::Rename { from, to } => p == from || p == to,
        ActionView::EnsureLine { path, line } => p == path,
        ActionView::RemoveLine { path, line } => p == path,
        ActionView::Remove { path } => p == path,
        ActionView::Copy { from, to } => p == to,
        ActionView::RemovePlugin { name, marker } => p == marker,
        _ => false,
    }
}

/// Whether a failure to perform the action ends the run. It does for
/// the making of a directory, for every write (a file written, renamed,
/// copied, or given a line) and for an installation, whose source
/// directory cannot be read or whose planning fails. A failure to delete
/// a file, to take a line out, to read a marker or to list the plugins
/// directory is passed over, and a report cannot fail.
pub open spec fn fatal_spec(a: ActionView) -> bool {
    a is CreateDirAll || a is Write || a is Rename || a is EnsureLine || a is Copy || a is Install
}

/// Whether a failure to perform the action ends the run.
pub fn failure_is_fatal(action: &Action) -> (fatal: bool)
    ensures
        fatal == fatal_spec(action.deep_view()),
{
    match action {
        Action::CreateDirAll { .. } => true,
        Action::Write { .. } => true,
        Action::Rename { .. } => true,
        Action::EnsureLine { .. } => true,
        Action::Copy { .. } => true,
        Action::Install { .. } => true,
        _ => false,
    }
}

/// The models of a plan.
pub open spec fn plan_view(plan: Seq<Action>) -> Seq<ActionView> {
    Seq::new(plan.len(), |i: int| plan[i].deep_view())
}

} // verus!
