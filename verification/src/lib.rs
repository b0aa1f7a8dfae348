//! Reconciliation engine for a mod host's data directory.
//!
//! One run brings the data directory in line with a manifest: the
//! primary configuration file gets the manifest's content, plugins that
//! are installed and no longer desired are removed, and each desired
//! plugin has its source directory mirrored in.
//!
//! The engine never touches the disk. It hands out plans, lists of
//! [`action::Action`]s, which a driver performs in order; where an action
//! needs what is on the disk, the driver reads it and asks the engine for
//! the plan that follows.
//!
//! - [`text`] holds the text primitives: splitting, lines, trimming.
//! - [`path_safety`] validates relative paths, resolves paths that do not
//!   exist yet and checks containment under the data root.
//! - [`line_config`] edits line-oriented configuration files.
//! - [`manifest`] is the desired state.
//! - [`action`] is the vocabulary of plans.
//! - [`plugins`] plans the removal and the installation of plugins, and
//!   [`config`] the update of the configuration file.
//! - [`model`] says what performing a plan does to a data directory.
//! - [`safety`], [`convergence`], [`removal`], [`installation`] and
//!   [`idempotence`] prove what the plans guarantee: no plan leaves the
//!   data root, a run installs exactly the desired plugins, the removal
//!   spares the desired ones, an installation mirrors the source
//!   directory, and a second run changes nothing.

pub mod action;
pub mod config;
pub mod convergence;
pub mod idempotence;
pub mod installation;
pub mod line_config;
pub mod manifest;
pub mod model;
pub mod path_safety;
pub mod plugins;
pub mod removal;
pub mod safety;
pub mod text;
