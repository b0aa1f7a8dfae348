use bakkes_sync::action::{failure_is_fatal, Action};
use bakkes_sync::manifest::{Manifest, Plugin};
use bakkes_sync::path_safety::{PathEscape, Probe};
use bakkes_sync::plugins::{
    install_plugin, is_valid_name, module_stem_chars, register_dll, remove_plugin,
    remove_stale_plugins, should_copy, sync, unregister_dll, walk_dir, InstallError, SourceFile,
};
use bakkes_sync::text::{from_chars, to_chars};

fn manifest(names: &[&str]) -> Manifest {
    Manifest {
        config_content: String::new(),
        plugins: names
            .iter()
            .map(|n| Plugin { name: n.to_string(), source_dir: format!("/src/{n}") })
            .collect(),
    }
}

fn remove(path: &str) -> Action {
    Action::Remove { path: path.to_string() }
}

fn remove_load_line(stem: &str) -> Action {
    Action::RemoveLine { path: "cfg/plugins.cfg".to_string(), line: format!("plugin load {stem}") }
}

fn copy(from: &str, to: &str) -> Action {
    Action::Copy { from: from.to_string(), to: to.to_string() }
}

fn base() -> Probe {
    Probe::Canonical("/data".to_string())
}

/// A file that does not exist yet under a data root without links.
fn new_file(rel: &str) -> SourceFile {
    SourceFile {
        rel: rel.to_string(),
        probes: vec![Probe::Canonical(format!("/data/{rel}"))],
        src_mtime: Some(10),
        dest_mtime: None,
    }
}

fn stem_of(rel: &str) -> Option<String> {
    module_stem_chars(&to_chars(rel)).map(|s| from_chars(&s))
}

#[test]
fn names_are_letters_digits_dash_and_underscore() {
    for ok in ["foo", "Foo-Bar_09", "a", "", "Z9_-"] {
        assert!(is_valid_name(&to_chars(ok)));
    }
    for bad in ["foo bar", "foo/bar", "..", "foo.dll", "é", "a\n", "plugin!"] {
        assert!(!is_valid_name(&to_chars(bad)));
    }
}

#[test]
fn a_module_is_a_file_with_the_module_extension() {
    assert_eq!(stem_of("plugins/foo.dll"), Some("foo".to_string()));
    assert_eq!(stem_of("foo.dll"), Some("foo".to_string()));
    assert_eq!(stem_of("plugins/foo.txt"), None);
    assert_eq!(stem_of("plugins/foo"), None);
    assert_eq!(stem_of("plugins/dll"), None);
}

#[test]
fn the_extension_matches_in_any_case_and_the_stem_is_lowered() {
    assert_eq!(stem_of("plugins/MyPlugin.DLL"), Some("myplugin".to_string()));
    assert_eq!(stem_of("plugins/X.Dll"), Some("x".to_string()));
}

#[test]
fn the_extension_starts_at_the_last_dot() {
    assert_eq!(stem_of("plugins/a.b.dll"), Some("a.b".to_string()));
    assert_eq!(stem_of("plugins/a.dll.bak"), None);
    assert_eq!(stem_of("plugins/a."), None);
}

#[test]
fn a_name_that_starts_with_its_only_dot_has_no_extension() {
    assert_eq!(stem_of("plugins/.dll"), None);
    assert_eq!(stem_of(".dll"), None);
}

#[test]
fn only_the_last_component_counts() {
    assert_eq!(stem_of("x.dll/readme"), None);
    assert_eq!(stem_of("plugins/foo.dll/"), Some("foo".to_string()));
    assert_eq!(stem_of(""), None);
    assert_eq!(stem_of("plugins/.."), None);
}

#[test]
fn registering_makes_sure_of_the_load_line() {
    assert_eq!(
        register_dll("foo"),
        vec![
            Action::CreateDirAll { path: "cfg".to_string() },
            Action::EnsureLine {
                path: "cfg/plugins.cfg".to_string(),
                line: "plugin load foo".to_string()
            },
        ]
    );
}

#[test]
fn a_stem_with_any_characters_inside_is_registered() {
    for stem in ["my.plugin", "my plugin", "a.b", "plugin!", "é"] {
        assert_eq!(
            register_dll(stem),
            vec![
                Action::CreateDirAll { path: "cfg".to_string() },
                Action::EnsureLine {
                    path: "cfg/plugins.cfg".to_string(),
                    line: format!("plugin load {stem}")
                },
            ]
        );
    }
}

#[test]
fn a_stem_whose_load_line_would_not_be_found_again_is_not_registered() {
    for stem in ["", "foo ", "foo\t", "foo\r", "fo\no", "foo\u{3000}"] {
        assert_eq!(register_dll(stem), vec![]);
    }
}

#[test]
fn unregistering_removes_the_load_line_in_lower_case() {
    assert_eq!(unregister_dll("foo"), vec![remove_load_line("foo")]);
    assert_eq!(unregister_dll("FooBar"), vec![remove_load_line("foobar")]);
    assert_eq!(unregister_dll("my plugin"), vec![remove_load_line("my plugin")]);
}

#[test]
fn a_plugin_is_removed_file_by_file_and_its_marker_last() {
    let content = "plugins/foo.dll\nplugins/settings/foo.set\ndata/foo/readme.txt\n";
    assert_eq!(
        remove_plugin("plugins/foo.nix-managed", content),
        vec![
            remove_load_line("foo"),
            remove("plugins/foo.dll"),
            remove("plugins/settings/foo.set"),
            remove("data/foo/readme.txt"),
            remove("plugins/foo.nix-managed"),
        ]
    );
}

#[test]
fn an_empty_marker_leaves_only_the_marker_to_remove() {
    assert_eq!(remove_plugin("plugins/foo.nix-managed", ""), vec![remove("plugins/foo.nix-managed")]);
    assert_eq!(
        remove_plugin("plugins/foo.nix-managed", "\n\n"),
        vec![remove("plugins/foo.nix-managed")]
    );
}

#[test]
fn unsafe_marker_lines_are_reported_and_skipped() {
    let content = "../x\n/etc/passwd\na/../../b\nplugins/ok.txt\n";
    assert_eq!(
        remove_plugin("plugins/foo.nix-managed", content),
        vec![
            Action::WarnSuspiciousPath { line: "../x".to_string() },
            Action::WarnSuspiciousPath { line: "/etc/passwd".to_string() },
            Action::WarnSuspiciousPath { line: "a/../../b".to_string() },
            remove("plugins/ok.txt"),
            remove("plugins/foo.nix-managed"),
        ]
    );
}

#[test]
fn a_module_outside_the_plugins_directory_is_not_unregistered() {
    assert_eq!(
        remove_plugin("plugins/foo.nix-managed", "data/foo.dll\nbin/plugins/foo.dll"),
        vec![remove("data/foo.dll"), remove("bin/plugins/foo.dll"), remove("plugins/foo.nix-managed")]
    );
}

#[test]
fn a_module_of_any_case_is_unregistered_in_lower_case() {
    assert_eq!(
        remove_plugin("plugins/foo.nix-managed", "plugins/Foo.DLL\n"),
        vec![remove_load_line("foo"), remove("plugins/Foo.DLL"), remove("plugins/foo.nix-managed")]
    );
}

#[test]
fn a_backslash_after_plugins_counts_as_the_plugins_directory() {
    assert_eq!(
        remove_plugin("plugins/foo.nix-managed", "plugins\\foo.dll"),
        vec![
            remove_load_line("plugins\\foo"),
            remove("plugins\\foo.dll"),
            remove("plugins/foo.nix-managed"),
        ]
    );
}

#[test]
fn marker_lines_may_end_with_carriage_return_and_line_feed() {
    assert_eq!(
        remove_plugin("plugins/foo.nix-managed", "plugins/foo.dll\r\nplugins/a.txt\r\n"),
        vec![
            remove_load_line("foo"),
            remove("plugins/foo.dll"),
            remove("plugins/a.txt"),
            remove("plugins/foo.nix-managed"),
        ]
    );
}

#[test]
fn stale_markers_are_removed_and_desired_ones_kept() {
    let entries = vec![
        "foo.nix-managed".to_string(),
        "foo.dll".to_string(),
        "bar.nix-managed".to_string(),
        "settings".to_string(),
    ];
    assert_eq!(
        remove_stale_plugins(&entries, &manifest(&["bar"])),
        vec![Action::RemovePlugin {
            name: "foo".to_string(),
            marker: "plugins/foo.nix-managed".to_string()
        }]
    );
}

#[test]
fn nothing_is_stale_when_every_marker_is_desired() {
    let entries = vec!["foo.nix-managed".to_string(), "bar.nix-managed".to_string()];
    assert_eq!(remove_stale_plugins(&entries, &manifest(&["bar", "foo"])), vec![]);
    assert_eq!(remove_stale_plugins(&vec![], &manifest(&["bar", "foo"])), vec![]);
}

#[test]
fn a_marker_with_an_invalid_name_is_reported_and_left_alone() {
    let entries = vec!["my plugin.nix-managed".to_string(), "a.b.nix-managed".to_string()];
    assert_eq!(
        remove_stale_plugins(&entries, &manifest(&[])),
        vec![
            Action::WarnInvalidMarker { name: "my plugin".to_string() },
            Action::WarnInvalidMarker { name: "a.b".to_string() },
        ]
    );
}

#[test]
fn stale_plugins_are_removed_in_listing_order() {
    let entries = vec!["b.nix-managed".to_string(), "a.nix-managed".to_string()];
    assert_eq!(
        remove_stale_plugins(&entries, &manifest(&[])),
        vec![
            Action::RemovePlugin { name: "b".to_string(), marker: "plugins/b.nix-managed".to_string() },
            Action::RemovePlugin { name: "a".to_string(), marker: "plugins/a.nix-managed".to_string() },
        ]
    );
}

#[test]
fn the_marker_suffix_alone_is_the_marker_of_the_empty_name() {
    assert_eq!(
        remove_stale_plugins(&vec![".nix-managed".to_string()], &manifest(&["foo"])),
        vec![Action::RemovePlugin { name: "".to_string(), marker: "plugins/.nix-managed".to_string() }]
    );
}

#[test]
fn a_file_is_copied_when_the_destination_is_missing_or_older() {
    assert!(should_copy(Some(10), None));
    assert!(should_copy(Some(11), Some(10)));
    assert!(should_copy(Some(-5), Some(-6)));
}

#[test]
fn a_file_is_copied_when_a_time_cannot_be_read() {
    assert!(should_copy(None, Some(10)));
    assert!(should_copy(None, None));
}

#[test]
fn a_file_is_skipped_when_the_source_is_not_newer() {
    assert!(!should_copy(Some(10), Some(10)));
    assert!(!should_copy(Some(9), Some(10)));
    assert!(!should_copy(Some(i128::MIN), Some(i128::MAX)));
}

#[test]
fn a_walk_lists_every_file_and_counts_copies_and_skips() {
    let mut second = new_file("plugins/settings/foo.set");
    second.dest_mtime = Some(10);
    let files = vec![new_file("plugins/foo.dll"), second, new_file("data/readme.txt")];
    let st = walk_dir("/data", &base(), "/src/foo", &files).unwrap();
    assert_eq!(
        st.marker_lines,
        vec!["plugins/foo.dll", "plugins/settings/foo.set", "data/readme.txt"]
    );
    assert_eq!(
        st.copies,
        vec![
            copy("/src/foo/plugins/foo.dll", "plugins/foo.dll"),
            copy("/src/foo/data/readme.txt", "data/readme.txt"),
        ]
    );
    assert_eq!(st.copied, 2);
    assert_eq!(st.skipped, 1);
    assert_eq!(st.dll_stem, Some("foo".to_string()));
}

#[test]
fn the_primary_module_is_the_first_module_of_the_walk() {
    let files = vec![new_file("readme.txt"), new_file("plugins/Second.DLL"), new_file("plugins/first.dll")];
    let st = walk_dir("/data", &base(), "/src/foo", &files).unwrap();
    assert_eq!(st.dll_stem, Some("second".to_string()));
}

#[test]
fn a_walk_without_files_gathers_nothing() {
    let st = walk_dir("/data", &base(), "/src/foo", &vec![]).unwrap();
    assert_eq!(st.marker_lines, Vec::<String>::new());
    assert_eq!(st.copies, vec![]);
    assert_eq!((st.copied, st.skipped), (0, 0));
    assert_eq!(st.dll_stem, None);
}

#[test]
fn a_walk_stops_at_the_first_unsafe_file() {
    let files = vec![new_file("a.txt"), new_file("../escape.txt"), new_file("/abs.txt")];
    assert_eq!(
        walk_dir("/data", &base(), "/src/foo", &files),
        Err(InstallError::UnsafeFile { index: 1, reason: PathEscape::ParentDir })
    );
}

#[test]
fn a_destination_that_resolves_outside_the_root_fails_the_walk() {
    let mut linked = new_file("plugins/link/x.dll");
    linked.probes = vec![Probe::Missing, Probe::Canonical("/elsewhere".to_string())];
    assert_eq!(
        walk_dir("/data", &base(), "/src/foo", &vec![new_file("a.txt"), linked]),
        Err(InstallError::UnsafeFile { index: 1, reason: PathEscape::Outside })
    );
}

#[test]
fn a_destination_without_enough_probes_fails_the_walk() {
    let mut unprobed = new_file("a.txt");
    unprobed.probes = vec![];
    assert_eq!(
        walk_dir("/data", &base(), "/src/foo", &vec![unprobed]),
        Err(InstallError::UnsafeFile { index: 0, reason: PathEscape::Unresolved })
    );
}

#[test]
fn a_root_without_canonical_form_fails_the_walk() {
    assert_eq!(
        walk_dir("/data", &Probe::Missing, "/src/foo", &vec![new_file("a.txt")]),
        Err(InstallError::UnsafeFile { index: 0, reason: PathEscape::BaseMissing })
    );
}

#[test]
fn an_installation_copies_writes_the_marker_and_registers() {
    let files = Some(vec![new_file("plugins/foo.dll"), new_file("data/foo.txt")]);
    let done = install_plugin("/data", &base(), "foo", "/src/foo", &files).unwrap();
    assert_eq!(
        done.actions,
        vec![
            copy("/src/foo/plugins/foo.dll", "plugins/foo.dll"),
            copy("/src/foo/data/foo.txt", "data/foo.txt"),
            Action::Write {
                path: "plugins/foo.nix-managed".to_string(),
                content: "plugins/foo.dll\ndata/foo.txt\n".to_string()
            },
            Action::CreateDirAll { path: "cfg".to_string() },
            Action::EnsureLine {
                path: "cfg/plugins.cfg".to_string(),
                line: "plugin load foo".to_string()
            },
        ]
    );
    assert_eq!((done.copied, done.skipped), (2, 0));
}

#[test]
fn a_plugin_without_module_is_not_registered() {
    let files = Some(vec![new_file("data/foo.txt")]);
    let done = install_plugin("/data", &base(), "foo", "/src/foo", &files).unwrap();
    assert_eq!(
        done.actions,
        vec![
            copy("/src/foo/data/foo.txt", "data/foo.txt"),
            Action::Write {
                path: "plugins/foo.nix-managed".to_string(),
                content: "data/foo.txt\n".to_string()
            },
        ]
    );
}

#[test]
fn an_empty_source_directory_gives_an_empty_marker() {
    let done = install_plugin("/data", &base(), "foo", "/src/foo", &Some(vec![])).unwrap();
    assert_eq!(
        done.actions,
        vec![Action::Write { path: "plugins/foo.nix-managed".to_string(), content: String::new() }]
    );
    assert_eq!((done.copied, done.skipped), (0, 0));
}

#[test]
fn a_skipped_file_is_listed_in_the_marker_all_the_same() {
    let mut old = new_file("plugins/foo.dll");
    old.dest_mtime = Some(10);
    let done = install_plugin("/data", &base(), "foo", "/src/foo", &Some(vec![old])).unwrap();
    assert_eq!(
        done.actions[0],
        Action::Write {
            path: "plugins/foo.nix-managed".to_string(),
            content: "plugins/foo.dll\n".to_string()
        }
    );
    assert_eq!((done.copied, done.skipped), (0, 1));
}

#[test]
fn a_missing_source_directory_is_reported_and_not_fatal() {
    let done = install_plugin("/data", &base(), "foo", "/src/foo", &None).unwrap();
    assert_eq!(
        done.actions,
        vec![Action::WarnSourceMissing {
            name: "foo".to_string(),
            source_dir: "/src/foo".to_string()
        }]
    );
    assert_eq!((done.copied, done.skipped), (0, 0));
}

#[test]
fn a_name_that_cannot_name_a_marker_is_refused() {
    for name in ["", "../../x", "foo bar", "a/b", "foo.dll"] {
        assert_eq!(
            install_plugin("/data", &base(), name, "/src/x", &Some(vec![new_file("a.txt")])),
            Err(InstallError::InvalidName)
        );
    }
}

#[test]
fn an_unsafe_file_fails_the_installation() {
    let files = Some(vec![new_file("ok.txt"), new_file("a/../../b")]);
    assert_eq!(
        install_plugin("/data", &base(), "foo", "/src/foo", &files),
        Err(InstallError::UnsafeFile { index: 1, reason: PathEscape::ParentDir })
    );
}

#[test]
fn a_source_directory_that_ends_with_a_separator_takes_no_second_one() {
    let done = install_plugin("/data/", &base(), "foo", "/src/foo/", &Some(vec![new_file("a.txt")]))
        .unwrap();
    assert_eq!(done.actions[0], copy("/src/foo/a.txt", "a.txt"));
}

#[test]
fn a_run_makes_the_directories_removes_and_then_installs_in_order() {
    assert_eq!(
        sync(&manifest(&["foo", "bar"])),
        vec![
            Action::CreateDirAll { path: "plugins".to_string() },
            Action::CreateDirAll { path: "plugins/settings".to_string() },
            Action::CreateDirAll { path: "data".to_string() },
            Action::RemoveStale,
            Action::Install { name: "foo".to_string(), source_dir: "/src/foo".to_string() },
            Action::Install { name: "bar".to_string(), source_dir: "/src/bar".to_string() },
        ]
    );
}

#[test]
fn a_run_without_plugins_still_removes_stale_ones() {
    assert_eq!(
        sync(&manifest(&[])),
        vec![
            Action::CreateDirAll { path: "plugins".to_string() },
            Action::CreateDirAll { path: "plugins/settings".to_string() },
            Action::CreateDirAll { path: "data".to_string() },
            Action::RemoveStale,
        ]
    );
}

#[test]
fn the_manifest_knows_its_plugins_by_name() {
    let m = manifest(&["foo", "bar"]);
    assert!(m.wants("foo"));
    assert!(m.wants("bar"));
    assert!(!m.wants("Foo"));
    assert!(!m.wants(""));
    assert!(!manifest(&[]).wants("foo"));
}

#[test]
fn a_failed_write_ends_the_run_and_a_failed_removal_does_not() {
    let s = |t: &str| t.to_string();
    for fatal in [
        Action::CreateDirAll { path: s("cfg") },
        Action::Write { path: s("a"), content: s("b") },
        Action::Rename { from: s("a"), to: s("b") },
        Action::EnsureLine { path: s("a"), line: s("b") },
        Action::Copy { from: s("/src/a"), to: s("a") },
        Action::Install { name: s("foo"), source_dir: s("/src/foo") },
    ] {
        assert!(failure_is_fatal(&fatal));
    }
    for passed_over in [
        Action::RemoveLine { path: s("a"), line: s("b") },
        Action::Remove { path: s("a") },
        Action::RemovePlugin { name: s("foo"), marker: s("plugins/foo.nix-managed") },
        Action::RemoveStale,
        Action::WarnInvalidMarker { name: s("a b") },
        Action::WarnSuspiciousPath { line: s("../x") },
        Action::WarnSourceMissing { name: s("foo"), source_dir: s("/src/foo") },
    ] {
        assert!(!failure_is_fatal(&passed_over));
    }
}
