use bakkes_sync::action::Action;
use bakkes_sync::config;
use bakkes_sync::line_config::{ensure_line_present, remove_line};
use bakkes_sync::manifest::{Manifest, Plugin};
use bakkes_sync::path_safety::{destination, resolve_nonexistent, Probe, Resolution};
use bakkes_sync::plugins::{
    install_plugin, remove_plugin, remove_stale_plugins, sync, InstallError, SourceFile,
};
use std::collections::{BTreeMap, BTreeSet};

/// A disk in memory, and a driver that performs plans on it.
struct Disk {
    root: String,
    /// Files under the data root: relative path to content and time.
    files: BTreeMap<String, (String, i128)>,
    /// Directories under the data root that have been made.
    dirs: BTreeSet<String>,
    /// Directories under the data root that are links to elsewhere.
    links: BTreeMap<String, String>,
    /// Source files: absolute path to content and time.
    sources: BTreeMap<String, (String, i128)>,
    reverse_listing: bool,
    now: i128,
    copies: usize,
    warnings: Vec<Action>,
}

impl Disk {
    fn new() -> Disk {
        Disk {
            root: "/data".to_string(),
            files: BTreeMap::new(),
            dirs: BTreeSet::new(),
            links: BTreeMap::new(),
            sources: BTreeMap::new(),
            reverse_listing: false,
            now: 1000,
            copies: 0,
            warnings: Vec::new(),
        }
    }

    fn source(&mut self, path: &str, content: &str, mtime: i128) {
        self.sources.insert(path.to_string(), (content.to_string(), mtime));
    }

    fn file(&mut self, rel: &str, content: &str, mtime: i128) {
        self.files.insert(rel.to_string(), (content.to_string(), mtime));
    }

    fn content(&self, rel: &str) -> Option<&str> {
        self.files.get(rel).map(|f| f.0.as_str())
    }

    fn contents(&self) -> BTreeMap<String, String> {
        self.files.iter().map(|(k, v)| (k.clone(), v.0.clone())).collect()
    }

    fn markers(&self) -> Vec<String> {
        self.files
            .keys()
            .filter_map(|k| k.strip_prefix("plugins/"))
            .filter_map(|k| k.strip_suffix(".nix-managed"))
            .map(|k| k.to_string())
            .collect()
    }

    fn under(&self, rel: &str) -> String {
        format!("{}/{}", self.root, rel)
    }

    fn is_there(&self, abs: &str) -> bool {
        let inside = format!("{abs}/");
        abs == self.root
            || abs == "/"
            || self.files.keys().any(|k| self.under(k) == abs || self.under(k).starts_with(&inside))
            || self.dirs.iter().any(|d| self.under(d) == abs || self.under(d).starts_with(&inside))
            || self.links.keys().any(|d| self.under(d) == abs || self.under(d).starts_with(&inside))
    }

    fn probe(&self, abs: &str) -> Probe {
        if !self.is_there(abs) {
            return Probe::Missing;
        }
        for (dir, target) in &self.links {
            let link = self.under(dir);
            if abs == link {
                return Probe::Canonical(target.clone());
            }
            if let Some(rest) = abs.strip_prefix(&format!("{link}/")) {
                return Probe::Canonical(format!("{target}/{rest}"));
            }
        }
        Probe::Canonical(abs.to_string())
    }

    fn probes(&self, path: &str) -> Vec<Probe> {
        let mut probes = Vec::new();
        loop {
            match resolve_nonexistent(path, &probes) {
                Resolution::Pending(next) => probes.push(self.probe(&next)),
                _ => return probes,
            }
        }
    }

    fn collect(&self, source_dir: &str) -> Option<Vec<SourceFile>> {
        let prefix = format!("{source_dir}/");
        let files: Vec<SourceFile> = self
            .sources
            .iter()
            .filter_map(|(path, (_, mtime))| {
                path.strip_prefix(&prefix).map(|rel| SourceFile {
                    rel: rel.to_string(),
                    probes: self.probes(&destination(&self.root, rel)),
                    src_mtime: Some(*mtime),
                    dest_mtime: self.files.get(rel).map(|f| f.1),
                })
            })
            .collect();
        if files.is_empty() {
            None
        } else {
            Some(files)
        }
    }

    fn run(&mut self, manifest: &Manifest, plan: &[Action]) -> Result<(), InstallError> {
        for action in plan {
            self.perform(manifest, action)?;
        }
        Ok(())
    }

    fn perform(&mut self, manifest: &Manifest, action: &Action) -> Result<(), InstallError> {
        match action {
            Action::CreateDirAll { path } => {
                self.dirs.insert(path.clone());
            }
            Action::Write { path, content } => {
                self.files.insert(path.clone(), (content.clone(), self.now));
            }
            Action::Rename { from, to } => {
                let file = self.files.remove(from).unwrap();
                self.files.insert(to.clone(), file);
            }
            Action::EnsureLine { path, line } => {
                let content = self.content(path).unwrap_or("").to_string();
                if let Some(text) = ensure_line_present(&content, line) {
                    self.files.insert(path.clone(), (format!("{content}{text}"), self.now));
                }
            }
            Action::RemoveLine { path, line } => {
                if let Some(content) = self.content(path) {
                    if let Some(rest) = remove_line(content, line) {
                        self.files.insert(path.clone(), (rest, self.now));
                    }
                }
            }
            Action::Remove { path } => {
                self.files.remove(path);
            }
            Action::Copy { from, to } => {
                let content = self.sources.get(from).unwrap().0.clone();
                self.files.insert(to.clone(), (content, self.now));
                self.copies += 1;
            }
            Action::RemovePlugin { name: _, marker } => {
                let content = self.content(marker).unwrap_or("").to_string();
                let plan = remove_plugin(marker, &content);
                self.run(manifest, &plan)?;
            }
            Action::RemoveStale => {
                let mut entries: Vec<String> = self
                    .files
                    .keys()
                    .filter_map(|k| k.strip_prefix("plugins/"))
                    .filter(|k| !k.contains('/'))
                    .map(|k| k.to_string())
                    .collect();
                if self.reverse_listing {
                    entries.reverse();
                }
                let plan = remove_stale_plugins(&entries, manifest);
                self.run(manifest, &plan)?;
            }
            Action::Install { name, source_dir } => {
                let files = self.collect(source_dir);
                let base = self.probe(&self.root);
                let done = install_plugin(&self.root, &base, name, source_dir, &files)?;
                self.run(manifest, &done.actions)?;
            }
            Action::WarnInvalidMarker { .. }
            | Action::WarnSuspiciousPath { .. }
            | Action::WarnSourceMissing { .. } => {
                self.warnings.push(action.clone());
            }
        }
        Ok(())
    }

    fn sync(&mut self, manifest: &Manifest) -> Result<(), InstallError> {
        let plan = sync(manifest);
        self.run(manifest, &plan)
    }
}

fn manifest(names: &[&str]) -> Manifest {
    Manifest {
        config_content: "bind F2 togglemenu\n".to_string(),
        plugins: names
            .iter()
            .map(|n| Plugin { name: n.to_string(), source_dir: format!("/src/{n}") })
            .collect(),
    }
}

fn with_foo_and_bar() -> Disk {
    let mut disk = Disk::new();
    disk.source("/src/foo/plugins/Foo.dll", "foo module", 10);
    disk.source("/src/foo/plugins/settings/foo.set", "foo settings", 11);
    disk.source("/src/foo/data/foo/readme.txt", "foo readme", 12);
    disk.source("/src/bar/plugins/bar.dll", "bar module", 20);
    disk.source("/src/bar/data/bar.txt", "bar data", 21);
    disk
}

#[test]
fn a_first_installation_into_an_empty_data_root() {
    let mut disk = with_foo_and_bar();
    disk.sync(&manifest(&["foo"])).unwrap();
    assert_eq!(
        disk.content("plugins/foo.nix-managed"),
        Some("data/foo/readme.txt\nplugins/Foo.dll\nplugins/settings/foo.set\n")
    );
    assert_eq!(disk.content("plugins/Foo.dll"), Some("foo module"));
    assert_eq!(disk.content("plugins/settings/foo.set"), Some("foo settings"));
    assert_eq!(disk.content("data/foo/readme.txt"), Some("foo readme"));
    assert_eq!(disk.copies, 3);
    assert_eq!(disk.content("cfg/plugins.cfg"), Some("plugin load foo\n"));
    assert_eq!(disk.markers(), vec!["foo"]);
    assert!(disk.dirs.contains("plugins/settings"));
    assert!(disk.dirs.contains("data"));
    assert_eq!(disk.warnings, vec![]);
}

#[test]
fn an_installation_without_module_leaves_the_registry_alone() {
    let mut disk = Disk::new();
    disk.source("/src/foo/data/foo.txt", "x", 10);
    disk.sync(&manifest(&["foo"])).unwrap();
    assert_eq!(disk.content("plugins/foo.nix-managed"), Some("data/foo.txt\n"));
    assert_eq!(disk.content("cfg/plugins.cfg"), None);
}

#[test]
fn a_plugin_that_is_no_longer_desired_is_removed() {
    let mut disk = with_foo_and_bar();
    disk.sync(&manifest(&["foo", "bar"])).unwrap();
    assert_eq!(disk.markers(), vec!["bar", "foo"]);
    assert_eq!(disk.content("cfg/plugins.cfg"), Some("plugin load foo\nplugin load bar\n"));
    let bar_before: Vec<Option<String>> =
        ["plugins/bar.dll", "data/bar.txt", "plugins/bar.nix-managed"]
            .iter()
            .map(|p| disk.content(p).map(|c| c.to_string()))
            .collect();

    disk.now = 2000;
    disk.copies = 0;
    disk.sync(&manifest(&["bar"])).unwrap();

    assert_eq!(disk.content("plugins/foo.nix-managed"), None);
    assert_eq!(disk.content("plugins/Foo.dll"), None);
    assert_eq!(disk.content("plugins/settings/foo.set"), None);
    assert_eq!(disk.content("data/foo/readme.txt"), None);
    assert_eq!(disk.content("cfg/plugins.cfg"), Some("plugin load bar\n"));
    let bar_after: Vec<Option<String>> =
        ["plugins/bar.dll", "data/bar.txt", "plugins/bar.nix-managed"]
            .iter()
            .map(|p| disk.content(p).map(|c| c.to_string()))
            .collect();
    assert_eq!(bar_before, bar_after);
    assert_eq!(disk.files.get("plugins/bar.dll").unwrap().1, 1000);
    assert_eq!(disk.copies, 0);
    assert_eq!(disk.markers(), vec!["bar"]);
}

#[test]
fn a_second_run_changes_nothing() {
    let mut disk = with_foo_and_bar();
    let m = manifest(&["foo", "bar"]);
    disk.sync(&m).unwrap();
    let first = disk.contents();
    assert_eq!(disk.copies, 5);

    disk.now = 2000;
    disk.copies = 0;
    disk.sync(&m).unwrap();
    assert_eq!(disk.contents(), first);
    assert_eq!(disk.copies, 0);
    assert_eq!(disk.content("cfg/plugins.cfg"), Some("plugin load foo\nplugin load bar\n"));
}

#[test]
fn a_newer_source_is_copied_again_and_nothing_else() {
    let mut disk = with_foo_and_bar();
    let m = manifest(&["foo", "bar"]);
    disk.sync(&m).unwrap();
    disk.source("/src/bar/data/bar.txt", "bar data, second edition", 1500);
    disk.now = 2000;
    disk.copies = 0;
    disk.sync(&m).unwrap();
    assert_eq!(disk.copies, 1);
    assert_eq!(disk.content("data/bar.txt"), Some("bar data, second edition"));
}

#[test]
fn the_installed_plugins_become_the_desired_ones_whatever_was_there() {
    for reverse in [false, true] {
        for desired in [vec![], vec!["bar"], vec!["bar", "foo"], vec!["foo", "bar"]] {
            let mut disk = with_foo_and_bar();
            disk.reverse_listing = reverse;
            disk.file("plugins/old.nix-managed", "plugins/old.dll\n", 1);
            disk.file("plugins/old.dll", "old module", 1);
            disk.file("plugins/foo.nix-managed", "plugins/Foo.dll\n", 1);
            disk.file("plugins/zap.nix-managed", "", 1);
            disk.file("plugins/.nix-managed", "", 1);
            disk.file("cfg/plugins.cfg", "plugin load old\nplugin load foo\n", 1);
            disk.sync(&manifest(&desired)).unwrap();
            let mut expected: Vec<String> = desired.iter().map(|n| n.to_string()).collect();
            expected.sort();
            assert_eq!(disk.markers(), expected);
            assert_eq!(disk.content("plugins/old.dll"), None);
            let registry = disk.content("cfg/plugins.cfg").unwrap();
            assert!(!registry.lines().any(|l| l == "plugin load old"));
            for name in ["foo", "bar"] {
                let line = format!("plugin load {name}");
                let count = registry.lines().filter(|l| *l == line).count();
                assert_eq!(count, if desired.contains(&name) { 1 } else { 0 });
            }
        }
    }
}

#[test]
fn a_marker_with_an_invalid_name_survives_with_a_warning() {
    let mut disk = with_foo_and_bar();
    disk.file("plugins/not a name.nix-managed", "plugins/x.dll\n", 1);
    disk.file("plugins/x.dll", "x", 1);
    disk.sync(&manifest(&["foo"])).unwrap();
    assert_eq!(disk.content("plugins/x.dll"), Some("x"));
    assert_eq!(disk.content("plugins/not a name.nix-managed"), Some("plugins/x.dll\n"));
    assert_eq!(
        disk.warnings,
        vec![Action::WarnInvalidMarker { name: "not a name".to_string() }]
    );
}

#[test]
fn a_plugin_without_source_directory_is_skipped_and_the_run_goes_on() {
    let mut disk = with_foo_and_bar();
    disk.sync(&manifest(&["ghost", "bar"])).unwrap();
    assert_eq!(disk.markers(), vec!["bar"]);
    assert_eq!(
        disk.warnings,
        vec![Action::WarnSourceMissing {
            name: "ghost".to_string(),
            source_dir: "/src/ghost".to_string()
        }]
    );
}

#[test]
fn unsafe_marker_lines_delete_nothing_outside_the_root() {
    let mut disk = with_foo_and_bar();
    disk.file("plugins/old.nix-managed", "../x\n/etc/passwd\na/../../b\nplugins/old.dll\n", 1);
    disk.file("plugins/old.dll", "old", 1);
    disk.file("../x", "outside", 1);
    disk.file("/etc/passwd", "outside", 1);
    disk.file("a/../../b", "outside", 1);
    disk.sync(&manifest(&[])).unwrap();
    assert_eq!(disk.content("../x"), Some("outside"));
    assert_eq!(disk.content("/etc/passwd"), Some("outside"));
    assert_eq!(disk.content("a/../../b"), Some("outside"));
    assert_eq!(disk.content("plugins/old.dll"), None);
    assert_eq!(disk.content("plugins/old.nix-managed"), None);
    assert_eq!(disk.warnings.len(), 3);
}

#[test]
fn a_source_file_that_climbs_out_fails_the_run_before_anything_is_copied() {
    let mut disk = Disk::new();
    disk.source("/src/foo/a.txt", "a", 10);
    disk.source("/src/foo/sub/../../../escape.txt", "evil", 10);
    let result = disk.sync(&manifest(&["foo"]));
    assert!(matches!(result, Err(InstallError::UnsafeFile { .. })));
    assert_eq!(disk.files.len(), 0);
    assert_eq!(disk.copies, 0);
}

#[test]
fn a_destination_behind_a_link_to_elsewhere_fails_the_run() {
    let mut disk = Disk::new();
    disk.links.insert("plugins/linked".to_string(), "/elsewhere".to_string());
    disk.source("/src/foo/plugins/linked/x.dll", "x", 10);
    let result = disk.sync(&manifest(&["foo"]));
    assert_eq!(
        result,
        Err(InstallError::UnsafeFile {
            index: 0,
            reason: bakkes_sync::path_safety::PathEscape::Outside
        })
    );
    assert_eq!(disk.files.len(), 0);
}

#[test]
fn a_destination_behind_a_link_that_stays_inside_is_fine() {
    let mut disk = Disk::new();
    disk.links.insert("plugins/linked".to_string(), "/data/real".to_string());
    disk.source("/src/foo/plugins/linked/x.dll", "x", 10);
    disk.sync(&manifest(&["foo"])).unwrap();
    assert_eq!(disk.content("plugins/linked/x.dll"), Some("x"));
}

#[test]
fn a_plugin_name_that_would_climb_out_fails_the_run() {
    let mut disk = Disk::new();
    disk.source("/src/evil/a.txt", "a", 10);
    let m = Manifest {
        config_content: String::new(),
        plugins: vec![Plugin { name: "../../evil".to_string(), source_dir: "/src/evil".to_string() }],
    };
    assert_eq!(disk.sync(&m), Err(InstallError::InvalidName));
    assert_eq!(disk.files.len(), 0);
}

#[test]
fn the_configuration_is_replaced_by_the_rename_and_by_nothing_else() {
    let mut disk = Disk::new();
    disk.file("cfg/nix-config.cfg", "old content", 1);
    let m = manifest(&[]);
    let plan = config::sync(&m);
    assert_eq!(plan.len(), 4);
    let mut seen = Vec::new();
    for action in &plan {
        disk.perform(&m, action).unwrap();
        seen.push(disk.content("cfg/nix-config.cfg").unwrap().to_string());
    }
    assert_eq!(seen, vec!["old content", "old content", "bind F2 togglemenu\n", "bind F2 togglemenu\n"]);
    assert!(matches!(plan[2], Action::Rename { .. }));
    assert_eq!(disk.content("cfg/.nix-config.cfg.tmp"), None);
    assert_eq!(disk.content("cfg/autoexec.cfg"), Some("exec nix-config.cfg\n"));
}

#[test]
fn the_configuration_plan_names_its_files() {
    let m = manifest(&[]);
    assert_eq!(
        config::sync(&m),
        vec![
            Action::CreateDirAll { path: "cfg".to_string() },
            Action::Write {
                path: "cfg/.nix-config.cfg.tmp".to_string(),
                content: "bind F2 togglemenu\n".to_string()
            },
            Action::Rename {
                from: "cfg/.nix-config.cfg.tmp".to_string(),
                to: "cfg/nix-config.cfg".to_string()
            },
            Action::EnsureLine {
                path: "cfg/autoexec.cfg".to_string(),
                line: "exec nix-config.cfg".to_string()
            },
        ]
    );
}

#[test]
fn the_start_up_script_gets_its_line_once() {
    let mut disk = Disk::new();
    disk.file("cfg/autoexec.cfg", "bind F1 x", 1);
    let m = manifest(&[]);
    disk.run(&m, &config::sync(&m)).unwrap();
    disk.run(&m, &config::sync(&m)).unwrap();
    assert_eq!(disk.content("cfg/autoexec.cfg"), Some("bind F1 x\nexec nix-config.cfg\n"));
    assert_eq!(disk.content("cfg/nix-config.cfg"), Some("bind F2 togglemenu\n"));
}

#[test]
fn a_second_run_changes_nothing_when_a_source_directory_is_missing() {
    let mut disk = with_foo_and_bar();
    disk.file("plugins/ghost.nix-managed", "plugins/ghost.dll\n", 1);
    disk.file("plugins/ghost.dll", "ghost module", 1);
    let m = manifest(&["foo", "ghost", "bar"]);
    disk.sync(&m).unwrap();
    let first = disk.contents();
    assert_eq!(disk.markers(), vec!["bar", "foo", "ghost"]);
    assert_eq!(disk.content("plugins/ghost.dll"), Some("ghost module"));

    disk.now = 2000;
    disk.copies = 0;
    disk.reverse_listing = true;
    disk.sync(&m).unwrap();
    assert_eq!(disk.contents(), first);
    assert_eq!(disk.copies, 0);
}

#[test]
fn a_second_run_changes_nothing_when_two_plugins_share_a_name() {
    let mut disk = with_foo_and_bar();
    let m = Manifest {
        config_content: String::new(),
        plugins: vec![
            Plugin { name: "twin".to_string(), source_dir: "/src/foo".to_string() },
            Plugin { name: "twin".to_string(), source_dir: "/src/bar".to_string() },
        ],
    };
    disk.sync(&m).unwrap();
    let first = disk.contents();
    assert_eq!(disk.content("plugins/twin.nix-managed"), Some("data/bar.txt\nplugins/bar.dll\n"));
    assert_eq!(disk.content("cfg/plugins.cfg"), Some("plugin load foo\nplugin load bar\n"));

    disk.now = 2000;
    disk.copies = 0;
    disk.sync(&m).unwrap();
    assert_eq!(disk.contents(), first);
    assert_eq!(disk.copies, 0);
}

#[test]
fn sources_from_the_future_that_share_a_destination_defeat_the_second_run() {
    let mut disk = Disk::new();
    disk.now = 120;
    disk.source("/src/a/x.txt", "from a", 2000);
    disk.source("/src/b/x.txt", "from b", 125);
    let m = manifest(&["a", "b"]);
    disk.sync(&m).unwrap();
    assert_eq!(disk.content("x.txt"), Some("from b"));

    disk.now = 130;
    disk.sync(&m).unwrap();
    assert_eq!(disk.content("x.txt"), Some("from a"));
}

#[test]
fn a_marker_planted_by_a_source_directory_is_installed_with_its_files() {
    let mut disk = Disk::new();
    disk.source("/src/foo/plugins/evil.nix-managed", "plugins/foo.dll\n", 10);
    disk.source("/src/foo/plugins/foo.dll", "foo module", 10);
    disk.sync(&manifest(&["foo"])).unwrap();
    assert_eq!(disk.markers(), vec!["evil", "foo"]);
}

#[test]
fn a_module_with_a_dot_in_its_stem_is_registered() {
    let mut disk = Disk::new();
    disk.source("/src/foo/plugins/My.Plugin.DLL", "module", 10);
    disk.sync(&manifest(&["foo"])).unwrap();
    assert_eq!(disk.content("cfg/plugins.cfg"), Some("plugin load my.plugin\n"));
    disk.now = 2000;
    disk.sync(&manifest(&["foo"])).unwrap();
    assert_eq!(disk.content("cfg/plugins.cfg"), Some("plugin load my.plugin\n"));
    disk.now = 3000;
    disk.sync(&manifest(&[])).unwrap();
    assert_eq!(disk.content("cfg/plugins.cfg"), Some("\n"));
    assert_eq!(disk.content("plugins/My.Plugin.DLL"), None);
}

#[test]
fn a_registry_with_carriage_returns_keeps_them_when_a_plugin_is_removed() {
    let mut disk = with_foo_and_bar();
    disk.file("cfg/plugins.cfg", "plugin load other\r\nplugin load old\r\n// note \r\n", 1);
    disk.file("plugins/old.nix-managed", "plugins/old.dll\r\n", 1);
    disk.file("plugins/old.dll", "old module", 1);
    disk.sync(&manifest(&["bar"])).unwrap();
    assert_eq!(
        disk.content("cfg/plugins.cfg"),
        Some("plugin load other\r\n// note \r\nplugin load bar\n")
    );
    assert_eq!(disk.content("plugins/old.dll"), None);
}

#[test]
fn the_marker_of_a_desired_plugin_planted_by_another_is_written_all_the_same() {
    for order in [["bar", "foo"], ["foo", "bar"]] {
        let mut disk = with_foo_and_bar();
        disk.source("/src/bar/plugins/foo.nix-managed", "planted\n", 5);
        disk.sync(&manifest(&order)).unwrap();
        assert_eq!(disk.markers(), vec!["bar", "foo"]);
    }
}

#[test]
fn a_source_from_the_future_whose_copy_is_newer_still_is_skipped_twice() {
    let mut disk = Disk::new();
    disk.source("/src/foo/data/foo.txt", "from the source", 5000);
    disk.file("data/foo.txt", "edited by hand", 6000);
    let m = manifest(&["foo"]);
    disk.sync(&m).unwrap();
    let first = disk.contents();
    assert_eq!(disk.content("data/foo.txt"), Some("edited by hand"));
    assert_eq!(disk.copies, 0);
    disk.now = 2000;
    disk.sync(&m).unwrap();
    assert_eq!(disk.contents(), first);
    assert_eq!(disk.copies, 0);
}

#[test]
fn a_stale_marker_that_lists_another_marker_takes_it_along() {
    let mut disk = Disk::new();
    disk.file("plugins/old.nix-managed", "plugins/keep.nix-managed\n", 1);
    disk.file("plugins/keep.nix-managed", "plugins/keep.dll\n", 1);
    disk.file("plugins/keep.dll", "keep module", 1);
    let plan = remove_stale_plugins(
        &vec!["keep.nix-managed".to_string(), "old.nix-managed".to_string()],
        &manifest(&["keep"]),
    );
    let m = manifest(&["keep"]);
    disk.run(&m, &plan).unwrap();
    assert_eq!(disk.markers(), Vec::<String>::new());
    assert_eq!(disk.content("plugins/keep.dll"), Some("keep module"));
}

#[test]
fn the_removal_of_stale_plugins_keeps_the_desired_ones_as_they_are() {
    for reverse in [false, true] {
        let mut disk = Disk::new();
        disk.reverse_listing = reverse;
        disk.file("plugins/old.nix-managed", "plugins/old.dll\n", 1);
        disk.file("plugins/old.dll", "old module", 1);
        disk.file("plugins/keep.nix-managed", "plugins/keep.dll\n", 7);
        disk.file("plugins/keep.dll", "keep module", 7);
        let m = manifest(&["keep"]);
        disk.perform(&m, &Action::RemoveStale).unwrap();
        assert_eq!(disk.markers(), vec!["keep"]);
        assert_eq!(disk.files.get("plugins/keep.nix-managed"), Some(&("plugins/keep.dll\n".to_string(), 7)));
        assert_eq!(disk.content("plugins/keep.dll"), Some("keep module"));
        assert_eq!(disk.content("plugins/old.dll"), None);
    }
}
