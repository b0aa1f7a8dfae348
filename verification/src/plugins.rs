//! The plugin lifecycle: markers, the load registry, the removal of
//! plugins that are no longer desired and the installation of those that
//! are.
//!
//! A plugin is installed when its marker, `plugins/<name>.nix-managed`,
//! exists. The marker lists, one per line, the files that the plugin's
//! installation wrote, relative to the data root. The load registry,
//! `cfg/plugins.cfg`, holds a line `plugin load <stem>` for the primary
//! module of each installed plugin.

use crate::action::{plan_view, Action, ActionView};
use crate::manifest::{Manifest, ManifestView};
use crate::path_safety::{
    components, components_chars, destination, ensure_under, ensure_under_spec, is_plain,
    is_plain_chars, push_name, validate_relative, validate_relative_chars, validate_relative_spec,
    PathEscape, Probe, ProbeView,
};
use crate::text::{
    append_chars, chars_eq, ends_with, findable, from_chars, has_prefix, has_suffix, is_findable,
    lines, lines_chars, lower_chars, parts_view, slice_chars, starts_with, to_chars, to_lower,
};
use vstd::prelude::*;

verus! {

/// Whether `c` may stand in a plugin name: a letter or digit of ASCII,
/// `-` or `_`.
pub open spec fn is_name_char(c: char) -> bool {
    let n = c as u32;
    ||| 0x30 <= n <= 0x39
    ||| 0x41 <= n <= 0x5A
    ||| 0x61 <= n <= 0x7A
    ||| c == '-'
    ||| c == '_'
}

/// Whether every character of `name` may stand in a plugin name.
pub open spec fn valid_name(name: Seq<char>) -> bool {
    forall|i: int| 0 <= i < name.len() ==> is_name_char(#[trigger] name[i])
}

/// The end of a marker's file name.
pub open spec fn marker_suffix() -> Seq<char> {
    ".nix-managed"@
}

/// The plugins directory, with the separator that follows it.
pub open spec fn plugins_prefix() -> Seq<char> {
    "plugins/"@
}

/// The directory of the configuration files.
pub open spec fn cfg_dir() -> Seq<char> {
    "cfg"@
}

/// The load registry.
pub open spec fn registry_path() -> Seq<char> {
    "cfg/plugins.cfg"@
}

/// The extension of a loadable module.
pub open spec fn module_ext() -> Seq<char> {
    "dll"@
}

/// The registry line that loads the module `stem`.
pub open spec fn load_line(stem: Seq<char>) -> Seq<char> {
    "plugin load "@ + stem
}

/// The marker of the plugin `name`.
pub open spec fn marker_path(name: Seq<char>) -> Seq<char> {
    plugins_prefix() + name + marker_suffix()
}

/// The plugin that an entry of the plugins directory is the marker of.
pub open spec fn marker_name(entry: Seq<char>) -> Option<Seq<char>> {
    if ends_with(entry, marker_suffix()) {
        Some(entry.take(entry.len() - marker_suffix().len()))
    } else {
        None
    }
}

/// The position of the last `c` in `s`, or -1 if there is none.
pub open spec fn last_index_of(s: Seq<char>, c: char) -> int
    decreases s.len(),
{
    if s.len() == 0 {
        -1
    } else if s.last() == c {
        s.len() - 1
    } else {
        last_index_of(s.drop_last(), c)
    }
}

/// The last component of a path, where it is an ordinary name.
pub open spec fn file_name(rel: Seq<char>) -> Option<Seq<char>> {
    let comps = components(rel);
    if comps.len() > 0 && is_plain(comps.last()) {
        Some(comps.last())
    } else {
        None
    }
}

/// The module that a file is: its file name without the extension, in
/// lower case, where the extension is that of a loadable module in any
/// case. A name has an extension where its last `.` is not its first
/// character.
pub open spec fn module_stem(rel: Seq<char>) -> Option<Seq<char>> {
    match file_name(rel) {
        None => None,
        Some(name) => {
            let dot = last_index_of(name, '.');
            if dot >= 1 && to_lower(name.skip(dot + 1)) == module_ext() {
                Some(to_lower(name.take(dot)))
            } else {
                None
            }
        },
    }
}

/// Whether a marker line names a file of the plugins directory.
pub open spec fn under_plugins(line: Seq<char>) -> bool {
    starts_with(line, "plugins/"@) || starts_with(line, "plugins\\"@)
}

/// The plan that registers the module `stem`: the directory of the
/// configuration files is made, and the registry is made to hold the
/// module's load line. This is the plan of every stem whose load line is
/// found again once it stands in the registry; for any other stem, whose
/// line would be added anew by each run, there is nothing to do.
pub open spec fn register_spec(stem: Seq<char>) -> Seq<ActionView> {
    if findable(load_line(stem)) {
        seq![
            (ActionView::CreateDirAll { path: cfg_dir() }),
            (ActionView::EnsureLine { path: registry_path(), line: load_line(stem) }),
        ]
    } else {
        Seq::empty()
    }
}

/// The plan that takes the module `stem`, in lower case, out of the
/// registry.
pub open spec fn unregister_spec(stem: Seq<char>) -> Seq<ActionView> {
    seq![(ActionView::RemoveLine { path: registry_path(), line: load_line(to_lower(stem)) })]
}

/// What one marker line asks for. An empty line asks for nothing. A line
/// that is not a safe relative path is reported and skipped. Any other
/// line has its file deleted, after its module, where it is one of the
/// plugins directory, has left the registry.
pub open spec fn line_removal(line: Seq<char>) -> Seq<ActionView> {
    if line.len() == 0 {
        Seq::empty()
    } else if validate_relative_spec(line) is Err {
        seq![(ActionView::WarnSuspiciousPath { line })]
    } else if under_plugins(line) && module_stem(line) is Some {
        unregister_spec(module_stem(line)->Some_0).push((ActionView::Remove { path: line }))
    } else {
        seq![(ActionView::Remove { path: line })]
    }
}

/// What the lines of a marker ask for, in order.
pub open spec fn lines_removal(ls: Seq<Seq<char>>) -> Seq<ActionView>
    decreases ls.len(),
{
    if ls.len() == 0 {
        Seq::empty()
    } else {
        lines_removal(ls.drop_last()) + line_removal(ls.last())
    }
}

/// The plan that removes a plugin: what the lines of its marker ask for,
/// and last the deletion of the marker itself.
pub open spec fn remove_plugin_spec(marker: Seq<char>, content: Seq<char>) -> Seq<ActionView> {
    lines_removal(lines(content)).push((ActionView::Remove { path: marker }))
}

/// What one entry of the plugins directory asks for. An entry that is no
/// marker, and the marker of a desired plugin, ask for nothing. A marker
/// whose name is not made of name characters is reported. Any other
/// marker has its plugin removed.
pub open spec fn entry_removal(entry: Seq<char>, m: ManifestView) -> Seq<ActionView> {
    match marker_name(entry) {
        None => Seq::empty(),
        Some(name) => if !valid_name(name) {
            seq![(ActionView::WarnInvalidMarker { name })]
        } else if m.wants(name) {
            Seq::empty()
        } else {
            seq![(ActionView::RemovePlugin { name, marker: plugins_prefix() + entry })]
        },
    }
}

/// The plan that removes the plugins that are installed and not desired:
/// what the entries of the plugins directory ask for, in order.
pub open spec fn remove_stale_spec(entries: Seq<Seq<char>>, m: ManifestView) -> Seq<ActionView>
    decreases entries.len(),
{
    if entries.len() == 0 {
        Seq::empty()
    } else {
        remove_stale_spec(entries.drop_last(), m) + entry_removal(entries.last(), m)
    }
}

/// Whether every character of `name` may stand in a plugin name.
pub fn is_valid_name(name: &Vec<char>) -> (b: bool)
    ensures
        b == valid_name(name@),
{
    let mut i: usize = 0;
    while i < name.len()
        invariant
            i <= name.len(),
            forall|j: int| 0 <= j < i ==> is_name_char(#[trigger] name@[j]),
        decreases name.len() - i,
    {
        let c = name[i];
        let n: u32 = c as u32;
        let ok = (0x30 <= n && n <= 0x39) || (0x41 <= n && n <= 0x5A) || (0x61 <= n && n <= 0x7A)
            || c == '-' || c == '_';
        if !ok {
            return false;
        }
        i = i + 1;
    }
    true
}

/// The position of the last `c` in `v`, where there is one.
fn last_index_chars(v: &Vec<char>, c: char) -> (r: Option<usize>)
    ensures
        match r {
            Some(i) => i < v.len() && i == last_index_of(v@, c),
            None => last_index_of(v@, c) == -1,
        },
{
    let mut i: usize = v.len();
    assert(v@.take(v.len() as int) =~= v@);
    while i > 0
        invariant
            i <= v.len(),
            last_index_of(v@, c) == last_index_of(v@.take(i as int), c),
        decreases i,
    {
        assert(v@.take(i as int).last() == v@[i - 1]);
        assert(v@.take(i as int).drop_last() =~= v@.take(i - 1));
        if v[i - 1] == c {
            return Some(i - 1);
        }
        i = i - 1;
    }
    None
}

/// The module that the file `rel` is, where it is one.
pub fn module_stem_chars(rel: &Vec<char>) -> (r: Option<Vec<char>>)
    ensures
        match r {
            Some(stem) => module_stem(rel@) == Some(stem@),
            None => module_stem(rel@) is None,
        },
{
    let comps = components_chars(rel);
    assert(parts_view(comps@).len() == comps.len());
    if comps.len() == 0 {
        return None;
    }
    let name = &comps[comps.len() - 1];
    assert(parts_view(comps@).last() == name@);
    if !is_plain_chars(name) {
        return None;
    }
    match last_index_chars(name, '.') {
        None => None,
        Some(dot) => {
            if dot == 0 {
                return None;
            }
            let ext = lower_chars(&slice_chars(name, dot + 1, name.len()));
            let want = to_chars("dll");
            proof {
                assert(name@.subrange(dot + 1, name.len() as int) =~= name@.skip(dot + 1));
                assert(name@.subrange(0, dot as int) =~= name@.take(dot as int));
            }
            if chars_eq(&ext, &want) {
                Some(lower_chars(&slice_chars(name, 0, dot)))
            } else {
                None
            }
        },
    }
}

/// Registers the primary module `stem` of a plugin: the plan makes sure
/// that the registry holds its load line. Only a stem whose load line
/// would not be found again, because it ends with white space or holds a
/// line feed, is not registered.
pub fn register_dll(dll_stem: &str) -> (plan: Vec<Action>)
    ensures
        plan_view(plan@) == register_spec(dll_stem@),
{
    let stem = to_chars(dll_stem);
    let mut plan: Vec<Action> = Vec::new();
    let mut line = to_chars("plugin load ");
    append_chars(&mut line, &stem);
    if !is_findable(&line) {
        assert(plan_view(plan@) =~= register_spec(dll_stem@));
        return plan;
    }
    plan.push(Action::CreateDirAll { path: "cfg".to_owned() });
    plan.push(
        Action::EnsureLine { path: "cfg/plugins.cfg".to_owned(), line: from_chars(&line) },
    );
    assert(plan_view(plan@) =~= register_spec(dll_stem@));
    plan
}

/// Takes the module `stem` out of the registry: the plan removes its load
/// line, in lower case.
pub fn unregister_dll(dll_stem: &str) -> (plan: Vec<Action>)
    ensures
        plan_view(plan@) == unregister_spec(dll_stem@),
{
    let stem = lower_chars(&to_chars(dll_stem));
    let mut line = to_chars("plugin load ");
    append_chars(&mut line, &stem);
    let mut plan: Vec<Action> = Vec::new();
    plan.push(
        Action::RemoveLine { path: "cfg/plugins.cfg".to_owned(), line: from_chars(&line) },
    );
    assert(plan_view(plan@) =~= unregister_spec(dll_stem@));
    plan
}

/// Appends the actions of `tail` to `plan`.
fn extend_plan(plan: &mut Vec<Action>, tail: Vec<Action>)
    ensures
        plan_view(final(plan)@) == plan_view(old(plan)@) + plan_view(tail@),
{
    let mut tail = tail;
    let ghost all = plan_view(tail@);
    let ghost start = plan_view(plan@);
    let mut rest: Vec<Action> = Vec::new();
    // Take the actions from the end, then put them back in order.
    while tail.len() > 0
        invariant
            plan_view(tail@) + plan_view(rest@).reverse() == all,
        decreases tail.len(),
    {
        let ghost t0 = plan_view(tail@);
        let ghost r0 = plan_view(rest@);
        let a = tail.pop().unwrap();
        rest.push(a);
        assert(plan_view(tail@) + plan_view(rest@).reverse() =~= t0 + r0.reverse());
    }
    assert(plan_view(rest@).reverse() =~= all);
    while rest.len() > 0
        invariant
            plan_view(plan@) + plan_view(rest@).reverse() == start + all,
        decreases rest.len(),
    {
        let ghost p0 = plan_view(plan@);
        let ghost r0 = plan_view(rest@);
        let a = rest.pop().unwrap();
        plan.push(a);
        assert(plan_view(plan@) + plan_view(rest@).reverse() =~= p0 + r0.reverse());
    }
    assert(plan_view(plan@) =~= start + all);
}

/// What the marker line `line` asks for.
fn plan_line_removal(line: &Vec<char>) -> (plan: Vec<Action>)
    ensures
        plan_view(plan@) == line_removal(line@),
{
    let mut plan: Vec<Action> = Vec::new();
    if line.len() == 0 {
        assert(plan_view(plan@) =~= line_removal(line@));
        return plan;
    }
    match validate_relative_chars(line) {
        Err(_) => {
            plan.push(Action::WarnSuspiciousPath { line: from_chars(line) });
            assert(plan_view(plan@) =~= line_removal(line@));
            plan
        },
        Ok(_) => {
            let in_plugins = has_prefix(line, &to_chars("plugins/")) || has_prefix(
                line,
                &to_chars("plugins\\"),
            );
            let stem = module_stem_chars(line);
            if in_plugins && stem.is_some() {
                let s = stem.unwrap();
                plan = unregister_dll(from_chars(&s).as_str());
            }
            let ghost before = plan_view(plan@);
            plan.push(Action::Remove { path: from_chars(line) });
            assert(plan_view(plan@) =~= before.push((ActionView::Remove { path: line@ })));
            assert(plan_view(plan@) =~= line_removal(line@));
            plan
        },
    }
}

/// Plans the removal of one plugin from the content of its marker: every
/// file that the marker lists is deleted, its module leaves the registry
/// first, and the marker itself goes last.
pub fn remove_plugin(marker: &str, content: &str) -> (plan: Vec<Action>)
    ensures
        plan_view(plan@) == remove_plugin_spec(marker@, content@),
{
    let c = to_chars(content);
    let ls = lines_chars(&c);
    let ghost all = lines(content@);
    assert(parts_view(ls@).len() == ls.len());
    let mut plan: Vec<Action> = Vec::new();
    let mut i: usize = 0;
    assert(all.take(0) =~= Seq::<Seq<char>>::empty());
    assert(plan_view(plan@) =~= lines_removal(all.take(0)));
    while i < ls.len()
        invariant
            i <= ls.len(),
            parts_view(ls@) == all,
            plan_view(plan@) == lines_removal(all.take(i as int)),
        decreases ls.len() - i,
    {
        proof {
            assert(all[i as int] == ls@[i as int]@);
            assert(all.take(i + 1).drop_last() =~= all.take(i as int));
            assert(all.take(i + 1).last() == ls@[i as int]@);
        }
        let step = plan_line_removal(&ls[i]);
        extend_plan(&mut plan, step);
        i = i + 1;
    }
    assert(all.take(ls.len() as int) =~= all);
    let ghost before = plan_view(plan@);
    plan.push(Action::Remove { path: marker.to_owned() });
    assert(plan_view(plan@) =~= before.push((ActionView::Remove { path: marker@ })));
    plan
}

/// What the entry `entry` of the plugins directory asks for.
fn plan_entry_removal(entry: &Vec<char>, manifest: &Manifest) -> (plan: Vec<Action>)
    ensures
        plan_view(plan@) == entry_removal(entry@, manifest.deep_view()),
{
    let mut plan: Vec<Action> = Vec::new();
    let suffix = to_chars(".nix-managed");
    if !has_suffix(entry, &suffix) {
        assert(plan_view(plan@) =~= entry_removal(entry@, manifest.deep_view()));
        return plan;
    }
    let name = slice_chars(entry, 0, entry.len() - suffix.len());
    assert(name@ =~= entry@.take(entry.len() - marker_suffix().len()));
    if !is_valid_name(&name) {
        plan.push(Action::WarnInvalidMarker { name: from_chars(&name) });
        assert(plan_view(plan@) =~= entry_removal(entry@, manifest.deep_view()));
        return plan;
    }
    if manifest.wants_chars(&name) {
        assert(plan_view(plan@) =~= entry_removal(entry@, manifest.deep_view()));
        return plan;
    }
    let mut marker = to_chars("plugins/");
    append_chars(&mut marker, entry);
    plan.push(Action::RemovePlugin { name: from_chars(&name), marker: from_chars(&marker) });
    assert(plan_view(plan@) =~= entry_removal(entry@, manifest.deep_view()));
    plan
}

/// Plans the removal of the plugins that are installed and no longer
/// desired, from the names of the entries of the plugins directory.
pub fn remove_stale_plugins(entries: &Vec<String>, manifest: &Manifest) -> (plan: Vec<Action>)
    ensures
        plan_view(plan@) == remove_stale_spec(entries.deep_view(), manifest.deep_view()),
{
    let ghost all = entries.deep_view();
    let mut plan: Vec<Action> = Vec::new();
    let mut i: usize = 0;
    assert(all.take(0) =~= Seq::<Seq<char>>::empty());
    assert(plan_view(plan@) =~= remove_stale_spec(all.take(0), manifest.deep_view()));
    while i < entries.len()
        invariant
            i <= entries.len(),
            all == entries.deep_view(),
            plan_view(plan@) == remove_stale_spec(all.take(i as int), manifest.deep_view()),
        decreases entries.len() - i,
    {
        proof {
            assert(all[i as int] == entries@[i as int]@);
            assert(all.take(i + 1).drop_last() =~= all.take(i as int));
            assert(all.take(i + 1).last() == entries@[i as int]@);
        }
        let entry = to_chars(entries[i].as_str());
        let step = plan_entry_removal(&entry, manifest);
        extend_plan(&mut plan, step);
        i = i + 1;
    }
    assert(all.take(entries.len() as int) =~= all);
    plan
}

/// Why a plugin could not be installed.
#[derive(Clone, Copy, Debug, PartialEq, Eq, Structural)]
pub enum InstallError {
    /// The plugin's name is empty or holds a character that may not stand
    /// in a name, so that its marker cannot be named.
    InvalidName,
    /// The source file at position `index` of the walk was refused.
    UnsafeFile { index: usize, reason: PathEscape },
}

/// What the driver found out about one file of a plugin's source
/// directory.
#[derive(Clone, Debug, PartialEq, Eq)]
pub struct SourceFile {
    /// The file's path relative to the source directory.
    pub rel: String,
    /// The probes of the file's destination, as `resolve_nonexistent`
    /// takes them.
    pub probes: Vec<Probe>,
    /// When the source file was last modified, if that can be read.
    pub src_mtime: Option<i128>,
    /// When the destination was last modified, if it exists and that can
    /// be read.
    pub dest_mtime: Option<i128>,
}

/// The model of a [`SourceFile`].
pub struct SourceFileView {
    pub rel: Seq<char>,
    pub probes: Seq<ProbeView>,
    pub src_mtime: Option<int>,
    pub dest_mtime: Option<int>,
}

/// The model of a modification time.
pub open spec fn stamp(t: Option<i128>) -> Option<int> {
    match t {
        Some(v) => Some(v as int),
        None => None,
    }
}

impl DeepView for SourceFile {
    type V = SourceFileView;

    open spec fn deep_view(&self) -> SourceFileView {
        SourceFileView {
            rel: self.rel@,
            probes: self.probes.deep_view(),
            src_mtime: stamp(self.src_mtime),
            dest_mtime: stamp(self.dest_mtime),
        }
    }
}

/// What a walk over a source directory has gathered.
#[derive(Clone, Debug, PartialEq, Eq)]
pub struct InstallState {
    /// The relative paths of the files seen, in walk order.
    pub marker_lines: Vec<String>,
    /// The copies decided on so far.
    pub copies: Vec<Action>,
    /// How many files are to be copied.
    pub copied: usize,
    /// How many files are left as they are.
    pub skipped: usize,
    /// The primary module: that of the first file that is one.
    pub dll_stem: Option<String>,
}

/// The model of an [`InstallState`].
pub struct InstallStateView {
    pub marker_lines: Seq<Seq<char>>,
    pub copies: Seq<ActionView>,
    pub copied: nat,
    pub skipped: nat,
    pub dll_stem: Option<Seq<char>>,
}

impl DeepView for InstallState {
    type V = InstallStateView;

    open spec fn deep_view(&self) -> InstallStateView {
        InstallStateView {
            marker_lines: self.marker_lines.deep_view(),
            copies: plan_view(self.copies@),
            copied: self.copied as nat,
            skipped: self.skipped as nat,
            dll_stem: self.dll_stem.deep_view(),
        }
    }
}

/// What the installation of one plugin asks for.
#[derive(Clone, Debug, PartialEq, Eq)]
pub struct Installation {
    /// The plan: the copies, then the marker, then the registration of
    /// the primary module.
    pub actions: Vec<Action>,
    /// How many files are copied.
    pub copied: usize,
    /// How many files are left as they are.
    pub skipped: usize,
}

/// The model of an [`Installation`].
pub struct InstallationView {
    pub actions: Seq<ActionView>,
    pub copied: nat,
    pub skipped: nat,
}

impl DeepView for Installation {
    type V = InstallationView;

    open spec fn deep_view(&self) -> InstallationView {
        InstallationView {
            actions: plan_view(self.actions@),
            copied: self.copied as nat,
            skipped: self.skipped as nat,
        }
    }
}

/// A file is copied unless both modification times are known and the
/// source is not newer than the destination.
pub open spec fn should_copy_spec(src_mtime: Option<int>, dest_mtime: Option<int>) -> bool {
    match (src_mtime, dest_mtime) {
        (Some(s), Some(d)) => s > d,
        _ => true,
    }
}

/// A source file is admitted when its relative path is safe and its
/// destination lies in the data root.
pub open spec fn admit_file(root: Seq<char>, base: ProbeView, f: SourceFileView) -> Result<
    (),
    PathEscape,
> {
    match validate_relative_spec(f.rel) {
        Err(e) => Err(e),
        Ok(_) => match ensure_under_spec(push_name(root, f.rel), f.probes, base) {
            Err(e) => Err(e),
            Ok(_) => Ok(()),
        },
    }
}

/// The state after one more admitted file: its path joins the marker
/// lines, it is counted as copied or skipped, and it becomes the primary
/// module if it is the first module.
pub open spec fn visit(st: InstallStateView, source_dir: Seq<char>, f: SourceFileView)
    -> InstallStateView {
    let copy = should_copy_spec(f.src_mtime, f.dest_mtime);
    InstallStateView {
        marker_lines: st.marker_lines.push(f.rel),
        copies: if copy {
            st.copies.push((ActionView::Copy { from: push_name(source_dir, f.rel), to: f.rel }))
        } else {
            st.copies
        },
        copied: if copy {
            st.copied + 1
        } else {
            st.copied
        },
        skipped: if copy {
            st.skipped
        } else {
            st.skipped + 1
        },
        dll_stem: if st.dll_stem is Some {
            st.dll_stem
        } else {
            module_stem(f.rel)
        },
    }
}

/// The state before any file.
pub open spec fn empty_state() -> InstallStateView {
    InstallStateView {
        marker_lines: Seq::empty(),
        copies: Seq::empty(),
        copied: 0,
        skipped: 0,
        dll_stem: None,
    }
}

/// The walk over the files of a source directory, in order. It stops at
/// the first file that is not admitted.
pub open spec fn walk_spec(
    root: Seq<char>,
    base: ProbeView,
    source_dir: Seq<char>,
    files: Seq<SourceFileView>,
) -> Result<InstallStateView, InstallError>
    decreases files.len(),
{
    if files.len() == 0 {
        Ok(empty_state())
    } else {
        match walk_spec(root, base, source_dir, files.drop_last()) {
            Err(e) => Err(e),
            Ok(st) => match admit_file(root, base, files.last()) {
                Err(reason) => Err(
                    InstallError::UnsafeFile { index: (files.len() - 1) as usize, reason },
                ),
                Ok(_) => Ok(visit(st, source_dir, files.last())),
            },
        }
    }
}

/// The content of a marker: every line followed by a line feed.
pub open spec fn marker_text(ls: Seq<Seq<char>>) -> Seq<char>
    decreases ls.len(),
{
    if ls.len() == 0 {
        Seq::empty()
    } else {
        marker_text(ls.drop_last()) + ls.last().push('\n')
    }
}

/// The plan that a finished walk gives: the copies, the marker with every
/// file seen, and the registration of the primary module.
pub open spec fn plan_of(name: Seq<char>, st: InstallStateView) -> Seq<ActionView> {
    st.copies.push(
        (ActionView::Write { path: marker_path(name), content: marker_text(st.marker_lines) }),
    ) + match st.dll_stem {
        Some(stem) => register_spec(stem),
        None => Seq::empty(),
    }
}

/// The installation of one plugin. A plugin without a source directory
/// (`files` is `None`) is reported and skipped. A name that is empty or
/// not made of name characters is refused, and so is the first file that
/// is not admitted.
pub open spec fn install_spec(
    root: Seq<char>,
    base: ProbeView,
    name: Seq<char>,
    source_dir: Seq<char>,
    files: Option<Seq<SourceFileView>>,
) -> Result<InstallationView, InstallError> {
    match files {
        None => Ok(
            InstallationView {
                actions: seq![(ActionView::WarnSourceMissing { name, source_dir })],
                copied: 0,
                skipped: 0,
            },
        ),
        Some(fs) => if name.len() == 0 || !valid_name(name) {
            Err(InstallError::InvalidName)
        } else {
            match walk_spec(root, base, source_dir, fs) {
                Err(e) => Err(e),
                Ok(st) => Ok(
                    InstallationView {
                        actions: plan_of(name, st),
                        copied: st.copied,
                        skipped: st.skipped,
                    },
                ),
            }
        },
    }
}

/// The plan of a whole run: the directories that the host expects, the
/// removal of stale plugins, and the installation of each desired plugin
/// in order.
pub open spec fn sync_spec(m: ManifestView) -> Seq<ActionView> {
    seq![
        (ActionView::CreateDirAll { path: "plugins"@ }),
        (ActionView::CreateDirAll { path: "plugins/settings"@ }),
        (ActionView::CreateDirAll { path: "data"@ }),
        ActionView::RemoveStale,
    ] + Seq::new(
        m.plugins.len(),
        |i: int|
            ActionView::Install { name: m.plugins[i].name, source_dir: m.plugins[i].source_dir },
    )
}

/// Decides whether a file is copied: it is, unless both modification
/// times are known and the source is not newer than the destination.
pub fn should_copy(src_mtime: Option<i128>, dest_mtime: Option<i128>) -> (copy: bool)
    ensures
        copy == should_copy_spec(stamp(src_mtime), stamp(dest_mtime)),
{
    match (src_mtime, dest_mtime) {
        (Some(s), Some(d)) => s > d,
        _ => true,
    }
}

/// A walk that has failed on some of its first files fails in the same
/// way on all of them.
pub proof fn lemma_walk_error_stays(
    root: Seq<char>,
    base: ProbeView,
    source_dir: Seq<char>,
    files: Seq<SourceFileView>,
    k: int,
)
    requires
        0 <= k <= files.len(),
        walk_spec(root, base, source_dir, files.take(k)) is Err,
    ensures
        walk_spec(root, base, source_dir, files) == walk_spec(root, base, source_dir, files.take(k)),
    decreases files.len() - k,
{
    if k == files.len() {
        assert(files.take(k) =~= files);
    } else {
        assert(files.take(k + 1).drop_last() =~= files.take(k));
        lemma_walk_error_stays(root, base, source_dir, files, k + 1);
    }
}

/// What a walk that succeeds has counted: every file has its marker
/// line, every file is either copied or skipped, and there is one copy
/// for each file counted as copied.
pub proof fn lemma_walk_counts(
    root: Seq<char>,
    base: ProbeView,
    source_dir: Seq<char>,
    files: Seq<SourceFileView>,
)
    requires
        walk_spec(root, base, source_dir, files) is Ok,
    ensures
        walk_spec(root, base, source_dir, files)->Ok_0.marker_lines.len() == files.len(),
        walk_spec(root, base, source_dir, files)->Ok_0.copied + walk_spec(
            root,
            base,
            source_dir,
            files,
        )->Ok_0.skipped == files.len(),
        walk_spec(root, base, source_dir, files)->Ok_0.copies.len() == walk_spec(
            root,
            base,
            source_dir,
            files,
        )->Ok_0.copied,
    decreases files.len(),
{
    if files.len() > 0 {
        lemma_walk_counts(root, base, source_dir, files.drop_last());
    }
}

/// Walks the files of a source directory in order: each file must be
/// admitted, joins the marker lines, and is copied or skipped.
pub fn walk_dir(root: &str, base: &Probe, source_dir: &str, files: &Vec<SourceFile>) -> (r: Result<
    InstallState,
    InstallError,
>)
    ensures
        match r {
            Ok(st) => walk_spec(root@, base.deep_view(), source_dir@, files.deep_view()) == Ok::<
                InstallStateView,
                InstallError,
            >(st.deep_view()),
            Err(e) => walk_spec(root@, base.deep_view(), source_dir@, files.deep_view()) == Err::<
                InstallStateView,
                InstallError,
            >(e),
        },
{
    let ghost all = files.deep_view();
    let mut st = InstallState {
        marker_lines: Vec::new(),
        copies: Vec::new(),
        copied: 0,
        skipped: 0,
        dll_stem: None,
    };
    let mut i: usize = 0;
    proof {
        assert(all.take(0) =~= Seq::<SourceFileView>::empty());
        assert(st.deep_view().marker_lines =~= Seq::<Seq<char>>::empty());
        assert(st.deep_view().copies =~= Seq::<ActionView>::empty());
    }
    while i < files.len()
        invariant
            i <= files.len(),
            all == files.deep_view(),
            st.copied + st.skipped == i,
            walk_spec(root@, base.deep_view(), source_dir@, all.take(i as int)) == Ok::<
                InstallStateView,
                InstallError,
            >(st.deep_view()),
        decreases files.len() - i,
    {
        let file = &files[i];
        let ghost f = file.deep_view();
        let ghost before = st.deep_view();
        proof {
            assert(all[i as int] == f);
            assert(all.take(i + 1).drop_last() =~= all.take(i as int));
            assert(all.take(i + 1).last() == f);
        }
        let admitted = match validate_relative(file.rel.as_str()) {
            Err(e) => Err(e),
            Ok(_) => {
                let dest = destination(root, file.rel.as_str());
                match ensure_under(dest.as_str(), &file.probes, base) {
                    Err(e) => Err(e),
                    Ok(_) => Ok(()),
                }
            },
        };
        assert(admitted == admit_file(root@, base.deep_view(), f));
        match admitted {
            Err(reason) => {
                proof {
                    lemma_walk_error_stays(root@, base.deep_view(), source_dir@, all, i + 1);
                }
                return Err(InstallError::UnsafeFile { index: i, reason });
            },
            Ok(_) => {},
        }
        if st.dll_stem.is_none() {
            match module_stem_chars(&to_chars(file.rel.as_str())) {
                Some(stem) => {
                    st.dll_stem = Some(from_chars(&stem));
                },
                None => {},
            }
        }
        st.marker_lines.push(file.rel.clone());
        if should_copy(file.src_mtime, file.dest_mtime) {
            let from = destination(source_dir, file.rel.as_str());
            st.copies.push(Action::Copy { from, to: file.rel.clone() });
            st.copied = st.copied + 1;
        } else {
            st.skipped = st.skipped + 1;
        }
        proof {
            let after = visit(before, source_dir@, f);
            assert(st.deep_view().marker_lines =~= after.marker_lines);
            assert(st.deep_view().copies =~= after.copies);
            assert(st.deep_view().dll_stem == after.dll_stem);
            assert(st.deep_view() == after);
        }
        i = i + 1;
    }
    assert(all.take(files.len() as int) =~= all);
    Ok(st)
}

/// The content of the marker that lists `lines`.
fn marker_content(lines: &Vec<String>) -> (out: String)
    ensures
        out@ == marker_text(lines.deep_view()),
{
    let ghost all = lines.deep_view();
    let mut out: Vec<char> = Vec::new();
    let mut i: usize = 0;
    assert(all.take(0) =~= Seq::<Seq<char>>::empty());
    while i < lines.len()
        invariant
            i <= lines.len(),
            all == lines.deep_view(),
            out@ == marker_text(all.take(i as int)),
        decreases lines.len() - i,
    {
        proof {
            assert(all.take(i + 1).drop_last() =~= all.take(i as int));
            assert(all.take(i + 1).last() == lines@[i as int]@);
        }
        let ghost before = out@;
        append_chars(&mut out, &to_chars(lines[i].as_str()));
        out.push('\n');
        assert(out@ =~= before + lines@[i as int]@.push('\n'));
        i = i + 1;
    }
    assert(all.take(lines.len() as int) =~= all);
    from_chars(&out)
}

/// Plans the installation of one plugin from what the driver found in
/// its source directory: `files` lists its files in walk order, or is
/// `None` where the source directory is missing. `root` is the data root
/// and `base` its probe.
pub fn install_plugin(
    root: &str,
    base: &Probe,
    name: &str,
    source_dir: &str,
    files: &Option<Vec<SourceFile>>,
) -> (r: Result<Installation, InstallError>)
    ensures
        match r {
            Ok(done) => install_spec(
                root@,
                base.deep_view(),
                name@,
                source_dir@,
                files.deep_view(),
            ) == Ok::<InstallationView, InstallError>(done.deep_view()),
            Err(e) => install_spec(root@, base.deep_view(), name@, source_dir@, files.deep_view())
                == Err::<InstallationView, InstallError>(e),
        },
{
    match files {
        None => {
            let mut actions: Vec<Action> = Vec::new();
            actions.push(
                Action::WarnSourceMissing {
                    name: name.to_owned(),
                    source_dir: source_dir.to_owned(),
                },
            );
            assert(plan_view(actions@) =~= seq![
                (ActionView::WarnSourceMissing { name: name@, source_dir: source_dir@ }),
            ]);
            Ok(Installation { actions, copied: 0, skipped: 0 })
        },
        Some(fs) => {
            let n = to_chars(name);
            if n.len() == 0 || !is_valid_name(&n) {
                return Err(InstallError::InvalidName);
            }
            match walk_dir(root, base, source_dir, fs) {
                Err(e) => Err(e),
                Ok(st) => {
                    let ghost view = st.deep_view();
                    let mut path = to_chars("plugins/");
                    append_chars(&mut path, &n);
                    append_chars(&mut path, &to_chars(".nix-managed"));
                    let content = marker_content(&st.marker_lines);
                    let copied = st.copied;
                    let skipped = st.skipped;
                    let mut actions = st.copies;
                    actions.push(Action::Write { path: from_chars(&path), content });
                    assert(plan_view(actions@) =~= view.copies.push(
                        (ActionView::Write {
                            path: marker_path(name@),
                            content: marker_text(view.marker_lines),
                        }),
                    ));
                    match st.dll_stem {
                        Some(stem) => {
                            extend_plan(&mut actions, register_dll(stem.as_str()));
                        },
                        None => {
                            assert(plan_view(actions@) + Seq::<ActionView>::empty() =~= plan_view(
                                actions@,
                            ));
                        },
                    }
                    Ok(Installation { actions, copied, skipped })
                },
            }
        },
    }
}

/// Plans a whole run: the directories that the host expects are made,
/// stale plugins are removed, and each desired plugin is installed, in
/// the order of the manifest.
pub fn sync(manifest: &Manifest) -> (plan: Vec<Action>)
    ensures
        plan_view(plan@) == sync_spec(manifest.deep_view()),
{
    let mut plan: Vec<Action> = Vec::new();
    plan.push(Action::CreateDirAll { path: "plugins".to_owned() });
    plan.push(Action::CreateDirAll { path: "plugins/settings".to_owned() });
    plan.push(Action::CreateDirAll { path: "data".to_owned() });
    plan.push(Action::RemoveStale);
    let ghost m = manifest.deep_view();
    let mut i: usize = 0;
    while i < manifest.plugins.len()
        invariant
            i <= manifest.plugins.len(),
            m == manifest.deep_view(),
            plan.len() == 4 + i,
            plan_view(plan@).take(4) == sync_spec(m).take(4),
            forall|j: int|
                0 <= j < i ==> (#[trigger] plan@[4 + j]).deep_view() == (ActionView::Install {
                    name: m.plugins[j].name,
                    source_dir: m.plugins[j].source_dir,
                }),
        decreases manifest.plugins.len() - i,
    {
        let plugin = &manifest.plugins[i];
        assert(m.plugins[i as int] == plugin.deep_view());
        plan.push(Action::Install { name: plugin.name.clone(), source_dir: plugin.source_dir.clone() });
        i = i + 1;
    }
    assert(plan_view(plan@) =~= sync_spec(m)) by {
        assert forall|j: int| 0 <= j < plan.len() implies plan_view(plan@)[j] == sync_spec(m)[j] by {
            if j < 4 {
                assert(plan_view(plan@)[j] == plan_view(plan@).take(4)[j]);
                assert(sync_spec(m)[j] == sync_spec(m).take(4)[j]);
            } else {
                assert(plan@[4 + (j - 4)].deep_view() == plan_view(plan@)[j]);
            }
        }
    }
    plan
}

} // verus!
