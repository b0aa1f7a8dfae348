//! The desired state: the body of the configuration file and the plugins
//! that are to be installed.

use crate::text::{chars_eq, to_chars};
use vstd::prelude::*;

verus! {

/// One plugin of the desired state.
#[derive(Clone, Debug, PartialEq, Eq)]
pub struct Plugin {
    /// The plugin's name, which also names its marker.
    pub name: String,
    /// The directory whose files are mirrored into the data root.
    pub source_dir: String,
}

/// The desired state of one run.
#[derive(Clone, Debug, PartialEq, Eq)]
pub struct Manifest {
    /// The whole content of the primary configuration file.
    pub config_content: String,
    /// The plugins to install, in order.
    pub plugins: Vec<Plugin>,
}

/// The model of a [`Plugin`].
pub struct PluginView {
    pub name: Seq<char>,
    pub source_dir: Seq<char>,
}

/// The model of a [`Manifest`].
pub struct ManifestView {
    pub config_content: Seq<char>,
    pub plugins: Seq<PluginView>,
}

impl DeepView for Plugin {
    type V = PluginView;

    open spec fn deep_view(&self) -> PluginView {
        PluginView { name: self.name@, source_dir: self.source_dir@ }
    }
}

impl DeepView for Manifest {
    type V = ManifestView;

    open spec fn deep_view(&self) -> ManifestView {
        ManifestView {
            config_content: self.config_content@,
            plugins: self.plugins.deep_view(),
        }
    }
}

impl ManifestView {
    /// Whether the desired state names a plugin `name`.
    pub open spec fn wants(self, name: Seq<char>) -> bool {
        exists|i: int| 0 <= i < self.plugins.len() && (#[trigger] self.plugins[i]).name == name
    }

    /// The names of the desired plugins.
    pub open spec fn wanted(self) -> Set<Seq<char>> {
        Set::new(|name: Seq<char>| self.wants(name))
    }
}

impl Manifest {
    /// Whether the desired state names a plugin `name`.
    pub fn wants(&self, name: &str) -> (b: bool)
        ensures
            b == self.deep_view().wants(name@),
    {
        let n = to_chars(name);
        self.wants_chars(&n)
    }

    /// [`Manifest::wants`] on characters.
    pub fn wants_chars(&self, name: &Vec<char>) -> (b: bool)
        ensures
            b == self.deep_view().wants(name@),
    {
        let mut i: usize = 0;
        while i < self.plugins.len()
            invariant
                i <= self.plugins.len(),
                forall|j: int|
                    0 <= j < i ==> (#[trigger] self.deep_view().plugins[j]).name != name@,
            decreases self.plugins.len() - i,
        {
            assert(self.deep_view().plugins[i as int] == self.plugins@[i as int].deep_view());
            let candidate = to_chars(self.plugins[i].name.as_str());
            if chars_eq(&candidate, name) {
                return true;
            }
            i = i + 1;
        }
        false
    }
}

} // verus!
