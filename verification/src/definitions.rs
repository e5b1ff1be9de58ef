//! The entries that SDK components and projects declare (sources, includes,
//! config files, defines, features, libraries, templates, ...), the rule
//! that decides whether an entry applies to a feature set, and their
//! resolved forms.

use vstd::prelude::*;

use crate::features::FeatureSet;
use crate::paths::{join_root, spec_join_root};
use crate::text::{copy_string, str_eq};

verus! {

broadcast use vstd::string::group_string_axioms;

/// A value contributed to a template variable, carried through unchanged.
#[verifier::external_type_specification]
#[verifier::external_body]
pub struct ExTemplateValue(minijinja::Value);

/// `minijinja::Value::clone`: its `Clone` is derived, so the copy is the
/// same value.
#[verifier::external_body]
pub(crate) fn clone_value(v: &minijinja::Value) -> (r: minijinja::Value)
    ensures
        r == *v,
{
    v.clone()
}

// ---------------------------------------------------------------------------
// Conditions
// ---------------------------------------------------------------------------

/// The names of an optional name list (none when absent).
pub open spec fn names_of(v: Option<Vec<String>>) -> Seq<Seq<char>> {
    match v.deep_view() {
        Some(s) => s,
        None => Seq::empty(),
    }
}

/// Every name is in `s`.
pub open spec fn all_in(names: Seq<Seq<char>>, s: Set<Seq<char>>) -> bool {
    forall|i: int| 0 <= i < names.len() ==> s.contains(#[trigger] names[i])
}

/// Some name is in `s`.
pub open spec fn any_in(names: Seq<Seq<char>>, s: Set<Seq<char>>) -> bool {
    exists|i: int| 0 <= i < names.len() && s.contains(#[trigger] names[i])
}

/// A `condition` holds when every feature it names is present.
pub open spec fn cond_holds(condition: Option<Vec<String>>, s: Set<Seq<char>>) -> bool {
    all_in(names_of(condition), s)
}

/// An entry with `condition` and `unless` applies when its condition holds
/// and none of the features named by `unless` is present.
pub open spec fn applies(
    condition: Option<Vec<String>>,
    unless: Option<Vec<String>>,
    s: Set<Seq<char>>,
) -> bool {
    cond_holds(condition, s) && !any_in(names_of(unless), s)
}

/// Whether every name in `names` is in `features`.
pub fn all_present(names: &Option<Vec<String>>, features: &FeatureSet) -> (r: bool)
    ensures
        r == cond_holds(*names, features.set()),
{
    match names {
        None => true,
        Some(v) => {
            let mut i: usize = 0;
            while i < v.len()
                invariant
                    i <= v@.len(),
                    names_of(*names) == v.deep_view(),
                    forall|k: int| 0 <= k < i ==> features.set().contains(v.deep_view()[k]),
                decreases v@.len() - i,
            {
                if !features.contains(v[i].as_str()) {
                    assert(!features.set().contains(names_of(*names)[i as int]));
                    return false;
                }
                i = i + 1;
            }
            true
        },
    }
}

/// Whether some name in `names` is in `features`.
pub fn any_present(names: &Option<Vec<String>>, features: &FeatureSet) -> (r: bool)
    ensures
        r == any_in(names_of(*names), features.set()),
{
    match names {
        None => false,
        Some(v) => {
            let mut i: usize = 0;
            while i < v.len()
                invariant
                    i <= v@.len(),
                    names_of(*names) == v.deep_view(),
                    forall|k: int| 0 <= k < i ==> !features.set().contains(v.deep_view()[k]),
                decreases v@.len() - i,
            {
                if features.contains(v[i].as_str()) {
                    assert(features.set().contains(names_of(*names)[i as int]));
                    return true;
                }
                i = i + 1;
            }
            false
        },
    }
}

/// Whether an entry with `condition` and `unless` applies to `features`.
pub fn applies_to(
    condition: &Option<Vec<String>>,
    unless: &Option<Vec<String>>,
    features: &FeatureSet,
) -> (r: bool)
    ensures
        r == applies(*condition, *unless, features.set()),
{
    all_present(condition, features) && !any_present(unless, features)
}

// ---------------------------------------------------------------------------
// Copies
// ---------------------------------------------------------------------------

/// A copy of an optional string.
pub fn copy_opt_string(o: &Option<String>) -> (r: Option<String>)
    ensures
        r == *o,
        r.deep_view() == o.deep_view(),
{
    match o {
        Some(s) => Some(copy_string(s)),
        None => None,
    }
}

/// A copy of an optional list of names.
pub fn copy_names(o: &Option<Vec<String>>) -> (r: Option<Vec<String>>)
    ensures
        r.deep_view() == o.deep_view(),
        names_of(r) == names_of(*o),
{
    match o {
        Some(v) => {
            let c = v.clone();
            assert(c@ =~= v@);
            assert(c.deep_view() =~= v.deep_view());
            Some(c)
        },
        None => None,
    }
}

// ---------------------------------------------------------------------------
// Where a resolved entry comes from
// ---------------------------------------------------------------------------

/// Whether a resolved entry comes from the project or from an SDK component;
/// its path is relative to the corresponding root.
#[derive(Debug, Clone, Copy, PartialEq, Eq, Structural)]
pub enum Parent {
    Project,
    SDK,
}

/// Entries that resolve to a form recording where they come from.
pub trait ResolvedWithParent {
    type T;

    fn resolved(&self, parent: Parent) -> Self::T;
}

/// Entries whose path can be placed under a component's root path.
pub trait WithRootPath: Sized {
    fn with_root_path(&self, root_path: &Option<String>) -> Self;
}

// ---------------------------------------------------------------------------
// Source files
// ---------------------------------------------------------------------------

#[derive(Debug)]
pub struct SourceFile {
    pub path: String,
    // Target directory
    pub directory: Option<String>,
    pub condition: Option<Vec<String>>,
    pub unless: Option<Vec<String>>,
}

impl SourceFile {
    /// Whether this entry applies to `features`.
    pub fn satisfied(&self, features: &FeatureSet) -> (r: bool)
        ensures
            r == applies(self.condition, self.unless, features.set()),
    {
        applies_to(&self.condition, &self.unless, features)
    }
}

impl WithRootPath for SourceFile {
    fn with_root_path(&self, root_path: &Option<String>) -> (r: Self)
        ensures
            r.path@ == spec_join_root(*root_path, self.path@),
            r.directory == self.directory,
            r.condition.deep_view() == self.condition.deep_view(),
            r.unless.deep_view() == self.unless.deep_view(),
    {
        SourceFile {
            path: join_root(root_path, self.path.as_str()),
            directory: copy_opt_string(&self.directory),
            condition: copy_names(&self.condition),
            unless: copy_names(&self.unless),
        }
    }
}

#[derive(Debug)]
pub struct ResolvedSourceFile {
    pub path: String,
    pub parent: Parent,
    pub directory: Option<String>,
}

impl DeepView for ResolvedSourceFile {
    /// (path, parent, directory)
    type V = (Seq<char>, Parent, Option<Seq<char>>);

    open spec fn deep_view(&self) -> Self::V {
        (self.path@, self.parent, self.directory.deep_view())
    }
}

impl ResolvedWithParent for SourceFile {
    type T = ResolvedSourceFile;

    fn resolved(&self, parent: Parent) -> (r: ResolvedSourceFile)
        ensures
            r.deep_view() == (self.path@, parent, self.directory.deep_view()),
    {
        ResolvedSourceFile {
            path: copy_string(&self.path),
            parent,
            directory: copy_opt_string(&self.directory),
        }
    }
}

// ---------------------------------------------------------------------------
// Config files
// ---------------------------------------------------------------------------

#[derive(Debug)]
pub struct ConfigFile {
    pub path: String,
    pub file_id: Option<String>,
    pub directory: Option<String>,
    pub export: Option<bool>,
    /// The component config file that this one replaces (`override:`).
    pub override_target: Option<ConfigFileOverride>,
    pub condition: Option<Vec<String>>,
    pub unless: Option<Vec<String>>,
}

impl ConfigFile {
    /// Whether this entry applies to `features`.
    pub fn satisfied(&self, features: &FeatureSet) -> (r: bool)
        ensures
            r == applies(self.condition, self.unless, features.set()),
    {
        applies_to(&self.condition, &self.unless, features)
    }
}

impl WithRootPath for ConfigFile {
    fn with_root_path(&self, root_path: &Option<String>) -> (r: Self)
        ensures
            r.path@ == spec_join_root(*root_path, self.path@),
            r.file_id == self.file_id,
            r.directory == self.directory,
            r.export == self.export,
            r.override_target == self.override_target,
            r.condition.deep_view() == self.condition.deep_view(),
            r.unless.deep_view() == self.unless.deep_view(),
    {
        ConfigFile {
            path: join_root(root_path, self.path.as_str()),
            file_id: copy_opt_string(&self.file_id),
            directory: copy_opt_string(&self.directory),
            export: self.export,
            override_target: match &self.override_target {
                Some(o) => Some(o.copy()),
                None => None,
            },
            condition: copy_names(&self.condition),
            unless: copy_names(&self.unless),
        }
    }
}

#[derive(Debug)]
pub struct ResolvedConfigFile {
    // Source path on disk, already instance-prefix-substituted
    pub path: String,
    pub parent: Parent,
    pub file_id: Option<String>,
    pub directory: Option<String>,
    pub export: Option<bool>,
    // Output file name override for instantiable components
    pub output_name: Option<String>,
    // Instance this file was expanded for
    pub instance: Option<String>,
}

impl DeepView for ResolvedConfigFile {
    /// (path, parent, file_id, directory, export, output_name, instance)
    type V = (
        Seq<char>,
        Parent,
        Option<Seq<char>>,
        Option<Seq<char>>,
        Option<bool>,
        Option<Seq<char>>,
        Option<Seq<char>>,
    );

    open spec fn deep_view(&self) -> Self::V {
        (
            self.path@,
            self.parent,
            self.file_id.deep_view(),
            self.directory.deep_view(),
            self.export,
            self.output_name.deep_view(),
            self.instance.deep_view(),
        )
    }
}

impl ResolvedConfigFile {
    /// A copy of this resolved config file.
    pub fn copy(&self) -> (r: ResolvedConfigFile)
        ensures
            r.deep_view() == self.deep_view(),
    {
        ResolvedConfigFile {
            path: copy_string(&self.path),
            parent: self.parent,
            file_id: copy_opt_string(&self.file_id),
            directory: copy_opt_string(&self.directory),
            export: self.export,
            output_name: copy_opt_string(&self.output_name),
            instance: copy_opt_string(&self.instance),
        }
    }
}

impl ResolvedWithParent for ConfigFile {
    type T = ResolvedConfigFile;

    fn resolved(&self, parent: Parent) -> (r: ResolvedConfigFile)
        ensures
            r.deep_view() == (
                self.path@,
                parent,
                self.file_id.deep_view(),
                self.directory.deep_view(),
                self.export,
                None::<Seq<char>>,
                None::<Seq<char>>,
            ),
    {
        ResolvedConfigFile {
            path: copy_string(&self.path),
            parent,
            file_id: copy_opt_string(&self.file_id),
            directory: copy_opt_string(&self.directory),
            export: self.export,
            output_name: None,
            instance: None,
        }
    }
}

/// Names the component config file (and, optionally, the instance) that a
/// project or component config file replaces.
#[derive(Debug, Clone, PartialEq, Eq, Hash)]
pub struct ConfigFileOverride {
    pub file_id: String,
    pub component: String,
    // Targets a single instance of an instantiable component
    pub instance: Option<String>,
}

impl DeepView for ConfigFileOverride {
    /// (file_id, component, instance)
    type V = (Seq<char>, Seq<char>, Option<Seq<char>>);

    open spec fn deep_view(&self) -> Self::V {
        (self.file_id@, self.component@, self.instance.deep_view())
    }
}

impl ConfigFileOverride {
    /// A copy of this override key.
    pub fn copy(&self) -> (r: ConfigFileOverride)
        ensures
            r == *self,
    {
        ConfigFileOverride {
            file_id: copy_string(&self.file_id),
            component: copy_string(&self.component),
            instance: copy_opt_string(&self.instance),
        }
    }

    /// Whether this override targets `file_id` of `component`, for the given
    /// instance (or for no particular instance when `instance` is `None`).
    pub fn targets(&self, file_id: &str, component: &str, instance: &Option<String>) -> (r: bool)
        ensures
            r == (self.deep_view() == (file_id@, component@, instance.deep_view())),
    {
        if !str_eq(self.file_id.as_str(), file_id) || !str_eq(self.component.as_str(), component) {
            return false;
        }
        match (&self.instance, instance) {
            (Some(a), Some(b)) => str_eq(a.as_str(), b.as_str()),
            (None, None) => true,
            _ => false,
        }
    }
}

// ---------------------------------------------------------------------------
// Include directories and headers
// ---------------------------------------------------------------------------

#[derive(Debug)]
pub struct IncludeEntry {
    pub path: String,
    pub directory: Option<String>,
    pub file_list: Option<Vec<HeaderFile>>,
    pub condition: Option<Vec<String>>,
    pub unless: Option<Vec<String>>,
}

impl IncludeEntry {
    /// Whether this entry applies to `features`.
    pub fn satisfied(&self, features: &FeatureSet) -> (r: bool)
        ensures
            r == applies(self.condition, self.unless, features.set()),
    {
        applies_to(&self.condition, &self.unless, features)
    }
}

impl WithRootPath for IncludeEntry {
    fn with_root_path(&self, root_path: &Option<String>) -> (r: Self)
        ensures
            r.path@ == spec_join_root(*root_path, self.path@),
            r.directory == self.directory,
            r.file_list.deep_view() == self.file_list.deep_view(),
            r.condition.deep_view() == self.condition.deep_view(),
            r.unless.deep_view() == self.unless.deep_view(),
    {
        let file_list = match &self.file_list {
            Some(list) => {
                let mut out: Vec<HeaderFile> = Vec::new();
                let mut i: usize = 0;
                while i < list.len()
                    invariant
                        i <= list@.len(),
                        out.deep_view() == list.deep_view().take(i as int),
                    decreases list@.len() - i,
                {
                    let ghost before = out.deep_view();
                    out.push(list[i].copy());
                    assert(out.deep_view() =~= before.push(list@[i as int].deep_view()));
                    assert(list.deep_view().take(i + 1) =~= list.deep_view().take(i as int).push(
                        list@[i as int].deep_view(),
                    ));
                    i = i + 1;
                }
                assert(list.deep_view().take(list@.len() as int) =~= list.deep_view());
                Some(out)
            },
            None => None,
        };
        IncludeEntry {
            path: join_root(root_path, self.path.as_str()),
            directory: copy_opt_string(&self.directory),
            file_list,
            condition: copy_names(&self.condition),
            unless: copy_names(&self.unless),
        }
    }
}

#[derive(Debug)]
pub struct ResolvedIncludeEntry {
    pub path: String,
    pub parent: Parent,
    pub directory: Option<String>,
    pub file_list: Option<Vec<ResolvedHeaderFile>>,
}

impl DeepView for ResolvedIncludeEntry {
    /// (path, parent, directory, header paths)
    type V = (Seq<char>, Parent, Option<Seq<char>>, Option<Seq<Seq<char>>>);

    open spec fn deep_view(&self) -> Self::V {
        (self.path@, self.parent, self.directory.deep_view(), self.file_list.deep_view())
    }
}

#[derive(Debug)]
pub struct HeaderFile {
    pub path: String,
    pub condition: Option<Vec<String>>,
    pub unless: Option<Vec<String>>,
}

impl DeepView for HeaderFile {
    /// (path, condition, unless)
    type V = (Seq<char>, Option<Seq<Seq<char>>>, Option<Seq<Seq<char>>>);

    open spec fn deep_view(&self) -> Self::V {
        (self.path@, self.condition.deep_view(), self.unless.deep_view())
    }
}

impl HeaderFile {
    /// Whether this entry applies to `features`.
    pub fn satisfied(&self, features: &FeatureSet) -> (r: bool)
        ensures
            r == applies(self.condition, self.unless, features.set()),
    {
        applies_to(&self.condition, &self.unless, features)
    }

    /// A copy of this entry.
    pub fn copy(&self) -> (r: HeaderFile)
        ensures
            r.deep_view() == self.deep_view(),
    {
        HeaderFile {
            path: copy_string(&self.path),
            condition: copy_names(&self.condition),
            unless: copy_names(&self.unless),
        }
    }
}

#[derive(Debug)]
pub struct ResolvedHeaderFile {
    pub path: String,
}

impl DeepView for ResolvedHeaderFile {
    type V = Seq<char>;

    open spec fn deep_view(&self) -> Seq<char> {
        self.path@
    }
}

impl ResolvedHeaderFile {
    /// The resolved form of a header entry: its path.
    pub fn from(h: &HeaderFile) -> (r: ResolvedHeaderFile)
        ensures
            r.path == h.path,
    {
        ResolvedHeaderFile { path: copy_string(&h.path) }
    }
}

// ---------------------------------------------------------------------------
// Defines
// ---------------------------------------------------------------------------

#[derive(Debug)]
pub struct Define {
    pub name: String,
    pub value: Option<String>,
    pub condition: Option<Vec<String>>,
    pub unless: Option<Vec<String>>,
}

impl Define {
    /// Whether this entry applies to `features`.
    pub fn satisfied(&self, features: &FeatureSet) -> (r: bool)
        ensures
            r == applies(self.condition, self.unless, features.set()),
    {
        applies_to(&self.condition, &self.unless, features)
    }
}

#[derive(Debug)]
pub struct ResolvedDefine {
    pub name: String,
    pub value: Option<String>,
}

impl DeepView for ResolvedDefine {
    /// (name, value)
    type V = (Seq<char>, Option<Seq<char>>);

    open spec fn deep_view(&self) -> Self::V {
        (self.name@, self.value.deep_view())
    }
}

impl ResolvedDefine {
    /// The resolved form of a define: its name and value.
    pub fn from(d: &Define) -> (r: ResolvedDefine)
        ensures
            r.name == d.name,
            r.value == d.value,
            r.deep_view() == (d.name@, d.value.deep_view()),
    {
        ResolvedDefine { name: copy_string(&d.name), value: copy_opt_string(&d.value) }
    }
}

// ---------------------------------------------------------------------------
// Features, requirements, conflicts, recommendations
// ---------------------------------------------------------------------------

#[derive(Debug)]
pub struct Feature {
    pub name: String,
    pub condition: Option<Vec<String>>,
    pub allow_multiple: Option<bool>,
}

impl Feature {
    /// Whether this provide is active for `features`.
    pub fn satisfied(&self, features: &FeatureSet) -> (r: bool)
        ensures
            r == cond_holds(self.condition, features.set()),
    {
        all_present(&self.condition, features)
    }
}

#[derive(Debug)]
pub struct Require {
    pub name: String,
    pub condition: Option<Vec<String>>,
}

impl Require {
    /// Whether this requirement is active for `features`.
    pub fn satisfied(&self, features: &FeatureSet) -> (r: bool)
        ensures
            r == cond_holds(self.condition, features.set()),
    {
        all_present(&self.condition, features)
    }
}

#[derive(Debug)]
pub struct Conflict {
    pub name: String,
    pub condition: Option<Vec<String>>,
}

impl Conflict {
    /// Whether this conflict is active for `features`.
    pub fn satisfied(&self, features: &FeatureSet) -> (r: bool)
        ensures
            r == cond_holds(self.condition, features.set()),
    {
        all_present(&self.condition, features)
    }
}

#[derive(Debug)]
pub struct Recommendation {
    pub id: String,
    pub condition: Option<Vec<String>>,
}

impl Recommendation {
    /// Whether this recommendation is active for `features`.
    pub fn satisfied(&self, features: &FeatureSet) -> (r: bool)
        ensures
            r == cond_holds(self.condition, features.set()),
    {
        all_present(&self.condition, features)
    }
}

// ---------------------------------------------------------------------------
// Template contributions and template files
// ---------------------------------------------------------------------------

#[derive(Debug)]
pub struct TemplateContribution {
    pub name: String,
    pub value: minijinja::Value,
    pub priority: Option<i16>,
    pub condition: Option<Vec<String>>,
    pub unless: Option<Vec<String>>,
}

impl TemplateContribution {
    /// Whether this entry applies to `features`.
    pub fn satisfied(&self, features: &FeatureSet) -> (r: bool)
        ensures
            r == applies(self.condition, self.unless, features.set()),
    {
        applies_to(&self.condition, &self.unless, features)
    }
}

#[derive(Debug)]
pub struct IntermediateTemplateContribution {
    pub name: String,
    pub value: minijinja::Value,
    pub priority: Option<i16>,
    // Contributing component id, used as tiebreak when priorities match
    pub component_id: String,
}

impl DeepView for IntermediateTemplateContribution {
    /// (name, value, priority, component id)
    type V = (Seq<char>, minijinja::Value, Option<i16>, Seq<char>);

    open spec fn deep_view(&self) -> Self::V {
        (self.name@, self.value, self.priority, self.component_id@)
    }
}

impl IntermediateTemplateContribution {
    /// A contribution tagged with the id of the component that made it.
    pub fn from_contribution(t: &TemplateContribution, component_id: String) -> (r: Self)
        ensures
            r.name == t.name,
            r.value == t.value,
            r.priority == t.priority,
            r.component_id == component_id,
    {
        IntermediateTemplateContribution {
            name: copy_string(&t.name),
            value: clone_value(&t.value),
            priority: t.priority,
            component_id,
        }
    }
}

#[derive(Debug)]
pub struct TemplateFile {
    pub path: String,
    pub condition: Option<Vec<String>>,
    pub unless: Option<Vec<String>>,
    pub export: Option<bool>,
}

impl TemplateFile {
    /// Whether this entry applies to `features`.
    pub fn satisfied(&self, features: &FeatureSet) -> (r: bool)
        ensures
            r == applies(self.condition, self.unless, features.set()),
    {
        applies_to(&self.condition, &self.unless, features)
    }
}

impl WithRootPath for TemplateFile {
    fn with_root_path(&self, root_path: &Option<String>) -> (r: Self)
        ensures
            r.path@ == spec_join_root(*root_path, self.path@),
            r.export == self.export,
            r.condition.deep_view() == self.condition.deep_view(),
            r.unless.deep_view() == self.unless.deep_view(),
    {
        TemplateFile {
            path: join_root(root_path, self.path.as_str()),
            condition: copy_names(&self.condition),
            unless: copy_names(&self.unless),
            export: self.export,
        }
    }
}

#[derive(Debug)]
pub struct ResolvedTemplateFile {
    pub path: String,
    pub parent: Parent,
    pub export: Option<bool>,
}

impl DeepView for ResolvedTemplateFile {
    /// (path, parent, export)
    type V = (Seq<char>, Parent, Option<bool>);

    open spec fn deep_view(&self) -> Self::V {
        (self.path@, self.parent, self.export)
    }
}

impl ResolvedWithParent for TemplateFile {
    type T = ResolvedTemplateFile;

    fn resolved(&self, parent: Parent) -> (r: ResolvedTemplateFile)
        ensures
            r.deep_view() == (self.path@, parent, self.export),
    {
        ResolvedTemplateFile { path: copy_string(&self.path), parent, export: self.export }
    }
}

// ---------------------------------------------------------------------------
// Libraries
// ---------------------------------------------------------------------------

#[derive(Debug)]
pub enum Library {
    System(SystemLibrary),
    SDK(SDKLibrary),
}

impl Library {
    /// Whether this entry applies to `features`.
    pub fn satisfied(&self, features: &FeatureSet) -> (r: bool)
        ensures
            r == match self {
                Library::System(s) => applies(s.condition, s.unless, features.set()),
                Library::SDK(s) => applies(s.condition, s.unless, features.set()),
            },
    {
        match self {
            Library::System(s) => applies_to(&s.condition, &s.unless, features),
            Library::SDK(s) => applies_to(&s.condition, &s.unless, features),
        }
    }
}

/// The resolved form of a library entry.
pub open spec fn spec_resolved_library(l: Library) -> ResolvedLibrary {
    match l {
        Library::System(s) => ResolvedLibrary::System(ResolvedSystemLibrary { system: s.system }),
        Library::SDK(s) => ResolvedLibrary::SDK(ResolvedSDKLibrary { path: s.path }),
    }
}

#[derive(Debug)]
pub enum ResolvedLibrary {
    System(ResolvedSystemLibrary),
    SDK(ResolvedSDKLibrary),
}

impl ResolvedLibrary {
    /// The resolved form of a library entry.
    pub fn from(l: &Library) -> (r: ResolvedLibrary)
        ensures
            r == spec_resolved_library(*l),
    {
        match l {
            Library::System(s) => ResolvedLibrary::System(ResolvedSystemLibrary::from(s)),
            Library::SDK(s) => ResolvedLibrary::SDK(ResolvedSDKLibrary::from(s)),
        }
    }
}

#[derive(Debug)]
pub struct SystemLibrary {
    pub system: String,
    pub condition: Option<Vec<String>>,
    pub unless: Option<Vec<String>>,
}

#[derive(Debug)]
pub struct ResolvedSystemLibrary {
    pub system: String,
}

impl ResolvedSystemLibrary {
    /// The resolved form of a system library: its name.
    pub fn from(s: &SystemLibrary) -> (r: ResolvedSystemLibrary)
        ensures
            r.system == s.system,
    {
        ResolvedSystemLibrary { system: copy_string(&s.system) }
    }
}

#[derive(Debug)]
pub struct SDKLibrary {
    pub path: String,
    pub condition: Option<Vec<String>>,
    pub unless: Option<Vec<String>>,
}

#[derive(Debug)]
pub struct ResolvedSDKLibrary {
    pub path: String,
}

impl ResolvedSDKLibrary {
    /// The resolved form of an SDK library: its path.
    pub fn from(s: &SDKLibrary) -> (r: ResolvedSDKLibrary)
        ensures
            r.path == s.path,
    {
        ResolvedSDKLibrary { path: copy_string(&s.path) }
    }
}

// ---------------------------------------------------------------------------
// Quality
// ---------------------------------------------------------------------------

/// Component/project quality level
#[derive(Debug, Clone, Copy, PartialEq, Eq, Structural)]
pub enum Quality {
    Production,
    Evaluation,
    Experimental,
    Deprecated,
    Internal,
}

/// The quality level a name stands for: the five level names, the legacy
/// alias `test` for experimental, and evaluation for anything else.
pub open spec fn spec_quality(s: Seq<char>) -> Quality {
    if s == "production"@ {
        Quality::Production
    } else if s == "evaluation"@ {
        Quality::Evaluation
    } else if s == "experimental"@ {
        Quality::Experimental
    } else if s == "deprecated"@ {
        Quality::Deprecated
    } else if s == "internal"@ {
        Quality::Internal
    } else if s == "test"@ {
        Quality::Experimental
    } else {
        Quality::Evaluation
    }
}

impl Quality {
    pub fn from_str_lossy(s: &str) -> (r: Self)
        ensures
            r == spec_quality(s@),
    {
        if str_eq(s, "production") {
            Quality::Production
        } else if str_eq(s, "evaluation") {
            Quality::Evaluation
        } else if str_eq(s, "experimental") {
            Quality::Experimental
        } else if str_eq(s, "deprecated") {
            Quality::Deprecated
        } else if str_eq(s, "internal") {
            Quality::Internal
        } else if str_eq(s, "test") {
            // Legacy alias retained for backwards compatibility
            Quality::Experimental
        } else {
            Quality::Evaluation
        }
    }
}

// ---------------------------------------------------------------------------
// Other entries
// ---------------------------------------------------------------------------

/// A component that can be included multiple times under distinct instance names
#[derive(Debug)]
pub struct Instantiable {
    pub prefix: String,
}

/// A project-level override of a component configuration option
#[derive(Debug)]
pub struct Configuration {
    pub name: String,
    pub value: String,
    pub condition: Option<Vec<String>>,
    pub unless: Option<Vec<String>>,
}

impl DeepView for Configuration {
    /// (name, value, condition, unless)
    type V = (Seq<char>, Seq<char>, Option<Seq<Seq<char>>>, Option<Seq<Seq<char>>>);

    open spec fn deep_view(&self) -> Self::V {
        (self.name@, self.value@, self.condition.deep_view(), self.unless.deep_view())
    }
}

impl Configuration {
    /// Whether this entry applies to `features`.
    pub fn satisfied(&self, features: &FeatureSet) -> (r: bool)
        ensures
            r == applies(self.condition, self.unless, features.set()),
    {
        applies_to(&self.condition, &self.unless, features)
    }

    /// A copy of this entry.
    pub fn copy(&self) -> (r: Configuration)
        ensures
            r.deep_view() == self.deep_view(),
    {
        Configuration {
            name: copy_string(&self.name),
            value: copy_string(&self.value),
            condition: copy_names(&self.condition),
            unless: copy_names(&self.unless),
        }
    }
}

#[derive(Debug)]
pub struct ToolchainSetting {
    pub option: String,
    pub value: String,
    pub condition: Option<Vec<String>>,
    pub unless: Option<Vec<String>>,
}

#[derive(Debug)]
pub struct OtherFile {
    pub path: String,
    pub directory: Option<String>,
    pub condition: Option<Vec<String>>,
    pub unless: Option<Vec<String>>,
}

#[derive(Debug)]
pub struct PostBuildEntry {
    // Exactly one of profile/path is expected
    pub profile: Option<String>,
    pub path: Option<String>,
    pub condition: Option<Vec<String>>,
    pub unless: Option<Vec<String>>,
}

#[derive(Debug)]
pub enum PostBuild {
    One(PostBuildEntry),
    Many(Vec<PostBuildEntry>),
}

/// `std::slice::from_ref`: the one-element slice holding `e`.
#[verifier::external_body]
fn slice_from_ref<T>(e: &T) -> (r: &[T])
    ensures
        r@ == seq![*e],
{
    std::slice::from_ref(e)
}

impl PostBuild {
    /// The post-build entries, whether one or many were given.
    pub fn entries(&self) -> (r: &[PostBuildEntry])
        ensures
            r@ == match self {
                PostBuild::One(e) => seq![*e],
                PostBuild::Many(v) => v@,
            },
    {
        match self {
            PostBuild::One(e) => slice_from_ref(e),
            PostBuild::Many(v) => v.as_slice(),
        }
    }
}

} // verus!
