//! Projects (`.slcp`): what they declare, and the resolution of the
//! components they need.

use vstd::prelude::*;

use crate::component::ComponentId;
use crate::definitions::{
    ConfigFile,
    Configuration,
    Conflict,
    Define,
    Feature,
    IncludeEntry,
    Library,
    OtherFile,
    PostBuild,
    Quality,
    Require,
    SourceFile,
    TemplateContribution,
    ToolchainSetting,
};
use crate::sdk::SDKId;

verus! {

/// A project as its `.slcp` file declares it.
#[derive(Debug)]
pub struct ProjectRaw {
    /// The project name (`project_name`, or the older `name`).
    pub project_name: String,
    pub quality: Option<Quality>,
    pub sdk: SDKId,
    pub source: Option<Vec<SourceFile>>,
    pub includes: Option<Vec<IncludeEntry>>,
    pub config_file: Option<Vec<ConfigFile>>,
    pub component: Option<Vec<ComponentId>>,
    pub define: Option<Vec<Define>>,
    pub requires: Option<Vec<Require>>,
    pub provides: Option<Vec<Feature>>,
    pub conflicts: Option<Vec<Conflict>>,
    pub library: Option<Vec<Library>>,
    pub template_contribution: Option<Vec<TemplateContribution>>,
    pub configuration: Option<Vec<Configuration>>,
    pub toolchain_settings: Option<Vec<ToolchainSetting>>,
    pub other_file: Option<Vec<OtherFile>>,
    pub post_build: Option<PostBuild>,
}

#[derive(Debug)]
pub struct Project {
    pub project_name: String,
    pub quality: Option<Quality>,
    pub sdk: SDKId,
    pub root_path: String,
    pub source: Option<Vec<SourceFile>>,
    pub includes: Option<Vec<IncludeEntry>>,
    pub config_file: Option<Vec<ConfigFile>>,
    pub component: Option<Vec<ComponentId>>,
    pub define: Option<Vec<Define>>,
    pub requires: Option<Vec<Require>>,
    pub provides: Option<Vec<Feature>>,
    pub conflicts: Option<Vec<Conflict>>,
    pub library: Option<Vec<Library>>,
    pub template_contribution: Option<Vec<TemplateContribution>>,
    pub configuration: Option<Vec<Configuration>>,
    pub toolchain_settings: Option<Vec<ToolchainSetting>>,
    pub other_file: Option<Vec<OtherFile>>,
    pub post_build: Option<PostBuild>,
}

impl Project {
    /// The project that a declaration describes, rooted at `root_path`; every
    /// entry is taken as declared.
    pub fn from_raw(raw: ProjectRaw, root_path: String) -> (r: Project)
        ensures
            r.project_name == raw.project_name,
            r.quality == raw.quality,
            r.sdk == raw.sdk,
            r.root_path == root_path,
            r.source == raw.source,
            r.includes == raw.includes,
            r.config_file == raw.config_file,
            r.component == raw.component,
            r.define == raw.define,
            r.requires == raw.requires,
            r.provides == raw.provides,
            r.conflicts == raw.conflicts,
            r.library == raw.library,
            r.template_contribution == raw.template_contribution,
            r.configuration == raw.configuration,
            r.toolchain_settings == raw.toolchain_settings,
            r.other_file == raw.other_file,
            r.post_build == raw.post_build,
    {
        Project {
            project_name: raw.project_name,
            quality: raw.quality,
            sdk: raw.sdk,
            root_path,
            source: raw.source,
            includes: raw.includes,
            config_file: raw.config_file,
            component: raw.component,
            define: raw.define,
            requires: raw.requires,
            provides: raw.provides,
            conflicts: raw.conflicts,
            library: raw.library,
            template_contribution: raw.template_contribution,
            configuration: raw.configuration,
            toolchain_settings: raw.toolchain_settings,
            other_file: raw.other_file,
            post_build: raw.post_build,
        }
    }
}

} // verus!
