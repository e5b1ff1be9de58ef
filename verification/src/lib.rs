//! Resolution of Silicon Labs SDK projects (`.slcp`) against an SDK
//! (`.slcs`, `.slcc`): which components a project needs, what they
//! contribute, and how config files and templates are laid out.

pub mod text;
pub mod features;
pub mod paths;
pub mod instance;
pub mod definitions;
pub mod component;
pub mod sdk;
pub mod project;
pub mod resolve;
pub mod instances;
pub mod resolution;
pub mod parsed;
pub mod contributions;
pub mod config_text;
pub mod template_text;

pub use component::{strip_omap, Component, ComponentId, ComponentPath, ComponentRaw};
pub use config_text::{rewrite_define_line, rewrite_defines};
pub use contributions::ContributionMap;
pub use definitions::{
    ConfigFile, ConfigFileOverride, Configuration, Conflict, Define, Feature, HeaderFile,
    IncludeEntry, Instantiable, IntermediateTemplateContribution, Library, OtherFile, Parent,
    PostBuild, PostBuildEntry, Quality, Recommendation, Require, ResolvedConfigFile,
    ResolvedDefine, ResolvedHeaderFile, ResolvedIncludeEntry, ResolvedLibrary,
    ResolvedSDKLibrary, ResolvedSourceFile, ResolvedSystemLibrary, ResolvedTemplateFile,
    ResolvedWithParent, SDKLibrary, SourceFile, SystemLibrary, TemplateContribution,
    TemplateFile, ToolchainSetting, WithRootPath,
};
pub use features::FeatureSet;
pub use instance::{has_instance_ph, substitute_instance, transform_instance_content};
pub use instances::InstanceMap;
pub use parsed::{template_destination, template_source_name, ParsedProject};
pub use paths::{is_header, join_root};
pub use project::{Project, ProjectRaw};
pub use resolution::ResolveResult;
pub use resolve::ResolveError;
pub use sdk::{SDKId, SDKRaw, SDK};
pub use template_text::{appendable_list_function, banner, prepare_template};
