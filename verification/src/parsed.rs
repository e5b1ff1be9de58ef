//! A project with its components resolved: the sources, include
//! directories, defines, libraries, template files, template contributions
//! and config files that apply to its feature set, with their paths placed
//! under their components' root paths.

use vstd::prelude::*;

use std::rc::Rc;

use crate::component::Component;
use crate::contributions::{contribs_view, contribution_map, push_contributions, ContribView, ContributionMap};
use crate::definitions::{
    applies,
    copy_opt_string,
    Configuration,
    ConfigFile,
    ConfigFileOverride,
    ResolvedConfigFile,
    spec_resolved_library,
    Define,
    HeaderFile,
    IncludeEntry,
    IntermediateTemplateContribution,
    Library,
    Parent,
    ResolvedDefine,
    ResolvedHeaderFile,
    ResolvedIncludeEntry,
    ResolvedLibrary,
    ResolvedSourceFile,
    ResolvedTemplateFile,
    ResolvedWithParent,
    SourceFile,
    TemplateFile,
    WithRootPath,
};
use crate::features::FeatureSet;
use crate::instance::{
    has_instance_ph,
    spec_has_instance_ph,
    spec_substitute,
    spec_transform_instance_content,
    substitute_instance,
};
use crate::config_text::{rewrite_defines, spec_rewrite_defines};
use crate::text::{chars_end_with, ends_with};
use crate::paths::{file_name, is_header, join_path, join_root, spec_file_name, spec_is_header, spec_join, spec_join_root};
use crate::resolve::opt_seq;
use crate::project::Project;
use crate::resolution::ResolveResult;
use crate::sdk::SDK;

verus! {

broadcast use vstd::string::group_string_axioms;

// ---------------------------------------------------------------------------
// Sources
// ---------------------------------------------------------------------------

/// The resolved form of the entries of `es` that apply in `p`, their paths
/// placed under `root`.
pub open spec fn sources_view(
    es: Seq<SourceFile>,
    root: Option<String>,
    parent: Parent,
    p: Set<Seq<char>>,
) -> Seq<(Seq<char>, Parent, Option<Seq<char>>)>
    decreases es.len(),
{
    if es.len() == 0 {
        Seq::empty()
    } else {
        let prev = sources_view(es.drop_last(), root, parent, p);
        let e = es.last();
        if applies(e.condition, e.unless, p) {
            prev.push((spec_join_root(root, e.path@), parent, e.directory.deep_view()))
        } else {
            prev
        }
    }
}

/// Appends the resolved form of the entries of `es` that apply in `p`.
pub fn push_sources(
    out: &mut Vec<ResolvedSourceFile>,
    es: &Option<Vec<SourceFile>>,
    root: &Option<String>,
    parent: Parent,
    p: &FeatureSet,
)
    ensures
        final(out).deep_view() == old(out).deep_view() + sources_view(opt_seq(*es), *root, parent, p.set()),
{
    let ghost start = out.deep_view();
    match es {
        Some(list) => {
            let mut i: usize = 0;
            while i < list.len()
                invariant
                    i <= list@.len(),
                    out.deep_view() == start + sources_view(list@.take(i as int), *root, parent, p.set()),
                decreases list@.len() - i,
            {
                assert(list@.take(i + 1).drop_last() =~= list@.take(i as int));
                assert(list@.take(i + 1).last() == list@[i as int]);
                let e = &list[i];
                if e.satisfied(p) {
                    let ghost before = out.deep_view();
                    out.push(e.with_root_path(root).resolved(parent));
                    assert(out.deep_view() =~= before.push(
                        (spec_join_root(*root, e.path@), parent, e.directory.deep_view()),
                    ));
                }
                i = i + 1;
            }
            assert(list@.take(list@.len() as int) =~= list@);
        },
        None => {
            assert(out.deep_view() =~= start + Seq::empty());
        },
    }
}

// ---------------------------------------------------------------------------
// Include directories
// ---------------------------------------------------------------------------

/// The paths of the header entries of `hs` that apply in `p`.
pub open spec fn headers_view(hs: Seq<HeaderFile>, p: Set<Seq<char>>) -> Seq<Seq<char>>
    decreases hs.len(),
{
    if hs.len() == 0 {
        Seq::empty()
    } else {
        let prev = headers_view(hs.drop_last(), p);
        let h = hs.last();
        if applies(h.condition, h.unless, p) {
            prev.push(h.path@)
        } else {
            prev
        }
    }
}

/// The header list of an include entry, restricted to the headers that
/// apply in `p`.
pub open spec fn file_list_view(fl: Option<Vec<HeaderFile>>, p: Set<Seq<char>>) -> Option<Seq<Seq<char>>> {
    match fl {
        Some(v) => Some(headers_view(v@, p)),
        None => None,
    }
}

/// The resolved form of the include entries of `es` that apply in `p`.
pub open spec fn includes_view(
    es: Seq<IncludeEntry>,
    root: Option<String>,
    parent: Parent,
    p: Set<Seq<char>>,
) -> Seq<(Seq<char>, Parent, Option<Seq<char>>, Option<Seq<Seq<char>>>)>
    decreases es.len(),
{
    if es.len() == 0 {
        Seq::empty()
    } else {
        let prev = includes_view(es.drop_last(), root, parent, p);
        let e = es.last();
        if applies(e.condition, e.unless, p) {
            prev.push(
                (
                    spec_join_root(root, e.path@),
                    parent,
                    e.directory.deep_view(),
                    file_list_view(e.file_list, p),
                ),
            )
        } else {
            prev
        }
    }
}

/// The headers of `fl` that apply in `p`.
fn resolve_headers(fl: &Option<Vec<HeaderFile>>, p: &FeatureSet) -> (r: Option<Vec<ResolvedHeaderFile>>)
    ensures
        r.deep_view() == file_list_view(*fl, p.set()),
{
    match fl {
        Some(list) => {
            let mut out: Vec<ResolvedHeaderFile> = Vec::new();
            let mut i: usize = 0;
            while i < list.len()
                invariant
                    i <= list@.len(),
                    out.deep_view() == headers_view(list@.take(i as int), p.set()),
                decreases list@.len() - i,
            {
                assert(list@.take(i + 1).drop_last() =~= list@.take(i as int));
                assert(list@.take(i + 1).last() == list@[i as int]);
                let h = &list[i];
                if h.satisfied(p) {
                    let ghost before = out.deep_view();
                    out.push(ResolvedHeaderFile::from(h));
                    assert(out.deep_view() =~= before.push(h.path@));
                }
                i = i + 1;
            }
            assert(list@.take(list@.len() as int) =~= list@);
            Some(out)
        },
        None => None,
    }
}

/// Appends the resolved form of the include entries of `es` that apply in
/// `p`.
pub fn push_includes(
    out: &mut Vec<ResolvedIncludeEntry>,
    es: &Option<Vec<IncludeEntry>>,
    root: &Option<String>,
    parent: Parent,
    p: &FeatureSet,
)
    ensures
        final(out).deep_view() == old(out).deep_view() + includes_view(opt_seq(*es), *root, parent, p.set()),
{
    let ghost start = out.deep_view();
    match es {
        Some(list) => {
            let mut i: usize = 0;
            while i < list.len()
                invariant
                    i <= list@.len(),
                    out.deep_view() == start + includes_view(list@.take(i as int), *root, parent, p.set()),
                decreases list@.len() - i,
            {
                assert(list@.take(i + 1).drop_last() =~= list@.take(i as int));
                assert(list@.take(i + 1).last() == list@[i as int]);
                let e = &list[i];
                if e.satisfied(p) {
                    let file_list = resolve_headers(&e.file_list, p);
                    let placed = e.with_root_path(root);
                    let ghost before = out.deep_view();
                    out.push(
                        ResolvedIncludeEntry {
                            path: placed.path,
                            parent,
                            directory: placed.directory,
                            file_list,
                        },
                    );
                    assert(out.deep_view() =~= before.push(
                        (
                            spec_join_root(*root, e.path@),
                            parent,
                            e.directory.deep_view(),
                            file_list_view(e.file_list, p.set()),
                        ),
                    ));
                }
                i = i + 1;
            }
            assert(list@.take(list@.len() as int) =~= list@);
        },
        None => {
            assert(out.deep_view() =~= start + Seq::empty());
        },
    }
}

// ---------------------------------------------------------------------------
// Template files
// ---------------------------------------------------------------------------

/// The resolved form of the template entries of `es` that apply in `p`.
pub open spec fn templates_view(
    es: Seq<TemplateFile>,
    root: Option<String>,
    parent: Parent,
    p: Set<Seq<char>>,
) -> Seq<(Seq<char>, Parent, Option<bool>)>
    decreases es.len(),
{
    if es.len() == 0 {
        Seq::empty()
    } else {
        let prev = templates_view(es.drop_last(), root, parent, p);
        let e = es.last();
        if applies(e.condition, e.unless, p) {
            prev.push((spec_join_root(root, e.path@), parent, e.export))
        } else {
            prev
        }
    }
}

/// Appends the resolved form of the template entries of `es` that apply in
/// `p`.
pub fn push_templates(
    out: &mut Vec<ResolvedTemplateFile>,
    es: &Option<Vec<TemplateFile>>,
    root: &Option<String>,
    parent: Parent,
    p: &FeatureSet,
)
    ensures
        final(out).deep_view() == old(out).deep_view() + templates_view(opt_seq(*es), *root, parent, p.set()),
{
    let ghost start = out.deep_view();
    match es {
        Some(list) => {
            let mut i: usize = 0;
            while i < list.len()
                invariant
                    i <= list@.len(),
                    out.deep_view() == start + templates_view(list@.take(i as int), *root, parent, p.set()),
                decreases list@.len() - i,
            {
                assert(list@.take(i + 1).drop_last() =~= list@.take(i as int));
                assert(list@.take(i + 1).last() == list@[i as int]);
                let e = &list[i];
                if e.satisfied(p) {
                    let ghost before = out.deep_view();
                    out.push(e.with_root_path(root).resolved(parent));
                    assert(out.deep_view() =~= before.push(
                        (spec_join_root(*root, e.path@), parent, e.export),
                    ));
                }
                i = i + 1;
            }
            assert(list@.take(list@.len() as int) =~= list@);
        },
        None => {
            assert(out.deep_view() =~= start + Seq::empty());
        },
    }
}

// ---------------------------------------------------------------------------
// Libraries
// ---------------------------------------------------------------------------

/// Whether a library entry applies in `p`.
pub open spec fn library_applies(l: Library, p: Set<Seq<char>>) -> bool {
    match l {
        Library::System(s) => applies(s.condition, s.unless, p),
        Library::SDK(s) => applies(s.condition, s.unless, p),
    }
}

/// The resolved form of the library entries of `es` that apply in `p`.
pub open spec fn libraries_view(es: Seq<Library>, p: Set<Seq<char>>) -> Seq<ResolvedLibrary>
    decreases es.len(),
{
    if es.len() == 0 {
        Seq::empty()
    } else {
        let prev = libraries_view(es.drop_last(), p);
        if library_applies(es.last(), p) {
            prev.push(spec_resolved_library(es.last()))
        } else {
            prev
        }
    }
}

/// Appends the resolved form of the library entries of `es` that apply in
/// `p`.
pub fn push_libraries(out: &mut Vec<ResolvedLibrary>, es: &Option<Vec<Library>>, p: &FeatureSet)
    ensures
        final(out)@ == old(out)@ + libraries_view(opt_seq(*es), p.set()),
{
    let ghost start = out@;
    match es {
        Some(list) => {
            let mut i: usize = 0;
            while i < list.len()
                invariant
                    i <= list@.len(),
                    out@ == start + libraries_view(list@.take(i as int), p.set()),
                decreases list@.len() - i,
            {
                assert(list@.take(i + 1).drop_last() =~= list@.take(i as int));
                assert(list@.take(i + 1).last() == list@[i as int]);
                let e = &list[i];
                if e.satisfied(p) {
                    let ghost before = out@;
                    out.push(ResolvedLibrary::from(e));
                    assert(out@ =~= before.push(spec_resolved_library(*e)));
                }
                i = i + 1;
            }
            assert(list@.take(list@.len() as int) =~= list@);
        },
        None => {
            assert(out@ =~= start + Seq::empty());
        },
    }
}

// ---------------------------------------------------------------------------
// Defines
// ---------------------------------------------------------------------------

/// Whether a define holds an `{{instance}}` placeholder in its name or value.
pub open spec fn define_has_placeholder(e: Define) -> bool {
    spec_has_instance_ph(e.name@) || match e.value {
        Some(v) => spec_has_instance_ph(v@),
        None => false,
    }
}

/// The resolved defines that the define `e` gives: one per instance, with
/// the placeholder substituted, when `expand` holds and `e` has a
/// placeholder; else `e` itself.
pub open spec fn define_expand(e: Define, insts: Seq<Seq<char>>, expand: bool) -> Seq<(Seq<char>, Option<Seq<char>>)> {
    if expand && define_has_placeholder(e) {
        insts.map_values(
            |i: Seq<char>|
                (
                    spec_substitute(e.name@, i),
                    match e.value {
                        Some(v) => Some(spec_substitute(v@, i)),
                        None => None,
                    },
                ),
        )
    } else {
        seq![(e.name@, e.value.deep_view())]
    }
}

/// The resolved defines given by the define entries of `es` that apply in
/// `p`.
pub open spec fn defines_view(
    es: Seq<Define>,
    insts: Seq<Seq<char>>,
    expand: bool,
    p: Set<Seq<char>>,
) -> Seq<(Seq<char>, Option<Seq<char>>)>
    decreases es.len(),
{
    if es.len() == 0 {
        Seq::empty()
    } else {
        let prev = defines_view(es.drop_last(), insts, expand, p);
        let e = es.last();
        if applies(e.condition, e.unless, p) {
            prev + define_expand(e, insts, expand)
        } else {
            prev
        }
    }
}

/// Appends the resolved defines given by the define entries of `es` that
/// apply in `p`, expanded per instance of `insts` when `expand` holds.
pub fn push_defines(
    out: &mut Vec<ResolvedDefine>,
    es: &Option<Vec<Define>>,
    insts: &Vec<String>,
    expand: bool,
    p: &FeatureSet,
)
    ensures
        final(out).deep_view() == old(out).deep_view() + defines_view(
            opt_seq(*es),
            insts.deep_view(),
            expand,
            p.set(),
        ),
{
    let ghost start = out.deep_view();
    match es {
        Some(list) => {
            let mut i: usize = 0;
            while i < list.len()
                invariant
                    i <= list@.len(),
                    out.deep_view() == start + defines_view(
                        list@.take(i as int),
                        insts.deep_view(),
                        expand,
                        p.set(),
                    ),
                decreases list@.len() - i,
            {
                assert(list@.take(i + 1).drop_last() =~= list@.take(i as int));
                assert(list@.take(i + 1).last() == list@[i as int]);
                let e = &list[i];
                if e.satisfied(p) {
                    let has_ph = has_instance_ph(e.name.as_str()) || match &e.value {
                        Some(v) => has_instance_ph(v.as_str()),
                        None => false,
                    };
                    let ghost before = out.deep_view();
                    if expand && has_ph {
                        let mut j: usize = 0;
                        while j < insts.len()
                            invariant
                                j <= insts@.len(),
                                expand && define_has_placeholder(*e),
                                out.deep_view() == before + define_expand(
                                    *e,
                                    insts.deep_view(),
                                    expand,
                                ).take(j as int),
                            decreases insts@.len() - j,
                        {
                            let inst = &insts[j];
                            let value = match &e.value {
                                Some(v) => Some(substitute_instance(v.as_str(), inst.as_str())),
                                None => None,
                            };
                            let ghost mid = out.deep_view();
                            out.push(
                                ResolvedDefine {
                                    name: substitute_instance(e.name.as_str(), inst.as_str()),
                                    value,
                                },
                            );
                            assert(define_expand(*e, insts.deep_view(), expand)[j as int] == (
                                spec_substitute(e.name@, inst@),
                                match e.value {
                                    Some(v) => Some(spec_substitute(v@, inst@)),
                                    None => None,
                                },
                            ));
                            assert(define_expand(*e, insts.deep_view(), expand).take(j + 1)
                                =~= define_expand(*e, insts.deep_view(), expand).take(j as int).push(
                                define_expand(*e, insts.deep_view(), expand)[j as int],
                            ));
                            assert(out.deep_view() =~= mid.push(
                                define_expand(*e, insts.deep_view(), expand)[j as int],
                            ));
                            j = j + 1;
                        }
                        assert(define_expand(*e, insts.deep_view(), expand).take(insts@.len() as int)
                            =~= define_expand(*e, insts.deep_view(), expand));
                    } else {
                        out.push(ResolvedDefine::from(e));
                        assert(out.deep_view() =~= before + define_expand(
                            *e,
                            insts.deep_view(),
                            expand,
                        ));
                    }
                }
                i = i + 1;
            }
            assert(list@.take(list@.len() as int) =~= list@);
        },
        None => {
            assert(out.deep_view() =~= start + Seq::empty());
        },
    }
}


// ---------------------------------------------------------------------------
// Config files
// ---------------------------------------------------------------------------

/// A resolved config file: (path, parent, file_id, directory, export,
/// output_name, instance).
pub type ConfigView = (
    Seq<char>,
    Parent,
    Option<Seq<char>>,
    Option<Seq<char>>,
    Option<bool>,
    Option<Seq<char>>,
    Option<Seq<char>>,
);

/// What an override replaces: (file_id, component, instance).
pub type OverrideKey = (Seq<char>, Seq<char>, Option<Seq<char>>);

/// The overrides declared by the config entries of `es` that apply in `p`:
/// each with the resolved config file that replaces its target.
pub open spec fn overrides_view(
    es: Seq<ConfigFile>,
    root: Option<String>,
    parent: Parent,
    p: Set<Seq<char>>,
) -> Seq<(OverrideKey, ConfigView)>
    decreases es.len(),
{
    if es.len() == 0 {
        Seq::empty()
    } else {
        let prev = overrides_view(es.drop_last(), root, parent, p);
        let e = es.last();
        match e.override_target {
            Some(o) => if applies(e.condition, e.unless, p) {
                prev.push(
                    (
                        o.deep_view(),
                        (
                            spec_join_root(root, e.path@),
                            parent,
                            e.file_id.deep_view(),
                            e.directory.deep_view(),
                            e.export,
                            None,
                            None,
                        ),
                    ),
                )
            } else {
                prev
            },
            None => prev,
        }
    }
}

/// Appends the overrides declared by the config entries of `es` that apply
/// in `p`.
pub fn push_overrides(
    out: &mut Vec<(ConfigFileOverride, ResolvedConfigFile)>,
    es: &Option<Vec<ConfigFile>>,
    root: &Option<String>,
    parent: Parent,
    p: &FeatureSet,
)
    ensures
        final(out).deep_view() == old(out).deep_view() + overrides_view(opt_seq(*es), *root, parent, p.set()),
{
    let ghost start = out.deep_view();
    match es {
        Some(list) => {
            let mut i: usize = 0;
            while i < list.len()
                invariant
                    i <= list@.len(),
                    out.deep_view() == start + overrides_view(list@.take(i as int), *root, parent, p.set()),
                decreases list@.len() - i,
            {
                assert(list@.take(i + 1).drop_last() =~= list@.take(i as int));
                assert(list@.take(i + 1).last() == list@[i as int]);
                let e = &list[i];
                if e.satisfied(p) {
                    if let Some(o) = &e.override_target {
                        let ghost before = out.deep_view();
                        let key = o.copy();
                        let value = e.with_root_path(root).resolved(parent);
                        out.push((key, value));
                        assert(out.deep_view() =~= before.push(
                            (
                                o.deep_view(),
                                (
                                    spec_join_root(*root, e.path@),
                                    parent,
                                    e.file_id.deep_view(),
                                    e.directory.deep_view(),
                                    e.export,
                                    None,
                                    None,
                                ),
                            ),
                        ));
                    }
                }
                i = i + 1;
            }
            assert(list@.take(list@.len() as int) =~= list@);
        },
        None => {
            assert(out.deep_view() =~= start + Seq::empty());
        },
    }
}

/// The replacement registered last for `key`, if any.
pub open spec fn lookup_override(entries: Seq<(OverrideKey, ConfigView)>, key: OverrideKey) -> Option<ConfigView>
    decreases entries.len(),
{
    if entries.len() == 0 {
        None
    } else if entries.last().0 == key {
        Some(entries.last().1)
    } else {
        lookup_override(entries.drop_last(), key)
    }
}

/// The replacement registered last for `(file_id, component, instance)`.
fn find_override<'a>(
    entries: &'a Vec<(ConfigFileOverride, ResolvedConfigFile)>,
    file_id: &str,
    component: &str,
    instance: &Option<String>,
) -> (r: Option<&'a ResolvedConfigFile>)
    ensures
        match r {
            Some(v) => lookup_override(entries.deep_view(), (file_id@, component@, instance.deep_view())) == Some(
                v.deep_view(),
            ),
            None => lookup_override(entries.deep_view(), (file_id@, component@, instance.deep_view())) is None,
        },
{
    let ghost key = (file_id@, component@, instance.deep_view());
    let mut n: usize = entries.len();
    assert(entries.deep_view().take(n as int) =~= entries.deep_view());
    while n > 0
        invariant
            n <= entries@.len(),
            key == (file_id@, component@, instance.deep_view()),
            lookup_override(entries.deep_view(), key) == lookup_override(entries.deep_view().take(n as int), key),
        decreases n,
    {
        let ghost t = entries.deep_view().take(n as int);
        assert(t.last() == entries.deep_view()[n - 1]);
        assert(t.drop_last() =~= entries.deep_view().take(n - 1));
        assert(entries.deep_view()[n - 1] == (entries@[n - 1].0.deep_view(), entries@[n - 1].1.deep_view()));
        if entries[n - 1].0.targets(file_id, component, instance) {
            return Some(&entries[n - 1].1);
        }
        n = n - 1;
    }
    None
}

/// The resolved form of the project's own config entries that apply in `p`
/// and replace nothing.
pub open spec fn project_configs_view(es: Seq<ConfigFile>, p: Set<Seq<char>>) -> Seq<ConfigView>
    decreases es.len(),
{
    if es.len() == 0 {
        Seq::empty()
    } else {
        let prev = project_configs_view(es.drop_last(), p);
        let e = es.last();
        if e.override_target is None && applies(e.condition, e.unless, p) {
            prev.push(
                (e.path@, Parent::Project, e.file_id.deep_view(), e.directory.deep_view(), e.export, None, None),
            )
        } else {
            prev
        }
    }
}

/// Appends the resolved form of the project's own config entries that
/// apply in `p` and replace nothing.
pub fn push_project_configs(out: &mut Vec<ResolvedConfigFile>, es: &Option<Vec<ConfigFile>>, p: &FeatureSet)
    ensures
        final(out).deep_view() == old(out).deep_view() + project_configs_view(opt_seq(*es), p.set()),
{
    let ghost start = out.deep_view();
    match es {
        Some(list) => {
            let mut i: usize = 0;
            while i < list.len()
                invariant
                    i <= list@.len(),
                    out.deep_view() == start + project_configs_view(list@.take(i as int), p.set()),
                decreases list@.len() - i,
            {
                assert(list@.take(i + 1).drop_last() =~= list@.take(i as int));
                assert(list@.take(i + 1).last() == list@[i as int]);
                let e = &list[i];
                if e.override_target.is_none() && e.satisfied(p) {
                    let ghost before = out.deep_view();
                    out.push(e.resolved(Parent::Project));
                    assert(out.deep_view() =~= before.push(
                        (e.path@, Parent::Project, e.file_id.deep_view(), e.directory.deep_view(), e.export, None, None),
                    ));
                }
                i = i + 1;
            }
            assert(list@.take(list@.len() as int) =~= list@);
        },
        None => {
            assert(out.deep_view() =~= start + Seq::empty());
        },
    }
}

/// The instance prefix of an instantiable component.
pub open spec fn prefix_of(c: Component) -> Option<Seq<char>> {
    match c.instantiable {
        Some(i) => Some(i.prefix@),
        None => None,
    }
}

/// The override that replaces config entry `e` of component `c` for the
/// instance `inst`: one naming that instance, else one naming no instance;
/// none when `e` has no file id.
pub open spec fn override_for(
    e: ConfigFile,
    c: Component,
    inst: Option<Seq<char>>,
    entries: Seq<(OverrideKey, ConfigView)>,
) -> Option<ConfigView> {
    match e.file_id {
        None => None,
        Some(fid) => {
            let by_instance = match inst {
                Some(i) => lookup_override(entries, (fid@, c.id@, Some(i))),
                None => None,
            };
            if by_instance is Some {
                by_instance
            } else {
                lookup_override(entries, (fid@, c.id@, None))
            }
        },
    }
}

/// The resolved config file that entry `e` of component `c` gives for the
/// instance `inst`: for an instance of an instantiable component, the
/// source path takes the prefix and the output name the instance; an
/// override, when there is one, supplies the path, parent, file id and
/// directory.
pub open spec fn config_for(
    e: ConfigFile,
    c: Component,
    inst: Option<Seq<char>>,
    entries: Seq<(OverrideKey, ConfigView)>,
) -> ConfigView {
    let src = match (inst, prefix_of(c)) {
        (Some(_), Some(pf)) => spec_substitute(e.path@, pf),
        _ => e.path@,
    };
    let out = match (inst, prefix_of(c)) {
        (Some(i), Some(_)) => spec_file_name(spec_substitute(e.path@, i)),
        _ => None,
    };
    match override_for(e, c, inst, entries) {
        Some(o) => (o.0, o.1, o.2, o.3, e.export, out, inst),
        None => (
            spec_join_root(c.root_path, src),
            Parent::SDK,
            e.file_id.deep_view(),
            e.directory.deep_view(),
            e.export,
            out,
            inst,
        ),
    }
}

/// Whether entry `e` of component `c` is expanded once per instance: the
/// component is instantiable, has instances, and the path holds a
/// placeholder.
pub open spec fn expands(e: ConfigFile, c: Component, insts: Seq<Seq<char>>) -> bool {
    prefix_of(c) is Some && insts.len() > 0 && spec_has_instance_ph(e.path@)
}

/// The resolved config files that entry `e` of component `c` gives.
pub open spec fn config_entry_view(
    e: ConfigFile,
    c: Component,
    insts: Seq<Seq<char>>,
    entries: Seq<(OverrideKey, ConfigView)>,
) -> Seq<ConfigView> {
    if expands(e, c, insts) {
        insts.map_values(|i: Seq<char>| config_for(e, c, Some(i), entries))
    } else {
        seq![config_for(e, c, None, entries)]
    }
}

/// The resolved config files given by the entries `es` of component `c`
/// that apply in `p` and replace nothing.
pub open spec fn component_configs_view(
    es: Seq<ConfigFile>,
    c: Component,
    insts: Seq<Seq<char>>,
    entries: Seq<(OverrideKey, ConfigView)>,
    p: Set<Seq<char>>,
) -> Seq<ConfigView>
    decreases es.len(),
{
    if es.len() == 0 {
        Seq::empty()
    } else {
        let prev = component_configs_view(es.drop_last(), c, insts, entries, p);
        let e = es.last();
        if e.override_target is None && applies(e.condition, e.unless, p) {
            prev + config_entry_view(e, c, insts, entries)
        } else {
            prev
        }
    }
}

/// The resolved config file for entry `e` of component `c` and instance
/// `inst`.
fn resolve_config(
    e: &ConfigFile,
    c: &Component,
    inst: &Option<String>,
    entries: &Vec<(ConfigFileOverride, ResolvedConfigFile)>,
) -> (r: ResolvedConfigFile)
    ensures
        r.deep_view() == config_for(*e, *c, inst.deep_view(), entries.deep_view()),
{
    let (src_path, output_name) = match (inst, &c.instantiable) {
        (Some(i), Some(ins)) => {
            let src = substitute_instance(e.path.as_str(), ins.prefix.as_str());
            let named = substitute_instance(e.path.as_str(), i.as_str());
            let out = file_name(named.as_str());
            (src, out)
        },
        _ => (crate::text::copy_string(&e.path), None),
    };
    assert(output_name.deep_view() == match (inst.deep_view(), prefix_of(*c)) {
        (Some(i), Some(_)) => spec_file_name(spec_substitute(e.path@, i)),
        _ => None,
    });
    let overr = match &e.file_id {
        None => None,
        Some(fid) => {
            let by_instance = match inst {
                Some(_) => find_override(entries, fid.as_str(), c.id.as_str(), inst),
                None => None,
            };
            match by_instance {
                Some(o) => Some(o),
                None => find_override(entries, fid.as_str(), c.id.as_str(), &None),
            }
        },
    };
    assert(match overr {
        Some(o) => override_for(*e, *c, inst.deep_view(), entries.deep_view()) == Some(o.deep_view()),
        None => override_for(*e, *c, inst.deep_view(), entries.deep_view()) is None,
    });
    match overr {
        Some(o) => ResolvedConfigFile {
            path: crate::text::copy_string(&o.path),
            parent: o.parent,
            file_id: copy_opt_string(&o.file_id),
            directory: copy_opt_string(&o.directory),
            export: e.export,
            output_name,
            instance: copy_opt_string(inst),
        },
        None => ResolvedConfigFile {
            path: join_root(&c.root_path, src_path.as_str()),
            parent: Parent::SDK,
            file_id: copy_opt_string(&e.file_id),
            directory: copy_opt_string(&e.directory),
            export: e.export,
            output_name,
            instance: copy_opt_string(inst),
        },
    }
}

/// Appends the resolved config files given by the config entries of
/// component `c` that apply in `p` and replace nothing.
pub fn push_component_configs(
    out: &mut Vec<ResolvedConfigFile>,
    c: &Component,
    insts: &Vec<String>,
    entries: &Vec<(ConfigFileOverride, ResolvedConfigFile)>,
    p: &FeatureSet,
)
    ensures
        final(out).deep_view() == old(out).deep_view() + component_configs_view(
            opt_seq(c.config_file),
            *c,
            insts.deep_view(),
            entries.deep_view(),
            p.set(),
        ),
{
    let ghost start = out.deep_view();
    let ghost iv = insts.deep_view();
    let ghost ev = entries.deep_view();
    match &c.config_file {
        Some(list) => {
            let mut i: usize = 0;
            while i < list.len()
                invariant
                    i <= list@.len(),
                    iv == insts.deep_view(),
                    ev == entries.deep_view(),
                    out.deep_view() == start + component_configs_view(list@.take(i as int), *c, iv, ev, p.set()),
                decreases list@.len() - i,
            {
                assert(list@.take(i + 1).drop_last() =~= list@.take(i as int));
                assert(list@.take(i + 1).last() == list@[i as int]);
                let e = &list[i];
                if e.override_target.is_none() && e.satisfied(p) {
                    let ghost before = out.deep_view();
                    let expand = c.instantiable.is_some() && insts.len() > 0 && has_instance_ph(e.path.as_str());
                    assert(expand == expands(*e, *c, iv));
                    if expand {
                        let mut j: usize = 0;
                        while j < insts.len()
                            invariant
                                j <= insts@.len(),
                                iv == insts.deep_view(),
                                ev == entries.deep_view(),
                                expands(*e, *c, iv),
                                out.deep_view() == before + config_entry_view(*e, *c, iv, ev).take(j as int),
                            decreases insts@.len() - j,
                        {
                            let inst = Some(crate::text::copy_string(&insts[j]));
                            let ghost mid = out.deep_view();
                            out.push(resolve_config(e, c, &inst, entries));
                            assert(config_entry_view(*e, *c, iv, ev)[j as int] == config_for(
                                *e,
                                *c,
                                Some(iv[j as int]),
                                ev,
                            ));
                            assert(config_entry_view(*e, *c, iv, ev).take(j + 1) =~= config_entry_view(
                                *e,
                                *c,
                                iv,
                                ev,
                            ).take(j as int).push(config_entry_view(*e, *c, iv, ev)[j as int]));
                            assert(out.deep_view() =~= mid.push(config_entry_view(*e, *c, iv, ev)[j as int]));
                            j = j + 1;
                        }
                        assert(config_entry_view(*e, *c, iv, ev).take(insts@.len() as int) =~= config_entry_view(
                            *e,
                            *c,
                            iv,
                            ev,
                        ));
                    } else {
                        out.push(resolve_config(e, c, &None, entries));
                        assert(out.deep_view() =~= before + config_entry_view(*e, *c, iv, ev));
                    }
                }
                i = i + 1;
            }
            assert(list@.take(list@.len() as int) =~= list@);
        },
        None => {
            assert(out.deep_view() =~= start + Seq::empty());
        },
    }
}


// ---------------------------------------------------------------------------
// The resolved project
// ---------------------------------------------------------------------------

/// The sources of the components of `cs` that apply in `p`.
pub open spec fn comp_sources(cs: Seq<Rc<Component>>, p: Set<Seq<char>>) -> Seq<(Seq<char>, Parent, Option<Seq<char>>)>
    decreases cs.len(),
{
    if cs.len() == 0 {
        Seq::empty()
    } else {
        comp_sources(cs.drop_last(), p) + sources_view(opt_seq(cs.last().source), cs.last().root_path, Parent::SDK, p)
    }
}

/// The include entries of the components of `cs` that apply in `p`.
pub open spec fn comp_includes(cs: Seq<Rc<Component>>, p: Set<Seq<char>>) -> Seq<
    (Seq<char>, Parent, Option<Seq<char>>, Option<Seq<Seq<char>>>),
>
    decreases cs.len(),
{
    if cs.len() == 0 {
        Seq::empty()
    } else {
        comp_includes(cs.drop_last(), p) + includes_view(
            opt_seq(cs.last().includes),
            cs.last().root_path,
            Parent::SDK,
            p,
        )
    }
}

/// The overrides declared by the components of `cs` in `p`.
pub open spec fn comp_overrides(cs: Seq<Rc<Component>>, p: Set<Seq<char>>) -> Seq<(OverrideKey, ConfigView)>
    decreases cs.len(),
{
    if cs.len() == 0 {
        Seq::empty()
    } else {
        comp_overrides(cs.drop_last(), p) + overrides_view(
            opt_seq(cs.last().config_file),
            cs.last().root_path,
            Parent::SDK,
            p,
        )
    }
}

/// The instance names of component `id` (none when it has no entry).
pub open spec fn insts_of(m: Map<Seq<char>, Seq<Seq<char>>>, id: Seq<char>) -> Seq<Seq<char>> {
    if m.contains_key(id) {
        m[id]
    } else {
        Seq::empty()
    }
}

/// Whether the defines of `c` are expanded per instance: it is
/// instantiable and has instances.
pub open spec fn expands_defines(c: Component, m: Map<Seq<char>, Seq<Seq<char>>>) -> bool {
    c.instantiable is Some && insts_of(m, c.id@).len() > 0
}

/// The defines of the components of `cs` that apply in `p`.
pub open spec fn comp_defines(
    cs: Seq<Rc<Component>>,
    m: Map<Seq<char>, Seq<Seq<char>>>,
    p: Set<Seq<char>>,
) -> Seq<(Seq<char>, Option<Seq<char>>)>
    decreases cs.len(),
{
    if cs.len() == 0 {
        Seq::empty()
    } else {
        let c = *cs.last();
        comp_defines(cs.drop_last(), m, p) + defines_view(
            opt_seq(c.define),
            insts_of(m, c.id@),
            expands_defines(c, m),
            p,
        )
    }
}

/// The libraries of the components of `cs` that apply in `p`.
pub open spec fn comp_libraries(cs: Seq<Rc<Component>>, p: Set<Seq<char>>) -> Seq<ResolvedLibrary>
    decreases cs.len(),
{
    if cs.len() == 0 {
        Seq::empty()
    } else {
        comp_libraries(cs.drop_last(), p) + libraries_view(opt_seq(cs.last().library), p)
    }
}

/// The template files of the components of `cs` that apply in `p`.
pub open spec fn comp_templates(cs: Seq<Rc<Component>>, p: Set<Seq<char>>) -> Seq<(Seq<char>, Parent, Option<bool>)>
    decreases cs.len(),
{
    if cs.len() == 0 {
        Seq::empty()
    } else {
        comp_templates(cs.drop_last(), p) + templates_view(
            opt_seq(cs.last().template_file),
            cs.last().root_path,
            Parent::SDK,
            p,
        )
    }
}

/// The template contributions of the components of `cs` that apply in `p`.
pub open spec fn comp_contribs(cs: Seq<Rc<Component>>, p: Set<Seq<char>>) -> Seq<ContribView>
    decreases cs.len(),
{
    if cs.len() == 0 {
        Seq::empty()
    } else {
        comp_contribs(cs.drop_last(), p) + contribs_view(
            opt_seq(cs.last().template_contribution),
            cs.last().id@,
            p,
        )
    }
}

/// The config files of the components of `cs` that apply in `p`, with the
/// overrides `entries` substituted.
pub open spec fn comp_configs(
    cs: Seq<Rc<Component>>,
    m: Map<Seq<char>, Seq<Seq<char>>>,
    entries: Seq<(OverrideKey, ConfigView)>,
    p: Set<Seq<char>>,
) -> Seq<ConfigView>
    decreases cs.len(),
{
    if cs.len() == 0 {
        Seq::empty()
    } else {
        let c = *cs.last();
        comp_configs(cs.drop_last(), m, entries, p) + component_configs_view(
            opt_seq(c.config_file),
            c,
            insts_of(m, c.id@),
            entries,
            p,
        )
    }
}

/// The project's configuration entries that apply in `p`.
pub open spec fn configurations_view(es: Seq<Configuration>, p: Set<Seq<char>>) -> Seq<
    (Seq<char>, Seq<char>, Option<Seq<Seq<char>>>, Option<Seq<Seq<char>>>),
>
    decreases es.len(),
{
    if es.len() == 0 {
        Seq::empty()
    } else {
        let prev = configurations_view(es.drop_last(), p);
        let e = es.last();
        if applies(e.condition, e.unless, p) {
            prev.push(e.deep_view())
        } else {
            prev
        }
    }
}

/// All overrides: the project's, then the components'.
pub open spec fn all_overrides(proj: Project, cs: Seq<Rc<Component>>, p: Set<Seq<char>>) -> Seq<(OverrideKey, ConfigView)> {
    overrides_view(opt_seq(proj.config_file), None, Parent::Project, p) + comp_overrides(cs, p)
}

/// All template contributions: the project's, then the components'.
pub open spec fn all_contribs(proj: Project, cs: Seq<Rc<Component>>, p: Set<Seq<char>>) -> Seq<ContribView> {
    contribs_view(opt_seq(proj.template_contribution), Seq::empty(), p) + comp_contribs(cs, p)
}

/// A project with its components resolved.
#[derive(Debug)]
pub struct ParsedProject {
    pub source: Vec<ResolvedSourceFile>,
    pub includes: Vec<ResolvedIncludeEntry>,
    pub define: Vec<ResolvedDefine>,
    pub library: Vec<ResolvedLibrary>,
    pub template_file: Vec<ResolvedTemplateFile>,
    pub template_contribution: ContributionMap,
    pub config_file: Vec<ResolvedConfigFile>,
    /// Project-level configuration overrides, already filtered by
    /// condition/unless and kept in declaration order (last match wins).
    pub configuration: Vec<Configuration>,
    pub root_path: String,
    pub sdk_root_path: String,
    pub provided_features: FeatureSet,
}

/// Appends the project's configuration entries that apply in `p`.
fn push_configurations(out: &mut Vec<Configuration>, es: &Option<Vec<Configuration>>, p: &FeatureSet)
    ensures
        final(out).deep_view() == old(out).deep_view() + configurations_view(opt_seq(*es), p.set()),
{
    let ghost start = out.deep_view();
    match es {
        Some(list) => {
            let mut i: usize = 0;
            while i < list.len()
                invariant
                    i <= list@.len(),
                    out.deep_view() == start + configurations_view(list@.take(i as int), p.set()),
                decreases list@.len() - i,
            {
                assert(list@.take(i + 1).drop_last() =~= list@.take(i as int));
                assert(list@.take(i + 1).last() == list@[i as int]);
                let e = &list[i];
                if e.satisfied(p) {
                    let ghost before = out.deep_view();
                    out.push(e.copy());
                    assert(out.deep_view() =~= before.push(e.deep_view()));
                }
                i = i + 1;
            }
            assert(list@.take(list@.len() as int) =~= list@);
        },
        None => {
            assert(out.deep_view() =~= start + Seq::empty());
        },
    }
}

impl ParsedProject {
    /// Collects what the project and its resolved components declare that
    /// applies to the resolved feature set: project entries first, then
    /// each component's in resolution order. Component config files are
    /// expanded per instance and replaced by their overrides; template
    /// contributions are grouped per variable and sorted.
    pub fn new(sdk: &SDK, project: &Project, resolved: &ResolveResult) -> (r: Self)
        ensures
            ({
                let p = resolved.provided_features.set();
                let cs = resolved.components@;
                let m = resolved.instances@;
                &&& r.source.deep_view() == sources_view(opt_seq(project.source), None, Parent::Project, p)
                    + comp_sources(cs, p)
                &&& r.includes.deep_view() == includes_view(
                    opt_seq(project.includes),
                    None,
                    Parent::Project,
                    p,
                ) + comp_includes(cs, p)
                &&& r.define.deep_view() == defines_view(opt_seq(project.define), Seq::empty(), false, p)
                    + comp_defines(cs, m, p)
                &&& r.library@ == libraries_view(opt_seq(project.library), p) + comp_libraries(cs, p)
                &&& r.template_file.deep_view() == comp_templates(cs, p)
                &&& r.template_contribution@ == contribution_map(all_contribs(*project, cs, p))
                &&& r.config_file.deep_view() == project_configs_view(opt_seq(project.config_file), p)
                    + comp_configs(cs, m, all_overrides(*project, cs, p), p)
                &&& r.configuration.deep_view() == configurations_view(opt_seq(project.configuration), p)
                &&& r.root_path == project.root_path
                &&& r.sdk_root_path == sdk.root_path
                &&& r.provided_features@ == resolved.provided_features@
            }),
    {
        let p = &resolved.provided_features;
        let cs = &resolved.components;
        let ghost ps = p.set();
        let no_root: Option<String> = None;
        let mut source: Vec<ResolvedSourceFile> = Vec::new();
        let mut includes: Vec<ResolvedIncludeEntry> = Vec::new();
        let mut define: Vec<ResolvedDefine> = Vec::new();
        let mut library: Vec<ResolvedLibrary> = Vec::new();
        let mut template_file: Vec<ResolvedTemplateFile> = Vec::new();
        let mut contribs: Vec<IntermediateTemplateContribution> = Vec::new();
        let mut overrides: Vec<(ConfigFileOverride, ResolvedConfigFile)> = Vec::new();
        let mut config_file: Vec<ResolvedConfigFile> = Vec::new();
        let none_insts: Vec<String> = Vec::new();
        push_sources(&mut source, &project.source, &no_root, Parent::Project, p);
        push_includes(&mut includes, &project.includes, &no_root, Parent::Project, p);
        push_overrides(&mut overrides, &project.config_file, &no_root, Parent::Project, p);
        push_defines(&mut define, &project.define, &none_insts, false, p);
        push_libraries(&mut library, &project.library, p);
        let project_id = String::new();
        push_contributions(&mut contribs, &project.template_contribution, project_id.as_str(), p);
        proof {
            assert(project_id@ =~= Seq::<char>::empty());
            assert(none_insts.deep_view() =~= Seq::<Seq<char>>::empty());
            assert(template_file.deep_view() =~= Seq::<(Seq<char>, Parent, Option<bool>)>::empty());
        }
        assert(source.deep_view() =~= sources_view(opt_seq(project.source), None, Parent::Project, ps));
        assert(includes.deep_view() =~= includes_view(opt_seq(project.includes), None, Parent::Project, ps));
        assert(overrides.deep_view() =~= overrides_view(opt_seq(project.config_file), None, Parent::Project, ps));
        assert(define.deep_view() =~= defines_view(opt_seq(project.define), Seq::empty(), false, ps));
        assert(library@ =~= libraries_view(opt_seq(project.library), ps));
        assert(contribs.deep_view() =~= contribs_view(opt_seq(project.template_contribution), Seq::empty(), ps));
        let ghost src0 = source.deep_view();
        let ghost inc0 = includes.deep_view();
        let ghost ovr0 = overrides.deep_view();
        let ghost def0 = define.deep_view();
        let ghost lib0 = library@;
        let ghost con0 = contribs.deep_view();
        let ghost m = resolved.instances@;
        let mut i: usize = 0;
        assert(cs@.take(0) =~= Seq::<Rc<Component>>::empty());
        while i < cs.len()
            invariant
                i <= cs@.len(),
                ps == p.set(),
                m == resolved.instances@,
                source.deep_view() == src0 + comp_sources(cs@.take(i as int), ps),
                includes.deep_view() == inc0 + comp_includes(cs@.take(i as int), ps),
                overrides.deep_view() == ovr0 + comp_overrides(cs@.take(i as int), ps),
                define.deep_view() == def0 + comp_defines(cs@.take(i as int), m, ps),
                library@ == lib0 + comp_libraries(cs@.take(i as int), ps),
                template_file.deep_view() == comp_templates(cs@.take(i as int), ps),
                contribs.deep_view() == con0 + comp_contribs(cs@.take(i as int), ps),
            decreases cs@.len() - i,
        {
            let c = &cs[i];
            let ghost t0 = cs@.take(i as int);
            let ghost t1 = cs@.take(i + 1);
            assert(t1.drop_last() =~= t0);
            assert(t1.last() == cs@[i as int]);
            push_sources(&mut source, &c.source, &c.root_path, Parent::SDK, p);
            push_includes(&mut includes, &c.includes, &c.root_path, Parent::SDK, p);
            push_overrides(&mut overrides, &c.config_file, &c.root_path, Parent::SDK, p);
            let empty: Vec<String> = Vec::new();
            let insts = match resolved.instances.get(c.id.as_str()) {
                Some(v) => v,
                None => &empty,
            };
            assert(insts.deep_view() =~= insts_of(m, c.id@));
            let expand = c.instantiable.is_some() && insts.len() > 0;
            push_defines(&mut define, &c.define, insts, expand, p);
            push_libraries(&mut library, &c.library, p);
            push_templates(&mut template_file, &c.template_file, &c.root_path, Parent::SDK, p);
            push_contributions(&mut contribs, &c.template_contribution, c.id.as_str(), p);
            proof {
                assert(source.deep_view() =~= src0 + comp_sources(t1, ps));
                assert(includes.deep_view() =~= inc0 + comp_includes(t1, ps));
                assert(overrides.deep_view() =~= ovr0 + comp_overrides(t1, ps));
                assert(define.deep_view() =~= def0 + comp_defines(t1, m, ps));
                assert(library@ =~= lib0 + comp_libraries(t1, ps));
                assert(contribs.deep_view() =~= con0 + comp_contribs(t1, ps));
            }
            i = i + 1;
        }
        assert(cs@.take(cs@.len() as int) =~= cs@);
        let ghost ov = overrides.deep_view();
        assert(ov == all_overrides(*project, cs@, ps));
        push_project_configs(&mut config_file, &project.config_file, p);
        assert(config_file.deep_view() =~= project_configs_view(opt_seq(project.config_file), ps));
        let ghost cf0 = config_file.deep_view();
        let mut k: usize = 0;
        while k < cs.len()
            invariant
                k <= cs@.len(),
                ps == p.set(),
                m == resolved.instances@,
                ov == overrides.deep_view(),
                config_file.deep_view() == cf0 + comp_configs(cs@.take(k as int), m, ov, ps),
            decreases cs@.len() - k,
        {
            let c = &cs[k];
            let ghost t0 = cs@.take(k as int);
            let ghost t1 = cs@.take(k + 1);
            assert(t1.drop_last() =~= t0);
            assert(t1.last() == cs@[k as int]);
            let empty: Vec<String> = Vec::new();
            let insts = match resolved.instances.get(c.id.as_str()) {
                Some(v) => v,
                None => &empty,
            };
            assert(insts.deep_view() =~= insts_of(m, c.id@));
            push_component_configs(&mut config_file, c, insts, &overrides, p);
            assert(config_file.deep_view() =~= cf0 + comp_configs(t1, m, ov, ps));
            k = k + 1;
        }
        assert(cs@.take(cs@.len() as int) =~= cs@);
        let template_contribution = ContributionMap::from_contributions(&contribs);
        assert(contribs.deep_view() == all_contribs(*project, cs@, ps));
        let mut configuration: Vec<Configuration> = Vec::new();
        push_configurations(&mut configuration, &project.configuration, p);
        assert(configuration.deep_view() =~= configurations_view(opt_seq(project.configuration), ps));
        ParsedProject {
            source,
            includes,
            define,
            library,
            template_file,
            template_contribution,
            config_file,
            configuration,
            root_path: crate::text::copy_string(&project.root_path),
            sdk_root_path: crate::text::copy_string(&sdk.root_path),
            provided_features: p.copy(),
        }
    }
}


// ---------------------------------------------------------------------------
// Using the resolved project
// ---------------------------------------------------------------------------

/// The root that a resolved entry's path is relative to.
pub open spec fn root_of(parent: Parent, root: Seq<char>, sdk_root: Seq<char>) -> Seq<char> {
    match parent {
        Parent::Project => root,
        Parent::SDK => sdk_root,
    }
}

/// The sources of `srcs` that are headers, with their roots.
pub open spec fn source_headers(
    srcs: Seq<(Seq<char>, Parent, Option<Seq<char>>)>,
    root: Seq<char>,
    sdk_root: Seq<char>,
) -> Seq<Seq<char>>
    decreases srcs.len(),
{
    if srcs.len() == 0 {
        Seq::empty()
    } else {
        let prev = source_headers(srcs.drop_last(), root, sdk_root);
        let s = srcs.last();
        let path = spec_join(root_of(s.1, root, sdk_root), s.0);
        if spec_is_header(path) {
            prev.push(path)
        } else {
            prev
        }
    }
}

/// The files of `files` under `base` that are headers.
pub open spec fn listed_headers(base: Seq<char>, files: Seq<Seq<char>>) -> Seq<Seq<char>>
    decreases files.len(),
{
    if files.len() == 0 {
        Seq::empty()
    } else {
        let prev = listed_headers(base, files.drop_last());
        let path = spec_join(base, files.last());
        if spec_is_header(path) {
            prev.push(path)
        } else {
            prev
        }
    }
}

/// The listed header files of the include entries `incs`, with their roots.
pub open spec fn include_headers(
    incs: Seq<(Seq<char>, Parent, Option<Seq<char>>, Option<Seq<Seq<char>>>)>,
    root: Seq<char>,
    sdk_root: Seq<char>,
) -> Seq<Seq<char>>
    decreases incs.len(),
{
    if incs.len() == 0 {
        Seq::empty()
    } else {
        let prev = include_headers(incs.drop_last(), root, sdk_root);
        let e = incs.last();
        match e.3 {
            Some(files) => prev + listed_headers(spec_join(root_of(e.1, root, sdk_root), e.0), files),
            None => prev,
        }
    }
}

/// The configuration overrides as (name, value) pairs, in order.
pub open spec fn config_pairs(cs: Seq<(Seq<char>, Seq<char>, Option<Seq<Seq<char>>>, Option<Seq<Seq<char>>>)>) -> Seq<
    (Seq<char>, Seq<char>),
> {
    cs.map_values(
        |c: (Seq<char>, Seq<char>, Option<Seq<Seq<char>>>, Option<Seq<Seq<char>>>)| (c.0, c.1),
    )
}

/// `config`
pub open spec fn config_dir_name() -> Seq<char> {
    seq!['c', 'o', 'n', 'f', 'i', 'g']
}

/// `export`
pub open spec fn export_dir_name() -> Seq<char> {
    seq!['e', 'x', 'p', 'o', 'r', 't']
}

/// `autogen`
pub open spec fn autogen_dir_name() -> Seq<char> {
    seq!['a', 'u', 't', 'o', 'g', 'e', 'n']
}

/// Where the config file `cf`, whose source is `src`, goes under `out_dir`:
/// its output name (else the source's file name) in `config/export` when
/// exported, else in its directory under `config`, else in `config`; none
/// without a name.
pub open spec fn config_destination_of(out_dir: Seq<char>, cf: ConfigView, src: Seq<char>) -> Option<Seq<char>> {
    let name = match cf.5 {
        Some(n) => Some(n),
        None => spec_file_name(src),
    };
    match name {
        None => None,
        Some(n) => {
            let config_root = spec_join(out_dir, config_dir_name());
            Some(
                if cf.4 == Some(true) {
                    spec_join(spec_join(config_root, export_dir_name()), n)
                } else {
                    match cf.3 {
                        Some(d) => spec_join(spec_join(config_root, d), n),
                        None => spec_join(config_root, n),
                    }
                },
            )
        },
    }
}

/// `.jinja`
pub open spec fn jinja_suffix() -> Seq<char> {
    seq!['.', 'j', 'i', 'n', 'j', 'a']
}

/// `.jinja2`
pub open spec fn jinja2_suffix() -> Seq<char> {
    seq!['.', 'j', 'i', 'n', 'j', 'a', '2']
}

/// A template path without its `.jinja` or `.jinja2` suffix.
pub open spec fn strip_template_suffix(path: Seq<char>) -> Seq<char> {
    if ends_with(path, jinja_suffix()) {
        path.subrange(0, path.len() - 6)
    } else if ends_with(path, jinja2_suffix()) {
        path.subrange(0, path.len() - 7)
    } else {
        path
    }
}

/// Where the rendering of template `t` goes under `out_dir`: the file name
/// of its path without the template suffix, in `autogen/export` when
/// exported, else in `autogen`; none without a file name.
pub open spec fn template_destination_of(out_dir: Seq<char>, t: (Seq<char>, Parent, Option<bool>)) -> Option<Seq<char>> {
    match spec_file_name(strip_template_suffix(t.0)) {
        None => None,
        Some(n) => {
            let autogen = spec_join(out_dir, autogen_dir_name());
            Some(
                if t.2 == Some(true) {
                    spec_join(spec_join(autogen, export_dir_name()), n)
                } else {
                    spec_join(autogen, n)
                },
            )
        },
    }
}

impl ParsedProject {
    /// The root that paths with the given parent are relative to.
    pub fn root_for(&self, parent: Parent) -> (r: &String)
        ensures
            r@ == root_of(parent, self.root_path@, self.sdk_root_path@),
    {
        match parent {
            Parent::Project => &self.root_path,
            Parent::SDK => &self.sdk_root_path,
        }
    }

    /// Rewrite `#define NAME value` lines in a freshly-copied config header
    /// with the project's configuration overrides. Applied only on first copy;
    /// the last matching rule for a given name wins.
    pub fn apply_configuration(&self, contents: &str) -> (r: String)
        ensures
            r@ == if self.configuration@.len() == 0 {
                contents@
            } else {
                spec_rewrite_defines(contents@, config_pairs(self.configuration.deep_view()))
            },
    {
        if self.configuration.len() == 0 {
            return crate::text::string_from(contents);
        }
        let mut values: Vec<(String, String)> = Vec::new();
        let mut i: usize = 0;
        while i < self.configuration.len()
            invariant
                i <= self.configuration@.len(),
                values.deep_view() == config_pairs(self.configuration.deep_view()).take(i as int),
            decreases self.configuration@.len() - i,
        {
            let c = &self.configuration[i];
            let ghost before = values.deep_view();
            values.push((crate::text::copy_string(&c.name), crate::text::copy_string(&c.value)));
            assert(self.configuration.deep_view()[i as int] == c.deep_view());
            assert(values.deep_view() =~= before.push((c.name@, c.value@)));
            assert(config_pairs(self.configuration.deep_view()).take(i + 1) =~= config_pairs(
                self.configuration.deep_view(),
            ).take(i as int).push((c.name@, c.value@)));
            i = i + 1;
        }
        assert(config_pairs(self.configuration.deep_view()).take(self.configuration@.len() as int)
            =~= config_pairs(self.configuration.deep_view()));
        rewrite_defines(contents, &values)
    }

    /// The header files among the sources, then the header files listed by
    /// the include entries, each placed under its root.
    pub fn get_included_headers(&self) -> (r: Vec<String>)
        ensures
            r.deep_view() == source_headers(self.source.deep_view(), self.root_path@, self.sdk_root_path@)
                + include_headers(self.includes.deep_view(), self.root_path@, self.sdk_root_path@),
    {
        let ghost root = self.root_path@;
        let ghost sdk_root = self.sdk_root_path@;
        let mut ret: Vec<String> = Vec::new();
        let mut i: usize = 0;
        while i < self.source.len()
            invariant
                i <= self.source@.len(),
                root == self.root_path@,
                sdk_root == self.sdk_root_path@,
                ret.deep_view() == source_headers(self.source.deep_view().take(i as int), root, sdk_root),
            decreases self.source@.len() - i,
        {
            let s = &self.source[i];
            let ghost t1 = self.source.deep_view().take(i + 1);
            assert(t1.drop_last() =~= self.source.deep_view().take(i as int));
            assert(t1.last() == s.deep_view());
            let path = join_path(self.root_for(s.parent).as_str(), s.path.as_str());
            if is_header(path.as_str()) {
                let ghost before = ret.deep_view();
                ret.push(path);
                assert(ret.deep_view() =~= before.push(spec_join(root_of(s.parent, root, sdk_root), s.path@)));
            }
            i = i + 1;
        }
        assert(self.source.deep_view().take(self.source@.len() as int) =~= self.source.deep_view());
        let ghost part = ret.deep_view();
        let mut k: usize = 0;
        while k < self.includes.len()
            invariant
                k <= self.includes@.len(),
                root == self.root_path@,
                sdk_root == self.sdk_root_path@,
                ret.deep_view() == part + include_headers(self.includes.deep_view().take(k as int), root, sdk_root),
            decreases self.includes@.len() - k,
        {
            let e = &self.includes[k];
            let ghost t1 = self.includes.deep_view().take(k + 1);
            assert(t1.drop_last() =~= self.includes.deep_view().take(k as int));
            assert(t1.last() == e.deep_view());
            let ghost before = ret.deep_view();
            if let Some(files) = &e.file_list {
                let base = join_path(self.root_for(e.parent).as_str(), e.path.as_str());
                let mut j: usize = 0;
                while j < files.len()
                    invariant
                        j <= files@.len(),
                        ret.deep_view() == before + listed_headers(base@, files.deep_view().take(j as int)),
                    decreases files@.len() - j,
                {
                    let ghost f1 = files.deep_view().take(j + 1);
                    assert(f1.drop_last() =~= files.deep_view().take(j as int));
                    assert(f1.last() == files@[j as int].path@);
                    let hp = join_path(base.as_str(), files[j].path.as_str());
                    if is_header(hp.as_str()) {
                        let ghost mid = ret.deep_view();
                        ret.push(hp);
                        assert(ret.deep_view() =~= mid.push(spec_join(base@, files@[j as int].path@)));
                    }
                    j = j + 1;
                }
                assert(files.deep_view().take(files@.len() as int) =~= files.deep_view());
            } else {
                assert(ret.deep_view() =~= before);
            }
            assert(ret.deep_view() =~= part + include_headers(t1, root, sdk_root));
            k = k + 1;
        }
        assert(self.includes.deep_view().take(self.includes@.len() as int) =~= self.includes.deep_view());
        ret
    }

    /// The source of config file `cf`: its path under its root.
    pub fn config_source(&self, cf: &ResolvedConfigFile) -> (r: String)
        ensures
            r@ == spec_join(root_of(cf.parent, self.root_path@, self.sdk_root_path@), cf.path@),
    {
        join_path(self.root_for(cf.parent).as_str(), cf.path.as_str())
    }

    /// Where config file `cf` goes under `out_dir` (see
    /// `config_destination_of`).
    pub fn config_destination(&self, out_dir: &str, cf: &ResolvedConfigFile) -> (r: Option<String>)
        ensures
            r.deep_view() == config_destination_of(
                out_dir@,
                cf.deep_view(),
                spec_join(root_of(cf.parent, self.root_path@, self.sdk_root_path@), cf.path@),
            ),
    {
        let src = self.config_source(cf);
        let name = match &cf.output_name {
            Some(n) => crate::text::copy_string(n),
            None => match file_name(src.as_str()) {
                Some(n) => n,
                None => {
                    return None;
                },
            },
        };
        let config_root = join_path(out_dir, "config");
        proof {
            reveal_strlit("config");
            reveal_strlit("export");
            assert("config"@ =~= config_dir_name());
            assert("export"@ =~= export_dir_name());
        }
        let dest = if cf.export == Some(true) {
            join_path(join_path(config_root.as_str(), "export").as_str(), name.as_str())
        } else {
            match &cf.directory {
                Some(d) => join_path(join_path(config_root.as_str(), d.as_str()).as_str(), name.as_str()),
                None => join_path(config_root.as_str(), name.as_str()),
            }
        };
        Some(dest)
    }

    /// The contents written for config file `cf`, whose source `src` holds
    /// `contents`: for an instance, the contents transformed for it, then
    /// the configuration overrides applied.
    pub fn config_contents(&self, cf: &ResolvedConfigFile, src: &str, contents: &str) -> (r: String)
        ensures
            ({
                let c = match cf.instance {
                    Some(i) => spec_transform_instance_content(src@, i@, contents@),
                    None => contents@,
                };
                r@ == if self.configuration@.len() == 0 {
                    c
                } else {
                    spec_rewrite_defines(c, config_pairs(self.configuration.deep_view()))
                }
            }),
    {
        match &cf.instance {
            Some(instance) => {
                let transformed = crate::instance::transform_instance_content(src, instance.as_str(), contents);
                self.apply_configuration(transformed.as_str())
            },
            None => self.apply_configuration(contents),
        }
    }

    /// The source of template `t`: its path under its root.
    pub fn template_source(&self, t: &ResolvedTemplateFile) -> (r: String)
        ensures
            r@ == spec_join(root_of(t.parent, self.root_path@, self.sdk_root_path@), t.path@),
    {
        join_path(self.root_for(t.parent).as_str(), t.path.as_str())
    }
}

/// The file name of template `t`, which names it in the generated banner.
pub fn template_source_name(t: &ResolvedTemplateFile) -> (r: Option<String>)
    ensures
        r.deep_view() == spec_file_name(t.path@),
{
    file_name(t.path.as_str())
}

/// Where the rendering of template `t` goes under `out_dir` (see
/// `template_destination_of`).
pub fn template_destination(out_dir: &str, t: &ResolvedTemplateFile) -> (r: Option<String>)
    ensures
        r.deep_view() == template_destination_of(out_dir@, t.deep_view()),
{
    let v = crate::text::chars_of(t.path.as_str());
    let jinja: Vec<char> = vec!['.', 'j', 'i', 'n', 'j', 'a'];
    let jinja2: Vec<char> = vec!['.', 'j', 'i', 'n', 'j', 'a', '2'];
    assert(jinja@ =~= jinja_suffix());
    assert(jinja2@ =~= jinja2_suffix());
    let stripped = if chars_end_with(&v, &jinja) {
        crate::text::string_of(&v, 0, v.len() - 6)
    } else if chars_end_with(&v, &jinja2) {
        crate::text::string_of(&v, 0, v.len() - 7)
    } else {
        crate::text::string_of(&v, 0, v.len())
    };
    assert(v@.subrange(0, v@.len() as int) =~= v@);
    assert(stripped@ == strip_template_suffix(t.path@));
    let name = match file_name(stripped.as_str()) {
        Some(n) => n,
        None => {
            return None;
        },
    };
    let autogen = join_path(out_dir, "autogen");
    proof {
        reveal_strlit("autogen");
        reveal_strlit("export");
        assert("autogen"@ =~= autogen_dir_name());
        assert("export"@ =~= export_dir_name());
    }
    let dest = if t.export == Some(true) {
        join_path(join_path(autogen.as_str(), "export").as_str(), name.as_str())
    } else {
        join_path(autogen.as_str(), name.as_str())
    };
    Some(dest)
}

// ---------------------------------------------------------------------------
// Laws
// ---------------------------------------------------------------------------

/// A config entry of a component that applies and replaces nothing yields
/// each of its resolved config files among the component's.
proof fn lemma_entry_in_component(
    es: Seq<ConfigFile>,
    c: Component,
    insts: Seq<Seq<char>>,
    entries: Seq<(OverrideKey, ConfigView)>,
    p: Set<Seq<char>>,
    j: int,
    k: int,
)
    requires
        0 <= j < es.len(),
        es[j].override_target is None,
        applies(es[j].condition, es[j].unless, p),
        0 <= k < config_entry_view(es[j], c, insts, entries).len(),
    ensures
        component_configs_view(es, c, insts, entries, p).contains(config_entry_view(es[j], c, insts, entries)[k]),
    decreases es.len(),
{
    let x = config_entry_view(es[j], c, insts, entries)[k];
    let prev = component_configs_view(es.drop_last(), c, insts, entries, p);
    let all = component_configs_view(es, c, insts, entries, p);
    if j == es.len() - 1 {
        let cv = config_entry_view(es.last(), c, insts, entries);
        assert(all == prev + cv);
        assert(all[prev.len() + k] == x);
    } else {
        assert(es.drop_last()[j] == es[j]);
        lemma_entry_in_component(es.drop_last(), c, insts, entries, p, j, k);
        let idx = choose|idx: int| 0 <= idx < prev.len() && prev[idx] == x;
        assert(all[idx] == prev[idx]);
    }
}

/// Every config entry of a resolved component that applies and replaces
/// nothing is in the resolved config files of the components: once per
/// instance of the component where the entry is expanded, else once, each
/// time as `config_for` resolves it (its override substituted, if any).
pub proof fn lemma_component_config_listed(
    cs: Seq<Rc<Component>>,
    m: Map<Seq<char>, Seq<Seq<char>>>,
    entries: Seq<(OverrideKey, ConfigView)>,
    p: Set<Seq<char>>,
    i: int,
    j: int,
    k: int,
)
    requires
        0 <= i < cs.len(),
        0 <= j < opt_seq(cs[i].config_file).len(),
        opt_seq(cs[i].config_file)[j].override_target is None,
        applies(opt_seq(cs[i].config_file)[j].condition, opt_seq(cs[i].config_file)[j].unless, p),
        0 <= k < config_entry_view(opt_seq(cs[i].config_file)[j], *cs[i], insts_of(m, cs[i].id@), entries).len(),
    ensures
        comp_configs(cs, m, entries, p).contains(
            config_entry_view(opt_seq(cs[i].config_file)[j], *cs[i], insts_of(m, cs[i].id@), entries)[k],
        ),
    decreases cs.len(),
{
    let c = *cs[i];
    let x = config_entry_view(opt_seq(c.config_file)[j], c, insts_of(m, c.id@), entries)[k];
    let prev = comp_configs(cs.drop_last(), m, entries, p);
    let all = comp_configs(cs, m, entries, p);
    if i == cs.len() - 1 {
        let own = component_configs_view(opt_seq(c.config_file), c, insts_of(m, c.id@), entries, p);
        lemma_entry_in_component(opt_seq(c.config_file), c, insts_of(m, c.id@), entries, p, j, k);
        assert(all == prev + own);
        let idx = choose|idx: int| 0 <= idx < own.len() && own[idx] == x;
        assert(all[prev.len() + idx] == x);
    } else {
        assert(cs.drop_last()[i] == cs[i]);
        lemma_component_config_listed(cs.drop_last(), m, entries, p, i, j, k);
        let idx = choose|idx: int| 0 <= idx < prev.len() && prev[idx] == x;
        assert(all[idx] == prev[idx]);
    }
}

/// The headers kept for an include entry are declared headers that apply.
proof fn lemma_headers_declared(hs: Seq<HeaderFile>, p: Set<Seq<char>>)
    ensures
        forall|k: int|
            #![trigger headers_view(hs, p)[k]]
            0 <= k < headers_view(hs, p).len() ==> exists|h: int|
                0 <= h < hs.len() && (#[trigger] hs[h]).path@ == headers_view(hs, p)[k] && applies(
                    hs[h].condition,
                    hs[h].unless,
                    p,
                ),
    decreases hs.len(),
{
    if hs.len() > 0 {
        let t = hs.drop_last();
        lemma_headers_declared(t, p);
        let prev = headers_view(t, p);
        assert forall|k: int| #![trigger headers_view(hs, p)[k]] 0 <= k < headers_view(hs, p).len() implies exists|h: int|
            0 <= h < hs.len() && (#[trigger] hs[h]).path@ == headers_view(hs, p)[k] && applies(
                hs[h].condition,
                hs[h].unless,
                p,
            ) by {
            if k < prev.len() {
                assert(headers_view(hs, p)[k] == prev[k]);
                let h = choose|h: int|
                    0 <= h < t.len() && (#[trigger] t[h]).path@ == prev[k] && applies(t[h].condition, t[h].unless, p);
                assert(hs[h] == t[h]);
            } else {
                let h = hs.len() - 1;
                assert(hs[h] == hs.last());
            }
        }
    }
}

/// `path` is the path of a header declared in the file list of one of the
/// include entries `es`, whose condition holds in `p` and whose unless names
/// nothing in `p`.
pub open spec fn declared_applying_header(es: Seq<IncludeEntry>, path: Seq<char>, p: Set<Seq<char>>) -> bool {
    exists|j: int, h: int|
        0 <= j < es.len() && 0 <= h < opt_seq(es[j].file_list).len() && (#[trigger] opt_seq(
            es[j].file_list,
        )[h]).path@ == path && applies(opt_seq(es[j].file_list)[h].condition, opt_seq(es[j].file_list)[h].unless, p)
}

/// Every header in the file list of a resolved include entry is a declared
/// header whose condition holds and whose unless names no provided
/// feature: headers that do not apply are left out.
pub proof fn lemma_include_headers_apply(
    es: Seq<IncludeEntry>,
    root: Option<String>,
    parent: Parent,
    p: Set<Seq<char>>,
    k: int,
    l: int,
)
    requires
        0 <= k < includes_view(es, root, parent, p).len(),
        includes_view(es, root, parent, p)[k].3 is Some,
        0 <= l < includes_view(es, root, parent, p)[k].3.unwrap().len(),
    ensures
        declared_applying_header(es, includes_view(es, root, parent, p)[k].3.unwrap()[l], p),
    decreases es.len(),
{
    let t = es.drop_last();
    let prev = includes_view(t, root, parent, p);
    let x = includes_view(es, root, parent, p)[k].3.unwrap()[l];
    if k < prev.len() {
        assert(includes_view(es, root, parent, p)[k] == prev[k]);
        lemma_include_headers_apply(t, root, parent, p, k, l);
        let (j, h) = choose|j: int, h: int|
            0 <= j < t.len() && 0 <= h < opt_seq(t[j].file_list).len() && (#[trigger] opt_seq(
                t[j].file_list,
            )[h]).path@ == x && applies(opt_seq(t[j].file_list)[h].condition, opt_seq(t[j].file_list)[h].unless, p);
        assert(es[j] == t[j]);
        assert(opt_seq(es[j].file_list)[h] == opt_seq(t[j].file_list)[h]);
    } else {
        let j = es.len() - 1;
        assert(es[j] == es.last());
        let hs = opt_seq(es[j].file_list);
        assert(includes_view(es, root, parent, p)[k].3 == file_list_view(es[j].file_list, p));
        assert(includes_view(es, root, parent, p)[k].3.unwrap() == headers_view(hs, p));
        lemma_headers_declared(hs, p);
        let h = choose|h: int| 0 <= h < hs.len() && (#[trigger] hs[h]).path@ == x && applies(hs[h].condition, hs[h].unless, p);
        assert(opt_seq(es[j].file_list)[h] == hs[h]);
    }
}

/// The defines a define entry gives are among those of its list, when the
/// entry applies.
proof fn lemma_define_listed(es: Seq<Define>, insts: Seq<Seq<char>>, expand: bool, p: Set<Seq<char>>, j: int, k: int)
    requires
        0 <= j < es.len(),
        applies(es[j].condition, es[j].unless, p),
        0 <= k < define_expand(es[j], insts, expand).len(),
    ensures
        defines_view(es, insts, expand, p).contains(define_expand(es[j], insts, expand)[k]),
    decreases es.len(),
{
    let x = define_expand(es[j], insts, expand)[k];
    let t = es.drop_last();
    let prev = defines_view(t, insts, expand, p);
    let all = defines_view(es, insts, expand, p);
    if j == es.len() - 1 {
        assert(all == prev + define_expand(es.last(), insts, expand));
        assert(all[prev.len() + k] == x);
    } else {
        assert(t[j] == es[j]);
        lemma_define_listed(t, insts, expand, p, j, k);
        let idx = choose|idx: int| 0 <= idx < prev.len() && prev[idx] == x;
        assert(all[idx] == prev[idx]);
    }
}

/// An applying define with an `{{instance}}` placeholder, expanded per
/// instance, gives for each instance `i` the define whose name and value
/// are what `substitute_instance` makes of the declared name and value
/// with `i`.
pub proof fn lemma_expanded_define(es: Seq<Define>, insts: Seq<Seq<char>>, p: Set<Seq<char>>, j: int, k: int)
    requires
        0 <= j < es.len(),
        applies(es[j].condition, es[j].unless, p),
        define_has_placeholder(es[j]),
        0 <= k < insts.len(),
    ensures
        defines_view(es, insts, true, p).contains(
            (
                spec_substitute(es[j].name@, insts[k]),
                match es[j].value {
                    Some(v) => Some(spec_substitute(v@, insts[k])),
                    None => None,
                },
            ),
        ),
{
    lemma_define_listed(es, insts, true, p, j, k);
}

/// The defines of a resolved component are among those of all components.
proof fn lemma_comp_define_listed(
    cs: Seq<Rc<Component>>,
    m: Map<Seq<char>, Seq<Seq<char>>>,
    p: Set<Seq<char>>,
    i: int,
    x: (Seq<char>, Option<Seq<char>>),
)
    requires
        0 <= i < cs.len(),
        defines_view(opt_seq(cs[i].define), insts_of(m, cs[i].id@), expands_defines(*cs[i], m), p).contains(x),
    ensures
        comp_defines(cs, m, p).contains(x),
    decreases cs.len(),
{
    let t = cs.drop_last();
    let prev = comp_defines(t, m, p);
    let all = comp_defines(cs, m, p);
    if i == cs.len() - 1 {
        let c = *cs[i];
        let own = defines_view(opt_seq(c.define), insts_of(m, c.id@), expands_defines(c, m), p);
        assert(all == prev + own);
        let idx = choose|idx: int| 0 <= idx < own.len() && own[idx] == x;
        assert(all[prev.len() + idx] == x);
    } else {
        assert(t[i] == cs[i]);
        lemma_comp_define_listed(t, m, p, i, x);
        let idx = choose|idx: int| 0 <= idx < prev.len() && prev[idx] == x;
        assert(all[idx] == prev[idx]);
    }
}

/// For an instantiable resolved component with instances, each applying
/// define with a placeholder gives, for every instance `i`, a define whose
/// name and value have the placeholder replaced by `i`, as
/// `substitute_instance` replaces it.
pub proof fn lemma_component_define_per_instance(
    cs: Seq<Rc<Component>>,
    m: Map<Seq<char>, Seq<Seq<char>>>,
    p: Set<Seq<char>>,
    i: int,
    j: int,
    k: int,
)
    requires
        0 <= i < cs.len(),
        cs[i].instantiable is Some,
        0 <= j < opt_seq(cs[i].define).len(),
        applies(opt_seq(cs[i].define)[j].condition, opt_seq(cs[i].define)[j].unless, p),
        define_has_placeholder(opt_seq(cs[i].define)[j]),
        0 <= k < insts_of(m, cs[i].id@).len(),
    ensures
        comp_defines(cs, m, p).contains(
            (
                spec_substitute(opt_seq(cs[i].define)[j].name@, insts_of(m, cs[i].id@)[k]),
                match opt_seq(cs[i].define)[j].value {
                    Some(v) => Some(spec_substitute(v@, insts_of(m, cs[i].id@)[k])),
                    None => None,
                },
            ),
        ),
{
    let c = *cs[i];
    assert(expands_defines(c, m));
    lemma_expanded_define(opt_seq(c.define), insts_of(m, c.id@), p, j, k);
    let e = opt_seq(c.define)[j];
    let ins = insts_of(m, c.id@);
    lemma_comp_define_listed(
        cs,
        m,
        p,
        i,
        (
            spec_substitute(e.name@, ins[k]),
            match e.value {
                Some(v) => Some(spec_substitute(v@, ins[k])),
                None => None,
            },
        ),
    );
}

/// No entry registered for `key`: no replacement.
proof fn lemma_lookup_override_absent(entries: Seq<(OverrideKey, ConfigView)>, key: OverrideKey)
    requires
        forall|k: int| 0 <= k < entries.len() ==> (#[trigger] entries[k]).0 != key,
    ensures
        lookup_override(entries, key) is None,
    decreases entries.len(),
{
    if entries.len() > 0 {
        let t = entries.drop_last();
        assert(entries[entries.len() - 1] == entries.last());
        assert forall|k: int| 0 <= k < t.len() implies (#[trigger] t[k]).0 != key by {
            assert(t[k] == entries[k]);
        }
        lemma_lookup_override_absent(t, key);
    }
}

/// The entry registered last for `key` is the replacement.
proof fn lemma_lookup_override_last(entries: Seq<(OverrideKey, ConfigView)>, key: OverrideKey, j: int)
    requires
        0 <= j < entries.len(),
        entries[j].0 == key,
        forall|k: int| j < k < entries.len() ==> (#[trigger] entries[k]).0 != key,
    ensures
        lookup_override(entries, key) == Some(entries[j].1),
    decreases entries.len(),
{
    if j < entries.len() - 1 {
        let t = entries.drop_last();
        assert(entries[entries.len() - 1] == entries.last());
        assert forall|k: int| j < k < t.len() implies (#[trigger] t[k]).0 != key by {
            assert(t[k] == entries[k]);
        }
        assert(t[j] == entries[j]);
        lemma_lookup_override_last(t, key, j);
    }
}

/// An override naming an instance replaces the config file of that
/// instance: the file takes the path and parent of the override registered
/// last for (file id, component, instance), whatever overrides without an
/// instance say.
pub proof fn lemma_instance_override_wins(
    e: ConfigFile,
    c: Component,
    i: Seq<char>,
    entries: Seq<(OverrideKey, ConfigView)>,
    j: int,
)
    requires
        e.file_id is Some,
        0 <= j < entries.len(),
        entries[j].0 == (e.file_id.unwrap()@, c.id@, Some(i)),
        forall|k: int| j < k < entries.len() ==> (#[trigger] entries[k]).0 != (e.file_id.unwrap()@, c.id@, Some(i)),
    ensures
        config_for(e, c, Some(i), entries).0 == entries[j].1.0,
        config_for(e, c, Some(i), entries).1 == entries[j].1.1,
        config_for(e, c, Some(i), entries).6 == Some(i),
{
    lemma_lookup_override_last(entries, (e.file_id.unwrap()@, c.id@, Some(i)), j);
}

/// Without an override naming the instance, an override for the same file
/// id and component that names no instance replaces the config file of
/// every instance (and of the component when not expanded): the file takes
/// the path and parent of the one registered last.
pub proof fn lemma_instance_override_fallback(
    e: ConfigFile,
    c: Component,
    inst: Option<Seq<char>>,
    entries: Seq<(OverrideKey, ConfigView)>,
    j: int,
)
    requires
        e.file_id is Some,
        0 <= j < entries.len(),
        entries[j].0 == (e.file_id.unwrap()@, c.id@, None::<Seq<char>>),
        forall|k: int|
            j < k < entries.len() ==> (#[trigger] entries[k]).0 != (e.file_id.unwrap()@, c.id@, None::<Seq<char>>),
        inst matches Some(i) ==> forall|k: int|
            0 <= k < entries.len() ==> (#[trigger] entries[k]).0 != (e.file_id.unwrap()@, c.id@, Some(i)),
    ensures
        config_for(e, c, inst, entries).0 == entries[j].1.0,
        config_for(e, c, inst, entries).1 == entries[j].1.1,
        config_for(e, c, inst, entries).6 == inst,
{
    let fid = e.file_id.unwrap()@;
    lemma_lookup_override_last(entries, (fid, c.id@, None), j);
    if let Some(i) = inst {
        lemma_lookup_override_absent(entries, (fid, c.id@, Some(i)));
    }
}

/// Where config files land: under `out_dir/config/export/` when exported,
/// else under `out_dir/config/<directory>/` when the file names a
/// directory, else directly under `out_dir/config/`, each time with its
/// output name (else its source's file name). Stated for an output
/// directory and a directory that are relative-looking and do not end in
/// `/`, and a name that does not start with `/`, where the joins read as
/// plain `/`-separated paths.
pub proof fn lemma_config_destination_layout(out_dir: Seq<char>, cf: ConfigView, src: Seq<char>, n: Seq<char>)
    requires
        out_dir.len() > 0,
        out_dir.last() != '/',
        cf.5 == Some(n) || (cf.5 is None && spec_file_name(src) == Some(n)),
        !(n.len() > 0 && n[0] == '/'),
    ensures
        cf.4 == Some(true) ==> config_destination_of(out_dir, cf, src) == Some(
            out_dir + seq!['/'] + config_dir_name() + seq!['/'] + export_dir_name() + seq!['/'] + n,
        ),
        cf.4 != Some(true) && cf.3 is None ==> config_destination_of(out_dir, cf, src) == Some(
            out_dir + seq!['/'] + config_dir_name() + seq!['/'] + n,
        ),
        cf.4 != Some(true) && cf.3 is Some && cf.3.unwrap().len() > 0 && cf.3.unwrap()[0] != '/'
            && cf.3.unwrap().last() != '/' ==> config_destination_of(out_dir, cf, src) == Some(
            out_dir + seq!['/'] + config_dir_name() + seq!['/'] + cf.3.unwrap() + seq!['/'] + n,
        ),
{
    let root = spec_join(out_dir, config_dir_name());
    assert(root =~= out_dir + seq!['/'] + config_dir_name());
    assert(root.last() == 'g');
    let ex = spec_join(root, export_dir_name());
    assert(ex =~= root + seq!['/'] + export_dir_name());
    assert(ex.last() == 't');
    assert(spec_join(ex, n) =~= out_dir + seq!['/'] + config_dir_name() + seq!['/'] + export_dir_name() + seq!['/'] + n);
    assert(spec_join(root, n) =~= out_dir + seq!['/'] + config_dir_name() + seq!['/'] + n);
    if let Some(d) = cf.3 {
        if d.len() > 0 && d[0] != '/' && d.last() != '/' {
            let dd = spec_join(root, d);
            assert(dd =~= root + seq!['/'] + d);
            assert(dd.last() == d.last());
            assert(spec_join(dd, n) =~= out_dir + seq!['/'] + config_dir_name() + seq!['/'] + d + seq!['/'] + n);
        }
    }
}

/// A `.jinja` or `.jinja2` suffix is cut off whole, and a path with
/// neither is kept as it is.
pub proof fn lemma_template_suffix_stripped(path: Seq<char>)
    ensures
        ends_with(path, jinja_suffix()) ==> strip_template_suffix(path) + jinja_suffix() == path,
        !ends_with(path, jinja_suffix()) && ends_with(path, jinja2_suffix()) ==> strip_template_suffix(path)
            + jinja2_suffix() == path,
        !ends_with(path, jinja_suffix()) && !ends_with(path, jinja2_suffix()) ==> strip_template_suffix(path)
            == path,
{
    if ends_with(path, jinja_suffix()) {
        assert(strip_template_suffix(path) + jinja_suffix() =~= path);
    } else if ends_with(path, jinja2_suffix()) {
        assert(strip_template_suffix(path) + jinja2_suffix() =~= path);
    }
}

/// Where rendered templates land: under `out_dir/autogen/export/` when
/// exported, else directly under `out_dir/autogen/`, named by the file name
/// of the template's path without its template suffix. Stated for an
/// output directory that does not end in `/` and a name that does not start
/// with `/`, where the joins read as plain `/`-separated paths.
pub proof fn lemma_template_destination_layout(
    out_dir: Seq<char>,
    t: (Seq<char>, Parent, Option<bool>),
    n: Seq<char>,
)
    requires
        out_dir.len() > 0,
        out_dir.last() != '/',
        spec_file_name(strip_template_suffix(t.0)) == Some(n),
        !(n.len() > 0 && n[0] == '/'),
    ensures
        t.2 == Some(true) ==> template_destination_of(out_dir, t) == Some(
            out_dir + seq!['/'] + autogen_dir_name() + seq!['/'] + export_dir_name() + seq!['/'] + n,
        ),
        t.2 != Some(true) ==> template_destination_of(out_dir, t) == Some(
            out_dir + seq!['/'] + autogen_dir_name() + seq!['/'] + n,
        ),
{
    let root = spec_join(out_dir, autogen_dir_name());
    assert(root =~= out_dir + seq!['/'] + autogen_dir_name());
    assert(root.last() == 'n');
    let ex = spec_join(root, export_dir_name());
    assert(ex =~= root + seq!['/'] + export_dir_name());
    assert(ex.last() == 't');
    assert(spec_join(ex, n) =~= out_dir + seq!['/'] + autogen_dir_name() + seq!['/'] + export_dir_name() + seq!['/']
        + n);
    assert(spec_join(root, n) =~= out_dir + seq!['/'] + autogen_dir_name() + seq!['/'] + n);
}

/// Every resolved source comes from a declared source entry that applies:
/// its condition holds and its unless names no provided feature.
pub proof fn lemma_sources_apply(es: Seq<SourceFile>, root: Option<String>, parent: Parent, p: Set<Seq<char>>, k: int)
    requires
        0 <= k < sources_view(es, root, parent, p).len(),
    ensures
        exists|j: int|
            0 <= j < es.len() && applies((#[trigger] es[j]).condition, es[j].unless, p) && sources_view(
                es,
                root,
                parent,
                p,
            )[k] == (spec_join_root(root, es[j].path@), parent, es[j].directory.deep_view()),
    decreases es.len(),
{
    let t = es.drop_last();
    let prev = sources_view(t, root, parent, p);
    if k < prev.len() {
        lemma_sources_apply(t, root, parent, p, k);
        let j = choose|j: int|
            0 <= j < t.len() && applies((#[trigger] t[j]).condition, t[j].unless, p) && prev[k] == (
                spec_join_root(root, t[j].path@),
                parent,
                t[j].directory.deep_view(),
            );
        assert(es[j] == t[j]);
    } else {
        assert(es[es.len() - 1] == es.last());
    }
}

/// Every resolved include entry comes from a declared include entry that
/// applies.
pub proof fn lemma_includes_apply(
    es: Seq<IncludeEntry>,
    root: Option<String>,
    parent: Parent,
    p: Set<Seq<char>>,
    k: int,
)
    requires
        0 <= k < includes_view(es, root, parent, p).len(),
    ensures
        exists|j: int|
            0 <= j < es.len() && applies((#[trigger] es[j]).condition, es[j].unless, p)
                && includes_view(es, root, parent, p)[k].0 == spec_join_root(root, es[j].path@),
    decreases es.len(),
{
    let t = es.drop_last();
    let prev = includes_view(t, root, parent, p);
    if k < prev.len() {
        lemma_includes_apply(t, root, parent, p, k);
        let j = choose|j: int|
            0 <= j < t.len() && applies((#[trigger] t[j]).condition, t[j].unless, p) && prev[k].0
                == spec_join_root(root, t[j].path@);
        assert(es[j] == t[j]);
    } else {
        assert(es[es.len() - 1] == es.last());
    }
}

/// Every resolved template file comes from a declared template entry that
/// applies.
pub proof fn lemma_templates_apply(
    es: Seq<TemplateFile>,
    root: Option<String>,
    parent: Parent,
    p: Set<Seq<char>>,
    k: int,
)
    requires
        0 <= k < templates_view(es, root, parent, p).len(),
    ensures
        exists|j: int|
            0 <= j < es.len() && applies((#[trigger] es[j]).condition, es[j].unless, p) && templates_view(
                es,
                root,
                parent,
                p,
            )[k] == (spec_join_root(root, es[j].path@), parent, es[j].export),
    decreases es.len(),
{
    let t = es.drop_last();
    let prev = templates_view(t, root, parent, p);
    if k < prev.len() {
        lemma_templates_apply(t, root, parent, p, k);
        let j = choose|j: int|
            0 <= j < t.len() && applies((#[trigger] t[j]).condition, t[j].unless, p) && prev[k] == (
                spec_join_root(root, t[j].path@),
                parent,
                t[j].export,
            );
        assert(es[j] == t[j]);
    } else {
        assert(es[es.len() - 1] == es.last());
    }
}

} // verus!
