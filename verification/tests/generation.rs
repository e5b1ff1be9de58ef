//! What a resolved project generates: config file placement, configuration
//! overrides, headers and template contributions.

use slc::{
    template_destination, Component, ComponentId, ConfigFile, Configuration, HeaderFile,
    IncludeEntry, ParsedProject, Project, SDKId, TemplateContribution, TemplateFile, SDK,
};
use std::path::Path;
use std::rc::Rc;

fn component(id: &str) -> Component {
    Component {
        id: id.to_string(),
        quality: None,
        root_path: None,
        sdk_root: "sdk".to_string(),
        instantiable: None,
        source: None,
        includes: None,
        config_file: None,
        define: None,
        requires: None,
        provides: None,
        conflicts: None,
        recommends: None,
        library: None,
        template_file: None,
        template_contribution: None,
        toolchain_settings: None,
        other_file: None,
    }
}

fn listed(id: &str) -> ComponentId {
    ComponentId { id: id.to_string(), instance: None, from: None, condition: None }
}

fn project(listed_ids: &[&str]) -> Project {
    Project {
        project_name: "p".to_string(),
        quality: None,
        sdk: SDKId { id: "test_sdk".to_string(), version: "1".to_string() },
        root_path: "project".to_string(),
        source: None,
        includes: None,
        config_file: None,
        component: Some(listed_ids.iter().map(|id| listed(id)).collect()),
        define: None,
        requires: None,
        provides: None,
        conflicts: None,
        library: None,
        template_contribution: None,
        configuration: None,
        toolchain_settings: None,
        other_file: None,
        post_build: None,
    }
}

fn build(components: Vec<Component>, p: &Project) -> ParsedProject {
    let sdk = SDK::from_components(
        "test_sdk".to_string(),
        "sdk".to_string(),
        components.into_iter().map(Rc::new).collect(),
    );
    let resolved = p.resolve_components(&sdk).expect("resolves");
    ParsedProject::new(&sdk, p, &resolved)
}

fn config_file(path: &str) -> ConfigFile {
    ConfigFile {
        path: path.to_string(),
        file_id: None,
        directory: None,
        export: None,
        override_target: None,
        condition: None,
        unless: None,
    }
}

fn configuration(name: &str, value: &str) -> Configuration {
    Configuration { name: name.to_string(), value: value.to_string(), condition: None, unless: None }
}

fn template(path: &str, export: Option<bool>) -> TemplateFile {
    TemplateFile { path: path.to_string(), condition: None, unless: None, export }
}

fn contribution(name: &str, value: i64, priority: Option<i16>) -> TemplateContribution {
    TemplateContribution {
        name: name.to_string(),
        value: minijinja::Value::from(value),
        priority,
        condition: None,
        unless: None,
    }
}

#[test]
fn config_file_goes_to_config_dir() {
    let mut c = component("cfgcomp");
    c.config_file = Some(vec![config_file("cfg/foo_config.h")]);
    let parsed = build(vec![c], &project(&["cfgcomp"]));
    assert_eq!(parsed.config_file.len(), 1);
    let cf = &parsed.config_file[0];
    assert_eq!(parsed.config_source(cf), "sdk/cfg/foo_config.h");
    assert_eq!(parsed.config_destination("out", cf).unwrap(), "out/config/foo_config.h");
}

#[test]
fn exported_config_file_goes_to_config_export() {
    let mut c = component("cfgcomp");
    let mut cf = config_file("cfg/exp.h");
    cf.export = Some(true);
    c.config_file = Some(vec![cf]);
    let parsed = build(vec![c], &project(&["cfgcomp"]));
    let dest = parsed.config_destination("out", &parsed.config_file[0]).unwrap();
    assert_eq!(dest, "out/config/export/exp.h");
    assert_ne!(dest, "out/config/exp.h");
}

#[test]
fn configuration_rewrites_matching_define() {
    let mut c = component("cfgcomp");
    c.config_file = Some(vec![config_file("cfg/foo_config.h")]);
    let mut p = project(&["cfgcomp"]);
    p.configuration = Some(vec![configuration("FOO_COUNT", "9")]);
    let parsed = build(vec![c], &p);
    let out = parsed.apply_configuration(
        "// <o FOO_COUNT> Count\n#define FOO_COUNT   7\n#define UNTOUCHED 3\n",
    );
    assert!(out.contains("#define FOO_COUNT 9"), "got: {out:?}");
    assert!(out.contains("#define UNTOUCHED 3"), "unrelated define changed: {out:?}");
}

#[test]
fn configuration_last_matching_rule_wins() {
    let mut c = component("cfgcomp");
    c.config_file = Some(vec![config_file("cfg/foo_config.h")]);
    let mut p = project(&["cfgcomp"]);
    p.configuration = Some(vec![configuration("FOO", "2"), configuration("FOO", "3")]);
    let parsed = build(vec![c], &p);
    assert!(parsed.apply_configuration("#define FOO 1\n").contains("#define FOO 3"));
}

#[test]
fn get_included_headers_recognizes_all_header_extensions() {
    let mut c = component("hdr");
    let header = |p: &str| HeaderFile { path: p.to_string(), condition: None, unless: None };
    c.includes = Some(vec![IncludeEntry {
        path: "inc".to_string(),
        directory: None,
        file_list: Some(vec![
            header("a.h"),
            header("b.hpp"),
            header("c.hxx"),
            header("d.hh"),
            header("notheader.txt"),
        ]),
        condition: None,
        unless: None,
    }]);
    let parsed = build(vec![c], &project(&["hdr"]));
    let names: Vec<String> = parsed
        .get_included_headers()
        .iter()
        .map(|p| Path::new(p).file_name().unwrap().to_string_lossy().into_owned())
        .collect();
    for h in ["a.h", "b.hpp", "c.hxx", "d.hh"] {
        assert!(names.contains(&h.to_string()), "missing {h} in {names:?}");
    }
    assert!(!names.iter().any(|n| n == "notheader.txt"));
}

#[test]
fn template_contributions_order_by_priority_then_component_id() {
    let mut zed = component("zed");
    zed.template_contribution = Some(vec![contribution("x", 1, Some(0))]);
    let mut abc = component("abc");
    abc.template_contribution = Some(vec![contribution("x", 2, Some(0)), contribution("x", 3, Some(-5))]);
    // zed listed first to prove the result is sorted, not insertion order.
    let parsed = build(vec![zed, abc], &project(&["zed", "abc"]));
    let order: Vec<String> = parsed
        .template_contribution
        .get("x")
        .expect("x has contributions")
        .iter()
        .map(|v| v.to_string())
        .collect();
    assert_eq!(order, ["3", "2", "1"]);
}

#[test]
fn templates_route_to_autogen_and_export() {
    let mut c = component("tmpl");
    c.template_file = Some(vec![template("t/a.c.jinja", None), template("t/b.c.jinja", Some(true))]);
    let parsed = build(vec![c], &project(&["tmpl"]));
    assert_eq!(template_destination("out", &parsed.template_file[0]).unwrap(), "out/autogen/a.c");
    assert_eq!(
        template_destination("out", &parsed.template_file[1]).unwrap(),
        "out/autogen/export/b.c"
    );
    assert_eq!(parsed.template_source(&parsed.template_file[0]), "sdk/t/a.c.jinja");
}

#[test]
fn template_without_jinja_suffix_keeps_its_name() {
    let mut c = component("tmpl");
    c.template_file = Some(vec![template("t/plain.txt", None), template("t/x.h.jinja2", None)]);
    let parsed = build(vec![c], &project(&["tmpl"]));
    assert_eq!(template_destination("out", &parsed.template_file[0]).unwrap(), "out/autogen/plain.txt");
    assert_eq!(template_destination("out", &parsed.template_file[1]).unwrap(), "out/autogen/x.h");
}

#[test]
fn template_contribution_values_are_grouped_in_order() {
    let mut c = component("c");
    c.template_contribution = Some(vec![contribution("nums", 10, None), contribution("nums", 20, None)]);
    let parsed = build(vec![c], &project(&["c"]));
    let values: Vec<String> =
        parsed.template_contribution.get("nums").unwrap().iter().map(|v| v.to_string()).collect();
    assert_eq!(values, ["10", "20"]);
    assert_eq!(parsed.template_contribution.len(), 1);
    assert!(parsed.template_contribution.get("other").is_none());
}
