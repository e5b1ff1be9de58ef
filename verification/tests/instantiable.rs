//! Instantiable components: per-instance config files, the `{{instance}}`
//! path substitution stages, the `INSTANCE` content transform, per-instance
//! defines, and instance-targeted config overrides.

use slc::{
    transform_instance_content, Component, ComponentId, ConfigFile, ConfigFileOverride, Define,
    Instantiable, ParsedProject, Parent, Project, SDKId, SDK,
};
use std::rc::Rc;

fn instantiable(id: &str, prefix: &str) -> Component {
    Component {
        id: id.to_string(),
        quality: None,
        root_path: None,
        sdk_root: "sdk".to_string(),
        instantiable: Some(Instantiable { prefix: prefix.to_string() }),
        source: None,
        includes: None,
        config_file: None,
        define: None,
        requires: None,
        provides: None,
        conflicts: None,
        recommends: None,
        library: None,
        template_file: None,
        template_contribution: None,
        toolchain_settings: None,
        other_file: None,
    }
}

fn project_with_instances(id: &str, instances: &[&str]) -> Project {
    Project {
        project_name: "p".to_string(),
        quality: None,
        sdk: SDKId { id: "test_sdk".to_string(), version: "1".to_string() },
        root_path: "project".to_string(),
        source: None,
        includes: None,
        config_file: None,
        component: Some(vec![ComponentId {
            id: id.to_string(),
            instance: Some(instances.iter().map(|s| s.to_string()).collect()),
            from: None,
            condition: None,
        }]),
        define: None,
        requires: None,
        provides: None,
        conflicts: None,
        library: None,
        template_contribution: None,
        configuration: None,
        toolchain_settings: None,
        other_file: None,
        post_build: None,
    }
}

fn build(c: Component, p: &Project) -> ParsedProject {
    let sdk = SDK::from_components("test_sdk".to_string(), "sdk".to_string(), vec![Rc::new(c)]);
    let resolved = p.resolve_components(&sdk).expect("resolves");
    ParsedProject::new(&sdk, p, &resolved)
}

fn config_with_id(path: &str, file_id: &str) -> ConfigFile {
    ConfigFile {
        path: path.to_string(),
        file_id: Some(file_id.to_string()),
        directory: None,
        export: None,
        override_target: None,
        condition: None,
        unless: None,
    }
}

#[test]
fn instantiable_config_file_expands_per_instance() {
    let mut c = instantiable("simple_button", "btn");
    c.config_file = Some(vec![config_with_id("cfg/btncfg_{{instance}}.h", "btn_cfg")]);
    let parsed = build(c, &project_with_instances("simple_button", &["btn0", "btn1"]));

    // One config file per instance: the source is named with the prefix, the
    // output with the instance.
    assert_eq!(parsed.config_file.len(), 2);
    let dests: Vec<String> =
        parsed.config_file.iter().map(|cf| parsed.config_destination("out", cf).unwrap()).collect();
    assert_eq!(dests, ["out/config/btncfg_btn0.h", "out/config/btncfg_btn1.h"]);
    for cf in &parsed.config_file {
        assert_eq!(parsed.config_source(cf), "sdk/cfg/btncfg_btn.h");
    }
    assert_eq!(parsed.config_file[0].instance.as_deref(), Some("btn0"));
    // The content's INSTANCE token takes the upper-cased instance name.
    assert_eq!(
        transform_instance_content("sdk/cfg/btncfg_btn.h", "btn0", "#define BTNCFG_INSTANCE_ENABLE 1\n"),
        "#define BTNCFG_BTN0_ENABLE 1\n"
    );
    assert_eq!(
        transform_instance_content("sdk/cfg/btncfg_btn.h", "btn1", "#define BTNCFG_INSTANCE_ENABLE 1\n"),
        "#define BTNCFG_BTN1_ENABLE 1\n"
    );
    assert!(!dests.contains(&"out/config/btncfg_btn.h".to_string()));
}

#[test]
fn config_contents_are_transformed_per_instance() {
    let mut c = instantiable("simple_button", "btn");
    c.config_file = Some(vec![config_with_id("cfg/btncfg_{{instance}}.h", "btn_cfg")]);
    let parsed = build(c, &project_with_instances("simple_button", &["btn0", "btn1"]));
    let written: Vec<String> = parsed
        .config_file
        .iter()
        .map(|cf| parsed.config_contents(cf, &parsed.config_source(cf), "#define BTNCFG_INSTANCE_ENABLE 1\n"))
        .collect();
    assert_eq!(written, ["#define BTNCFG_BTN0_ENABLE 1\n", "#define BTNCFG_BTN1_ENABLE 1\n"]);
}

#[test]
fn xml_instance_content_is_substituted_verbatim() {
    let mut c = instantiable("radio", "r");
    c.config_file = Some(vec![config_with_id("cfg/radio_{{instance}}.xml", "r_cfg")]);
    let parsed = build(c, &project_with_instances("radio", &["r0"]));
    let cf = &parsed.config_file[0];
    assert_eq!(parsed.config_destination("out", cf).unwrap(), "out/config/radio_r0.xml");
    assert_eq!(
        transform_instance_content(&parsed.config_source(cf), "r0", "<radio name=\"{{instance}}\"/>\n"),
        "<radio name=\"r0\"/>\n"
    );
}

#[test]
fn instantiable_defines_expand_per_instance() {
    let mut c = instantiable("led", "led");
    c.define = Some(vec![Define {
        name: "SL_{{instance}}_COUNT".to_string(),
        value: Some("4".to_string()),
        condition: None,
        unless: None,
    }]);
    let parsed = build(c, &project_with_instances("led", &["led0", "led1"]));
    let names: Vec<&str> = parsed.define.iter().map(|d| d.name.as_str()).collect();
    assert!(names.contains(&"SL_led0_COUNT"), "got {names:?}");
    assert!(names.contains(&"SL_led1_COUNT"), "got {names:?}");
}

#[test]
fn override_targets_a_single_instance() {
    let mut c = instantiable("btn", "btn");
    c.config_file = Some(vec![config_with_id("cfg/b_{{instance}}.h", "bcfg")]);
    let mut p = project_with_instances("btn", &["btn0", "btn1"]);
    // The project supplies a replacement for the btn0 instance only.
    p.config_file = Some(vec![ConfigFile {
        path: "over_btn0.h".to_string(),
        file_id: None,
        directory: None,
        export: None,
        override_target: Some(ConfigFileOverride {
            file_id: "bcfg".to_string(),
            component: "btn".to_string(),
            instance: Some("btn0".to_string()),
        }),
        condition: None,
        unless: None,
    }]);
    let parsed = build(c, &p);

    assert_eq!(parsed.config_file.len(), 2);
    let b0 = &parsed.config_file[0];
    let b1 = &parsed.config_file[1];
    assert_eq!(parsed.config_destination("out", b0).unwrap(), "out/config/b_btn0.h");
    assert_eq!(parsed.config_source(b0), "project/over_btn0.h");
    assert!(matches!(b0.parent, Parent::Project));
    assert_eq!(parsed.config_destination("out", b1).unwrap(), "out/config/b_btn1.h");
    assert_eq!(parsed.config_source(b1), "sdk/cfg/b_btn.h");
}
