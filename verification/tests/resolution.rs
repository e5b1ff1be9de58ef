//! Dependency resolution: requires, provides, conflicts, recommends.

use slc::{
    Component, ComponentId, Conflict, Feature, Instantiable, Project, Recommendation, Require,
    ResolveError, ResolveResult, SDKId, SDK,
};
use std::rc::Rc;

fn component(id: &str) -> Component {
    Component {
        id: id.to_string(),
        quality: None,
        root_path: None,
        sdk_root: ".".to_string(),
        instantiable: None,
        source: None,
        includes: None,
        config_file: None,
        define: None,
        requires: None,
        provides: None,
        conflicts: None,
        recommends: None,
        library: None,
        template_file: None,
        template_contribution: None,
        toolchain_settings: None,
        other_file: None,
    }
}

fn feature(name: &str) -> Feature {
    Feature { name: name.to_string(), condition: None, allow_multiple: None }
}

fn feature_allowing_multiple(name: &str) -> Feature {
    Feature { name: name.to_string(), condition: None, allow_multiple: Some(true) }
}

fn require(name: &str) -> Require {
    Require { name: name.to_string(), condition: None }
}

fn conflict(name: &str) -> Conflict {
    Conflict { name: name.to_string(), condition: None }
}

fn listed(id: &str) -> ComponentId {
    ComponentId { id: id.to_string(), instance: None, from: None, condition: None }
}

fn project() -> Project {
    Project {
        project_name: "p".to_string(),
        quality: None,
        sdk: SDKId { id: "s".to_string(), version: "1".to_string() },
        root_path: ".".to_string(),
        source: None,
        includes: None,
        config_file: None,
        component: None,
        define: None,
        requires: None,
        provides: None,
        conflicts: None,
        library: None,
        template_contribution: None,
        configuration: None,
        toolchain_settings: None,
        other_file: None,
        post_build: None,
    }
}

fn mk_sdk(components: Vec<Component>) -> SDK {
    SDK::from_components(
        "test_sdk".to_string(),
        ".".to_string(),
        components.into_iter().map(Rc::new).collect(),
    )
}

fn ids(r: &ResolveResult) -> Vec<String> {
    let mut v: Vec<String> = r.components.iter().map(|c| c.id.clone()).collect();
    v.sort();
    v
}

#[test]
fn single_provider_is_pulled_in() {
    let mut uart = component("uart_comp");
    uart.provides = Some(vec![feature("uart")]);
    let sdk = mk_sdk(vec![uart]);
    let mut p = project();
    p.requires = Some(vec![require("uart")]);

    let r = p.resolve_components(&sdk).expect("resolves");
    assert_eq!(ids(&r), ["uart_comp"]);
    assert!(r.provided_features.contains("uart"));
}

#[test]
fn project_provides_satisfies_component_requirement() {
    let mut needs = component("needs_foo");
    needs.requires = Some(vec![require("foo")]);
    let sdk = mk_sdk(vec![needs]);
    let mut p = project();
    p.provides = Some(vec![feature("foo")]);
    p.component = Some(vec![listed("needs_foo")]);

    let r = p.resolve_components(&sdk).expect("resolves");
    assert_eq!(ids(&r), ["needs_foo"]);
    assert!(r.provided_features.contains("foo"));
}

#[test]
fn conditional_provide_activates_only_when_condition_met() {
    let mut a = component("a");
    a.provides = Some(vec![Feature {
        name: "feat_b".to_string(),
        condition: Some(vec!["feat_a".to_string()]),
        allow_multiple: None,
    }]);
    let mut b = component("b");
    b.provides = Some(vec![feature("feat_a")]);
    let sdk = mk_sdk(vec![a, b]);

    let mut with_b = project();
    with_b.component = Some(vec![listed("a"), listed("b")]);
    let r = with_b.resolve_components(&sdk).expect("resolves");
    assert!(r.provided_features.contains("feat_a"));
    assert!(r.provided_features.contains("feat_b"));

    let mut without_b = project();
    without_b.component = Some(vec![listed("a")]);
    let r2 = without_b.resolve_components(&sdk).expect("resolves");
    assert!(!r2.provided_features.contains("feat_b"));
}

#[test]
fn conflicting_features_are_rejected() {
    let mut a = component("a");
    a.provides = Some(vec![feature("x")]);
    a.conflicts = Some(vec![conflict("y")]);
    let mut b = component("b");
    b.provides = Some(vec![feature("y")]);
    let sdk = mk_sdk(vec![a, b]);
    let mut p = project();
    p.component = Some(vec![listed("a"), listed("b")]);

    match p.resolve_components(&sdk) {
        Err(ResolveError::ConflictingFeatures(fs)) => assert!(fs.contains(&"y".to_string())),
        other => panic!("expected ConflictingFeatures, got {other:?}"),
    }
}

fn two_rtos_providers(allow_a: bool, allow_b: bool) -> (SDK, Project) {
    let mut a = component("a");
    a.provides = Some(vec![if allow_a { feature_allowing_multiple("rtos") } else { feature("rtos") }]);
    let mut b = component("b");
    b.provides = Some(vec![if allow_b { feature_allowing_multiple("rtos") } else { feature("rtos") }]);
    let sdk = mk_sdk(vec![a, b]);
    let mut p = project();
    p.component = Some(vec![listed("a"), listed("b")]);
    (sdk, p)
}

#[test]
fn duplicate_provide_without_allow_multiple_fails() {
    let (sdk, p) = two_rtos_providers(false, false);
    match p.resolve_components(&sdk) {
        Err(ResolveError::DuplicateProvide { feature, components }) => {
            assert_eq!(feature, "rtos");
            assert_eq!(components, ["a", "b"]);
        }
        other => panic!("expected DuplicateProvide, got {other:?}"),
    }
}

#[test]
fn duplicate_provide_allowed_when_all_set_allow_multiple() {
    let (sdk, p) = two_rtos_providers(true, true);
    assert!(p.resolve_components(&sdk).is_ok());
}

#[test]
fn duplicate_provide_fails_if_only_some_allow_multiple() {
    let (sdk, p) = two_rtos_providers(true, false);
    assert!(matches!(
        p.resolve_components(&sdk),
        Err(ResolveError::DuplicateProvide { .. })
    ));
}

#[test]
fn unknown_component_is_reported() {
    let sdk = mk_sdk(vec![component("real")]);
    let mut p = project();
    p.component = Some(vec![listed("ghost")]);
    assert!(matches!(
        p.resolve_components(&sdk),
        Err(ResolveError::UnknownComponent(id)) if id == "ghost"
    ));
}

#[test]
fn unsatisfiable_requirement_is_reported() {
    let sdk = mk_sdk(vec![component("real")]);
    let mut p = project();
    p.requires = Some(vec![require("nonexistent")]);
    assert!(matches!(
        p.resolve_components(&sdk),
        Err(ResolveError::UnsatisfiedRequirement(req)) if req == "nonexistent"
    ));
}

fn rtos_choice(app: Component) -> (SDK, Project) {
    let mut free = component("freertos");
    free.provides = Some(vec![feature("rtos")]);
    let mut micrium = component("micrium");
    micrium.provides = Some(vec![feature("rtos")]);
    let sdk = mk_sdk(vec![free, micrium, app]);
    let mut p = project();
    p.component = Some(vec![listed("app")]);
    (sdk, p)
}

#[test]
fn multiple_providers_are_ambiguous_without_a_recommendation() {
    let mut app = component("app");
    app.provides = Some(vec![feature("app_feat")]);
    app.requires = Some(vec![require("rtos")]);
    let (sdk, p) = rtos_choice(app);

    match p.resolve_components(&sdk) {
        Err(ResolveError::AmbiguousRequirement { requirement, candidates }) => {
            assert_eq!(requirement, "rtos");
            assert_eq!(candidates.len(), 2);
        }
        other => panic!("expected AmbiguousRequirement, got {other:?}"),
    }
}

#[test]
fn recommendation_resolves_ambiguity() {
    let mut app = component("app");
    app.requires = Some(vec![require("rtos")]);
    app.recommends = Some(vec![Recommendation { id: "freertos".to_string(), condition: None }]);
    let (sdk, p) = rtos_choice(app);

    let r = p.resolve_components(&sdk).expect("resolves via recommendation");
    assert_eq!(ids(&r), ["app", "freertos"]);
}

#[test]
fn shared_dependency_added_once_and_no_duplicates() {
    let mut a = component("a");
    a.requires = Some(vec![require("x")]);
    let mut b = component("b");
    b.requires = Some(vec![require("x")]);
    let mut xprov = component("xprov");
    xprov.provides = Some(vec![feature("x")]);
    let sdk = mk_sdk(vec![a, b, xprov]);
    let mut p = project();
    p.component = Some(vec![listed("a"), listed("b")]);

    let r = p.resolve_components(&sdk).expect("resolves");
    assert_eq!(ids(&r), ["a", "b", "xprov"]);
    let unique: std::collections::BTreeSet<_> = r.components.iter().map(|c| &c.id).collect();
    assert_eq!(unique.len(), r.components.len(), "no duplicate components");
}

#[test]
fn candidate_with_unconditional_conflict_on_absent_feature_is_selectable() {
    let mut cmu = component("cmu");
    cmu.provides = Some(vec![feature("emlib_cmu")]);
    cmu.conflicts = Some(vec![conflict("device_series_3")]);
    let sdk = mk_sdk(vec![cmu]);
    let mut p = project();
    p.requires = Some(vec![require("emlib_cmu")]);
    let r = p.resolve_components(&sdk).expect("resolves");
    assert_eq!(ids(&r), ["cmu"]);
}

#[test]
fn instance_names_are_collected() {
    let mut rail = component("rail_util_init");
    rail.instantiable = Some(Instantiable { prefix: "inst".to_string() });
    let sdk = mk_sdk(vec![rail]);
    let mut p = project();
    p.component = Some(vec![ComponentId {
        id: "rail_util_init".to_string(),
        instance: Some(vec!["inst0".to_string(), "inst1".to_string()]),
        from: None,
        condition: None,
    }]);
    let r = p.resolve_components(&sdk).expect("resolves");
    assert_eq!(ids(&r), ["rail_util_init"]);
    assert_eq!(r.instances.get("rail_util_init").expect("listed"), &["inst0", "inst1"]);
}

#[test]
fn additions_follow_listed_components_in_requirement_order() {
    let mut top = component("top");
    top.requires = Some(vec![require("y_feature"), require("x_feature")]);
    let mut for_x = component("z_provider");
    for_x.provides = Some(vec![feature("x_feature")]);
    let mut for_y = component("a_provider");
    for_y.provides = Some(vec![feature("y_feature")]);
    let sdk = mk_sdk(vec![for_y, for_x, top]);
    let mut p = project();
    p.component = Some(vec![listed("top")]);

    let first = p.resolve_components(&sdk).expect("resolves");
    let order: Vec<String> = first.components.iter().map(|c| c.id.clone()).collect();
    assert_eq!(order, ["top", "z_provider", "a_provider"]);

    let again = p.resolve_components(&sdk).expect("resolves again");
    let order_again: Vec<String> = again.components.iter().map(|c| c.id.clone()).collect();
    assert_eq!(order, order_again);
}
