//! Edge cases and laws of the library on concrete values.

use slc::{
    has_instance_ph, is_header, join_root, prepare_template, rewrite_define_line, rewrite_defines,
    transform_instance_content, FeatureSet, InstanceMap, PostBuild, PostBuildEntry, ResolveError,
};

fn pairs(v: &[(&str, &str)]) -> Vec<(String, String)> {
    v.iter().map(|(a, b)| (a.to_string(), b.to_string())).collect()
}

#[test]
fn define_line_keeps_indentation_and_newline() {
    let values = pairs(&[("FOO", "9")]);
    assert_eq!(rewrite_define_line("  #define FOO 7\n", &values), "  #define FOO 9\n");
    assert_eq!(rewrite_define_line("#define\tFOO\t7", &values), "#define FOO 9");
}

#[test]
fn define_line_keeps_crlf_ending() {
    let values = pairs(&[("A", "2")]);
    assert_eq!(rewrite_define_line("#define A 1\r\n", &values), "#define A 2\r\n");
    assert_eq!(rewrite_define_line("\t#define A 1 /* c */\r\n", &values), "\t#define A 2\r\n");
    assert_eq!(rewrite_defines("#define A 0\r\n#define B 3\r\n", &values), "#define A 2\r\n#define B 3\r\n");
}

#[test]
fn rewriting_a_define_line_twice_changes_nothing_more() {
    let values = pairs(&[("A", "2"), ("B", "x y")]);
    for line in ["#define A 1\r\n", "  #define B 0\n", "#define A", "#define C 4\n", "int a;\n"] {
        let once = rewrite_define_line(line, &values);
        assert_eq!(rewrite_define_line(&once, &values), once);
    }
}

#[test]
fn define_line_untouched_cases() {
    let values = pairs(&[("FOO", "9"), ("F", "1")]);
    // function-like macro
    assert_eq!(rewrite_define_line("#define FOO(x) x\n", &values), "#define FOO(x) x\n");
    // no white space after the directive
    assert_eq!(rewrite_define_line("#defineFOO 7\n", &values), "#defineFOO 7\n");
    // a name without an override
    assert_eq!(rewrite_define_line("#define BAR 7\n", &values), "#define BAR 7\n");
    // not a define
    assert_eq!(rewrite_define_line("// #define FOO 7\n", &values), "// #define FOO 7\n");
    assert_eq!(rewrite_define_line("#define \n", &values), "#define \n");
    // the whole name must match
    assert_eq!(rewrite_define_line("#define FOO_X 7\n", &values), "#define FOO_X 7\n");
}

#[test]
fn define_name_with_digits_and_underscores() {
    let values = pairs(&[("SL_2_COUNT", "5")]);
    assert_eq!(rewrite_define_line("#define SL_2_COUNT 1 // c\n", &values), "#define SL_2_COUNT 5\n");
}

#[test]
fn last_value_wins_and_lines_are_kept() {
    let values = pairs(&[("A", "1"), ("A", "2")]);
    assert_eq!(rewrite_defines("x\n#define A 0\ny", &values), "x\n#define A 2\ny");
    assert_eq!(rewrite_defines("", &values), "");
    assert_eq!(rewrite_defines("#define A 0\n#define A 5\n", &values), "#define A 2\n#define A 2\n");
}

#[test]
fn no_overrides_leave_text_unchanged() {
    let text = "#define A 0\r\n  #define B 1\nplain\n";
    assert_eq!(rewrite_defines(text, &Vec::new()), text);
}

#[test]
fn instance_content_transform_by_extension() {
    assert_eq!(transform_instance_content("a/cfg.hpp", "led1", "X_INSTANCE_Y INSTANCE"), "X_LED1_Y LED1");
    assert_eq!(transform_instance_content("a/cfg.xml", "led1", "{{instance}}/INSTANCE"), "led1/INSTANCE");
    assert_eq!(transform_instance_content("a/cfg.txt", "led1", "{{instance}} INSTANCE"), "{{instance}} INSTANCE");
    assert_eq!(transform_instance_content("a/noext", "led1", "INSTANCE"), "INSTANCE");
}

#[test]
fn placeholder_detection() {
    assert!(has_instance_ph("cfg/{{instance}}.h"));
    assert!(has_instance_ph("{{ instance }}"));
    assert!(!has_instance_ph("cfg/{{other}}.h"));
    assert!(!has_instance_ph("plain.h"));
}

#[test]
fn header_extensions() {
    assert!(is_header("inc/a.h"));
    assert!(is_header("b.hpp"));
    assert!(is_header("c.hxx"));
    assert!(is_header("d.hh"));
    assert!(!is_header("e.c"));
    assert!(!is_header(".h"));
    // a trailing slash is ignored, as for std paths
    assert!(is_header("dir.h/"));
    assert!(!is_header("a.h/.."));
    assert!(!is_header("noext"));
}

#[test]
fn root_joining() {
    assert_eq!(join_root(&Some("root".to_string()), "a/b.c"), "root/a/b.c");
    assert_eq!(join_root(&Some("root/".to_string()), "a.c"), "root/a.c");
    assert_eq!(join_root(&Some("root".to_string()), "/abs/a.c"), "/abs/a.c");
    assert_eq!(join_root(&None, "a.c"), "a.c");
}

#[test]
fn feature_set_is_sorted_and_deduplicated() {
    let mut s = FeatureSet::new();
    s.insert("b".to_string());
    s.insert("a".to_string());
    s.insert("b".to_string());
    assert_eq!(s.len(), 2);
    assert_eq!(s.to_vec(), ["a", "b"]);
    assert!(s.contains("a"));
    assert!(!s.contains("c"));
    let t = FeatureSet::from_names(&vec!["b".to_string(), "c".to_string()]);
    assert_eq!(s.intersection(&t).to_vec(), ["b"]);
    assert_eq!(s.difference(&t).to_vec(), ["a"]);
    assert!(!s.is_disjoint(&t));
    let mut u = s.copy();
    u.extend(&t);
    assert_eq!(u.to_vec(), ["a", "b", "c"]);
}

#[test]
fn instance_map_appends_per_id() {
    let mut m = InstanceMap::new();
    m.append("a", &vec!["x".to_string()]);
    m.append("b", &vec![]);
    m.append("a", &vec!["y".to_string(), "z".to_string()]);
    assert_eq!(m.get("a").unwrap(), &["x", "y", "z"]);
    assert!(m.get("b").unwrap().is_empty());
    assert!(m.get("c").is_none());
}

#[test]
fn post_build_entries_one_or_many() {
    let entry = |p: &str| PostBuildEntry { profile: None, path: Some(p.to_string()), condition: None, unless: None };
    let one = PostBuild::One(entry("a"));
    assert_eq!(one.entries().len(), 1);
    assert_eq!(one.entries()[0].path.as_deref(), Some("a"));
    let many = PostBuild::Many(vec![entry("a"), entry("b")]);
    assert_eq!(many.entries().len(), 2);
}

#[test]
fn error_messages_name_the_offender() {
    assert_eq!(ResolveError::UnknownComponent("ghost".to_string()).message(), "unknown component: ghost");
    assert_eq!(
        ResolveError::UnsatisfiedRequirement("x".to_string()).message(),
        "no component provides required feature: x"
    );
    assert_eq!(
        ResolveError::AmbiguousRequirement {
            requirement: "rtos".to_string(),
            candidates: vec!["a".to_string(), "b".to_string()],
        }
        .message(),
        "requirement rtos has multiple providers, none auto-selectable: a, b"
    );
    assert_eq!(
        ResolveError::ConflictingFeatures(vec!["y".to_string()]).message(),
        "conflicting features provided: y"
    );
    assert_eq!(
        ResolveError::DuplicateProvide { feature: "rtos".to_string(), components: vec!["a".to_string(), "b".to_string()] }
            .message(),
        "feature rtos provided by multiple components without allow_multiple: a, b"
    );
}

#[test]
fn empty_list_initialisations_become_appendable() {
    assert_eq!(
        prepare_template("{% set seen = [] %}{% for x in items %}{% if x not in seen %}{% if seen.append(x) %}{% endif %}{{ x }}{% endif %}{% endfor %}"),
        "{% set seen = __appendable_list() %}{% for x in items %}{% if x not in seen %}{% if seen.append(x) %}{% endif %}{{ x }}{% endif %}{% endfor %}"
    );
    assert_eq!(prepare_template("{%- set a = [] -%}"), "{%- set a = __appendable_list() -%}");
    assert_eq!(prepare_template("{% set a = [1] %}"), "{% set a = [1] %}");
    assert_eq!(prepare_template("{{ [] }} {% if x == [] %}"), "{{ [] }} {% if x == [] %}");
    assert_eq!(prepare_template("plain {% set a = []"), "plain {% set a = []");
    // a tag runs to the first `%}` after its `{%`
    assert_eq!(prepare_template("{%}{% set b = [] %}"), "{%}{% set b = [] %}");
}

#[test]
fn banner_names_the_template() {
    let b = slc::banner("a.c.jinja");
    assert!(b.starts_with("// This file is autogenerated"));
    assert!(b.contains("Source template file: a.c.jinja"));
}
