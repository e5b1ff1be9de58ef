use slc::{strip_omap, substitute_instance, Quality};

#[test]
fn quality_legacy_values_are_remapped() {
    // Legacy names are remapped: test -> experimental, anything unknown -> evaluation.
    assert_eq!(Quality::from_str_lossy("production"), Quality::Production);
    assert_eq!(Quality::from_str_lossy("internal"), Quality::Internal);
    assert_eq!(Quality::from_str_lossy("test"), Quality::Experimental);
    assert_eq!(Quality::from_str_lossy("evaluation"), Quality::Evaluation);
    assert_eq!(Quality::from_str_lossy("deprecated"), Quality::Deprecated);
    assert_eq!(Quality::from_str_lossy("banana"), Quality::Evaluation);
}

#[test]
fn substitute_instance_replaces_placeholder() {
    assert_eq!(
        substitute_instance("sl_rail_util_init_{{instance}}_config.h", "inst0"),
        "sl_rail_util_init_inst0_config.h"
    );
    // Whitespace inside the braces is tolerated.
    assert_eq!(substitute_instance("a_{{ instance }}_b", "x"), "a_x_b");
    // Unrelated double-brace tokens are left untouched.
    assert_eq!(
        substitute_instance("{{other}}_{{instance}}", "z"),
        "{{other}}_z"
    );
    // No placeholder: unchanged.
    assert_eq!(substitute_instance("plain.h", "z"), "plain.h");
}

#[test]
fn omap_body_drops_tag_and_list_prefix() {
    // The tag line is dropped and the 2-char list prefix stripped from the
    // body; blank and 1-char lines become empty.
    let yaml = "!!omap\n- id: omap_comp\n\n- provides:\n  - name: feat_a\n";
    assert_eq!(strip_omap(yaml), "id: omap_comp\n\nprovides:\n- name: feat_a");
    assert_eq!(strip_omap("!!omap\nx\n- a: 1"), "\na: 1");
    assert_eq!(strip_omap("!!omap\r\n- a: 1\r\n"), "a: 1");
}

#[test]
fn text_without_omap_tag_is_unchanged() {
    assert_eq!(strip_omap("id: plain\n"), "id: plain\n");
    assert_eq!(strip_omap(""), "");
}

#[test]
fn quality_names_map_to_their_levels() {
    assert_eq!(Quality::from_str_lossy("experimental"), Quality::Experimental);
    assert_eq!(Quality::from_str_lossy(""), Quality::Evaluation);
    assert_eq!(Quality::from_str_lossy("Production"), Quality::Evaluation);
}

#[test]
fn substitute_instance_keeps_unterminated_braces() {
    assert_eq!(substitute_instance("a{{instance", "x"), "a{{instance");
    assert_eq!(substitute_instance("{{instance}}{{instance}}", "x"), "xx");
    assert_eq!(substitute_instance("{{{{instance}}", "x"), "{{x");
    assert_eq!(substitute_instance("{{ \tinstance\n}}", "v"), "v");
    assert_eq!(substitute_instance("{{instances}}", "v"), "{{instances}}");
}
