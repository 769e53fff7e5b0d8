use skiller::frontmatter::{frontmatter, scalar};
use skiller::manual::{
    allows_implicit_invocation, apply_invocation_mode, apply_projected_identity, set_codex_policy,
    set_frontmatter_field,
};
use skiller::model::EffectiveMode;

#[test]
fn frontmatter_field_is_inserted_replaced_or_removed() {
    let raw = "---\nname: old\ndescription: Test\nuser-invocable: false\n---\nBody\n";
    let updated = set_frontmatter_field(raw, "disable-model-invocation", Some("true")).unwrap();
    assert!(updated.contains("disable-model-invocation: true\n---"));
    assert!(set_frontmatter_field(&updated, "name", Some("new-scope"))
        .unwrap()
        .contains("name: new-scope"));
    assert!(!set_frontmatter_field(&updated, "user-invocable", None)
        .unwrap()
        .contains("user-invocable"));
}

#[test]
fn projected_identity_keeps_name_clean_and_prefixes_scope_description() {
    let raw = "---\nname: commit\ndescription: >-\n  Create safe commits\n  without losing state.\n---\n";
    let raw = apply_projected_identity(raw, "commit", Some("engineering"), "Create safe commits")
        .unwrap();
    assert!(raw.contains("name: commit\n"));
    assert!(raw.contains("description: \"[engineering] Create safe commits\""));
    assert!(raw.contains("Treat this installed skill directory as read-only."));
    assert!(!raw.contains("without losing state"));
}

#[test]
fn effective_modes_map_to_independent_frontmatter_capabilities() {
    let raw = "---\nname: test\ndescription: Test\ndisable-model-invocation: true\nuser-invocable: false\n---\nBody\n";
    let transform = |mode| {
        let (disable_model, user_invocable) = match mode {
            EffectiveMode::Enable => (None, None),
            EffectiveMode::Manual => (Some("true"), None),
            EffectiveMode::Dependency => (None, Some("false")),
        };
        set_frontmatter_field(
            &set_frontmatter_field(raw, "disable-model-invocation", disable_model).unwrap(),
            "user-invocable",
            user_invocable,
        )
        .unwrap()
    };
    let enabled = transform(EffectiveMode::Enable);
    assert!(!enabled.contains("disable-model-invocation"));
    assert!(!enabled.contains("user-invocable"));

    let manual = transform(EffectiveMode::Manual);
    assert!(manual.contains("disable-model-invocation: true"));
    assert!(!manual.contains("user-invocable"));

    let dependency = transform(EffectiveMode::Dependency);
    assert!(!dependency.contains("disable-model-invocation"));
    assert!(dependency.contains("user-invocable: false"));

    assert_eq!(apply_invocation_mode(raw, EffectiveMode::Enable).unwrap(), enabled);
    assert_eq!(apply_invocation_mode(raw, EffectiveMode::Manual).unwrap(), manual);
    assert_eq!(apply_invocation_mode(raw, EffectiveMode::Dependency).unwrap(), dependency);
}

#[test]
fn a_value_that_was_set_is_read_back() {
    let raw = "---\nname: old\ndescription: Test\n---\nBody\n";
    let updated = set_frontmatter_field(raw, "name", Some("new")).unwrap();
    let fields = frontmatter(&updated, "SKILL.md").unwrap();
    assert_eq!(scalar(&fields, "name").as_deref(), Some("new"));
    assert_eq!(scalar(&fields, "description").as_deref(), Some("Test"));
    assert!(set_frontmatter_field("Body\n", "name", Some("new")).is_err());
}

#[test]
fn descriptions_are_quoted_as_json() {
    let raw = "---\nname: a\ndescription: b\n---\nBody\n";
    let quoted = apply_projected_identity(raw, "a", None, "say \"hi\"\tnow").unwrap();
    assert!(quoted.contains("description: \"say \\\"hi\\\"\\tnow\""));
}

#[test]
fn codex_policy_follows_the_mode() {
    assert!(allows_implicit_invocation(EffectiveMode::Enable));
    assert!(!allows_implicit_invocation(EffectiveMode::Manual));
    assert_eq!(set_codex_policy(None, true).unwrap(), None);
    let written = set_codex_policy(None, false).unwrap().unwrap();
    assert!(written.contains("allow_implicit_invocation: false"));
}

#[test]
fn setting_or_taking_out_a_field_twice_changes_nothing_more() {
    let raw = "---\nname: a\nuser-invocable: false\n  nested: b\n---\nBody\nname: d\n";
    let set = set_frontmatter_field(raw, "name", Some("e")).unwrap();
    assert_eq!(set_frontmatter_field(&set, "name", Some("e")).unwrap(), set);
    assert_eq!(set.matches("name: e").count(), 1);
    assert!(!set.contains("name: a"));
    assert!(set.contains("user-invocable: false"));
    assert!(set.ends_with("Body\nname: d\n"));
    let out = set_frontmatter_field(raw, "user-invocable", None).unwrap();
    assert_eq!(set_frontmatter_field(&out, "user-invocable", None).unwrap(), out);
    assert!(!out.contains("user-invocable") && !out.contains("nested"));
    assert!(out.contains("name: a"));
}
