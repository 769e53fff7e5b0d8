use skiller::agents::HostAgent;
use skiller::digest::{
    absorb_bytes, absorb_text, directory_digest, manifest_fingerprint, FileContent, FNV_BASIS,
};
use skiller::model::{
    decode_installed_state, default_agents, encode_installed_state, valid_name, validate_alias,
    validate_installed_state, validate_schema, BaselineSkill, CatalogMetadata, CompactMode,
    CompactSkill, EffectiveMode, GlobalConfig, InstalledSkill, InstalledState,
    InstalledStateWire, LegacyInstalledSkill, PreviousSkill, ProjectConfig, SelectionMode,
    SkillSelection, INSTALLED_STATE_VERSION, PREVIOUS_INSTALLED_STATE_VERSION, SCHEMA_VERSION,
};
use skiller::name_map::{NameMap, NameSet};

fn host() -> HostAgent {
    HostAgent {
        kind: "studio".to_owned(),
        name: "studio-agent".to_owned(),
        label: "Studio".to_owned(),
    }
}

#[test]
fn absent_file_defaults_use_current_schema() {
    assert_eq!(GlobalConfig::new(&host()).version, SCHEMA_VERSION);
    assert_eq!(ProjectConfig::new(&host()).version, SCHEMA_VERSION);
    assert_eq!(CatalogMetadata::default().version, SCHEMA_VERSION);
    assert_eq!(InstalledState::default().version, INSTALLED_STATE_VERSION);
}

#[test]
fn selections_keep_their_parts() {
    let plain = SkillSelection::Mode(SelectionMode::Enable);
    assert_eq!(plain.mode(), SelectionMode::Enable);
    assert!(!plain.gitignore());
    let detailed = SkillSelection::Detailed { mode: SelectionMode::Manual, gitignore: true };
    assert_eq!(detailed.mode(), SelectionMode::Manual);
    assert!(detailed.gitignore());
    assert_eq!(SkillSelection::from_parts(SelectionMode::Manual, true), detailed);
    assert_eq!(SkillSelection::from_parts(SelectionMode::Enable, false), plain);
}

fn legacy_wire(key: &str) -> InstalledStateWire {
    let mut skills = NameMap::new();
    skills.insert(
        key.to_owned(),
        LegacyInstalledSkill {
            catalog: "pyg".to_owned(),
            source_skill: "learn".to_owned(),
            installed_name: "learn-learning".to_owned(),
            path: ".agents/skills/learn-learning".to_owned(),
            mode: EffectiveMode::Enable,
            gitignore: false,
        },
    );
    InstalledStateWire::Legacy { version: 1, skills }
}

#[test]
fn installed_state_reads_legacy_and_writes_compact_schema() {
    let state = decode_installed_state(&legacy_wire("pyg/learn")).unwrap();
    assert_eq!(state.version, SCHEMA_VERSION);
    assert_eq!(
        state.skills.get("pyg/learn").unwrap().legacy_path.as_deref(),
        Some(".agents/skills/learn-learning")
    );

    let compact = encode_installed_state(&state);
    let mut expected = NameMap::new();
    expected.insert(
        "pyg/learn".to_owned(),
        CompactSkill {
            installed_name: "learn-learning".to_owned(),
            mode: CompactMode::E,
            gitignore: false,
            digest: String::new(),
        },
    );
    assert_eq!(compact, InstalledStateWire::CompactCurrent { v: 3, skills: expected });
    let round_trip = decode_installed_state(&compact).unwrap();
    assert_eq!(round_trip.version, INSTALLED_STATE_VERSION);
    assert_eq!(round_trip.skills.get("pyg/learn").unwrap().mode, EffectiveMode::Enable);

    let mut skills = NameMap::new();
    skills.insert(
        "pyg/learn".to_owned(),
        PreviousSkill {
            installed_name: "learn-learning".to_owned(),
            mode: CompactMode::E,
            gitignore: false,
        },
    );
    let previous =
        decode_installed_state(&InstalledStateWire::CompactPrevious { v: 2, skills }).unwrap();
    assert_eq!(previous.version, PREVIOUS_INSTALLED_STATE_VERSION);
    assert!(previous.skills.get("pyg/learn").unwrap().digest.is_none());
}

#[test]
fn stored_states_of_other_versions_are_refused() {
    assert_eq!(
        decode_installed_state(&legacy_wire("pyg/other")).unwrap_err().message(),
        "installed state key pyg/other does not match pyg/learn"
    );
    let wire = InstalledStateWire::CompactCurrent { v: 4, skills: NameMap::new() };
    assert_eq!(
        decode_installed_state(&wire).unwrap_err().message(),
        "unsupported installed state schema version 4; expected 3"
    );
    let wire = InstalledStateWire::CompactPrevious { v: 1, skills: NameMap::new() };
    assert_eq!(
        decode_installed_state(&wire).unwrap_err().message(),
        "unsupported installed state schema version 1; expected 2"
    );
    let wire = InstalledStateWire::Legacy { version: 5, skills: NameMap::new() };
    assert_eq!(
        decode_installed_state(&wire).unwrap_err().message(),
        "unsupported installed state schema version 5; expected 1 or 3"
    );
}

#[test]
fn a_content_baseline_survives_storage() {
    let mut state = InstalledState::default();
    let record = |baseline: Option<&str>| InstalledSkill {
        installed_name: "learn".to_owned(),
        mode: EffectiveMode::Enable,
        gitignore: false,
        digest: Some("abc".to_owned()),
        content_digest: baseline.map(str::to_owned),
        legacy_path: None,
    };
    state.skills.insert("pyg/learn".to_owned(), record(Some("bytes")));
    state.skills.insert("pyg/old".to_owned(), record(None));
    let wire = encode_installed_state(&state);
    let mut skills = NameMap::new();
    for (key, baseline) in [("pyg/learn", "bytes"), ("pyg/old", "")] {
        let skill = CompactSkill {
            installed_name: "learn".to_owned(),
            mode: CompactMode::E,
            gitignore: false,
            digest: "abc".to_owned(),
        };
        skills.insert(key.to_owned(), BaselineSkill { skill, baseline: baseline.to_owned() });
    }
    assert_eq!(wire, InstalledStateWire::CompactBaseline { v: 4, skills });
    assert_eq!(decode_installed_state(&wire).unwrap(), state);
    let wire = InstalledStateWire::CompactBaseline { v: 3, skills: NameMap::new() };
    assert_eq!(
        decode_installed_state(&wire).unwrap_err().message(),
        "unsupported installed state schema version 3; expected 4"
    );
}

#[test]
fn a_recorded_digest_survives_storage() {
    let mut state = InstalledState::default();
    state.skills.insert(
        "pyg/learn".to_owned(),
        InstalledSkill {
            installed_name: "learn".to_owned(),
            mode: EffectiveMode::Dependency,
            gitignore: true,
            digest: Some("abc".to_owned()),
            content_digest: None,
            legacy_path: None,
        },
    );
    assert_eq!(decode_installed_state(&encode_installed_state(&state)).unwrap(), state);
}

#[test]
fn agent_skill_names_reject_colons_and_double_hyphens() {
    assert!(valid_name("develop-engineering"));
    assert!(!valid_name("develop:engineering"));
    assert!(!valid_name("develop--engineering"));
}

#[test]
fn names_have_bounds() {
    assert!(valid_name(&"a".repeat(64)));
    assert!(!valid_name(&"a".repeat(65)));
    assert!(!valid_name(""));
    assert!(!valid_name("-a"));
    assert!(!valid_name("a-"));
    assert!(!valid_name("A"));
    assert_eq!(
        validate_alias("Pyg").unwrap_err().message(),
        "catalog alias must use lowercase letters, numbers, and single hyphens: Pyg"
    );
    assert!(validate_alias("pyg").is_ok());
}

#[test]
fn schemas_are_checked() {
    assert!(validate_schema(1, "skill config").is_ok());
    assert_eq!(
        validate_schema(2, "skill config").unwrap_err().message(),
        "unsupported skill config schema version 2; expected 1"
    );
    assert!(validate_installed_state(3).is_ok());
    assert!(validate_installed_state(2).is_ok());
    assert!(validate_installed_state(1).is_ok());
    assert!(validate_installed_state(4).is_err());
}

#[test]
fn default_agents_take_the_host_between_the_others() {
    let agents = vec!["universal", "studio-agent", "pi"];
    assert_eq!(default_agents(&host()), agents);
    assert_eq!(GlobalConfig::new(&host()).agents, agents);
    assert_eq!(ProjectConfig::new(&host()).agents, agents);
    assert_eq!(host().folder(), ".studio/skills");
}

#[test]
fn maps_walk_their_names_in_order() {
    let mut map = NameMap::new();
    map.insert("b".to_owned(), 2);
    map.insert("a".to_owned(), 1);
    map.insert("b".to_owned(), 3);
    assert_eq!(map.len(), 2);
    assert_eq!((map.name_at(0).as_str(), *map.value_at(0)), ("a", 1));
    assert_eq!(map.get("b"), Some(&3));
    assert_eq!(map.index_of("b"), Some(1));
    assert_eq!(map.index_of("c"), None);
    assert_eq!(map.remove("a"), Some(1));
    assert_eq!(map.remove("a"), None);
    assert!(!map.contains("a"));
    let mut set = NameSet::new();
    assert!(set.insert("y".to_owned()));
    assert!(!set.insert("y".to_owned()));
    assert!(set.insert("x".to_owned()));
    assert_eq!(set.to_list(), vec!["x", "y"]);
    set.remove("x");
    assert!(!set.contains("x"));
    assert!(!set.is_empty());
}

#[test]
fn fingerprints_are_fnv() {
    assert_eq!(absorb_bytes(FNV_BASIS, b""), 0xcbf29ce484222325);
    assert_eq!(absorb_bytes(FNV_BASIS, b"a"), 0xaf63dc4c8601ec8c);
    assert_eq!(absorb_bytes(FNV_BASIS, b"foobar"), 0x85944171f73967e8);
    assert_eq!(manifest_fingerprint(b"a"), "af63dc4c8601ec8c");
    assert_ne!(absorb_text(FNV_BASIS, "a"), absorb_text(FNV_BASIS, "b"));
    assert_eq!(directory_digest(&vec![]), "cbf29ce484222325");
    let file = |name: &str, content: &str| FileContent {
        name: name.to_owned(),
        bytes: content.as_bytes().to_vec(),
    };
    let one = directory_digest(&vec![file("SKILL.md", "same")]);
    assert_eq!(one, directory_digest(&vec![file("SKILL.md", "same")]));
    assert_ne!(one, directory_digest(&vec![file("SKILL.md", "drift")]));
    assert_ne!(one, directory_digest(&vec![file("SKILL.mds", "ame")]));
}
