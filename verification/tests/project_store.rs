use skiller::agents::HostAgent;
use skiller::model::{InstalledState, ProjectConfig, SelectionMode, SkillSelection};
use skiller::project_store::{
    check_legacy_config, check_legacy_state, config_source, copyable_tree,
    legacy_state_is_fully_migratable, load_project_config, migrate_config, migrate_entry,
    migrate_project_state, migrate_project_storage, owned_prepared_directory, ConfigFiles,
    ConfigSource, EntryKind, LegacyFile, LegacyItem, LegacyState, StateAction, StateNode,
    StateSeen, StateTree, StorageMigration,
};

fn host() -> HostAgent {
    HostAgent {
        kind: "studio".to_owned(),
        name: "studio-agent".to_owned(),
        label: "Studio".to_owned(),
    }
}

fn file(text: &str) -> StateSeen {
    StateSeen::File(text.as_bytes().to_vec())
}

fn node(name: &str, kind: EntryKind, entries: Vec<StateNode>) -> StateNode {
    StateNode { name: name.to_owned(), kind, tree: StateTree { entries } }
}

fn prepared() -> StateSeen {
    StateSeen::Directory(StateTree {
        entries: vec![
            node(".skiller-owned", EntryKind::File, vec![]),
            node(
                "skills",
                EntryKind::Directory,
                vec![node(
                    "demo",
                    EntryKind::Directory,
                    vec![node("SKILL.md", EntryKind::File, vec![])],
                )],
            ),
        ],
    })
}

fn item(name: &str, seen: StateSeen, current: StateSeen) -> LegacyItem {
    LegacyItem { name: name.to_owned(), seen, current }
}

const EMPTY: &str = r#"{"v":3,"skills":{}}"#;

fn storage(
    legacy: LegacyFile,
    current: Option<&ProjectConfig>,
    in_git: bool,
    state: Option<LegacyState>,
) -> StorageMigration {
    migrate_project_storage(
        "/git/skiller/config.json",
        &legacy,
        current,
        in_git,
        state.as_ref(),
        "/work/.skiller",
        "/git/skiller",
    )
    .unwrap()
}

#[test]
fn migration_moves_untracked_policy_and_worktree_state_once() {
    let config = ProjectConfig::new(&host());
    let items = vec![
        item("prepared-current", prepared(), StateSeen::Missing),
        item("installed.json", file(EMPTY), StateSeen::Missing),
    ];
    let first = storage(
        LegacyFile::File(config.clone()),
        None,
        false,
        Some(LegacyState { kind: EntryKind::Directory, items }),
    );
    assert!(first.config.write && first.config.remove);
    let messages = first.messages();
    assert!(!messages.is_empty());
    assert_eq!(messages[0], "Migrated project configuration to /git/skiller/config.json");
    assert_eq!(messages[messages.len() - 1], "Removed legacy project state directory");
    let moved = first.state.unwrap();
    assert!(moved.failure.is_none());
    assert_eq!(moved.steps.len(), 2);
    assert_eq!(moved.steps[0].action, StateAction::MoveFile);
    assert_eq!(moved.steps[0].message.as_deref(), Some("Migrated project state installed.json"));
    assert_eq!(moved.steps[1].action, StateAction::MoveTree);
    assert!(moved.remove_root);
    let again = storage(LegacyFile::Missing, Some(&config), false, None);
    assert!(again.messages().is_empty());
    assert!(!again.config.write && !again.config.remove && again.state.is_none());
    let (again, message) = migrate_entry(
        "/work/.skiller",
        "/git/skiller",
        "installed.json",
        &StateSeen::Missing,
        &file(EMPTY),
    )
    .unwrap();
    assert_eq!((again, message), (StateAction::Nothing, None));
}

#[test]
fn storage_that_is_not_real_is_refused() {
    let config = ProjectConfig::new(&host());
    let refused = migrate_project_storage("/c", &LegacyFile::Other, None, false, None, "/o", "/n");
    assert_eq!(
        refused.unwrap_err().message(),
        "legacy project configuration must be a real file"
    );
    let state = LegacyState { kind: EntryKind::Symlink, items: vec![] };
    let plan = storage(LegacyFile::File(config.clone()), None, true, Some(state));
    assert!(plan.config.write && !plan.config.remove);
    assert!(plan.state.is_none());
    assert_eq!(
        plan.refusal.unwrap().message(),
        "legacy project state must be a real directory"
    );
    let kept = storage(LegacyFile::File(config.clone()), Some(&config), true, None);
    assert!(!kept.config.write && !kept.config.remove);
    assert_eq!(kept.messages().len(), 1);
}

#[test]
fn migration_retry_compares_existing_json_semantically() {
    let compact = r#"{"skills":{},"v":3}"#;
    let spaced = "{\n  \"v\": 3,\n  \"skills\": {}\n}\n";
    let items = vec![item("installed.json", file(compact), file(spaced))];
    let moved = migrate_project_state(&items, "/work/.skiller", "/git/skiller");
    assert_eq!(moved.steps[0].action, StateAction::RemoveSource);
    assert!(moved.steps[0].message.as_deref().unwrap().contains("Removed matching"));
    let items = vec![item("installed.json", file(r#"{"v":2}"#), file(spaced))];
    let kept = migrate_project_state(&items, "/work/.skiller", "/git/skiller");
    assert_eq!(kept.steps[0].action, StateAction::Leave);
    assert!(!kept.remove_root);
}

#[test]
fn legacy_state_reports_unknown_content_as_manual_review() {
    let items = vec![item("unowned.txt", file("keep\n"), StateSeen::Missing)];
    assert!(!legacy_state_is_fully_migratable(Some(EntryKind::Directory), &items).unwrap());
    assert!(legacy_state_is_fully_migratable(None, &vec![]).unwrap());
    assert!(legacy_state_is_fully_migratable(Some(EntryKind::Symlink), &vec![]).is_err());
}

#[test]
fn legacy_state_fixability_rejects_symlinks_before_repair() {
    let items = vec![item("installed.json", StateSeen::Symlink, StateSeen::Missing)];
    assert!(!legacy_state_is_fully_migratable(Some(EntryKind::Directory), &items).unwrap());

    let nested = StateSeen::Directory(StateTree {
        entries: vec![
            node(".skiller-owned", EntryKind::File, vec![]),
            node("nested.json", EntryKind::Symlink, vec![]),
        ],
    });
    let items = vec![item("prepared-current", nested, StateSeen::Missing)];
    assert!(!legacy_state_is_fully_migratable(Some(EntryKind::Directory), &items).unwrap());
    let items = vec![item("prepared-current", prepared(), StateSeen::Missing)];
    assert!(legacy_state_is_fully_migratable(Some(EntryKind::Directory), &items).unwrap());
}

#[test]
fn migration_rejects_a_symlinked_current_state_destination() {
    let items = vec![item("installed.json", file(EMPTY), StateSeen::Symlink)];
    let moved = migrate_project_state(&items, "/work/.skiller", "/git/skiller");
    assert!(moved.steps.is_empty());
    assert_eq!(
        moved.failure.unwrap().message(),
        "current project state contains a symlink: /git/skiller/installed.json"
    );
}

#[test]
fn migration_preserves_tracked_legacy_policy_without_reading_it_again() {
    let legacy = ProjectConfig::new(&host());
    let plan = migrate_config("/git/skiller/config.json", &legacy, None, true).unwrap();
    assert!(plan.write && !plan.remove);
    let mut changed = ProjectConfig::new(&host());
    changed.agents = vec!["pi".to_owned()];
    let files = ConfigFiles { current: true, legacy: true };
    let source = config_source(files, true).unwrap();
    assert_eq!(source, ConfigSource::Current);
    let load = load_project_config(
        "/git/skiller/config.json".to_owned(),
        files,
        source,
        changed.clone(),
        vec![],
        &host(),
    )
    .unwrap();
    assert_eq!(load.manifest, changed);
    assert!(!load.legacy);
}

#[test]
fn a_configuration_is_found_or_required() {
    let none = ConfigFiles { current: false, legacy: false };
    assert_eq!(
        config_source(none, true).unwrap_err().message(),
        "run `skiller config` before installing"
    );
    let source = config_source(none, false).unwrap();
    let load = load_project_config(
        "/c.json".to_owned(),
        none,
        source,
        ProjectConfig::new(&host()),
        vec![],
        &host(),
    )
    .unwrap();
    assert!(load.manifest.skills.is_empty());
    let old = ConfigFiles { current: false, legacy: true };
    let mut read = ProjectConfig::new(&host());
    read.version = 7;
    assert!(load_project_config(
        "/c.json".to_owned(),
        old,
        config_source(old, true).unwrap(),
        read,
        vec![],
        &host(),
    )
    .is_err());
}

#[test]
fn divergent_configurations_stay() {
    let legacy = ProjectConfig::new(&host());
    let mut current = ProjectConfig::new(&host());
    let same = migrate_config("/c.json", &legacy, Some(&current), false).unwrap();
    assert!(same.remove && !same.write);
    assert_eq!(same.messages, vec!["Removed matching legacy project configuration"]);
    current.skills.insert("pyg/a".to_owned(), SkillSelection::Mode(SelectionMode::Enable));
    let different = migrate_config("/c.json", &legacy, Some(&current), false).unwrap();
    assert!(!different.remove && !different.write);
    let mut versioned = ProjectConfig::new(&host());
    versioned.version = 3;
    assert!(migrate_config("/c.json", &versioned, None, false).is_err());
    assert!(check_legacy_config(EntryKind::File).is_ok());
    assert!(check_legacy_config(EntryKind::Symlink).is_err());
    assert!(check_legacy_state(EntryKind::Directory).is_ok());
    assert!(check_legacy_state(EntryKind::File).is_err());
}

#[test]
fn entries_that_cannot_move_stop_the_migration() {
    let cases: Vec<(StateSeen, &str)> = vec![
        (StateSeen::Symlink, "legacy project state contains a symlink: /old/installed.json"),
        (
            StateSeen::Other,
            "legacy project state is not a file or directory: /old/installed.json",
        ),
        (file("not json"), "parsing /old/installed.json"),
    ];
    for (seen, message) in cases {
        assert_eq!(
            migrate_entry("/old", "/new", "installed.json", &seen, &StateSeen::Missing)
                .unwrap_err()
                .message(),
            message
        );
    }
    assert_eq!(
        migrate_entry("/old", "/new", "installed.json", &file("{}"), &file("no"))
            .unwrap_err()
            .message(),
        "parsing /new/installed.json"
    );
    let unmarked = StateSeen::Directory(StateTree { entries: vec![] });
    assert!(!owned_prepared_directory(&unmarked));
    let items = vec![item("prepared-1", unmarked, StateSeen::Missing)];
    let moved = migrate_project_state(&items, "/old", "/new");
    assert_eq!(moved.steps[0].action, StateAction::Leave);
    assert_eq!(
        moved.steps[0].message.as_deref(),
        Some("Legacy project state prepared-1 is not ownership-marked and was left for review")
    );
    assert!(copyable_tree(&StateTree { entries: vec![] }));
    assert_eq!(InstalledState::default().version, 3);
}
