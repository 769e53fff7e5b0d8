use skiller::agents::HostAgent;
use skiller::catalog::{CatalogIndex, CatalogSkill};
use skiller::diagnosis::{
    configuration_issue, confirms_repair, decide_repair, deduplicate_issues, diagnose,
    doctor_catalog_statuses, human_report, recommendation_commands, repair_question, DoctorIssue,
    Findings, RepairStep,
};
use skiller::digest::manifest_fingerprint;
use skiller::doctor::{
    migrate_declared_renames, phase_name, saves_renames, validate_name_list, validate_transaction,
};
use skiller::failure::Failure;
use skiller::install::{TransactionJournal, TransactionPhase};
use skiller::model::{
    default_agents, CatalogMetadata, CatalogSkillMetadata, EffectiveMode, GlobalConfig,
    InstalledSkill, InstalledState, ProjectConfig, SelectionMode, SkillSelection,
    INSTALLED_STATE_VERSION, SCHEMA_VERSION,
};
use skiller::name_map::{NameMap, NameSet};
use skiller::output::Line;
use skiller::ownership::{ownership_conflicts, OwnershipConflict};
use skiller::project_store::EntryKind;
use skiller::resolve::resolve_manifest;
use skiller::status::{unavailable_aliases, CatalogAvailability, CatalogReport, CatalogStatus};
use skiller::work::{
    check_ancestor, check_journal, declared_counts, exact_projection_matches,
    stale_work_directories, WorkEntry,
};

fn host() -> HostAgent {
    HostAgent {
        kind: "studio".to_owned(),
        name: "studio-agent".to_owned(),
        label: "Studio".to_owned(),
    }
}

fn renamed_catalog() -> CatalogIndex {
    let mut declared = NameMap::new();
    declared.insert(
        "learn".to_owned(),
        CatalogSkillMetadata { scope: Some("learning".to_owned()), global: true },
    );
    let mut renames = NameMap::new();
    renames.insert("digest".to_owned(), "learn".to_owned());
    let mut skills = NameMap::new();
    skills.insert(
        "learn".to_owned(),
        CatalogSkill {
            name: "learn".to_owned(),
            description: "Learn".to_owned(),
            digest: "learn".to_owned(),
            scope: Some("learning".to_owned()),
            installed_name: "learn".to_owned(),
            global: true,
            requires: Vec::new(),
        },
    );
    CatalogIndex {
        alias: "pyg".to_owned(),
        source: "test".to_owned(),
        root: ".".to_owned(),
        metadata: CatalogMetadata {
            version: SCHEMA_VERSION,
            scopes: NameMap::new(),
            skills: declared,
            renames,
        },
        skills,
    }
}

fn catalogs(catalog: CatalogIndex) -> NameMap<CatalogIndex> {
    let mut catalogs = NameMap::new();
    catalogs.insert("pyg".to_owned(), catalog);
    catalogs
}

fn manifest(selections: &[(&str, SelectionMode)]) -> ProjectConfig {
    let mut skills = NameMap::new();
    for (key, mode) in selections {
        skills.insert((*key).to_owned(), SkillSelection::Mode(*mode));
    }
    ProjectConfig { version: SCHEMA_VERSION, skills, agents: default_agents(&host()) }
}

fn offline_statuses() -> NameMap<CatalogStatus> {
    let mut statuses = NameMap::new();
    statuses.insert(
        "offline".to_owned(),
        CatalogStatus {
            alias: "offline".to_owned(),
            availability: CatalogAvailability::Unavailable,
            warning: Some("network unavailable".to_owned()),
            catalog: None,
        },
    );
    statuses
}

fn record(name: &str) -> InstalledSkill {
    InstalledSkill {
        installed_name: name.to_owned(),
        mode: EffectiveMode::Enable,
        gitignore: false,
        digest: None,
        content_digest: None,
        legacy_path: None,
    }
}

#[test]
fn doctor_status_reports_unavailable_catalog_without_configuration_failure() {
    let mut declared = NameMap::new();
    declared.insert("offline".to_owned(), 1);
    let mut skills = NameMap::new();
    skills.insert("offline/root".to_owned(), record("root"));
    let state = InstalledState { version: INSTALLED_STATE_VERSION, skills };
    let report = doctor_catalog_statuses(&offline_statuses(), &declared, &state);
    assert_eq!(report[0].availability, "unavailable");
    assert_eq!((report[0].declared_count, report[0].installed_count), (1, 1));
    assert!(unavailable_aliases(&offline_statuses()).contains("offline"));
}

#[test]
fn declared_rename_preserves_selection_mode() {
    let manifest = manifest(&[("pyg/digest", SelectionMode::Manual)]);
    let catalogs = catalogs(renamed_catalog());
    let (migrated, messages) = migrate_declared_renames(&manifest, &catalogs, true).unwrap();
    assert!(!migrated.skills.contains("pyg/digest"));
    assert_eq!(
        migrated.skills.get("pyg/learn"),
        Some(&SkillSelection::Mode(SelectionMode::Manual))
    );
    assert_eq!(messages.len(), 1);
    let (again, none) = migrate_declared_renames(&migrated, &catalogs, true).unwrap();
    assert_eq!(again, migrated);
    assert!(none.is_empty());
}

#[test]
fn transaction_cannot_claim_unowned_removals() {
    let manifest = manifest(&[("pyg/learn", SelectionMode::Enable)]);
    let catalogs = catalogs(renamed_catalog());
    let resolved = resolve_manifest(&manifest, &catalogs, true).unwrap();
    let fingerprint = manifest_fingerprint(b"manifest");
    let journal = TransactionJournal {
        v: 1,
        scope: "g".to_owned(),
        phase: TransactionPhase::P,
        config: fingerprint.clone(),
        desired: vec!["learn".to_owned()],
        remove: vec!["victim".to_owned()],
    };
    assert!(
        validate_transaction(&journal, true, &fingerprint, &resolved, &InstalledState::default())
            .unwrap_err()
            .message()
            .contains("prior ownership")
    );
    let mut state = InstalledState::default();
    state.skills.insert("pyg/victim".to_owned(), record("victim"));
    assert!(validate_transaction(&journal, true, &fingerprint, &resolved, &state).is_ok());
    assert!(validate_transaction(&journal, false, &fingerprint, &resolved, &state).is_err());
    assert!(validate_transaction(&journal, true, "other", &resolved, &state).is_err());
}

#[test]
fn converging_declared_renames_are_rejected() {
    let mut catalog = renamed_catalog();
    catalog.metadata.renames.insert("digest-two".to_owned(), "learn".to_owned());
    let manifest = manifest(&[
        ("pyg/digest", SelectionMode::Manual),
        ("pyg/digest-two", SelectionMode::Enable),
    ]);
    assert!(migrate_declared_renames(&manifest, &catalogs(catalog), true)
        .unwrap_err()
        .message()
        .contains("converge"));
}

#[test]
fn diagnosis_recommends_commands_without_mutating_or_prompting() {
    let issues = vec![
        DoctorIssue {
            code: "update-available",
            message: "published change".to_owned(),
            fixable: true,
        },
        DoctorIssue {
            code: "projection-drift",
            message: "missing projection".to_owned(),
            fixable: true,
        },
        DoctorIssue { code: "staging-residue", message: "residue".to_owned(), fixable: true },
    ];
    assert_eq!(
        recommendation_commands("global", &issues, &vec![]),
        vec![
            "Run `skiller update -g` to refresh and review catalog updates.",
            "Run `skiller install -g` to reconcile desired projections.",
            "Run `skiller doctor -g --repair` to repair Skiller-owned state.",
        ]
    );
}

#[test]
fn unavailable_catalog_recommends_update_without_changing_json_contract() {
    let status = CatalogReport {
        alias: "offline".to_owned(),
        availability: "unavailable",
        stale: false,
        declared_count: 1,
        installed_count: 1,
        warning: Some("network unavailable".to_owned()),
    };
    assert_eq!(
        recommendation_commands("project", &vec![], &vec![status]),
        vec!["Run `skiller update` to refresh and review catalog updates."]
    );
}

#[test]
fn declared_rename_rejects_selection_collisions() {
    let manifest = manifest(&[
        ("pyg/digest", SelectionMode::Manual),
        ("pyg/learn", SelectionMode::Enable),
    ]);
    assert!(migrate_declared_renames(&manifest, &catalogs(renamed_catalog()), true).is_err());
}

fn findings() -> Findings {
    Findings {
        state_path: "/state/installed.json".to_owned(),
        state_path_error: None,
        state_error: None,
        journal_path_error: None,
        journal_error: None,
        residue_error: None,
        residue: vec![],
        statuses: vec![],
        projections: vec![],
        agents: NameMap::new(),
    }
}

#[test]
fn a_sound_state_has_no_issues() {
    let empty: Result<Vec<String>, Failure> = Ok(vec![]);
    let resolved = Ok(vec![]);
    let diagnosis = diagnose(
        &findings(),
        &empty,
        &InstalledState::default(),
        ".agents/skills",
        &resolved,
        None,
        "f",
        &NameSet::new(),
        false,
    )
    .unwrap();
    assert!(diagnosis.issues.is_empty());
    let lines = human_report("project", &diagnosis.issues, &vec![], &vec![]);
    assert!(!lines.is_empty());
}

#[test]
fn residue_and_broken_state_are_reported() {
    let mut found = findings();
    found.residue = vec!["/state/staging-1".to_owned()];
    found.state_error = Some("unreadable".to_owned());
    let diagnosis = diagnose(
        &found,
        &Ok(vec!["pyg/digest to pyg/learn".to_owned()]),
        &InstalledState::default(),
        ".agents/skills",
        &Ok(vec![]),
        None,
        "f",
        &NameSet::new(),
        false,
    )
    .unwrap();
    let codes: Vec<&str> = diagnosis.issues.iter().map(|issue| issue.code).collect();
    assert!(codes.contains(&"staging-residue"));
    assert!(diagnosis.issues.iter().any(|issue| issue.message.contains("unreadable")));
    let report = human_report("project", &diagnosis.issues, &vec![], &vec![]);
    assert!(report.iter().any(|line| match line {
        Line::Error(text) | Line::Warning(text) | Line::Item(text) => text.contains("staging-residue"),
        _ => false,
    }));
}

fn issue(code: &'static str, fixable: bool) -> DoctorIssue {
    DoctorIssue { code, message: code.to_owned(), fixable }
}

#[test]
fn repairs_need_a_wish_and_only_fixable_issues() {
    assert_eq!(decide_repair(&vec![], true, true).unwrap(), RepairStep::Stop);
    assert_eq!(
        decide_repair(&vec![issue("staging-residue", true)], true, true).unwrap(),
        RepairStep::Repair
    );
    assert_eq!(
        decide_repair(&vec![issue("staging-residue", true)], true, false).unwrap(),
        RepairStep::Confirm
    );
    assert!(decide_repair(&vec![issue("unowned-projection", false)], true, true).is_err());
    assert_eq!(
        repair_question(true, "global", 2).unwrap(),
        "Repair 2 global issue(s)? [y/N]: "
    );
    assert_eq!(
        repair_question(false, "global", 2).unwrap_err().message(),
        "noninteractive Doctor repair requires --yes"
    );
    assert!(confirms_repair(" YES\n"));
    assert!(!confirms_repair("no"));
}

#[test]
fn repeated_issues_are_told_once() {
    let issues = vec![issue("a", true), issue("b", true), issue("a", true)];
    let kept = deduplicate_issues(&issues);
    assert_eq!(kept, vec![issue("a", true), issue("b", true)]);
}

#[test]
fn a_broken_configuration_is_one_issue() {
    let (found, repair) = configuration_issue("no catalogs", false);
    assert_eq!(found.code, "configuration");
    assert!(repair.is_ok());
    let (_, repair) = configuration_issue("no catalogs", true);
    assert_eq!(
        repair.unwrap_err().message(),
        "Doctor cannot repair invalid configuration or catalog data"
    );
}

#[test]
fn name_lists_and_phases_of_a_journal_are_checked() {
    assert!(validate_name_list("desired", &vec!["learn".to_owned()]).is_ok());
    assert!(validate_name_list("desired", &vec!["learn".to_owned(), "learn".to_owned()]).is_err());
    assert!(validate_name_list("desired", &vec!["../learn".to_owned()]).is_err());
    let names: Vec<&str> =
        [TransactionPhase::P, TransactionPhase::I, TransactionPhase::V, TransactionPhase::C]
            .into_iter()
            .map(phase_name)
            .collect();
    assert_eq!(names.len(), 4);
    assert!(names.iter().all(|name| !name.is_empty()));
}

fn work(name: &str, kind: EntryKind, marked: bool) -> WorkEntry {
    WorkEntry { name: name.to_owned(), kind, marked }
}

#[test]
fn stale_work_is_marked_and_listed_in_order() {
    let entries = vec![
        work("staging-2", EntryKind::Directory, true),
        work("installed.json", EntryKind::File, false),
        work("prepared-1", EntryKind::Directory, true),
    ];
    let directory = Some(EntryKind::Directory);
    assert_eq!(
        stale_work_directories("/state", directory, "/state/work", directory, &entries).unwrap(),
        vec!["/state/work/prepared-1", "/state/work/staging-2"]
    );
    assert!(stale_work_directories("/state", directory, "/state/work", None, &vec![])
        .unwrap()
        .is_empty());
    assert_eq!(
        stale_work_directories(
            "/state",
            directory,
            "/state/work",
            directory,
            &vec![work("staging-3", EntryKind::Symlink, true)],
        )
        .unwrap_err()
        .message(),
        "refusing unverified work residue: /state/work/staging-3"
    );
    assert_eq!(
        stale_work_directories("/state", Some(EntryKind::Symlink), "/state/work", None, &vec![])
            .unwrap_err()
            .message(),
        "managed work parent must be a real directory: /state"
    );
    assert_eq!(
        stale_work_directories("/state", None, "/state/work", Some(EntryKind::File), &vec![])
            .unwrap_err()
            .message(),
        "managed work root must be a real directory: /state/work"
    );
}

#[test]
fn places_are_checked_before_work() {
    assert!(check_ancestor("state", "/home", Some(EntryKind::Directory)).is_ok());
    assert_eq!(
        check_ancestor("state", "/home", Some(EntryKind::Symlink)).unwrap_err().message(),
        "state writable ancestor is not a real directory: /home"
    );
    assert_eq!(
        check_ancestor("state", "", None).unwrap_err().message(),
        "state has no existing writable ancestor"
    );
    assert!(!check_journal("/t.json", None).unwrap());
    assert!(check_journal("/t.json", Some(EntryKind::File)).unwrap());
    assert_eq!(
        check_journal("/t.json", Some(EntryKind::Symlink)).unwrap_err().message(),
        "transaction journal is not a real file: /t.json"
    );
}

#[test]
fn exact_projection_comparison_adopts_only_identical_trees() {
    assert!(exact_projection_matches(Some("same"), Some("same")));
    assert!(!exact_projection_matches(Some("drift"), Some("same")));
    assert!(!exact_projection_matches(None, Some("same")));
}

#[test]
fn declared_selections_are_counted_by_catalog() {
    let mut global = GlobalConfig::new(&host());
    for alias in ["pyg", "other"] {
        global.catalogs.insert(
            alias.to_owned(),
            skiller::model::CatalogRegistration {
                source: "owner/repo".to_owned(),
                reference: None,
                authoring_root: None,
            },
        );
    }
    let counts = declared_counts(
        &global,
        &manifest(&[("pyg/a", SelectionMode::Enable), ("pyg/b", SelectionMode::Enable)]),
    );
    assert_eq!(counts.get("pyg"), Some(&2));
    assert_eq!(counts.get("other"), Some(&0));
}

#[test]
fn ownership_conflicts_are_shown_once_for_each_skill() {
    let manifest = manifest(&[("pyg/learn", SelectionMode::Enable)]);
    let catalogs = catalogs(renamed_catalog());
    let resolved = resolve_manifest(&manifest, &catalogs, true);
    let mut found = findings();
    found.projections =
        vec![vec!["/home/.agents/skills/learn".to_owned(), "/home/.codex/skills/learn".to_owned()]];
    let mut listed = NameSet::new();
    listed.insert("learn".to_owned());
    found.agents.insert("codex".to_owned(), Ok(listed));
    let diagnosis = diagnose(
        &found,
        &Ok(vec![]),
        &InstalledState::default(),
        ".agents/skills",
        &resolved,
        None,
        "f",
        &NameSet::new(),
        true,
    )
    .unwrap();
    let count = diagnosis.issues.iter().filter(|issue| issue.code == "unowned-conflict").count();
    assert!(count >= 2);
    let list = resolved.unwrap();
    let none = NameSet::new();
    let conflicts = ownership_conflicts(&found, &list, &none);
    assert_eq!(
        conflicts,
        vec![OwnershipConflict {
            key: "pyg/learn".to_owned(),
            name: "learn".to_owned(),
            places: vec![
                "/home/.agents/skills/learn".to_owned(),
                "/home/.codex/skills/learn".to_owned(),
                "Vercel agent codex".to_owned(),
            ],
        }]
    );
    let lines = human_report("global", &diagnosis.issues, &conflicts, &vec![]);
    let told = |text: &str| {
        lines
            .iter()
            .filter(|line| match line {
                Line::Error(t) | Line::Warning(t) | Line::Item(t) | Line::Info(t) => t.contains(text),
                _ => false,
            })
            .count()
    };
    assert_eq!(told("[unowned-conflict]"), 1);
    assert_eq!(told("/home/.codex/skills/learn"), 1);
    assert_eq!(told("Keep the existing owner with `skiller config -g --set pyg/learn=off`"), 1);
    let mut owned = NameSet::new();
    owned.insert("learn".to_owned());
    assert!(ownership_conflicts(&found, &list, &owned).is_empty());
}

#[test]
fn renames_are_saved_only_where_every_catalog_is_known() {
    let before = manifest(&[("pyg/digest", SelectionMode::Manual)]);
    let after = manifest(&[("pyg/learn", SelectionMode::Manual)]);
    let mut offline = NameSet::new();
    assert!(saves_renames(&before, &after, &offline));
    assert!(!saves_renames(&before, &before, &offline));
    offline.insert("offline".to_owned());
    assert!(!saves_renames(&before, &after, &offline));
}
