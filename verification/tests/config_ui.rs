use skiller::agents::HostAgent;
use skiller::catalog::{CatalogIndex, CatalogSkill};
use skiller::config_report::{
    active_manifest, authoring_root_path, configure_mode, display_catalogs, global_manifest,
    printed_catalog_statuses, printed_skill, reconciles, require_catalogs, set_authoring,
    set_plans, set_recommendations, source_path, summarize, sync_is_default, with_manifest, Checkout, ConfigureMode,
};
use skiller::config_ui::{
    apply_assignments, config_rows, cycle_selection, installed_name_is_current, row_editable,
    toggle_gitignore, ConfigRow,
};
use skiller::model::{
    default_agents, CatalogMetadata, CatalogRegistration, EffectiveMode, GlobalConfig,
    InstalledSkill, InstalledState, ProjectConfig, SelectionMode, SkillSelection,
    INSTALLED_STATE_VERSION, SCHEMA_VERSION,
};
use skiller::name_map::{NameMap, NameSet};
use skiller::reconcile::ProjectionStatus;
use skiller::status::{CatalogAvailability, CatalogStatus};

fn host() -> HostAgent {
    HostAgent {
        kind: "studio".to_owned(),
        name: "studio-agent".to_owned(),
        label: "Studio".to_owned(),
    }
}

fn develop_row() -> ConfigRow {
    ConfigRow {
        key: "pyg/develop".to_owned(),
        catalog: "pyg".to_owned(),
        scope: "engineering".to_owned(),
        scope_order: 0,
        name: "develop".to_owned(),
        installed_name: "develop".to_owned(),
        description: "Develop".to_owned(),
        selected: None,
        gitignore: false,
        installed: false,
        installed_mode: None,
        required_by: Vec::new(),
        read_only: false,
        status: None,
        sync: None,
        authoring: None,
        recommended_by: Vec::new(),
        plan: Vec::new(),
    }
}

#[test]
fn selection_cycles_without_persisting_off() {
    let mut manifest = ProjectConfig {
        version: SCHEMA_VERSION,
        skills: NameMap::new(),
        agents: default_agents(&host()),
    };
    cycle_selection(&mut manifest, "pyg/develop");
    assert_eq!(manifest.skills.get("pyg/develop").unwrap().mode(), SelectionMode::Enable);
    cycle_selection(&mut manifest, "pyg/develop");
    assert_eq!(manifest.skills.get("pyg/develop").unwrap().mode(), SelectionMode::Manual);
    cycle_selection(&mut manifest, "pyg/develop");
    assert!(!manifest.skills.contains("pyg/develop"));
}

#[test]
fn ignoring_twice_changes_nothing() {
    let mut manifest = ProjectConfig::new(&host());
    assert!(!toggle_gitignore(&mut manifest, "pyg/develop"));
    cycle_selection(&mut manifest, "pyg/develop");
    assert!(toggle_gitignore(&mut manifest, "pyg/develop"));
    assert!(manifest.skills.get("pyg/develop").unwrap().gitignore());
    assert!(toggle_gitignore(&mut manifest, "pyg/develop"));
    assert_eq!(
        manifest.skills.get("pyg/develop"),
        Some(&SkillSelection::Mode(SelectionMode::Enable))
    );
}

#[test]
fn assignments_apply_modes_and_reject_unknown_or_duplicate_skills() {
    let rows = vec![develop_row()];
    let mut manifest = ProjectConfig::new(&host());
    apply_assignments(
        &mut manifest,
        &rows,
        &vec!["pyg/develop=enable-ignored".to_owned()],
        false,
    )
    .unwrap();
    assert_eq!(manifest.skills.get("pyg/develop").unwrap().mode(), SelectionMode::Enable);
    assert!(manifest.skills.get("pyg/develop").unwrap().gitignore());
    apply_assignments(&mut manifest, &rows, &vec!["pyg/develop=manual".to_owned()], false).unwrap();
    assert_eq!(manifest.skills.get("pyg/develop").unwrap().mode(), SelectionMode::Manual);
    assert!(!manifest.skills.get("pyg/develop").unwrap().gitignore());
    apply_assignments(&mut manifest, &rows, &vec!["pyg/develop=off".to_owned()], false).unwrap();
    assert!(!manifest.skills.contains("pyg/develop"));
    assert!(apply_assignments(
        &mut manifest,
        &rows,
        &vec!["pyg/missing=enable".to_owned()],
        false,
    )
    .is_err());
    assert!(apply_assignments(
        &mut manifest,
        &rows,
        &vec!["pyg/develop=enable".to_owned(), "pyg/develop=manual".to_owned()],
        false,
    )
    .is_err());
    assert!(apply_assignments(
        &mut manifest,
        &rows,
        &vec!["pyg/develop=enable-ignored".to_owned()],
        true,
    )
    .is_err());
}

#[test]
fn assignments_to_read_only_rows_are_refused() {
    let mut fixed = develop_row();
    fixed.read_only = true;
    assert!(!row_editable(&fixed));
    let mut manifest = ProjectConfig::new(&host());
    assert!(apply_assignments(
        &mut manifest,
        &vec![fixed],
        &vec!["pyg/develop=enable".to_owned()],
        false,
    )
    .is_err());
    assert!(manifest.skills.is_empty());
    assert!(apply_assignments(
        &mut manifest,
        &vec![develop_row()],
        &vec!["pyg/develop=sometimes".to_owned()],
        false,
    )
    .is_err());
    assert!(apply_assignments(
        &mut manifest,
        &vec![develop_row()],
        &vec!["pyg/develop".to_owned()],
        false,
    )
    .is_err());
}

#[test]
fn off_removes_a_selection_that_no_row_shows() {
    let mut manifest = ProjectConfig::new(&host());
    cycle_selection(&mut manifest, "pyg/retired");
    apply_assignments(
        &mut manifest,
        &vec![develop_row()],
        &vec!["pyg/retired=off".to_owned()],
        false,
    )
    .unwrap();
    assert!(manifest.skills.is_empty());
}

fn offline_status() -> CatalogStatus {
    CatalogStatus {
        alias: "offline".to_owned(),
        availability: CatalogAvailability::Unavailable,
        warning: Some("network unavailable".to_owned()),
        catalog: None,
    }
}

fn offline_manifest() -> ProjectConfig {
    let mut skills = NameMap::new();
    skills.insert("offline/root".to_owned(), SkillSelection::Mode(SelectionMode::Enable));
    ProjectConfig { version: SCHEMA_VERSION, skills, agents: default_agents(&host()) }
}

fn offline_state() -> InstalledState {
    let mut skills = NameMap::new();
    skills.insert(
        "offline/root".to_owned(),
        InstalledSkill {
            installed_name: "root".to_owned(),
            mode: EffectiveMode::Enable,
            gitignore: false,
            digest: None,
            content_digest: None,
            legacy_path: None,
        },
    );
    InstalledState { version: INSTALLED_STATE_VERSION, skills }
}

#[test]
fn stale_rows_are_read_only_and_status_counts_include_unavailable_catalogs() {
    let mut statuses = NameMap::new();
    statuses.insert("offline".to_owned(), offline_status());
    let report = printed_catalog_statuses(
        &statuses,
        &offline_manifest(),
        &offline_state(),
        &NameMap::new(),
        &NameMap::new(),
    );
    assert_eq!(report[0].report.availability, "unavailable");
    assert_eq!((report[0].report.declared_count, report[0].report.installed_count), (1, 1));
}

#[test]
fn stale_postfixed_state_does_not_match_a_clean_name_row() {
    let installed = InstalledSkill {
        installed_name: "develop-engineering".to_owned(),
        mode: EffectiveMode::Enable,
        gitignore: false,
        digest: None,
        content_digest: None,
        legacy_path: None,
    };
    assert!(!installed_name_is_current(&installed, "develop"));
    assert!(installed_name_is_current(&installed, "develop-engineering"));
}

fn partition_catalog() -> CatalogIndex {
    let mut skills = NameMap::new();
    skills.insert(
        "global".to_owned(),
        CatalogSkill {
            name: "global".to_owned(),
            description: "Global".to_owned(),
            digest: "global".to_owned(),
            scope: None,
            installed_name: "global-scope".to_owned(),
            global: true,
            requires: Vec::new(),
        },
    );
    skills.insert(
        "project".to_owned(),
        CatalogSkill {
            name: "project".to_owned(),
            description: "Project".to_owned(),
            digest: "project".to_owned(),
            scope: None,
            installed_name: "project-scope".to_owned(),
            global: false,
            requires: Vec::new(),
        },
    );
    CatalogIndex {
        alias: "pyg".to_owned(),
        source: "test".to_owned(),
        root: ".".to_owned(),
        metadata: CatalogMetadata::default(),
        skills,
    }
}

fn partition_catalogs() -> NameMap<CatalogIndex> {
    let mut catalogs = NameMap::new();
    catalogs.insert("pyg".to_owned(), partition_catalog());
    catalogs
}

#[test]
fn rows_partition_global_and_project_skills() {
    let catalogs = partition_catalogs();
    let manifest = ProjectConfig::new(&host());
    let state = InstalledState::default();
    let mut stale = NameSet::new();
    stale.insert("pyg".to_owned());
    let global =
        config_rows(&catalogs, &state, &manifest, true, false, &vec![], &vec![], &stale);
    let project =
        config_rows(&catalogs, &state, &manifest, false, false, &vec![], &vec![], &NameSet::new());
    assert_eq!(global[0].name, "global");
    assert_eq!(global[0].installed_name, "global-scope");
    assert!(global[0].read_only);
    assert_eq!(global[0].status.as_deref(), Some("stale"));
    assert_eq!(project[0].name, "project");
    assert_eq!(project[0].installed_name, "project-scope");
}

#[test]
fn a_row_is_printed_and_summarized() {
    let mut row = develop_row();
    row.installed = true;
    row.installed_mode = Some(EffectiveMode::Enable);
    row.sync = Some(ProjectionStatus::Drift);
    let mut manifest = ProjectConfig::new(&host());
    cycle_selection(&mut manifest, "pyg/develop");
    let printed = printed_skill(&row);
    assert_eq!(printed.key, "pyg/develop");
    assert_eq!(printed.installed_mode, Some(EffectiveMode::Enable));
    assert_eq!(printed.sync, Some(ProjectionStatus::Drift));
    let summary = summarize(&manifest, &vec![row]);
    assert_eq!((summary.selected, summary.installed, summary.attention), (1, 1, 1));
    assert!(sync_is_default(None));
    assert!(!sync_is_default(Some(ProjectionStatus::Drift)));
}

#[test]
fn authoring_checkouts_lead_to_skill_directories() {
    let mut roots = NameMap::new();
    roots.insert("pyg".to_owned(), "/catalog".to_owned());
    let mut kept = develop_row();
    kept.sync = Some(ProjectionStatus::KeepLocal);
    let rows = set_authoring(vec![kept, develop_row()], &roots);
    assert_eq!(rows[1].authoring, None);
    assert_eq!(rows[0].authoring.as_deref(), Some("/catalog/skills/develop"));
    let registration = CatalogRegistration {
        source: "owner/repo".to_owned(),
        reference: None,
        authoring_root: Some("/catalog".to_owned()),
    };
    assert_eq!(authoring_root_path(&registration).as_deref(), Some("/catalog"));
    assert_eq!(source_path(&registration), "owner/repo");
    let at_home = CatalogRegistration {
        source: "~/catalog".to_owned(),
        reference: None,
        authoring_root: None,
    };
    assert!(source_path(&at_home).ends_with("/catalog"));
    let checkout = Checkout { path: None, source: None, authoring: None };
    let mut checkouts = NameMap::new();
    checkouts.insert("offline".to_owned(), checkout);
    let mut statuses = NameMap::new();
    statuses.insert("offline".to_owned(), offline_status());
    let report = printed_catalog_statuses(
        &statuses,
        &offline_manifest(),
        &offline_state(),
        &NameMap::new(),
        &checkouts,
    );
    assert!(!report[0].authoring_is_canonical);
}

#[test]
fn stale_catalogs_are_displayed_and_not_reconciled() {
    let mut statuses = NameMap::new();
    statuses.insert(
        "pyg".to_owned(),
        CatalogStatus {
            alias: "pyg".to_owned(),
            availability: CatalogAvailability::Stale,
            warning: Some("offline".to_owned()),
            catalog: Some(partition_catalog()),
        },
    );
    let shown = display_catalogs(&NameMap::new(), &statuses);
    assert!(shown.contains("pyg"));
    let active = active_manifest(&offline_manifest(), &partition_catalogs());
    assert!(active.skills.is_empty());
}

#[test]
fn the_mode_of_a_configuration_follows_its_arguments() {
    let none: Vec<String> = vec![];
    let some = vec!["pyg/a=enable".to_owned()];
    assert_eq!(configure_mode(true, &none, &none), ConfigureMode::Print);
    assert_eq!(configure_mode(true, &some, &none), ConfigureMode::Assign);
    assert_eq!(configure_mode(false, &none, &some), ConfigureMode::Assign);
    assert_eq!(configure_mode(false, &none, &none), ConfigureMode::Interactive);
    assert!(reconciles(ConfigureMode::Interactive, true));
    assert!(!reconciles(ConfigureMode::Interactive, false));
    assert!(!reconciles(ConfigureMode::Print, false));
}

#[test]
fn a_global_manifest_is_part_of_the_configuration() {
    let config = GlobalConfig::new(&host());
    assert!(require_catalogs(&config).is_err());
    let manifest = offline_manifest();
    let saved = with_manifest(&config, &manifest);
    assert_eq!(global_manifest(&saved), manifest);
}

#[test]
fn rows_follow_the_order_of_their_scopes() {
    let mut catalog = partition_catalog();
    let mut skills = NameMap::new();
    for (name, scope) in [("alpha", "second"), ("beta", "first"), ("gamma", "second")] {
        skills.insert(
            name.to_owned(),
            CatalogSkill {
                name: name.to_owned(),
                description: name.to_owned(),
                digest: name.to_owned(),
                scope: Some(scope.to_owned()),
                installed_name: name.to_owned(),
                global: false,
                requires: Vec::new(),
            },
        );
    }
    catalog.skills = skills;
    for (scope, order) in [("first", 1), ("second", 2)] {
        catalog.metadata.scopes.insert(
            scope.to_owned(),
            skiller::model::ScopeMetadata { label: None, order },
        );
    }
    let mut catalogs = NameMap::new();
    catalogs.insert("pyg".to_owned(), catalog);
    let rows = config_rows(
        &catalogs,
        &InstalledState::default(),
        &ProjectConfig::new(&host()),
        false,
        true,
        &vec![],
        &vec![],
        &NameSet::new(),
    );
    let names: Vec<&str> = rows.iter().map(|row| row.name.as_str()).collect();
    assert_eq!(names, vec!["beta", "alpha", "gamma"]);
}

#[test]
fn recommendations_are_added_by_key() {
    let mut other = develop_row();
    other.key = "pyg/memo".to_owned();
    other.recommended_by = vec!["old".to_owned()];
    let mut reasons = NameMap::new();
    reasons.insert("pyg/develop".to_owned(), vec!["Cargo.toml".to_owned()]);
    let rows = set_recommendations(vec![develop_row(), other], &reasons);
    assert_eq!(rows[0].recommended_by, vec!["Cargo.toml"]);
    assert_eq!(printed_skill(&rows[0]).recommended_by, vec!["Cargo.toml"]);
    assert!(rows[1].recommended_by.is_empty());
    assert_eq!(rows[0].selected, None);
}

#[test]
fn plans_are_added_by_key() {
    let mut skills = NameMap::new();
    for (name, requires) in [("develop", vec!["note".to_owned()]), ("note", vec![])] {
        skills.insert(
            name.to_owned(),
            CatalogSkill {
                name: name.to_owned(),
                description: name.to_owned(),
                digest: name.to_owned(),
                scope: None,
                installed_name: name.to_owned(),
                global: false,
                requires,
            },
        );
    }
    let mut catalogs = NameMap::new();
    catalogs.insert(
        "pyg".to_owned(),
        CatalogIndex {
            alias: "pyg".to_owned(),
            source: "test".to_owned(),
            root: ".".to_owned(),
            metadata: CatalogMetadata::default(),
            skills,
        },
    );
    let mut gone = develop_row();
    gone.key = "pyg/gone".to_owned();
    let rows = set_plans(vec![develop_row(), gone], &catalogs, false);
    assert_eq!(rows[0].plan, vec!["develop", "└─ note"]);
    assert!(rows[1].plan.is_empty());
}
