use skiller::agents::HostAgent;
use skiller::announce::{announce_conflicts, announce_plan, replacement_question};
use skiller::catalog::{CatalogIndex, CatalogSkill};
use skiller::install::{
    admit_install, begin_install, held, install_paths, manifest_without_unavailable, merge_active,
    same_selections, validate_agents, validate_owned_state, InstallRoots, InstallScope,
    TransactionJournal, TransactionPhase,
};
use skiller::model::{
    decode_installed_state, default_agents, encode_installed_state, same_stored, CatalogMetadata,
    EffectiveMode, GlobalConfig, InstalledSkill, InstalledState, ProjectConfig, SelectionMode,
    SkillSelection, INSTALLED_STATE_VERSION, SCHEMA_VERSION,
};
use skiller::name_map::{NameMap, NameSet};
use skiller::output::{HumanOutput, Line};
use skiller::plan::{
    find_resolved, install_change, install_plan, is_stale, plan_skill, render_install_plan,
    render_measured, InstallPlanChange, InstallPlanRow, InstallPlanState,
};
use skiller::reconcile::{
    checkpoint_state, classify_reconciliation, needs_answer, owned_set, parse_replacement,
    projection_status, resolve_unowned_overrides, unowned_conflict_message, verified_skill_names,
    ProjectionStatus, ReconcileSelection, ReplacementChoice, UnownedConflict,
};
use skiller::resolve::{
    find_skill, key_alias, projected_digest, resolve_manifest, split_key, ResolvedSkill,
};
use skiller::transaction::{
    bounded_environment_error, check_environment, child_failure, incomplete_failure,
    install_arguments, install_report, install_work, is_transactional,
    known_agent_projection_root, list_arguments, locked_call, next_step, omitted_skills,
    open_journal, projection_roots, remaining_issues, remove_arguments, remove_transaction,
    run_changes, start_run, verified_run, InstallRun, InstallStep, JournalFile, LockedCall,
};
use skiller::work::preflight_targets;

fn catalog(global: bool) -> CatalogIndex {
    let mut skills = NameMap::new();
    skills.insert(
        "root".to_owned(),
        CatalogSkill {
            name: "root".to_owned(),
            description: "Root".to_owned(),
            digest: "root".to_owned(),
            scope: Some("engineering".to_owned()),
            installed_name: "root".to_owned(),
            global,
            requires: vec!["dependency".to_owned()],
        },
    );
    skills.insert(
        "dependency".to_owned(),
        CatalogSkill {
            name: "dependency".to_owned(),
            description: "Dependency".to_owned(),
            digest: "dependency".to_owned(),
            scope: Some("engineering".to_owned()),
            installed_name: "dependency".to_owned(),
            global,
            requires: Vec::new(),
        },
    );
    CatalogIndex {
        alias: "pyg".to_owned(),
        source: "test".to_owned(),
        root: ".".to_owned(),
        metadata: CatalogMetadata::default(),
        skills,
    }
}

fn catalogs(global: bool) -> NameMap<CatalogIndex> {
    let mut catalogs = NameMap::new();
    catalogs.insert("pyg".to_owned(), catalog(global));
    catalogs
}

fn manifest(selections: &[(&str, SelectionMode)]) -> ProjectConfig {
    let mut skills = NameMap::new();
    for (key, mode) in selections {
        skills.insert((*key).to_owned(), SkillSelection::Mode(*mode));
    }
    ProjectConfig { version: SCHEMA_VERSION, skills, agents: default_agents(&host()) }
}

fn names(list: &[&str]) -> NameSet {
    let mut set = NameSet::new();
    for name in list {
        set.insert((*name).to_owned());
    }
    set
}

fn installed(name: &str, mode: EffectiveMode, digest: &str) -> InstalledSkill {
    InstalledSkill {
        installed_name: name.to_owned(),
        mode,
        gitignore: false,
        digest: Some(digest.to_owned()),
        content_digest: None,
        legacy_path: None,
    }
}

fn state(records: Vec<(&str, InstalledSkill)>) -> InstalledState {
    let mut skills = NameMap::new();
    for (key, record) in records {
        skills.insert(key.to_owned(), record);
    }
    InstalledState { version: INSTALLED_STATE_VERSION, skills }
}

fn root_skill<'a>(catalog: &'a CatalogIndex, digest: &str) -> ResolvedSkill<'a> {
    ResolvedSkill {
        key: "pyg/root".to_owned(),
        catalog,
        source_name: "root".to_owned(),
        installed_name: "root".to_owned(),
        mode: EffectiveMode::Enable,
        gitignore: false,
        digest: digest.to_owned(),
    }
}

fn host() -> HostAgent {
    HostAgent {
        kind: "studio".to_owned(),
        name: "studio-agent".to_owned(),
        label: "Studio".to_owned(),
    }
}

#[test]
fn scope_filters_roots_and_adds_dependency_closure() {
    let manifest = manifest(&[("pyg/root", SelectionMode::Enable)]);
    let catalogs = catalogs(true);
    let resolved = resolve_manifest(&manifest, &catalogs, true).unwrap();
    assert_eq!(resolved.len(), 2);
    assert_eq!(resolved[0].installed_name, "dependency");
    assert_eq!(resolved[0].mode, EffectiveMode::Dependency);
    assert_eq!(resolved[1].installed_name, "root");
    assert_eq!(resolved[1].mode, EffectiveMode::Enable);
    assert!(resolve_manifest(&manifest, &catalogs, false).is_err());
}

#[test]
fn configured_mode_and_dependency_reachability_form_effective_capabilities() {
    let catalogs = catalogs(true);
    let manifest =
        manifest(&[("pyg/root", SelectionMode::Manual), ("pyg/dependency", SelectionMode::Manual)]);
    let resolved = resolve_manifest(&manifest, &catalogs, true).unwrap();
    assert_eq!(resolved[0].mode, EffectiveMode::Enable);
    assert_eq!(resolved[1].mode, EffectiveMode::Manual);
}

#[test]
fn install_forest_lists_every_root_and_dependency_owner() {
    let catalogs = catalogs(true);
    let manifest =
        manifest(&[("pyg/root", SelectionMode::Enable), ("pyg/dependency", SelectionMode::Manual)]);
    let resolved = resolve_manifest(&manifest, &catalogs, true).unwrap();
    let plan =
        install_plan(&manifest, &catalogs, &resolved, &InstalledState::default(), &NameSet::new());
    assert_eq!(
        plan.rows,
        vec![
            InstallPlanRow {
                branch: String::new(),
                name: "dependency".to_owned(),
                state: InstallPlanState::Configured(SelectionMode::Manual),
                change: InstallPlanChange::New,
            },
            InstallPlanRow {
                branch: String::new(),
                name: "root".to_owned(),
                state: InstallPlanState::Configured(SelectionMode::Enable),
                change: InstallPlanChange::New,
            },
            InstallPlanRow {
                branch: "└─ ".to_owned(),
                name: "dependency".to_owned(),
                state: InstallPlanState::Configured(SelectionMode::Manual),
                change: InstallPlanChange::New,
            },
        ]
    );
    assert!(plan.removals.is_empty());
    assert_eq!(plan.heading(), "Install plan  3 skills  3 new");

    let rendered = render_install_plan(&plan.rows, HumanOutput::plain());
    assert_eq!(
        rendered,
        vec![
            "dependency     Human only     new",
            "root           Agent + Human  new",
            "└─ dependency  Human only     new",
        ]
    );
    assert!(rendered.iter().all(|line| !line.contains("pyg/")));
    assert!(render_install_plan(&plan.rows, HumanOutput::styled())
        .iter()
        .all(|line| line.contains('\u{1b}')));
}

#[test]
fn install_plan_aligns_nested_dependency_branches() {
    let catalogs = catalogs(false);
    let manifest = manifest(&[("pyg/root", SelectionMode::Enable)]);
    let resolved = resolve_manifest(&manifest, &catalogs, false).unwrap();
    let plan =
        install_plan(&manifest, &catalogs, &resolved, &InstalledState::default(), &NameSet::new());
    assert_eq!(
        render_install_plan(&plan.rows, HumanOutput::plain()),
        vec![
            "root           Agent + Human  new",
            "└─ dependency  dependency     new",
        ]
    );
    assert_eq!(
        render_measured(&plan.rows, &vec![4, 13], &vec![13, 10], HumanOutput::plain()),
        render_install_plan(&plan.rows, HumanOutput::plain())
    );
}

#[test]
fn install_plan_reports_updates_and_removals_from_recorded_state() {
    let catalogs = catalogs(false);
    let manifest = manifest(&[("pyg/root", SelectionMode::Enable)]);
    let resolved = resolve_manifest(&manifest, &catalogs, false).unwrap();
    let current_digest =
        resolved.iter().find(|skill| skill.key == "pyg/root").unwrap().digest.clone();
    let previous = state(vec![
        ("pyg/root", installed("root", EffectiveMode::Enable, &current_digest)),
        ("pyg/dependency", installed("dependency", EffectiveMode::Dependency, "stale")),
        ("pyg/memo", installed("memo", EffectiveMode::Enable, "memo")),
    ]);
    let plan = install_plan(&manifest, &catalogs, &resolved, &previous, &NameSet::new());
    assert_eq!(plan.heading(), "Install plan  2 skills  1 update");
    assert_eq!(plan.removals, vec!["memo".to_owned()]);
    assert_eq!(
        plan.rows.iter().map(|row| (row.name.as_str(), row.change)).collect::<Vec<_>>(),
        vec![
            ("root", InstallPlanChange::Current),
            ("dependency", InstallPlanChange::Update),
        ]
    );

    // An unavailable catalog keeps its recorded skills out of the removal list.
    let plan = install_plan(&manifest, &catalogs, &resolved, &previous, &names(&["pyg"]));
    assert!(plan.removals.is_empty());

    let root = find_resolved(&resolved, "pyg/root").unwrap();
    assert_eq!(install_change(&previous, &resolved[root]), InstallPlanChange::Current);
    assert!(!is_stale(previous.skills.get("pyg/root").unwrap(), &resolved[root]));
    assert_eq!(find_resolved(&resolved, "pyg/none"), None);
}

#[test]
fn unavailable_catalog_filter_keeps_declarations_out_of_reconciliation() {
    let manifest =
        manifest(&[("offline/root", SelectionMode::Enable), ("pyg/root", SelectionMode::Enable)]);
    let unavailable = names(&["offline"]);
    let active = manifest_without_unavailable(&manifest, &unavailable);
    assert!(manifest.skills.contains("offline/root"));
    assert!(!active.skills.contains("offline/root"));
    assert!(active.skills.contains("pyg/root"));
    assert!(held("offline/root", &unavailable));
    assert!(!held("pyg/root", &unavailable));

    let merged = merge_active(&manifest, &active.skills, &unavailable);
    assert!(same_selections(&merged.skills, &manifest.skills));
    assert!(!same_selections(&active.skills, &manifest.skills));
}

#[test]
fn absent_global_selection_is_supported() {
    assert!(GlobalConfig::new(&host()).skills.is_empty());
}

#[test]
fn agent_targets_are_configurable_but_cannot_be_empty_or_duplicate() {
    assert!(validate_agents(&vec!["codex".to_owned()]).is_ok());
    assert!(validate_agents(&vec![]).is_err());
    assert!(validate_agents(&vec!["pi".to_owned(), "pi".to_owned()]).is_err());
}

#[test]
fn agent_names_have_no_stray_characters() {
    assert_eq!(
        validate_agents(&vec![" pi".to_owned()]).unwrap_err().message(),
        "invalid empty or whitespace Vercel agent name"
    );
    assert!(validate_agents(&vec!["".to_owned()]).is_err());
    assert!(validate_agents(&vec!["p\u{7}i".to_owned()]).is_err());
    assert_eq!(
        validate_agents(&vec!["pi".to_owned(), "pi".to_owned()]).unwrap_err().message(),
        "duplicate Vercel agent name: pi"
    );
}

#[test]
fn transaction_journal_is_compact_and_phase_ordered() {
    let journal = TransactionJournal {
        v: 1,
        scope: "g".to_owned(),
        phase: TransactionPhase::V,
        config: "abc".to_owned(),
        desired: vec!["learn-learning".to_owned()],
        remove: vec!["digest-knowledge".to_owned()],
    };
    assert_eq!(journal.phase, TransactionPhase::V);
    assert!(TransactionPhase::I < TransactionPhase::V);
}

#[test]
fn unowned_projection_is_adopted_only_when_identical() {
    let catalog = catalog(false);
    let resolved = vec![root_skill(&catalog, "catalog-v1")];
    let adopted = classify_reconciliation(
        false,
        &InstalledState::default(),
        &resolved,
        &NameSet::new(),
        &vec![vec![true]],
        &vec![names(&["root"])],
    );
    assert!(adopted.complete_names.contains("root"));
    assert!(adopted.blocked.is_empty());

    let blocked = classify_reconciliation(
        false,
        &InstalledState::default(),
        &resolved,
        &NameSet::new(),
        &vec![vec![false]],
        &vec![names(&["root"])],
    );
    assert!(blocked.complete_names.is_empty());
    assert!(blocked.install_names.is_empty());
    assert_eq!(blocked.blocked, vec![unowned_conflict_message("pyg/root", "root", false)]);
    assert_eq!(blocked.conflicts.len(), 1);
    assert_eq!(blocked.conflicts[0].installed_name, "root");
}

#[test]
fn unowned_conflict_message_states_the_consequence_and_both_options() {
    let project = unowned_conflict_message("pyg/note", "note", false);
    assert!(project.contains("pyg/note was not installed"));
    assert!(project.contains("The existing copy was left unchanged"));
    assert!(project.contains("skiller config --set pyg/note=off"));
    assert!(!project.contains(" -g --set"));

    let global = unowned_conflict_message("pyg/note", "note", true);
    assert!(global.contains("skiller config -g --set pyg/note=off"));
}

fn conflict() -> ReconcileSelection {
    let message = unowned_conflict_message("pyg/note", "note", false);
    ReconcileSelection {
        install_names: NameSet::new(),
        complete_names: NameSet::new(),
        blocked: vec![message.clone()],
        conflicts: vec![UnownedConflict {
            key: "pyg/note".to_owned(),
            installed_name: "note".to_owned(),
            message,
        }],
    }
}

#[test]
fn automated_installs_never_override_an_unowned_conflict() {
    let mut selection = conflict();
    resolve_unowned_overrides(&mut selection, false, &vec![]);
    assert!(selection.install_names.is_empty());
    assert_eq!(selection.blocked.len(), 1);
    assert_eq!(selection.conflicts.len(), 1);
}

#[test]
fn an_answer_replaces_or_keeps_an_unowned_skill() {
    let mut selection = conflict();
    assert!(needs_answer(1, &vec![]));
    resolve_unowned_overrides(&mut selection, true, &vec![ReplacementChoice::This]);
    assert!(selection.install_names.contains("note"));
    assert!(selection.blocked.is_empty());
    let mut kept = conflict();
    resolve_unowned_overrides(&mut kept, true, &vec![ReplacementChoice::Keep]);
    assert!(kept.install_names.is_empty());
    assert_eq!(kept.blocked.len(), 1);
    assert!(!needs_answer(2, &vec![ReplacementChoice::All]));
    assert_eq!(parse_replacement(" y\n"), ReplacementChoice::This);
    assert_eq!(parse_replacement("Y"), ReplacementChoice::All);
    assert_eq!(parse_replacement(""), ReplacementChoice::Keep);
}

#[test]
fn owned_project_drift_is_always_scheduled_for_authoritative_overwrite() {
    let catalog = catalog(false);
    let record = |digest: &str| InstalledSkill {
        installed_name: "root".to_owned(),
        mode: EffectiveMode::Enable,
        gitignore: false,
        digest: Some(digest.to_owned()),
        content_digest: Some("baseline".to_owned()),
        legacy_path: None,
    };
    let classify = |record: InstalledSkill, desired: &str, copy: bool| {
        classify_reconciliation(
            false,
            &state(vec![("pyg/root", record)]),
            &vec![root_skill(&catalog, desired)],
            &NameSet::new(),
            &vec![vec![copy]],
            &vec![names(&["root"])],
        )
    };
    let drifted = classify(record("catalog-v1"), "catalog-v1", false);
    assert!(drifted.install_names.contains("root"));
    assert!(drifted.complete_names.is_empty());
    assert!(drifted.blocked.is_empty());

    let catalog_and_project_drift = classify(record("catalog-v0"), "catalog-v1", false);
    assert!(catalog_and_project_drift.install_names.contains("root"));
    assert!(catalog_and_project_drift.blocked.is_empty());

    let incoming = classify(record("catalog-v1"), "catalog-v2", false);
    assert!(incoming.install_names.contains("root"));
    assert!(incoming.blocked.is_empty());

    let resolved_manually = classify(record("catalog-v1"), "catalog-v2", true);
    assert!(resolved_manually.install_names.contains("root"));
    assert!(resolved_manually.complete_names.is_empty());
    assert!(resolved_manually.blocked.is_empty());

    let converged = classify(record("catalog-v1"), "catalog-v1", true);
    assert!(converged.complete_names.contains("root"));
}

#[test]
fn removed_owned_projection_is_not_protected() {
    let previous = state(vec![(
        "pyg/retired",
        InstalledSkill {
            installed_name: "retired".to_owned(),
            mode: EffectiveMode::Enable,
            gitignore: false,
            digest: Some("old".to_owned()),
            content_digest: Some("different".to_owned()),
            legacy_path: None,
        },
    )]);
    let selection = classify_reconciliation(
        false,
        &previous,
        &vec![],
        &NameSet::new(),
        &vec![],
        &vec![names(&["retired"])],
    );
    assert!(selection.complete_names.is_empty());
    assert!(selection.install_names.is_empty());
    assert!(selection.blocked.is_empty());
    assert!(owned_set(&previous, &names(&["other"])).contains("retired"));
    assert!(owned_set(&previous, &names(&["other"])).contains("other"));
}

#[test]
fn a_blocked_dependency_blocks_what_requires_it() {
    let catalogs = catalogs(false);
    let manifest = manifest(&[("pyg/root", SelectionMode::Enable)]);
    let resolved = resolve_manifest(&manifest, &catalogs, false).unwrap();
    let selection = classify_reconciliation(
        false,
        &InstalledState::default(),
        &resolved,
        &NameSet::new(),
        &vec![vec![false], vec![]],
        &vec![names(&["dependency"])],
    );
    assert!(selection.install_names.is_empty());
    assert_eq!(selection.blocked.len(), 2);
    assert_eq!(selection.conflicts.len(), 1);
}

#[test]
fn projections_have_a_status() {
    let catalog = catalog(false);
    let mut record = installed("root", EffectiveMode::Enable, "v1");
    record.content_digest = Some("content".to_owned());
    let skill = root_skill(&catalog, "v1");
    let newer = root_skill(&catalog, "v2");
    assert_eq!(projection_status(&record, Some(&skill), None), ProjectionStatus::Missing);
    assert_eq!(projection_status(&record, Some(&skill), Some("other")), ProjectionStatus::Drift);
    assert_eq!(
        projection_status(&record, Some(&newer), Some("content")),
        ProjectionStatus::Incoming
    );
    assert_eq!(
        projection_status(&record, Some(&skill), Some("content")),
        ProjectionStatus::Synced
    );
    assert_eq!(ProjectionStatus::KeepLocal.label(), "KEEP LOCAL");
}

#[test]
fn vercel_install_targets_every_agent_explicitly() {
    let catalog = catalog(false);
    let resolved = vec![root_skill(&catalog, "v1")];
    let agents = default_agents(&host());
    let args = install_arguments("/prepared", &resolved, &vec![0], &agents, false).unwrap();
    let tail: Vec<&str> = args.iter().rev().take(5).rev().map(String::as_str).collect();
    assert_eq!(tail, ["--agent", "universal", "studio-agent", "pi", "--yes"]);
    assert!(args.contains(&"root".to_owned()));
    assert!(args.contains(&"/prepared".to_owned()));
    assert_eq!(install_arguments("/prepared", &resolved, &vec![], &agents, false), None);
    let global = install_arguments("/prepared", &resolved, &vec![0], &agents, true).unwrap();
    assert_eq!(global.len(), args.len() + 1);
}

#[test]
fn removal_and_listing_have_arguments() {
    assert_eq!(remove_arguments(&NameSet::new(), false), None);
    let args = remove_arguments(&names(&["memo"]), true).unwrap();
    assert!(args.contains(&"memo".to_owned()));
    let list = list_arguments("pi", false);
    assert!(list.contains(&"pi".to_owned()));
    assert_eq!(list_arguments("pi", true).len(), list.len() + 1);
}

fn roots() -> InstallRoots {
    InstallRoots {
        project_state: "/git/skiller".to_owned(),
        global_state_path: "/home/u/.local/state/skiller/installed.json".to_owned(),
        global_state: "/home/u/.local/state/skiller".to_owned(),
        cache: "/home/u/.cache/skiller".to_owned(),
        home: "/home/u".to_owned(),
    }
}

#[test]
fn paths_follow_the_scope() {
    let project = install_paths(&InstallScope::Project("/work".to_owned()), &roots());
    assert_eq!(project.command_root, "/work");
    assert_eq!(project.state_path, "/git/skiller/installed.json");
    let global = install_paths(&InstallScope::Global, &roots());
    assert_eq!(global.command_root, "/home/u");
    assert_eq!(global.state_path, "/home/u/.local/state/skiller/installed.json");
    assert!(InstallScope::Global.is_global());
    let targets = preflight_targets(&global, "/home/u/.local/state/skiller", "/cache", "/home/u/.agents/skills");
    assert_eq!(targets[2], ("/cache/npm".to_owned(), "npm cache"));
}

#[test]
fn owned_state_is_checked() {
    let fine = state(vec![("pyg/root", installed("root", EffectiveMode::Enable, "d"))]);
    assert!(validate_owned_state(&fine, ".agents/skills").is_ok());
    let bad = state(vec![("pyg/root", installed("../root", EffectiveMode::Enable, "d"))]);
    assert!(validate_owned_state(&bad, ".agents/skills").is_err());
    let keyless = state(vec![("root", installed("root", EffectiveMode::Enable, "d"))]);
    assert!(validate_owned_state(&keyless, ".agents/skills").is_err());
}

#[test]
fn the_plan_of_one_skill_shows_what_it_requires() {
    assert_eq!(plan_skill("pyg/root", &catalogs(true), true), vec!["root", "└─ dependency"]);
    assert_eq!(plan_skill("pyg/dependency", &catalogs(true), true), vec!["dependency"]);
    assert!(plan_skill("pyg/root", &catalogs(true), false).is_empty());
    assert!(plan_skill("pyg/none", &catalogs(true), true).is_empty());
}

#[test]
fn an_installation_begins_with_a_sound_configuration() {
    let catalogs = catalogs(false);
    let mut wish = manifest(&[("pyg/root", SelectionMode::Enable)]);
    let active = wish.clone();
    let none = NameSet::new();
    let previous = InstalledState::default();
    let (resolved, plan) =
        begin_install(&wish, &active, &catalogs, &previous, ".agents/skills", false, &none)
            .unwrap();
    assert_eq!(resolved.len(), 2);
    assert_eq!(plan.rows.len(), 2);
    wish.agents = vec![];
    assert!(
        begin_install(&wish, &active, &catalogs, &previous, ".agents/skills", false, &none).is_err()
    );
    let missing = manifest(&[("pyg/none", SelectionMode::Enable)]);
    assert!(
        begin_install(&missing, &missing, &catalogs, &previous, ".agents/skills", false, &none)
            .is_err()
    );
}

#[test]
fn unfinished_work_is_resumed_only_where_it_matches() {
    let catalog = catalog(false);
    let resolved = vec![root_skill(&catalog, "v1")];
    let none = NameSet::new();
    let pending = TransactionJournal {
        v: 1,
        scope: "p".to_owned(),
        phase: TransactionPhase::P,
        config: "f".to_owned(),
        desired: vec!["root".to_owned()],
        remove: vec![],
    };
    let admitted = admit_install(
        &resolved,
        &InstalledState::default(),
        &none,
        false,
        &none,
        Some(&pending),
        "f",
        false,
    )
    .unwrap();
    assert!(admitted.recovering);
    assert!(admitted.replacement_owned.contains("root"));
    assert_eq!(
        admit_install(
            &resolved,
            &InstalledState::default(),
            &none,
            false,
            &none,
            Some(&pending),
            "other",
            false,
        )
        .unwrap_err()
        .message(),
        "unfinished transaction is not safe for inline recovery; run `skiller doctor`"
    );
    let held = state(vec![("offline/root", installed("root", EffectiveMode::Enable, "d"))]);
    assert_eq!(
        admit_install(&resolved, &held, &none, false, &names(&["offline"]), None, "f", false)
            .unwrap_err()
            .message(),
        "installed skill name collision: unavailable catalog owns root"
    );
}

#[test]
fn work_removes_only_what_nothing_needs() {
    let catalog = catalog(false);
    let resolved = vec![root_skill(&catalog, "v1")];
    let previous = state(vec![
        ("pyg/root", installed("root", EffectiveMode::Enable, "v0")),
        ("pyg/memo", installed("memo", EffectiveMode::Enable, "memo")),
        ("offline/kept", installed("kept", EffectiveMode::Enable, "kept")),
    ]);
    let mut preserved = NameMap::new();
    preserved.insert("offline/kept".to_owned(), installed("kept", EffectiveMode::Enable, "kept"));
    let none = NameSet::new();
    let work =
        install_work(&previous, &resolved, &names(&["root"]), &none, &preserved, &none, &none);
    assert_eq!(work.eligible, vec![0]);
    assert_eq!(work.desired.to_list(), vec!["root"]);
    assert_eq!(work.removed.to_list(), vec!["memo"]);
    let journal = open_journal(false, "f", &work);
    assert_eq!(journal.scope, "p");
    assert_eq!(journal.phase, TransactionPhase::P);
    assert_eq!(journal.desired, vec!["root"]);
    assert_eq!(journal.remove, vec!["memo"]);
}

#[test]
fn a_run_removes_its_journal_last() {
    let run = InstallRun {
        transactional: true,
        project: true,
        recovering: false,
        retry: false,
        complete: true,
        state_changed: true,
        unblocked: true,
    };
    let steps: Vec<InstallStep> = (0..12).map(|done| next_step(run, done)).collect();
    assert_eq!(steps[0], InstallStep::CreateJournal);
    let written = steps.iter().position(|step| *step == InstallStep::WriteState).unwrap();
    let removed = steps.iter().position(|step| *step == InstallStep::RemoveJournal).unwrap();
    assert!(written < removed);
    assert_eq!(steps[11], InstallStep::Finish);
    let stuck = InstallRun { complete: false, ..run };
    assert!((0..12).all(|done| next_step(stuck, done) != InstallStep::RemoveJournal));
    let quiet = InstallRun { transactional: false, state_changed: false, ..run };
    assert_eq!(next_step(quiet, 0), InstallStep::Finish);
}

#[test]
fn only_what_a_batch_left_out_is_placed_again() {
    let catalogs = catalogs(true);
    let wish = manifest(&[("pyg/root", SelectionMode::Enable)]);
    let resolved = resolve_manifest(&wish, &catalogs, true).unwrap();
    let eligible = vec![0, 1];
    let complete = names(&["dependency"]);
    let run = InstallRun {
        transactional: true,
        project: false,
        recovering: false,
        retry: false,
        complete: false,
        state_changed: false,
        unblocked: true,
    };
    let omitted = omitted_skills(run, &None, true, &resolved, &eligible, &complete);
    assert_eq!(omitted, vec![1]);
    let failed = Some("timeout".to_owned());
    assert!(omitted_skills(run, &failed, true, &resolved, &eligible, &complete).is_empty());
    assert!(omitted_skills(run, &None, false, &resolved, &eligible, &complete).is_empty());
    let again = verified_run(run, &vec!["drift".to_owned()], &omitted);
    assert!(again.retry && !again.complete);
    assert!(omitted_skills(again, &None, true, &resolved, &eligible, &complete).is_empty());
    assert_eq!(next_step(again, 4), InstallStep::VerifyPlacement);
    assert_eq!(next_step(again, 5), InstallStep::PlaceOmitted);
    assert_eq!(next_step(again, 6), InstallStep::VerifyAgain);
    let done = verified_run(again, &vec![], &vec![]);
    assert!(done.retry && done.complete);
    assert_eq!(next_step(done, 7), InstallStep::RemoveSkills);
    assert_eq!(next_step(done, 10), InstallStep::RemoveJournal);
    let stuck = verified_run(again, &vec!["drift".to_owned()], &vec![]);
    assert_eq!(next_step(stuck, 7), InstallStep::WriteState);
    assert_eq!(next_step(stuck, 8), InstallStep::Finish);
}

#[test]
fn a_second_run_on_the_stored_state_has_nothing_to_do() {
    let catalog = catalog(false);
    let resolved = vec![root_skill(&catalog, "v1")];
    let none = NameSet::new();
    let empty = InstalledState::default();
    let preserved = NameMap::new();
    let first = install_work(&empty, &resolved, &names(&["root"]), &none, &preserved, &none, &none);
    assert!(is_transactional(&first));
    let run = start_run(&first, true, false, &empty, &empty, &vec![]);
    assert!(run.transactional && run.unblocked && !run.complete && !run.state_changed);
    assert!(run_changes(false, run));
    let written =
        checkpoint_state(&empty, &resolved, &names(&["root"]), &none, &vec!["bytes".to_owned()]);
    let read = decode_installed_state(&encode_installed_state(&written)).unwrap();
    assert_eq!(read, written);
    assert!(same_stored(&read, &written));
    assert_eq!(
        projection_status(read.skills.get("pyg/root").unwrap(), Some(&resolved[0]), Some("bytes")),
        ProjectionStatus::Synced
    );
    let selection = classify_reconciliation(
        false,
        &read,
        &resolved,
        &none,
        &vec![vec![true]],
        &vec![names(&["root"])],
    );
    assert!(selection.install_names.is_empty() && selection.blocked.is_empty());
    let work = install_work(
        &read,
        &resolved,
        &selection.install_names,
        &selection.complete_names,
        &preserved,
        &none,
        &none,
    );
    assert!(!is_transactional(&work));
    let next = checkpoint_state(
        &read,
        &resolved,
        &selection.complete_names,
        &none,
        &vec!["bytes".to_owned()],
    );
    let quiet = start_run(&work, true, false, &read, &next, &selection.blocked);
    assert!(!quiet.transactional && !quiet.state_changed);
    assert_eq!(next_step(quiet, 0), InstallStep::Finish);
    assert!(!run_changes(false, quiet));
    assert!(run_changes(true, quiet));
    let moved = state(vec![("pyg/root", installed("root", EffectiveMode::Manual, "v1"))]);
    assert!(!same_stored(&read, &moved));
    assert!(start_run(&work, true, false, &read, &moved, &vec![]).state_changed);
}

#[test]
fn placement_is_verified_by_every_agent() {
    let catalog = catalog(false);
    let skill = root_skill(&catalog, "v1");
    let eligible = vec![&skill];
    let (verified, issues) = verified_skill_names(
        &eligible,
        &Ok(vec![names(&["root"]), names(&["root", "other"])]),
        &vec![true],
    );
    assert!(verified.contains("root"));
    assert!(issues.is_empty());
    let (verified, issues) =
        verified_skill_names(&eligible, &Ok(vec![names(&["root"]), names(&[])]), &vec![true]);
    assert!(verified.is_empty());
    assert_eq!(issues.len(), 1);
    let (verified, issues) = verified_skill_names(&eligible, &Err("offline".to_owned()), &vec![true]);
    assert!(verified.is_empty());
    assert_eq!(issues, vec!["[environment] offline"]);
}

#[test]
fn a_checkpoint_records_what_is_complete() {
    let catalog = catalog(false);
    let resolved = vec![root_skill(&catalog, "v2")];
    let previous = state(vec![
        ("pyg/root", installed("root", EffectiveMode::Enable, "v1")),
        ("pyg/memo", installed("memo", EffectiveMode::Enable, "memo")),
        ("pyg/note", installed("note", EffectiveMode::Enable, "note")),
    ]);
    let after = checkpoint_state(
        &previous,
        &resolved,
        &names(&["root"]),
        &names(&["memo"]),
        &vec!["content".to_owned()],
    );
    let root = after.skills.get("pyg/root").unwrap();
    assert_eq!(root.digest.as_deref(), Some("v2"));
    assert_eq!(root.content_digest.as_deref(), Some("content"));
    assert!(!after.skills.contains("pyg/memo"));
    assert_eq!(after.skills.get("pyg/note"), previous.skills.get("pyg/note"));
}

#[test]
fn reports_name_what_happened() {
    let catalog = catalog(false);
    let mut manual = root_skill(&catalog, "v1");
    manual.mode = EffectiveMode::Manual;
    let mut helper = root_skill(&catalog, "v1");
    helper.mode = EffectiveMode::Dependency;
    let lines = install_report(&vec![manual, helper], false, true, &host());
    assert_eq!(
        lines,
        vec![
            Line::Success("Reconciled 2 managed project skills through Vercel Skills".to_owned()),
            Line::Warning(
                "Manual mode is enforced by Pi, Studio, Cursor, and Codex; OpenCode and Gemini CLI may still expose these skills to the model".to_owned()
            ),
            Line::Warning(
                "Dependency-only user hiding is enforced by Studio and Pygmalion; other agents may expose exact invocation".to_owned()
            ),
        ]
    );
    let quiet = install_report(&vec![root_skill(&catalog, "v1")], true, false, &host());
    assert_eq!(
        quiet,
        vec![Line::Success("1 managed global skill already converged".to_owned())]
    );
    assert_eq!(
        incomplete_failure(2).message(),
        "install remains incomplete for 2 item(s)"
    );
}

#[test]
fn remaining_issues_tell_a_failed_placement() {
    let catalog = catalog(false);
    let resolved = vec![root_skill(&catalog, "v1")];
    let placement = Some("placement failed".to_owned());
    assert_eq!(
        remaining_issues(
            &vec!["blocked".to_owned()],
            &vec!["unverified".to_owned()],
            &placement,
            &resolved,
            &vec![0],
            &NameSet::new(),
        ),
        vec!["blocked", "unverified", "placement failed"]
    );
    assert!(remaining_issues(
        &vec![],
        &vec![],
        &placement,
        &resolved,
        &vec![0],
        &names(&["root"]),
    )
    .is_empty());
}

#[test]
fn failures_of_a_call_have_a_class() {
    assert_eq!(
        child_failure("installing", "EACCES: ", "denied").message(),
        "[environment-permission] Vercel Skills failed while installing: EACCES: denied"
    );
    assert!(child_failure("installing", "", "getaddrinfo ENOTFOUND")
        .message()
        .starts_with("[environment-network]"));
    assert!(child_failure("installing", "odd", "").message().starts_with("[placement]"));
    assert_eq!(
        bounded_environment_error("call exceeded 60s").message(),
        "[environment-timeout] call exceeded 60s"
    );
    assert_eq!(
        bounded_environment_error("not found").message(),
        "[environment-process] not found"
    );
    assert_eq!(check_environment(&vec![]).is_none(), true);
    let (heading, items, failure) = check_environment(&vec!["no".to_owned()]).unwrap();
    assert_eq!(heading, "Install preflight · 1 environment issue(s)");
    assert_eq!(items, vec!["[environment-permission] no"]);
    assert_eq!(failure.message(), "install preflight failed before projection mutation");
}

#[test]
fn a_failed_call_keeps_its_own_error() {
    assert_eq!(locked_call(false, None), LockedCall::Done);
    assert_eq!(locked_call(true, None), LockedCall::CallFailed(None));
    assert_eq!(locked_call(false, Some("lock")), LockedCall::CleanupFailed);
    assert_eq!(
        locked_call(true, Some("lock")),
        LockedCall::CallFailed(Some("project Skills lock cleanup also failed: lock".to_owned()))
    );
}

#[test]
fn agents_look_in_known_directories() {
    let roots = projection_roots("/work", false, &host());
    assert_eq!(roots[0], "/work/.agents/skills");
    assert_eq!(roots[1], "/work/.studio/skills");
    assert_eq!(roots.last().unwrap(), "/work/.pi/skills");
    let global = projection_roots("/home/u", true, &host());
    assert_eq!(global.last().unwrap(), "/home/u/.pi/agent/skills");
    assert_eq!(
        known_agent_projection_root("/work", "studio-agent", &host()).as_deref(),
        Some("/work/.agents/skills")
    );
    assert_eq!(known_agent_projection_root("/work", "codex", &host()), None);
    assert_eq!(
        known_agent_projection_root("/work", "pi", &host()).as_deref(),
        Some("/work/.agents/skills")
    );
}

#[test]
fn a_journal_is_removed_where_it_is_a_file() {
    assert!(remove_transaction("/t.json", JournalFile::File).unwrap());
    assert!(!remove_transaction("/t.json", JournalFile::Absent).unwrap());
    assert!(remove_transaction("/t.json", JournalFile::Other).is_err());
}

#[test]
fn keys_name_a_catalog_and_a_skill() {
    assert_eq!(split_key("pyg/root").unwrap(), ("pyg".to_owned(), "root".to_owned()));
    assert!(split_key("root").is_err());
    assert_eq!(key_alias("pyg/root").as_deref(), Some("pyg"));
    assert_eq!(key_alias("root"), None);
    let catalogs = catalogs(false);
    assert_eq!(find_skill(&catalogs, "pyg/root").unwrap().3.name, "root");
    assert_eq!(
        find_skill(&catalogs, "other/root").unwrap_err().message(),
        "configuration references unregistered catalog: other"
    );
    assert_eq!(
        find_skill(&catalogs, "pyg/none").unwrap_err().message(),
        "catalog pyg has no skill named none"
    );
}

#[test]
fn a_projected_digest_depends_on_name_and_mode() {
    let catalog = catalog(false);
    let skill = catalog.skills.get("root").unwrap();
    let plain = projected_digest(skill, "root", EffectiveMode::Enable);
    assert_eq!(plain, projected_digest(skill, "root", EffectiveMode::Enable));
    assert_ne!(plain, projected_digest(skill, "root", EffectiveMode::Manual));
    assert_ne!(plain, projected_digest(skill, "other", EffectiveMode::Enable));
    assert_eq!(plain.len(), 16);
}

#[test]
fn plans_and_conflicts_are_announced() {
    assert_eq!(
        announce_plan("Install plan  0 skills", &vec![], &vec![]),
        vec![
            Line::Info("Install plan".to_owned()),
            Line::Plain("  (no configured skills)".to_owned()),
        ]
    );
    assert_eq!(
        announce_plan(
            "Install plan  1 skill  1 new",
            &vec!["root  new".to_owned()],
            &vec!["memo".to_owned()],
        ),
        vec![
            Line::Info("Install plan  1 skill  1 new".to_owned()),
            Line::Plain("  root  new".to_owned()),
            Line::Info("Remove  1 skill".to_owned()),
            Line::Plain("  memo".to_owned()),
        ]
    );
    let lines = announce_conflicts(&vec!["note".to_owned()]);
    assert_eq!(
        lines[0],
        Line::Heading(
            "Conflicts: 1 selected skill already exist and are not managed by Skiller".to_owned()
        )
    );
    assert_eq!(lines.len(), 3);
    assert!(replacement_question("note").starts_with("  Replace note with the catalog version?"));
}

#[test]
fn a_completed_run_leaves_nothing_to_do() {
    let catalogs = catalogs(false);
    let manifest = manifest(&[("pyg/root", SelectionMode::Enable)]);
    let resolved = resolve_manifest(&manifest, &catalogs, false).unwrap();
    let all = names(&["dependency", "root"]);
    let digests = vec!["one".to_owned(), "two".to_owned()];
    let before = state(vec![("pyg/memo", installed("memo", EffectiveMode::Enable, "memo"))]);
    let none = NameSet::new();
    let work = install_work(&before, &resolved, &all, &none, &NameMap::new(), &none, &none);
    assert_eq!(work.removed.to_list(), vec!["memo"]);
    let after = checkpoint_state(&before, &resolved, &all, &work.removed, &digests);
    assert_eq!(checkpoint_state(&after, &resolved, &all, &none, &digests), after);
    let again = classify_reconciliation(
        false,
        &after,
        &resolved,
        &none,
        &vec![vec![true], vec![true, true]],
        &vec![names(&["dependency", "root"])],
    );
    assert!(again.install_names.is_empty());
    assert!(again.blocked.is_empty());
    assert_eq!(again.complete_names, all);
    let idle = install_work(
        &after,
        &resolved,
        &again.install_names,
        &again.complete_names,
        &NameMap::new(),
        &none,
        &none,
    );
    assert!(idle.eligible.is_empty());
    assert!(idle.removed.is_empty());
}

#[test]
fn installed_names_do_not_collide() {
    let mut both = catalogs(false);
    both.insert("other".to_owned(), catalog(false));
    let wish = manifest(&[("pyg/root", SelectionMode::Enable), ("other/root", SelectionMode::Enable)]);
    let error = resolve_manifest(&wish, &both, false).unwrap_err().message();
    assert_eq!(
        error,
        "installed skill name collision: other/dependency and pyg/dependency both become dependency"
    );
}
