use skiller::agents::HostAgent;
use skiller::cli::{bare_command, parse_agents, scope, BareStep};
use skiller::install::InstallScope;
use skiller::migration::{
    added_name, answer_or, answered_plan, answered_skill, applied_lines, apply_plan, confirm,
    created_lines, initialize, migrated_manifest, parse_source_selection, register,
    required_answer, run_plan, valid_line, validate_plan, ApplyStep, MigrationCatalog,
    MigrationPlan, MigrationSkill, MigrationTarget, PlanAnswers, PlanFacts, PlanStep, SkillAnswers,
    SourceFacts,
};
use skiller::model::{
    CatalogMetadata, CatalogRegistration, CatalogSkillMetadata, GlobalConfig, ProjectConfig,
    ScopeMetadata, SelectionMode, SkillSelection,
};
use skiller::project_store::EntryKind;

fn host() -> HostAgent {
    HostAgent {
        kind: "studio".to_owned(),
        name: "studio-agent".to_owned(),
        label: "Studio".to_owned(),
    }
}

fn plan() -> MigrationPlan {
    MigrationPlan {
        version: 1,
        catalog: MigrationCatalog {
            alias: "pyg".to_owned(),
            root: "/catalog".to_owned(),
            source: "owner/repo".to_owned(),
        },
        target: MigrationTarget::Global,
        agents: vec!["pi".to_owned()],
        skills: vec![MigrationSkill {
            source: "/legacy/old".to_owned(),
            source_name: "fresh".to_owned(),
            scope: "learning".to_owned(),
            mode: SelectionMode::Manual,
            gitignore: false,
            legacy_installed_name: "old".to_owned(),
        }],
        install: true,
        cleanup_legacy: true,
    }
}

fn facts() -> PlanFacts {
    let mut metadata = CatalogMetadata::default();
    metadata.scopes.insert("learning".to_owned(), ScopeMetadata { label: None, order: 0 });
    PlanFacts {
        root: Some(EntryKind::Directory),
        metadata: Ok(metadata),
        sources: vec![SourceFacts {
            name: Ok("old".to_owned()),
            kind: Ok(EntryKind::Directory),
        }],
    }
}

fn refusal(plan: &MigrationPlan, facts: &PlanFacts) -> String {
    validate_plan(plan, facts).unwrap_err().message()
}

#[test]
fn plan_requires_nonempty_agents_and_cleanup_requires_install() {
    let mut plan = MigrationPlan {
        version: 1,
        catalog: MigrationCatalog {
            alias: "pyg".to_owned(),
            root: "missing".to_owned(),
            source: "owner/repo".to_owned(),
        },
        target: MigrationTarget::Global,
        agents: Vec::new(),
        skills: Vec::new(),
        install: false,
        cleanup_legacy: true,
    };
    let facts = PlanFacts { root: None, metadata: Err("missing".to_owned()), sources: vec![] };
    assert!(validate_plan(&plan, &facts).is_err());
    plan.agents = vec!["pi".to_owned()];
    assert!(validate_plan(&plan, &facts).is_err());
}

#[test]
fn a_proven_plan_is_accepted() {
    assert!(validate_plan(&plan(), &facts()).is_ok());
    let mut unchecked = plan();
    unchecked.install = false;
    assert_eq!(refusal(&unchecked, &facts()), "legacy cleanup requires verified installation");
}

#[test]
fn each_fault_of_a_plan_is_named() {
    let mut other = plan();
    other.version = 2;
    assert_eq!(refusal(&other, &facts()), "unsupported migration plan version 2; expected 1");
    let mut other = plan();
    other.catalog.source = "  ".to_owned();
    assert_eq!(refusal(&other, &facts()), "catalog source cannot be empty");
    let mut seen = facts();
    seen.root = None;
    assert_eq!(refusal(&plan(), &seen), "inspecting catalog root /catalog");
    let mut seen = facts();
    seen.root = Some(EntryKind::Symlink);
    assert_eq!(refusal(&plan(), &seen), "catalog root must be a real directory: /catalog");
    let mut seen = facts();
    seen.metadata = Err("no metadata".to_owned());
    assert_eq!(refusal(&plan(), &seen), "no metadata");
    let mut other = plan();
    other.skills = vec![];
    let mut seen = facts();
    seen.sources = vec![];
    assert_eq!(refusal(&other, &seen), "migration plan must include at least one skill");
    let mut other = plan();
    other.skills[0].source_name = "Fresh".to_owned();
    assert_eq!(
        refusal(&other, &facts()),
        "invalid or duplicate migration source name: Fresh"
    );
    let mut other = plan();
    other.skills[0].scope = "none".to_owned();
    assert_eq!(refusal(&other, &facts()), "catalog has no scope named none");
    let mut other = plan();
    other.skills[0].gitignore = true;
    assert_eq!(
        refusal(&other, &facts()),
        "global migration skill fresh cannot use Git-ignore state"
    );
    let mut other = plan();
    other.skills[0].source = "/legacy/..".to_owned();
    assert_eq!(refusal(&other, &facts()), "legacy source has no UTF-8 directory name");
    let mut seen = facts();
    seen.sources[0].name = Ok("new".to_owned());
    assert_eq!(
        refusal(&plan(), &seen),
        "legacy name old is not proven by selected source /legacy/old"
    );
    let mut seen = facts();
    seen.sources[0].kind = Ok(EntryKind::Symlink);
    assert!(refusal(&plan(), &seen).contains("is not proven"));
    let mut seen = facts();
    seen.sources[0].kind = Err("gone".to_owned());
    assert_eq!(refusal(&plan(), &seen), "gone");
}

#[test]
fn sources_are_selected_by_number_or_path() {
    let candidates = vec!["/legacy/a".to_owned(), "/legacy/b".to_owned()];
    assert_eq!(
        parse_source_selection("2, /other ,1,/legacy//b/", &candidates).unwrap(),
        vec!["/legacy/b", "/other", "/legacy/a"]
    );
    assert_eq!(
        parse_source_selection("0", &candidates).unwrap_err().message(),
        "selection numbers start at 1"
    );
    assert_eq!(
        parse_source_selection("3", &candidates).unwrap_err().message(),
        "legacy selection is out of range: 3"
    );
    assert_eq!(
        parse_source_selection(" , ", &candidates).unwrap_err().message(),
        "select at least one legacy skill"
    );
}

#[test]
fn a_first_plan_is_an_example() {
    let first = initialize("/plan.json", false, &host()).unwrap();
    assert_eq!(first.catalog.alias, "pyg");
    assert_eq!(first.agents, vec!["universal", "studio-agent", "pi"]);
    assert_eq!(first.skills[0].scope, "engineering");
    assert!(first.install && !first.cleanup_legacy);
    assert_eq!(
        initialize("/plan.json", true, &host()).unwrap_err().message(),
        "refusing to replace existing migration plan: /plan.json"
    );
    assert_eq!(
        created_lines("/plan.json").1,
        "next: skiller migrate --plan /plan.json --check"
    );
    assert!(valid_line("/plan.json").contains("--plan /plan.json --apply"));
}

#[test]
fn answers_make_a_plan() {
    let answers = SkillAnswers {
        source: "/legacy/old".to_owned(),
        source_name: "fresh".to_owned(),
        scope: "learning".to_owned(),
        mode: "manual".to_owned(),
        gitignore: "yes".to_owned(),
        legacy_installed_name: "old".to_owned(),
    };
    assert!(!answered_skill(&answers, true).unwrap().gitignore);
    let skill = answered_skill(&answers, false).unwrap();
    assert!(skill.gitignore);
    assert_eq!(skill.mode, SelectionMode::Manual);
    let odd = SkillAnswers { mode: "odd".to_owned(), ..answers };
    assert_eq!(answered_skill(&odd, true).unwrap_err().message(), "invalid mode: odd");
    let whole = answered_plan(
        PlanAnswers {
            alias: "pyg".to_owned(),
            root: "/catalog".to_owned(),
            source: "owner/repo".to_owned(),
            target: "project".to_owned(),
            project_root: "/work".to_owned(),
            agents: "universal, pi".to_owned(),
            install: "yes".to_owned(),
            cleanup: "no".to_owned(),
        },
        vec![skill],
    );
    assert_eq!(whole.target, MigrationTarget::Project { root: "/work".to_owned() });
    assert_eq!(whole.agents, vec!["universal", "pi"]);
    assert!(whole.install && !whole.cleanup_legacy);
    assert_eq!(answer_or(" \n", "pyg"), "pyg");
    assert_eq!(answer_or(" x \n", "pyg"), "x");
    assert_eq!(
        required_answer("Scope", "").unwrap_err().message(),
        "a value is required for Scope"
    );
    assert!(confirm(true, "Apply?", "Yes\n").unwrap());
    assert!(!confirm(true, "Apply?", "n").unwrap());
    assert!(confirm(true, "Apply?", "").is_err());
    assert_eq!(
        confirm(false, "Apply?", "y").unwrap_err().message(),
        "noninteractive migration apply requires --yes"
    );
    assert_eq!(run_plan(false, true), PlanStep::Report);
    assert_eq!(run_plan(true, true), PlanStep::Apply);
    assert_eq!(run_plan(true, false), PlanStep::Ask);
}

#[test]
fn a_catalog_is_registered_under_a_free_alias() {
    let config = register(&GlobalConfig::new(&host()), &plan()).unwrap();
    let registration = config.catalogs.get("pyg").unwrap();
    assert_eq!(registration.source, "owner/repo");
    assert_eq!(registration.authoring_root.as_deref(), Some("/catalog"));
    assert_eq!(register(&config, &plan()).unwrap(), config);
    let mut taken = GlobalConfig::new(&host());
    taken.catalogs.insert(
        "pyg".to_owned(),
        CatalogRegistration {
            source: "other/repo".to_owned(),
            reference: None,
            authoring_root: None,
        },
    );
    assert_eq!(
        register(&taken, &plan()).unwrap_err().message(),
        "catalog alias pyg is already registered to other/repo"
    );
}

#[test]
fn added_skills_are_selected() {
    let before = CatalogMetadata::default();
    let mut after = CatalogMetadata::default();
    assert_eq!(
        added_name(&before, &after).unwrap_err().message(),
        "catalog migration did not add one skill"
    );
    after.skills.insert("fresh".to_owned(), CatalogSkillMetadata { scope: None, global: true });
    assert_eq!(added_name(&before, &after).unwrap(), "fresh");
    let mut manifest = ProjectConfig::new(&host());
    manifest.skills.insert("pyg/kept".to_owned(), SkillSelection::Mode(SelectionMode::Enable));
    let now = migrated_manifest(&manifest, &plan(), &vec!["fresh".to_owned()]);
    assert_eq!(
        now.skills.get("pyg/fresh"),
        Some(&SkillSelection::Mode(SelectionMode::Manual))
    );
    assert_eq!(now.skills.get("pyg/kept"), manifest.skills.get("pyg/kept"));
    assert_eq!(now.agents, vec!["pi"]);
}

#[test]
fn a_failed_migration_is_rolled_back() {
    let plan = plan();
    assert_eq!(apply_plan(ApplyStep::Prepare, true, &plan), ApplyStep::Add);
    assert_eq!(apply_plan(ApplyStep::Add, false, &plan), ApplyStep::CleanFailed);
    assert_eq!(apply_plan(ApplyStep::CleanFailed, false, &plan), ApplyStep::Rollback);
    assert_eq!(apply_plan(ApplyStep::Scan, false, &plan), ApplyStep::Rollback);
    assert_eq!(apply_plan(ApplyStep::Configure, false, &plan), ApplyStep::RestoreGlobal);
    assert_eq!(apply_plan(ApplyStep::Install, true, &plan), ApplyStep::Cleanup);
    assert_eq!(apply_plan(ApplyStep::Install, false, &plan), ApplyStep::Failed);
    let (publish, doctor) = applied_lines(&plan);
    assert_eq!(publish, "next: inspect and publish /catalog");
    assert_eq!(doctor, "then run `skiller doctor -g`");
}

#[test]
fn command_lines_choose_a_scope() {
    assert_eq!(scope(true, Err("none".to_owned())).unwrap(), InstallScope::Global);
    assert_eq!(
        scope(false, Ok("/work".to_owned())).unwrap(),
        InstallScope::Project("/work".to_owned())
    );
    assert_eq!(scope(false, Err("none".to_owned())).unwrap_err().message(), "none");
    assert!(parse_agents(None).unwrap().is_empty());
    assert_eq!(parse_agents(Some("universal,pi")).unwrap(), vec!["universal", "pi"]);
    assert!(parse_agents(Some("")).is_err());
    assert_eq!(bare_command(false, true).unwrap(), BareStep::Choose);
    assert_eq!(bare_command(false, false).unwrap(), BareStep::ConfigureGlobal);
    assert!(bare_command(true, true).is_err());
}
