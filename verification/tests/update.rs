use skiller::agents::HostAgent;
use skiller::catalog::{CatalogIndex, CatalogSkill};
use skiller::model::{
    default_agents, CatalogMetadata, CatalogRegistration, EffectiveMode, GlobalConfig,
    InstalledSkill, InstalledState, ProjectConfig, SelectionMode, SkillSelection,
    INSTALLED_STATE_VERSION, SCHEMA_VERSION,
};
use skiller::name_map::NameMap;
use skiller::release::{read_release, release_line, searched_release};
use skiller::resolve::resolve_manifest;
use skiller::status::{stale_aliases, CatalogAvailability, CatalogStatus};
use skiller::update::{
    catalog_warning, check_updates, confirms_update, next_update_step, skill_update,
    update_catalog_statuses, update_question, UpdateStep,
};

fn host() -> HostAgent {
    HostAgent {
        kind: "studio".to_owned(),
        name: "studio-agent".to_owned(),
        label: "Studio".to_owned(),
    }
}

fn status(availability: CatalogAvailability, warning: Option<&str>) -> CatalogStatus {
    CatalogStatus {
        alias: "offline".to_owned(),
        availability,
        warning: warning.map(str::to_owned),
        catalog: None,
    }
}

fn statuses(status: CatalogStatus) -> NameMap<CatalogStatus> {
    let mut statuses = NameMap::new();
    statuses.insert(status.alias.clone(), status);
    statuses
}

fn manifest(key: &str) -> ProjectConfig {
    let mut skills = NameMap::new();
    skills.insert(key.to_owned(), SkillSelection::Mode(SelectionMode::Enable));
    ProjectConfig { version: SCHEMA_VERSION, skills, agents: default_agents(&host()) }
}

fn record(digest: Option<&str>) -> InstalledSkill {
    InstalledSkill {
        installed_name: "root".to_owned(),
        mode: EffectiveMode::Enable,
        gitignore: false,
        digest: digest.map(str::to_owned),
        content_digest: None,
        legacy_path: None,
    }
}

fn installed(key: &str, digest: Option<&str>) -> InstalledState {
    let mut skills = NameMap::new();
    skills.insert(key.to_owned(), record(digest));
    InstalledState { version: INSTALLED_STATE_VERSION, skills }
}

#[test]
fn unavailable_catalog_is_reported_without_an_update() {
    let report = update_catalog_statuses(
        &statuses(status(CatalogAvailability::Unavailable, Some("network unavailable"))),
        &GlobalConfig::new(&host()),
        &manifest("offline/root"),
        &installed("offline/root", None),
        &NameMap::new(),
    );
    assert_eq!(report[0].report.availability, "unavailable");
    assert_eq!((report[0].report.declared_count, report[0].report.installed_count), (1, 1));
}

#[test]
fn a_checkout_that_cannot_be_read_is_reported() {
    let mut global = GlobalConfig::new(&host());
    global.catalogs.insert(
        "offline".to_owned(),
        CatalogRegistration {
            source: "owner/repo".to_owned(),
            reference: None,
            authoring_root: Some("/checkout".to_owned()),
        },
    );
    let available = statuses(status(CatalogAvailability::Available, None));
    let mut drafts = NameMap::new();
    assert!(update_catalog_statuses(
        &available,
        &global,
        &manifest("offline/root"),
        &InstalledState::default(),
        &drafts,
    )
    .is_empty());
    drafts.insert("offline".to_owned(), "unreadable".to_owned());
    let report = update_catalog_statuses(
        &available,
        &global,
        &manifest("offline/root"),
        &InstalledState::default(),
        &drafts,
    );
    assert_eq!(report[0].draft_availability, Some("unavailable"));
    assert_eq!(report[0].draft_warning.as_deref(), Some("unreadable"));
}

fn catalogs(digest: &str) -> NameMap<CatalogIndex> {
    let mut skills = NameMap::new();
    skills.insert(
        "root".to_owned(),
        CatalogSkill {
            name: "root".to_owned(),
            description: "Root".to_owned(),
            digest: digest.to_owned(),
            scope: None,
            installed_name: "root".to_owned(),
            global: false,
            requires: Vec::new(),
        },
    );
    let mut catalogs = NameMap::new();
    catalogs.insert(
        "pyg".to_owned(),
        CatalogIndex {
            alias: "pyg".to_owned(),
            source: "test".to_owned(),
            root: ".".to_owned(),
            metadata: CatalogMetadata::default(),
            skills,
        },
    );
    catalogs
}

#[test]
fn a_skill_is_updated_when_its_record_differs() {
    let catalogs = catalogs("v1");
    let resolved = resolve_manifest(&manifest("pyg/root"), &catalogs, false).unwrap();
    let skill = &resolved[0];
    assert_eq!(skill_update(skill, None).unwrap().status, "not-installed");
    assert_eq!(skill_update(skill, Some(&record(None))).unwrap().status, "version-untracked");
    let changed = skill_update(skill, Some(&record(Some("old")))).unwrap();
    assert_eq!(changed.status, "updated");
    assert_eq!(changed.installed_digest.as_deref(), Some("old"));
    assert_eq!(changed.available_digest, skill.digest);
    let mut renamed = record(Some(&skill.digest));
    renamed.gitignore = true;
    assert_eq!(skill_update(skill, Some(&renamed)).unwrap().status, "reconcile");
    assert_eq!(skill_update(skill, Some(&record(Some(&skill.digest)))), None);
}

#[test]
fn updates_and_drafts_are_reported() {
    let mut global = GlobalConfig::new(&host());
    global.catalogs.insert(
        "pyg".to_owned(),
        CatalogRegistration {
            source: "owner/repo".to_owned(),
            reference: None,
            authoring_root: Some("/checkout".to_owned()),
        },
    );
    let report = check_updates(
        false,
        &global,
        &manifest("pyg/root"),
        &InstalledState::default(),
        &NameMap::new(),
        &catalogs("v1"),
        &catalogs("v2"),
        &NameMap::new(),
    )
    .unwrap();
    assert_eq!(
        report.lines(),
        vec![
            "1 published skill update available:",
            "- pyg/root (not-installed)",
            "1 unpublished authoring change detected:",
            "- pyg/root",
        ]
    );
    assert_eq!(report.drafts[0].status, "local-draft");
    let quiet = check_updates(
        true,
        &global,
        &ProjectConfig::new(&host()),
        &InstalledState::default(),
        &NameMap::new(),
        &catalogs("v1"),
        &catalogs("v1"),
        &NameMap::new(),
    )
    .unwrap();
    assert_eq!(quiet.lines(), vec!["global skills are current"]);
    assert!(check_updates(
        false,
        &global,
        &manifest("pyg/none"),
        &InstalledState::default(),
        &NameMap::new(),
        &catalogs("v1"),
        &catalogs("v1"),
        &NameMap::new(),
    )
    .is_err());
}

#[test]
fn updates_are_installed_with_consent() {
    assert_eq!(next_update_step(true, false, 2), UpdateStep::Done);
    assert_eq!(next_update_step(true, true, 2), UpdateStep::Install);
    assert_eq!(next_update_step(false, false, 2), UpdateStep::Ask);
    assert_eq!(next_update_step(false, true, 0), UpdateStep::Done);
    assert_eq!(
        update_question(true, 1).unwrap(),
        "Install and verify 1 update? [y/N] "
    );
    assert_eq!(
        update_question(true, 2).unwrap(),
        "Install and verify 2 updates? [y/N] "
    );
    assert_eq!(
        update_question(false, 2).unwrap_err().message(),
        "noninteractive update requires --yes"
    );
    assert!(confirms_update("yes\n"));
    assert!(!confirms_update("Yes"));
    assert_eq!(
        catalog_warning(&status(CatalogAvailability::Unavailable, Some("down"))).as_deref(),
        Some("warning: catalog offline is unavailable: down")
    );
    assert_eq!(catalog_warning(&status(CatalogAvailability::Available, None)), None);
}

#[test]
fn only_a_newer_stable_release_is_told() {
    let found = |version: &str| Ok(version.to_owned());
    assert_eq!(
        release_line("0.6.1", &found("0.10.0")).as_deref(),
        Some("Skiller 0.10.0 is available; this is 0.6.1")
    );
    assert_eq!(release_line("0.6.1", &found("0.6.1")), None);
    assert_eq!(release_line("0.6.1", &found("0.5.9")), None);
    assert_eq!(release_line("0.6.1", &found("0.7.0-rc.1")), None);
    assert_eq!(release_line("0.6.1", &found("+1.0.0")), None);
    assert_eq!(release_line("0.6.1", &Err("registry is unavailable".to_owned())), None);
    assert_eq!(read_release("1.2.3"), Some((1, 2, 3)));
    assert_eq!(read_release("1.2"), None);
    assert_eq!(
        searched_release("skiller = \"0.6.2\"    # Skills\n").as_deref(),
        Some("0.6.2")
    );
    assert_eq!(searched_release("other = \"1.0.0\"\n"), None);
}

#[test]
fn stale_catalogs_are_those_with_older_content() {
    let mut statuses = NameMap::new();
    for (alias, availability) in [
        ("fresh", CatalogAvailability::Available),
        ("old", CatalogAvailability::Stale),
        ("gone", CatalogAvailability::Unavailable),
    ] {
        statuses.insert(
            alias.to_owned(),
            CatalogStatus { alias: alias.to_owned(), availability, warning: None, catalog: None },
        );
    }
    assert_eq!(stale_aliases(&statuses).to_list(), vec!["old"]);
}
