use skiller::agents::HostAgent;
use skiller::authoring::{add_skill, check_placement, next_step, AdditionRequest, AdditionStep};
use skiller::catalog::{
    add_catalog, check_registration, clone_candidates, configure_catalog, installed_name,
    load_global_config, next_clone, parse_list, read_skill, resolve_rename, scan_catalog,
    sync_catalog, sync_registered_catalogs, validate_dependencies, validate_renames,
    CatalogEligibility, CatalogEntry, CatalogSkill, CatalogSnapshot, CloneStep,
};
use skiller::frontmatter::{frontmatter, nested_scalar, scalar};
use skiller::model::{
    CatalogMetadata, CatalogRegistration, CatalogSkillMetadata, GlobalConfig, ScopeMetadata,
};
use skiller::name_map::NameMap;
use skiller::status::{settle_sync, CatalogAvailability};
use skiller::reach::{check_source, note_attempt, tries_source};
use skiller::recommend::{
    guide_names, guide_part, read_recommend, recommended_by, skill_reasons, ProjectSeen,
};

fn host() -> HostAgent {
    HostAgent {
        kind: "studio".to_owned(),
        name: "studio-agent".to_owned(),
        label: "Studio".to_owned(),
    }
}

#[test]
fn scope_is_postfixed_with_portable_separator() {
    assert_eq!(installed_name("develop", Some("engineering")).unwrap(), "develop-engineering");
    assert!(installed_name(&"a".repeat(60), Some("scope")).is_err());
}

#[test]
fn installed_name_without_scope_is_the_name() {
    assert_eq!(installed_name("develop", None).unwrap(), "develop");
    assert!(installed_name("Develop", None).is_err());
}

#[test]
fn github_shorthand_has_authenticated_fallback() {
    assert_eq!(
        clone_candidates("vlwkaos/skills"),
        vec![
            "https://github.com/vlwkaos/skills.git",
            "git@github.com:vlwkaos/skills.git"
        ]
    );
}

#[test]
fn other_sources_are_cloned_as_they_are() {
    assert_eq!(clone_candidates("git@host:repo.git"), vec!["git@host:repo.git"]);
    assert_eq!(clone_candidates("https://host/repo"), vec!["https://host/repo"]);
}

#[test]
fn a_clone_tries_each_candidate_and_then_fails() {
    let source = "vlwkaos/skills";
    match next_clone(source, &vec![]) {
        CloneStep::Try(url) => assert_eq!(url, "https://github.com/vlwkaos/skills.git"),
        CloneStep::Fail(_) => panic!("a candidate is left"),
    }
    match next_clone(source, &vec!["no".to_owned()]) {
        CloneStep::Try(url) => assert_eq!(url, "git@github.com:vlwkaos/skills.git"),
        CloneStep::Fail(_) => panic!("a candidate is left"),
    }
    match next_clone(source, &vec!["no".to_owned(), "none".to_owned()]) {
        CloneStep::Try(_) => panic!("no candidate is left"),
        CloneStep::Fail(f) => {
            assert!(f.message().contains("no"));
            assert!(f.message().contains("none"));
        }
    }
}

#[test]
fn nested_skiller_dependency_string_is_parsed() {
    let frontmatter = "name: develop\nmetadata:\n  skiller.requires: \"recall,simplify\"\n";
    assert_eq!(
        nested_scalar(frontmatter, "skiller.requires").as_deref(),
        Some("recall,simplify")
    );
}

#[test]
fn folded_description_is_joined_for_noninteractive_output() {
    let frontmatter = "name: recall\ndescription: >-\n  Load project context before planning.\n  Skip literal lookups.\nmetadata:\n  skiller.requires: dream\n";
    assert_eq!(
        scalar(frontmatter, "description").as_deref(),
        Some("Load project context before planning. Skip literal lookups.")
    );
}

#[test]
fn frontmatter_stands_between_two_marks() {
    assert_eq!(
        frontmatter("---\nname: a\n---\nBody\n", "SKILL.md").unwrap(),
        "name: a\n"
    );
    assert!(frontmatter("name: a\n", "SKILL.md").is_err());
    assert!(frontmatter("---\nname: a\n", "SKILL.md").is_err());
}

#[test]
fn lists_are_split_at_commas_and_trimmed() {
    assert_eq!(parse_list("recall, simplify"), vec!["recall", "simplify"]);
    assert_eq!(parse_list("a, b,,c "), vec!["a", "b", "c"]);
    assert!(parse_list("").is_empty());
}

fn dependency_skill(name: &str, requires: &[&str]) -> CatalogSkill {
    CatalogSkill {
        name: name.to_owned(),
        description: name.to_owned(),
        scope: None,
        installed_name: name.to_owned(),
        global: true,
        requires: requires.iter().map(|dependency| (*dependency).to_owned()).collect(),
        digest: name.to_owned(),
    }
}

fn skills(list: Vec<CatalogSkill>) -> NameMap<CatalogSkill> {
    let mut map = NameMap::new();
    for skill in list {
        map.insert(skill.name.clone(), skill);
    }
    map
}

#[test]
fn dependency_cycles_report_the_complete_path() {
    let direct = skills(vec![dependency_skill("a", &["a"])]);
    assert_eq!(
        validate_dependencies(&direct).unwrap_err().message(),
        "catalog dependency cycle: a -> a"
    );

    let indirect = skills(vec![
        dependency_skill("a", &["b"]),
        dependency_skill("b", &["c"]),
        dependency_skill("c", &["a"]),
    ]);
    assert_eq!(
        validate_dependencies(&indirect).unwrap_err().message(),
        "catalog dependency cycle: a -> b -> c -> a"
    );
}

#[test]
fn shared_dependencies_are_no_cycle() {
    let diamond = skills(vec![
        dependency_skill("a", &["b", "c"]),
        dependency_skill("b", &["d"]),
        dependency_skill("c", &["d"]),
        dependency_skill("d", &[]),
    ]);
    assert!(validate_dependencies(&diamond).is_ok());
    let missing = skills(vec![dependency_skill("a", &["b"])]);
    assert!(validate_dependencies(&missing).is_err());
}

#[test]
fn catalog_renames_require_acyclic_paths_to_current_skills() {
    let skills = skills(vec![dependency_skill("learn", &[])]);
    let mut metadata = CatalogMetadata::default();
    metadata.renames.insert("digest".to_owned(), "teach".to_owned());
    metadata.renames.insert("teach".to_owned(), "learn".to_owned());
    validate_renames(&metadata, &skills).unwrap();

    metadata.renames = NameMap::new();
    metadata.renames.insert("digest".to_owned(), "teach".to_owned());
    metadata.renames.insert("teach".to_owned(), "digest".to_owned());
    assert_eq!(
        validate_renames(&metadata, &skills).unwrap_err().message(),
        "catalog rename cycle: digest -> teach -> digest"
    );
}

#[test]
fn renames_need_a_current_skill_and_an_old_name() {
    let skills = skills(vec![dependency_skill("learn", &[])]);
    let mut metadata = CatalogMetadata::default();
    metadata.renames.insert("digest".to_owned(), "gone".to_owned());
    assert!(validate_renames(&metadata, &skills).is_err());
    let mut metadata = CatalogMetadata::default();
    metadata.renames.insert("learn".to_owned(), "learn".to_owned());
    assert!(validate_renames(&metadata, &skills).is_err());
}

fn entry(name: &str, raw: &str) -> CatalogEntry {
    CatalogEntry {
        name: name.to_owned(),
        directory: true,
        symlink: false,
        inner_symlink: None,
        skill_file: true,
        raw: raw.to_owned(),
        digest: format!("digest of {name}"),
    }
}

fn metadata(scopes: &[(&str, i32)], skills: &[(&str, &str, bool)]) -> CatalogMetadata {
    let mut metadata = CatalogMetadata::default();
    for (name, order) in scopes {
        metadata.scopes.insert((*name).to_owned(), ScopeMetadata { label: None, order: *order });
    }
    for (name, scope, global) in skills {
        metadata.skills.insert(
            (*name).to_owned(),
            CatalogSkillMetadata { scope: Some((*scope).to_owned()), global: *global },
        );
    }
    metadata
}

fn learning_snapshot() -> CatalogSnapshot {
    CatalogSnapshot {
        root: "/catalog".to_owned(),
        metadata: Some(metadata(
            &[("knowledge", 10), ("learning", 20)],
            &[("note", "knowledge", true)],
        )),
        entries: vec![entry("note", "---\nname: note\ndescription: Save notes\n---\n")],
    }
}

fn request(snapshot: CatalogSnapshot, scope: &str, name: &str, raw: &str) -> AdditionRequest {
    AdditionRequest {
        catalog_root: "/catalog".to_owned(),
        root_is_directory: true,
        source: format!("/candidate/{name}"),
        source_is_directory: true,
        source_path: format!("/candidate/{name}"),
        scope: scope.to_owned(),
        eligibility: CatalogEligibility::Global,
        metadata_is_file: true,
        snapshot,
        source_folder: name.to_owned(),
        source_raw: raw.to_owned(),
        source_digest: "candidate".to_owned(),
        process: 7,
    }
}

const LEARN: &str =
    "---\nname: learn\ndescription: Teach deeply\nmetadata:\n  skiller.requires: note\n---\n";

#[test]
fn add_skill_requires_explicit_scope_and_preserves_global_closure() {
    let addition = add_skill(&request(learning_snapshot(), "learning", "learn", LEARN)).unwrap();
    assert_eq!(addition.destination, "/catalog/skills/learn");
    assert_eq!(
        addition.metadata.skills.get("learn"),
        Some(&CatalogSkillMetadata { scope: Some("learning".to_owned()), global: true })
    );
    assert!(add_skill(&request(learning_snapshot(), "missing", "learn", LEARN))
        .unwrap_err()
        .message()
        .contains("no scope"));
}

#[test]
fn add_skill_rejects_project_only_global_dependencies_without_mutation() {
    let snapshot = CatalogSnapshot {
        root: "/catalog".to_owned(),
        metadata: Some(metadata(&[("test", 10)], &[("helper", "test", false)])),
        entries: vec![entry("helper", "---\nname: helper\ndescription: Project helper\n---\n")],
    };
    let raw = "---\nname: root\ndescription: Global root\nmetadata:\n  skiller.requires: helper\n---\n";
    let error = add_skill(&request(snapshot, "test", "root", raw)).unwrap_err().message();
    assert!(error.contains("project-only skill helper"));
}

#[test]
fn add_skill_refuses_sources_that_it_cannot_take() {
    let mut inside = request(learning_snapshot(), "learning", "learn", LEARN);
    inside.source_path = "/catalog/skills/learn".to_owned();
    assert!(add_skill(&inside).unwrap_err().message().contains("outside the target catalog"));
    let mut file = request(learning_snapshot(), "learning", "learn", LEARN);
    file.source_is_directory = false;
    assert!(add_skill(&file).is_err());
    let mut rootless = request(learning_snapshot(), "learning", "learn", LEARN);
    rootless.root_is_directory = false;
    assert!(add_skill(&rootless).is_err());
    let mut link = request(learning_snapshot(), "learning", "learn", LEARN);
    link.metadata_is_file = false;
    assert!(add_skill(&link).is_err());
    let known = "---\nname: note\ndescription: Again\n---\n";
    assert!(add_skill(&request(learning_snapshot(), "learning", "note", known)).is_err());
}

#[test]
fn an_addition_is_placed_only_where_nothing_stands() {
    let addition = add_skill(&request(learning_snapshot(), "learning", "learn", LEARN)).unwrap();
    assert!(check_placement(&addition, false, false).is_ok());
    assert!(check_placement(&addition, true, false).is_err());
    assert!(check_placement(&addition, false, true).is_err());
    assert!(addition.staging.contains("7"));
}

#[test]
fn a_failed_addition_is_taken_back() {
    assert_eq!(
        next_step(AdditionStep::CopyToStaging, true),
        Some(AdditionStep::RenameToDestination)
    );
    assert_eq!(next_step(AdditionStep::CopyToStaging, false), Some(AdditionStep::RemoveStaging));
    assert_eq!(
        next_step(AdditionStep::WriteMetadata, false),
        Some(AdditionStep::RemoveDestination)
    );
    assert_eq!(next_step(AdditionStep::WriteMetadata, true), Some(AdditionStep::Report));
    assert_eq!(next_step(AdditionStep::Report, true), None);
}

#[test]
fn a_skill_is_read_from_its_file() {
    let plain = CatalogSkillMetadata { scope: Some("learning".to_owned()), global: true };
    let skill = read_skill(LEARN, "learn", "/catalog/skills/learn/SKILL.md", &plain, "d").unwrap();
    assert_eq!(skill.name, "learn");
    assert_eq!(skill.description, "Teach deeply");
    assert_eq!(skill.installed_name, "learn-learning");
    assert_eq!(skill.requires, vec!["note"]);
    assert_eq!(skill.digest, "d");
    assert!(read_skill(LEARN, "other", "/catalog/skills/other/SKILL.md", &plain, "d").is_err());
}

#[test]
fn a_scan_takes_real_skill_directories_only() {
    let mut snapshot = learning_snapshot();
    snapshot.entries.push(CatalogEntry {
        name: "drafts".to_owned(),
        directory: true,
        symlink: false,
        inner_symlink: None,
        skill_file: false,
        raw: String::new(),
        digest: String::new(),
    });
    let catalog = scan_catalog("pyg", "owner/repo", &snapshot).unwrap();
    assert_eq!(catalog.skills.len(), 1);
    assert_eq!(catalog.skills.get("note").unwrap().installed_name, "note-knowledge");
    assert_eq!(catalog.alias, "pyg");
    let mut broken = learning_snapshot();
    broken.metadata.as_mut().unwrap().version = 2;
    assert!(scan_catalog("pyg", "owner/repo", &broken).is_err());
}

fn registered() -> GlobalConfig {
    let mut config = GlobalConfig::new(&host());
    config.catalogs.insert(
        "pyg".to_owned(),
        CatalogRegistration {
            source: "owner/repo".to_owned(),
            reference: None,
            authoring_root: None,
        },
    );
    config
}

#[test]
fn registered_catalogs_are_all_synchronized() {
    let config = registered();
    let catalogs = sync_registered_catalogs(&config, &vec![learning_snapshot()]).unwrap();
    assert_eq!(catalogs.get("pyg").unwrap().source, "owner/repo");
    let registration = config.catalogs.get("pyg").unwrap();
    assert!(sync_catalog("pyg", registration, &learning_snapshot()).is_ok());
    let mut broken = learning_snapshot();
    broken.entries[0].raw = "no frontmatter".to_owned();
    assert!(sync_registered_catalogs(&config, &vec![broken]).is_err());
}

#[test]
fn a_catalog_is_added_once() {
    let (config, report) =
        add_catalog(&GlobalConfig::new(&host()), "pyg", "owner/repo", &learning_snapshot()).unwrap();
    assert_eq!(config.catalogs.get("pyg").unwrap().source, "owner/repo");
    assert!(report.contains("pyg"));
    assert!(check_registration(&registered(), "Pyg", "owner/repo").is_err());
    assert!(check_registration(&registered(), "pyg", "other/repo").is_err());
}

#[test]
fn a_configuration_of_another_schema_is_refused() {
    assert!(load_global_config(registered()).is_ok());
    let mut config = registered();
    config.version = 9;
    assert!(load_global_config(config).is_err());
}

#[test]
fn renames_lead_to_the_current_name() {
    let mut snapshot = learning_snapshot();
    let metadata = snapshot.metadata.as_mut().unwrap();
    metadata.renames.insert("digest".to_owned(), "memo".to_owned());
    metadata.renames.insert("memo".to_owned(), "note".to_owned());
    let catalog = scan_catalog("pyg", "owner/repo", &snapshot).unwrap();
    assert_eq!(resolve_rename(&catalog, "digest").as_deref(), Some("note"));
    assert_eq!(resolve_rename(&catalog, "note"), None);
}

#[test]
fn skills_are_recommended_by_files_and_words() {
    let fields = "name: release\nmetadata:\n  skiller.recommend.files: \"Cargo.toml\"\n  skiller.recommend.keywords: \"release,Homebrew\"\n";
    let wish = read_recommend(fields).unwrap();
    assert_eq!(wish.files, vec!["Cargo.toml"]);
    assert_eq!(wish.keywords, vec!["release", "Homebrew"]);
    let seen = ProjectSeen {
        names: vec!["Cargo.toml".to_owned(), "README.md".to_owned()],
        texts: vec!["Install it from HOMEBREW".to_owned()],
    };
    assert_eq!(recommended_by(&wish, &seen).unwrap(), vec!["Cargo.toml", "Homebrew"]);
    let silent = ProjectSeen { names: vec!["Cargo.toml".to_owned()], texts: vec![] };
    assert_eq!(recommended_by(&wish, &silent), None);
    let other = ProjectSeen {
        names: vec!["package.json".to_owned()],
        texts: vec!["homebrew".to_owned()],
    };
    assert_eq!(recommended_by(&wish, &other), None);
    let named = ProjectSeen {
        names: vec!["Cargo.toml".to_owned(), "RELEASE.md".to_owned()],
        texts: vec![],
    };
    assert_eq!(recommended_by(&wish, &named).unwrap(), vec!["Cargo.toml", "release"]);
    assert_eq!(read_recommend("name: a\n"), None);
}

#[test]
fn reasons_are_read_from_the_skill_file() {
    let raw = "---\nname: release\nmetadata:\n  skiller.recommend.files: \"Cargo.toml\"\n---\nBody\n";
    let seen = ProjectSeen { names: vec!["Cargo.toml".to_owned()], texts: vec![] };
    assert_eq!(skill_reasons(raw, "SKILL.md", &seen), vec!["Cargo.toml"]);
    let bare = ProjectSeen { names: vec![], texts: vec![] };
    assert!(skill_reasons(raw, "SKILL.md", &bare).is_empty());
    assert!(skill_reasons("Body\n", "SKILL.md", &seen).is_empty());
    assert!(skill_reasons("---\nname: a\n---\n", "SKILL.md", &seen).is_empty());
    assert_eq!(guide_names().len(), 5);
    assert!(guide_names().contains(&"AGENTS.md".to_owned()));
    assert_eq!(guide_part(vec![7; 20_001]).len(), 20_000);
    assert_eq!(guide_part(vec![1, 2]), vec![1, 2]);
}

#[test]
fn a_catalog_is_configured_again() {
    let registration = CatalogRegistration {
        source: "new/repo".to_owned(),
        reference: Some("main".to_owned()),
        authoring_root: None,
    };
    let (config, report) =
        configure_catalog(&registered(), "pyg", registration, &learning_snapshot()).unwrap();
    assert_eq!(config.catalogs.get("pyg").unwrap().source, "new/repo");
    assert_eq!(report, "configured catalog pyg: 1 skill from new/repo");
    let blank = CatalogRegistration {
        source: " ".to_owned(),
        reference: None,
        authoring_root: None,
    };
    assert_eq!(
        configure_catalog(&registered(), "pyg", blank, &learning_snapshot())
            .unwrap_err()
            .message(),
        "catalog source cannot be empty"
    );
}

#[test]
fn a_failed_reading_leaves_the_catalog_stale() {
    let index = scan_catalog("pyg", "owner/repo", &learning_snapshot()).unwrap();
    let (at_hand, status) = settle_sync("pyg", Err("offline".to_owned()), Some(index));
    assert!(at_hand.is_none());
    assert_eq!(status.availability, CatalogAvailability::Stale);
    assert_eq!(status.warning.as_deref(), Some("offline"));
    let (_, status) = settle_sync("pyg", Err("offline".to_owned()), None);
    assert_eq!(status.availability, CatalogAvailability::Unavailable);
    let index = scan_catalog("pyg", "owner/repo", &learning_snapshot()).unwrap();
    let (at_hand, status) = settle_sync("pyg", Ok(index), None);
    assert!(at_hand.is_some());
    assert_eq!(status.availability, CatalogAvailability::Available);
}

#[test]
fn symlinks_in_a_catalog_are_refused() {
    let mut linked = learning_snapshot();
    let mut extra = entry("escape", "---\nname: escape\ndescription: Elsewhere\n---\n");
    extra.symlink = true;
    extra.directory = false;
    linked.entries.push(extra);
    assert_eq!(
        scan_catalog("pyg", "owner/repo", &linked).unwrap_err().message(),
        "catalog contains an unsupported symlink: /catalog/skills/escape"
    );
    assert!(add_catalog(&GlobalConfig::new(&host()), "pyg", "owner/repo", &linked).is_err());
    assert!(add_skill(&request(linked, "learning", "learn", LEARN)).is_err());
    let mut nested = learning_snapshot();
    nested.entries[0].inner_symlink = Some("/catalog/skills/note/secret".to_owned());
    assert_eq!(
        scan_catalog("pyg", "owner/repo", &nested).unwrap_err().message(),
        "catalog contains an unsupported symlink: /catalog/skills/note/secret"
    );
}

#[test]
fn unreachable_sources_rest_briefly() {
    let mut failures = NameMap::new();
    assert!(check_source(&failures, "owner/repo", 100).is_ok());
    note_attempt(&mut failures, "owner/repo", 100, false);
    assert_eq!(
        check_source(&failures, "owner/repo", 115).unwrap_err().message(),
        "catalog source owner/repo was unreachable; it is tried again in 45 s"
    );
    assert!(check_source(&failures, "owner/repo", 160).is_ok());
    assert!(check_source(&failures, "owner/repo", 99).is_ok());
    assert!(check_source(&failures, "other/repo", 115).is_ok());
    note_attempt(&mut failures, "owner/repo", 115, true);
    assert!(check_source(&failures, "owner/repo", 115).is_ok());
    assert!(tries_source(None, 0));
    assert!(!tries_source(Some(5), 5));
}
