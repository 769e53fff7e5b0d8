use skiller::gitignore::update_gitignore;
use skiller::lock::{
    agent_listing, check_lock_file, listed_names, managed_lock_names, managed_lock_sources,
    parse_lock, partition_project_skills_lock, project_skills_lock_path, LockChange, LockFile,
    MAX_PROJECT_SKILLS_LOCK_BYTES,
};
use skiller::model::{EffectiveMode, InstalledSkill, InstalledState};
use skiller::name_map::NameSet;
use skiller::transaction::{locked_call, LockedCall};

const LOCK: &str = r#"{
    "version": 1,
    "skills": {
        "catalog-skill": {
            "source": "./.skiller/prepared-current",
            "sourceType": "local",
            "computedHash": "managed"
        },
        "catalog-current": {
            "source": "/work/.git/skiller/prepared-current",
            "sourceType": "local",
            "computedHash": "managed-current"
        },
        "native-skill": {
            "source": "owner/native-skills",
            "sourceType": "github",
            "computedHash": "native"
        },
        "native-local": {
            "source": "./project-skills",
            "sourceType": "local",
            "computedHash": "local"
        },
        "native-lookalike": {
            "source": "/unrelated/skiller/prepared-current",
            "sourceType": "local",
            "computedHash": "lookalike"
        }
    }
}"#;

fn names(list: &[&str]) -> NameSet {
    let mut set = NameSet::new();
    for name in list {
        set.insert((*name).to_owned());
    }
    set
}

fn sources() -> NameSet {
    managed_lock_sources("/work/.git/skiller", "/work")
}

#[test]
fn project_lock_keeps_native_entries_and_excludes_catalog_entries() {
    let mut lock = parse_lock(LOCK.as_bytes(), "/work/skills-lock.json").unwrap();
    let owned = names(&["catalog-skill", "catalog-current", "native-local", "native-lookalike"]);
    assert_eq!(
        managed_lock_names(&lock, &owned, &sources()).unwrap(),
        names(&["catalog-current", "catalog-skill"])
    );
    assert_eq!(
        partition_project_skills_lock(&mut lock, &owned, &sources()).unwrap(),
        LockChange::Write
    );
    assert!(lock["skills"].get("catalog-skill").is_none());
    assert!(lock["skills"].get("catalog-current").is_none());
    assert_eq!(lock["skills"]["native-skill"]["computedHash"], "native");
    assert_eq!(lock["skills"]["native-local"]["computedHash"], "local");
    assert_eq!(lock["skills"]["native-lookalike"]["computedHash"], "lookalike");
    assert_eq!(
        partition_project_skills_lock(&mut lock, &owned, &sources()).unwrap(),
        LockChange::Keep
    );
}

#[test]
fn project_lock_disappears_when_it_contains_only_catalog_entries() {
    let raw = r#"{
        "version": 1,
        "skills": {
            "catalog-skill": {
                "source": ".skiller/prepared-current",
                "sourceType": "local",
                "computedHash": "managed"
            }
        }
    }"#;
    let mut lock = parse_lock(raw.as_bytes(), "/work/skills-lock.json").unwrap();
    assert_eq!(
        partition_project_skills_lock(&mut lock, &names(&["catalog-skill"]), &sources()).unwrap(),
        LockChange::RemoveFile
    );
}

#[test]
fn project_lock_rejects_malformed_and_oversized_input() {
    assert_eq!(
        parse_lock(b"not JSON", "/work/skills-lock.json").unwrap_err().message(),
        "parsing /work/skills-lock.json"
    );
    let large = LockFile { symlink: false, file: true, bytes: MAX_PROJECT_SKILLS_LOCK_BYTES + 1 };
    assert_eq!(
        check_lock_file("/work/skills-lock.json", large).unwrap_err().message(),
        "project Skills lock exceeds 2 MB: /work/skills-lock.json"
    );
    let fitting = LockFile { symlink: false, file: true, bytes: MAX_PROJECT_SKILLS_LOCK_BYTES };
    assert!(check_lock_file("/work/skills-lock.json", fitting).is_ok());
    let list = parse_lock(b"[]", "/work/skills-lock.json").unwrap();
    assert!(managed_lock_names(&list, &NameSet::new(), &sources()).is_err());
}

#[test]
fn project_lock_rejects_a_symlink() {
    let link = LockFile { symlink: true, file: true, bytes: 10 };
    assert_eq!(
        check_lock_file("/work/skills-lock.json", link).unwrap_err().message(),
        "project Skills lock must be a real file: /work/skills-lock.json"
    );
    assert_eq!(project_skills_lock_path("/work"), "/work/skills-lock.json");
}

#[test]
fn managed_sources_have_their_current_and_older_place() {
    let sources = sources();
    assert!(sources.contains(".skiller/prepared-current"));
    assert!(sources.contains("/work/.git/skiller/prepared-current"));
    assert!(sources.contains(".git/skiller/prepared-current"));
    assert_eq!(managed_lock_sources("/elsewhere", "/work").len(), 2);
}

#[test]
fn an_agent_lists_its_skills() {
    let listing = agent_listing(br#"[{"name":"root"},{"name":"memo"}]"#, "pi").unwrap();
    assert_eq!(listing, names(&["memo", "root"]));
    assert_eq!(
        agent_listing(b"oops", "pi").unwrap_err().message(),
        "parsing Vercel Skills list for agent pi"
    );
    assert!(agent_listing(b"{}", "pi").is_err());
    let list = parse_lock(b"{}", "x").unwrap();
    assert_eq!(listed_names(&list), None);
}

fn state(ignored: bool) -> InstalledState {
    let mut state = InstalledState::default();
    state.skills.insert(
        "pyg/root".to_owned(),
        InstalledSkill {
            installed_name: "root".to_owned(),
            mode: EffectiveMode::Enable,
            gitignore: ignored,
            digest: None,
            content_digest: None,
            legacy_path: None,
        },
    );
    state
}

#[test]
fn ignored_skills_stand_in_a_block_of_their_own() {
    let first = update_gitignore(false, "target\n", &state(true)).unwrap();
    assert!(first.starts_with("target\n"));
    assert!(first.contains("root"));
    let again = update_gitignore(false, &first, &state(true)).unwrap();
    assert_eq!(again, first);
    let without = update_gitignore(false, &first, &state(false)).unwrap();
    assert!(without.starts_with("target\n"));
    assert!(!without.contains("root"));
    assert_eq!(
        update_gitignore(true, "", &state(true)).unwrap_err().message(),
        "refusing to edit symlinked .gitignore"
    );
    let cut = &first[..first.trim_end().rfind('\n').unwrap() + 1];
    assert_eq!(
        update_gitignore(false, cut, &state(true)).unwrap_err().message(),
        ".gitignore contains an unterminated Skiller marker block"
    );
}

#[test]
fn failed_vercel_action_partitions_project_lock() {
    let raw = r#"{
        "version": 1,
        "skills": {
            "catalog-skill": {
                "source": "./.skiller/prepared-current",
                "sourceType": "local",
                "computedHash": "managed"
            },
            "native-skill": {
                "source": "owner/native-skills",
                "sourceType": "github",
                "computedHash": "native"
            }
        }
    }"#;
    let owned = names(&["catalog-skill"]);
    let mut cleaned = parse_lock(raw.as_bytes(), "/work/skills-lock.json").unwrap();
    let cleanup = partition_project_skills_lock(&mut cleaned, &owned, &sources());
    assert_eq!(cleanup, Ok(LockChange::Write));
    assert_eq!(locked_call(true, None), LockedCall::CallFailed(None));
    assert!(cleaned["skills"].get("catalog-skill").is_none());
    assert_eq!(cleaned["skills"]["native-skill"]["computedHash"], "native");
}
