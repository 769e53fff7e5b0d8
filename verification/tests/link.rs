use skiller::agents::HostAgent;
use skiller::config::{Config, LinkMode, Target};
use skiller::link::{
    cmd_link, cmd_status, cmd_unlink, ensure_granular_target_dir, entry_done, folder_done,
    link_folder, link_granular, link_granular_entry, migrates, parse_entry_choice,
    parse_folder_choice, root_done, settle_folder, unlink_folder, unlink_folder_lines,
    unlink_granular, unlink_granular_done, unlinked_entry, unlinks, ConflictChoice, EntryStep,
    FolderAction, FolderStep, LinkSeen, RootStep,
};
use skiller::name_map::NameSet;
use skiller::targets::{
    add_target, builtin_path, builtin_paths, builtin_paths_in, cmd_add, cmd_list, cmd_remove,
    contains_skill_markdown, link_status, skill_entries, EntrySeen, PathSeen, SkillTree,
    SourceEntry,
};

fn config() -> Config {
    Config {
        source: Some("/skills".to_owned()),
        targets: vec![
            Target {
                kind: "codex".to_owned(),
                path: "/home/u/.codex/skills".to_owned(),
                mode: LinkMode::Folder,
            },
            Target {
                kind: "hermes".to_owned(),
                path: "/home/u/.hermes/skills/common".to_owned(),
                mode: LinkMode::Granular,
            },
        ],
    }
}

fn link(to: &str) -> LinkSeen {
    LinkSeen::Symlink(to.to_owned())
}

#[test]
fn links_choose_their_targets() {
    assert_eq!(cmd_link(&config(), None).unwrap(), vec![0, 1]);
    assert_eq!(cmd_link(&config(), Some("hermes")).unwrap(), vec![1]);
    assert_eq!(
        cmd_link(&config(), Some("none")).unwrap_err().message(),
        "no matching target(s)"
    );
    let mut unset = config();
    unset.source = None;
    assert_eq!(
        cmd_link(&unset, None).unwrap_err().message(),
        "source not configured — run: skiller source <path>"
    );
    assert_eq!(cmd_unlink(&unset, None).unwrap(), vec![0, 1]);
    assert!(cmd_unlink(&unset, Some("none")).is_err());
    assert_eq!(cmd_status(&unset), "source: (not set)");
    assert_eq!(cmd_status(&config()), "source: /skills");
}

#[test]
fn folders_are_linked_or_asked_about() {
    let (step, lines) = link_folder("/skills", "/t", "codex", &LinkSeen::Missing);
    assert_eq!(step, FolderStep::Link);
    assert_eq!(lines.len(), 1);
    let (step, lines) = link_folder("/skills", "/t", "codex", &link("/skills"));
    assert_eq!(step, FolderStep::Keep);
    assert_eq!(lines[1], "codex [folder]: already linked — skipping");
    let (step, lines) = link_folder("/skills", "/t", "codex", &link("/other"));
    assert_eq!(step, FolderStep::AskSymlink);
    assert_eq!(lines[1], "codex [folder]: conflict — symlink points to /other");
    let (step, lines) = link_folder("/skills", "/t", "codex", &LinkSeen::Directory);
    assert_eq!(step, FolderStep::AskDirectory);
    assert_eq!(lines[1], "codex [folder]: conflict — real directory at /t");
}

#[test]
fn answers_settle_folder_conflicts() {
    assert_eq!(parse_folder_choice(" M\n"), Some(ConflictChoice::Migrate));
    assert_eq!(parse_folder_choice("x"), None);
    assert_eq!(
        settle_folder(FolderStep::AskSymlink, ConflictChoice::Overwrite).unwrap(),
        FolderAction::Relink
    );
    assert_eq!(
        settle_folder(FolderStep::AskDirectory, ConflictChoice::Migrate).unwrap(),
        FolderAction::Migrate
    );
    assert_eq!(
        settle_folder(FolderStep::AskSymlink, ConflictChoice::Migrate).unwrap_err().message(),
        "migrate not applicable for existing symlinks"
    );
    assert_eq!(
        folder_done(FolderAction::Migrate, "codex", "/skills"),
        "codex [folder]: migrated + linked → /skills"
    );
    assert_eq!(folder_done(FolderAction::Skip, "codex", "/skills"), "codex [folder]: skipped");
    let mut existing = NameSet::new();
    existing.insert("a".to_owned());
    assert_eq!(migrates(&existing, "a"), (false, "  skip (duplicate): a".to_owned()));
    assert_eq!(migrates(&existing, "b"), (true, "  migrated: b".to_owned()));
}

#[test]
fn granular_roots_must_be_directories() {
    assert_eq!(
        ensure_granular_target_dir("/t", "hermes", &LinkSeen::Missing).unwrap(),
        RootStep::Create
    );
    assert_eq!(
        ensure_granular_target_dir("/t", "hermes", &LinkSeen::Directory).unwrap(),
        RootStep::Proceed
    );
    assert_eq!(
        ensure_granular_target_dir("/t", "hermes", &link("/x")).unwrap(),
        RootStep::Ask(
            "hermes [granular]: conflict — target root is a symlink to /x".to_owned()
        )
    );
    assert_eq!(
        ensure_granular_target_dir("/t", "hermes", &LinkSeen::Other).unwrap_err().message(),
        "hermes [granular]: target root is not a directory: /t"
    );
    assert_eq!(root_done(false, "hermes"), "hermes [granular]: skipped");
}

#[test]
fn skills_are_linked_one_by_one() {
    let (step, line) = link_granular_entry("/skills/a", "/t/a", "a", "hermes", &LinkSeen::Missing);
    assert_eq!((step, line.as_str()), (EntryStep::Link, "hermes [granular]: linked a"));
    let (step, line) = link_granular_entry("/skills/a", "/t/a", "a", "hermes", &link("/skills/a"));
    assert_eq!((step, line.as_str()), (EntryStep::Keep, "hermes [granular]: already linked a"));
    let (step, line) = link_granular_entry("/skills/a", "/t/a", "a", "hermes", &link("/b"));
    assert_eq!(step, EntryStep::AskSymlink);
    assert_eq!(line, "hermes [granular]: conflict — a points to /b");
    let (step, line) =
        link_granular_entry("/skills/a", "/t/a", "a", "hermes", &LinkSeen::Directory);
    assert_eq!(step, EntryStep::AskEntry);
    assert_eq!(line, "hermes [granular]: conflict — real entry exists at /t/a");
    assert_eq!(
        entry_done(EntryStep::AskSymlink, true, "a", "hermes"),
        "hermes [granular]: relinked a"
    );
    assert_eq!(
        entry_done(EntryStep::AskEntry, true, "a", "hermes"),
        "hermes [granular]: overwritten a"
    );
    assert_eq!(
        entry_done(EntryStep::AskEntry, false, "a", "hermes"),
        "hermes [granular]: skipped a"
    );
    assert_eq!(parse_entry_choice("o"), Some(true));
    assert_eq!(parse_entry_choice("S"), Some(false));
    assert_eq!(parse_entry_choice("m"), None);
    assert_eq!(
        link_granular("hermes", 3, 2, 1),
        "hermes [granular]: done — 2 linked/already-linked, 1 skipped"
    );
    assert_eq!(
        link_granular("hermes", 0, 0, 0),
        "hermes [granular]: no source skills found — nothing to link"
    );
}

#[test]
fn unlinking_leaves_what_is_not_a_link() {
    assert!(!unlink_folder("/t", "codex", &LinkSeen::Missing).unwrap());
    assert!(unlink_folder("/t", "codex", &link("/x")).unwrap());
    assert_eq!(
        unlink_folder("/t", "codex", &LinkSeen::Directory).unwrap_err().message(),
        "codex [folder]: /t — not a symlink, refusing to remove"
    );
    assert_eq!(unlink_folder_lines("codex", true).1, "codex [folder]: unlinked");
    assert_eq!(unlink_folder_lines("codex", false).1, "codex [folder]: not linked — skipping");
    assert_eq!(unlink_granular("h", Some("/s"), &LinkSeen::Directory).unwrap(), None);
    assert_eq!(
        unlink_granular("h", Some("/s"), &LinkSeen::Missing).unwrap().unwrap(),
        "h [granular]: target root missing — nothing to unlink"
    );
    assert_eq!(
        unlink_granular("h", None, &LinkSeen::Directory).unwrap_err().message(),
        "h [granular]: source not configured"
    );
    assert_eq!(
        unlink_granular("h", Some("/s"), &link("/x")).unwrap_err().message(),
        "h [granular]: target root is a symlink, refusing to remove entire directory"
    );
    assert_eq!(
        unlink_granular("h", Some("/s"), &LinkSeen::Other).unwrap_err().message(),
        "h [granular]: target root is not a directory"
    );
    assert!(unlinks("/s/a", &PathSeen::Symlink(Some("/s/a".to_owned()))));
    assert!(unlinks("/s/a", &PathSeen::Symlink(Some("/s//a/".to_owned()))));
    assert!(!unlinks("/s/a", &PathSeen::Symlink(Some("/s/b".to_owned()))));
    assert!(!unlinks("/s/a", &PathSeen::Directory));
    assert_eq!(unlinked_entry("h", "a"), "h [granular]: unlinked a");
    assert_eq!(
        unlink_granular_done("h", 1, 2),
        "h [granular]: done — 1 unlinked, 2 untouched"
    );
}

fn host() -> HostAgent {
    HostAgent {
        kind: "studio".to_owned(),
        name: "studio-agent".to_owned(),
        label: "Studio".to_owned(),
    }
}

#[test]
fn built_in_targets_have_directories() {
    assert_eq!(
        builtin_path(&host(), "/home/u", "codex").as_deref(),
        Some("/home/u/.codex/skills")
    );
    assert_eq!(
        builtin_path(&host(), "/home/u", "studio").as_deref(),
        Some("/home/u/.studio/skills")
    );
    assert_eq!(builtin_path(&host(), "/home/u", "odd"), None);
    let paths = builtin_paths_in(&host(), "/home/u");
    assert_eq!(paths[0], ("studio".to_owned(), "/home/u/.studio/skills".to_owned()));
    assert_eq!(paths.len(), 5);
    assert_eq!(builtin_paths(&host()).len(), 5);
    assert!(builtin_paths(&host())[1].1.ends_with(".codex/skills"));
}

#[test]
fn targets_are_added_once_and_removed() {
    let mut cfg = Config { source: None, targets: vec![] };
    assert_eq!(
        cmd_add(&mut cfg, &host(), "mine", Some("/x/skills"), LinkMode::Granular).unwrap(),
        "added target 'mine' [granular] → /x/skills"
    );
    assert_eq!(
        cmd_add(&mut cfg, &host(), "mine", Some("/y"), LinkMode::Folder).unwrap_err().message(),
        "target 'mine' already exists"
    );
    assert_eq!(
        cmd_add(&mut cfg, &host(), "odd", None, LinkMode::Folder).unwrap_err().message(),
        "unknown type 'odd' — provide a path or use a built-in: studio, codex, opencode, openclaw, hermes"
    );
    assert!(cmd_add(&mut cfg, &host(), "codex", None, LinkMode::Folder).is_ok());
    assert!(cfg.targets[1].path.ends_with(".codex/skills"));
    assert!(cmd_add(&mut cfg, &host(), "home", Some("~/skills"), LinkMode::Folder).is_ok());
    assert!(cfg.targets[2].path.ends_with("/skills"));
    if dirs::home_dir().is_some() {
        assert!(!cfg.targets[2].path.starts_with('~'));
        assert!(cfg.targets[1].path.starts_with('/'));
    }
    assert_eq!(
        add_target(&mut cfg, &host(), "odd", &None, LinkMode::Folder).unwrap_err().message(),
        "unknown type 'odd' — provide a path or use a built-in: studio, codex, opencode, openclaw, hermes"
    );
    assert_eq!(cmd_remove(&mut cfg, "mine").unwrap(), "removed target 'mine'");
    assert_eq!(cmd_remove(&mut cfg, "mine").unwrap_err().message(), "target 'mine' not found");
    assert_eq!(cfg.targets.len(), 2);
}

#[test]
fn targets_have_a_status() {
    let none: Result<Vec<EntrySeen>, String> = Ok(vec![]);
    let linked = PathSeen::Symlink(Some("/skills".to_owned()));
    assert!(link_status(LinkMode::Folder, &linked, Some("/skills"), &none).contains("linked"));
    assert_eq!(
        link_status(LinkMode::Granular, &PathSeen::Directory, Some("/skills"), &none),
        "granular 0/0 linked"
    );
    assert_eq!(
        link_status(LinkMode::Granular, &PathSeen::Missing, None, &none),
        "source not set"
    );
    let entries = Ok(vec![
        EntrySeen {
            name: "a".to_owned(),
            source: "/skills/a".to_owned(),
            seen: PathSeen::Symlink(Some("/skills/a".to_owned())),
        },
        EntrySeen {
            name: "b".to_owned(),
            source: "/skills/b".to_owned(),
            seen: PathSeen::Missing,
        },
        EntrySeen {
            name: "c".to_owned(),
            source: "/skills/c".to_owned(),
            seen: PathSeen::Directory,
        },
    ]);
    assert_eq!(
        link_status(LinkMode::Granular, &PathSeen::Directory, Some("/skills"), &entries),
        "granular 1/3 linked, 1 conflict, 1 missing"
    );
    let cfg = config();
    let lines = cmd_list(&cfg, &vec!["linked".to_owned(), "not linked".to_owned()]);
    assert_eq!(lines.len(), 2);
    assert!(lines[0].contains("codex"));
    assert!(lines[1].contains("not linked"));
    let empty = Config { source: None, targets: vec![] };
    assert_eq!(cmd_list(&empty, &vec![]), vec!["no targets configured"]);
}

#[test]
fn sources_are_directories_that_hold_skills() {
    let leaf = |skill_file| SkillTree { skill_file, children: vec![] };
    assert!(contains_skill_markdown(&SkillTree {
        skill_file: false,
        children: vec![leaf(false), leaf(true)],
    }));
    assert!(!contains_skill_markdown(&SkillTree {
        skill_file: false,
        children: vec![leaf(false)],
    }));
    let entries = vec![
        SourceEntry { name: "b".to_owned(), tree: Some(leaf(true)) },
        SourceEntry { name: "notes.txt".to_owned(), tree: None },
        SourceEntry { name: "a".to_owned(), tree: Some(leaf(true)) },
        SourceEntry { name: "empty".to_owned(), tree: Some(leaf(false)) },
    ];
    assert_eq!(skill_entries(&entries), vec!["a", "b"]);
}

#[test]
fn modes_and_paths_are_read() {
    assert_eq!(LinkMode::parse("folder").unwrap(), LinkMode::Folder);
    assert_eq!(LinkMode::parse("granular").unwrap().label(), "granular");
    assert_eq!(LinkMode::parse("odd").unwrap_err().message(), "invalid link mode: odd");
    assert_eq!(
        Config::path_in(&Some("/home/u".to_owned())).unwrap(),
        "/home/u/.config/skiller/config.json"
    );
    assert_eq!(Config::path_in(&None).unwrap_err().message(), "cannot find home dir");
    match Config::path() {
        Ok(path) => assert!(path.ends_with("/.config/skiller/config.json")),
        Err(f) => assert_eq!(f.message(), "cannot find home dir"),
    }
    assert_eq!(config().source_dir().unwrap(), "/skills");
}
