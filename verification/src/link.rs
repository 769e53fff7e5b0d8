//! Linking targets to the source: what each step does by what was found, and what it says.

use vstd::prelude::*;
use crate::config::{link_mode_text, Config, LinkMode, Target};
use crate::failure::Failure;
use crate::name_map::NameSet;
use crate::paths::{paths_match, same_path};
use crate::targets::PathSeen;
use crate::text::{cat2, cat3, cat4, cat5, decimal, decimal_of, same, trim, trimmed, views, Text};

verus! {

/// What stands at the place of a link.
#[derive(Debug, PartialEq, Eq)]
pub enum LinkSeen {
    Missing,
    /// A symlink to a path.
    Symlink(String),
    Directory,
    Other,
}

/// A line about a target in one of the two modes.
pub open spec fn about(label: Text, mode: LinkMode, text: Text) -> Text {
    label + " ["@ + link_mode_text(mode) + "]: "@ + text
}

fn say(label: &str, mode: LinkMode, text: &str) -> (r: String)
    ensures
        r@ == about(label@, mode, text@),
{
    cat5(label, " [", mode.label(), "]: ", text)
}

// Choosing targets.

/// The positions among the first `n` targets that are meant: those of a kind, or all.
pub open spec fn meant(targets: Seq<Target>, kind: Option<Text>, n: int) -> Seq<usize>
    decreases n,
{
    if n <= 0 {
        Seq::empty()
    } else {
        let front = meant(targets, kind, n - 1);
        if kind is None || targets[n - 1].kind@ == kind->Some_0 {
            front.push((n - 1) as usize)
        } else {
            front
        }
    }
}

fn matching(targets: &Vec<Target>, kind: Option<&str>) -> (r: Vec<usize>)
    ensures
        r@ == meant(
            targets@,
            match kind {
                Some(k) => Some(k@),
                None => None,
            },
            targets@.len() as int,
        ),
{
    let ghost wanted = match kind {
        Some(k) => Some(k@),
        None => None,
    };
    let mut out: Vec<usize> = Vec::new();
    let mut i: usize = 0;
    while i < targets.len()
        invariant
            i <= targets@.len(),
            wanted == (match kind {
                Some(k) => Some(k@),
                None => None,
            }),
            out@ == meant(targets@, wanted, i as int),
        decreases targets@.len() - i,
    {
        let taken = match kind {
            Some(k) => same(targets[i].kind.as_str(), k),
            None => true,
        };
        if taken {
            out.push(i);
        }
        i = i + 1;
    }
    out
}

/// The targets that are to be linked: their positions.
pub fn cmd_link(cfg: &Config, kind: Option<&str>) -> (r: Result<Vec<usize>, Failure>)
    ensures
        ({
            let list = meant(
                cfg.targets@,
                match kind {
                    Some(k) => Some(k@),
                    None => None,
                },
                cfg.targets@.len() as int,
            );
            match r {
                Ok(found) => cfg.source is Some && list.len() > 0 && found@ == list,
                Err(f) => if cfg.source is None {
                    f@ == "source not configured — run: skiller source <path>"@
                } else {
                    list.len() == 0 && f@ == "no matching target(s)"@
                },
            }
        }),
{
    match cfg.source_dir() {
        Ok(_) => {},
        Err(f) => return Err(f),
    }
    let found = matching(&cfg.targets, kind);
    if found.len() == 0 {
        return Err(Failure::new(String::from_str("no matching target(s)")));
    }
    Ok(found)
}

/// The targets that are to be unlinked: their positions.
pub fn cmd_unlink(cfg: &Config, kind: Option<&str>) -> (r: Result<Vec<usize>, Failure>)
    ensures
        ({
            let list = meant(
                cfg.targets@,
                match kind {
                    Some(k) => Some(k@),
                    None => None,
                },
                cfg.targets@.len() as int,
            );
            match r {
                Ok(found) => list.len() > 0 && found@ == list,
                Err(f) => list.len() == 0 && f@ == "no matching target(s)"@,
            }
        }),
{
    let found = matching(&cfg.targets, kind);
    if found.len() == 0 {
        return Err(Failure::new(String::from_str("no matching target(s)")));
    }
    Ok(found)
}

// Folder links.

/// What linking a folder comes to.
#[derive(Debug, Clone, Copy, PartialEq, Eq, Structural)]
pub enum FolderStep {
    /// Make the link.
    Link,
    /// The link is there.
    Keep,
    /// Ask what to do about another symlink.
    AskSymlink,
    /// Ask what to do about a real directory.
    AskDirectory,
}

pub open spec fn folder_step(source: Text, seen: LinkSeen) -> FolderStep {
    match seen {
        LinkSeen::Missing => FolderStep::Link,
        LinkSeen::Symlink(dest) => if same_path(dest@, source) {
            FolderStep::Keep
        } else {
            FolderStep::AskSymlink
        },
        _ => FolderStep::AskDirectory,
    }
}

pub open spec fn folder_warning(label: Text) -> Text {
    "warning: "@ + label
        + " [folder] mode is not reversible — unlink only removes the symlink and will not restore any prior target contents"@
}

/// What is said before a folder is linked.
pub open spec fn folder_lines(source: Text, target: Text, label: Text, seen: LinkSeen) -> Seq<Text> {
    let first = seq![folder_warning(label)];
    match seen {
        LinkSeen::Missing => first,
        LinkSeen::Symlink(dest) => if same_path(dest@, source) {
            first.push(about(label, LinkMode::Folder, "already linked — skipping"@))
        } else {
            first.push(
                about(label, LinkMode::Folder, "conflict — symlink points to "@ + dest@),
            )
        },
        _ => first.push(
            about(label, LinkMode::Folder, "conflict — real directory at "@ + target),
        ),
    }
}

/// Decides what linking a folder comes to.
pub fn link_folder(source: &str, target: &str, label: &str, seen: &LinkSeen) -> (r: (FolderStep, Vec<String>))
    ensures
        r.0 == folder_step(source@, *seen),
        views(r.1@) == folder_lines(source@, target@, label@, *seen),
{
    let mut lines: Vec<String> = Vec::new();
    lines.push(
        cat3(
            "warning: ",
            label,
            " [folder] mode is not reversible — unlink only removes the symlink and will not restore any prior target contents",
        ),
    );
    let step = match seen {
        LinkSeen::Missing => FolderStep::Link,
        LinkSeen::Symlink(dest) => if paths_match(dest.as_str(), source) {
            lines.push(say(label, LinkMode::Folder, "already linked — skipping"));
            FolderStep::Keep
        } else {
            lines.push(
                say(
                    label,
                    LinkMode::Folder,
                    cat2("conflict — symlink points to ", dest.as_str()).as_str(),
                ),
            );
            FolderStep::AskSymlink
        },
        _ => {
            lines.push(
                say(
                    label,
                    LinkMode::Folder,
                    cat2("conflict — real directory at ", target).as_str(),
                ),
            );
            FolderStep::AskDirectory
        },
    };
    assert(views(lines@) =~= folder_lines(source@, target@, label@, *seen));
    (step, lines)
}

#[derive(Debug, Clone, Copy, PartialEq, Eq, Structural)]
pub enum ConflictChoice {
    Overwrite,
    Migrate,
    Skip,
}

/// Reads the answer about a folder conflict; an unknown one is asked for again.
pub fn parse_folder_choice(answer: &str) -> (r: Option<ConflictChoice>)
    ensures
        r == ({
            let a = trim(answer@);
            if a == "o"@ || a == "O"@ {
                Some(ConflictChoice::Overwrite)
            } else if a == "m"@ || a == "M"@ {
                Some(ConflictChoice::Migrate)
            } else if a == "s"@ || a == "S"@ {
                Some(ConflictChoice::Skip)
            } else {
                None
            }
        }),
{
    let bare = trimmed(answer);
    let a = bare.as_str();
    if same(a, "o") || same(a, "O") {
        Some(ConflictChoice::Overwrite)
    } else if same(a, "m") || same(a, "M") {
        Some(ConflictChoice::Migrate)
    } else if same(a, "s") || same(a, "S") {
        Some(ConflictChoice::Skip)
    } else {
        None
    }
}

/// What is done about a folder.
#[derive(Debug, Clone, Copy, PartialEq, Eq, Structural)]
pub enum FolderAction {
    Link,
    /// Remove the symlink, then link.
    Relink,
    /// Remove the directory, then link.
    Overwrite,
    /// Move the entries into the source, then link.
    Migrate,
    Skip,
}

/// What a choice means for a conflict.
pub open spec fn folder_action(step: FolderStep, choice: ConflictChoice) -> Result<FolderAction, Text> {
    match choice {
        ConflictChoice::Skip => Ok(FolderAction::Skip),
        ConflictChoice::Overwrite => Ok(
            if step == FolderStep::AskSymlink {
                FolderAction::Relink
            } else {
                FolderAction::Overwrite
            },
        ),
        ConflictChoice::Migrate => if step == FolderStep::AskSymlink {
            Err("migrate not applicable for existing symlinks"@)
        } else {
            Ok(FolderAction::Migrate)
        },
    }
}

pub fn settle_folder(step: FolderStep, choice: ConflictChoice) -> (r: Result<FolderAction, Failure>)
    ensures
        match r {
            Ok(action) => folder_action(step, choice) == Ok::<FolderAction, Text>(action),
            Err(f) => folder_action(step, choice) == Err::<FolderAction, Text>(f@),
        },
{
    match choice {
        ConflictChoice::Skip => Ok(FolderAction::Skip),
        ConflictChoice::Overwrite => Ok(
            if step == FolderStep::AskSymlink {
                FolderAction::Relink
            } else {
                FolderAction::Overwrite
            },
        ),
        ConflictChoice::Migrate => if step == FolderStep::AskSymlink {
            Err(
                Failure::new(
                    String::from_str("migrate not applicable for existing symlinks"),
                ),
            )
        } else {
            Ok(FolderAction::Migrate)
        },
    }
}

pub open spec fn folder_done_text(action: FolderAction, label: Text, source: Text) -> Text {
    about(
        label,
        LinkMode::Folder,
        match action {
            FolderAction::Link => "linked → "@ + source,
            FolderAction::Relink => "relinked → "@ + source,
            FolderAction::Overwrite => "overwritten → "@ + source,
            FolderAction::Migrate => "migrated + linked → "@ + source,
            FolderAction::Skip => "skipped"@,
        },
    )
}

/// What is said once a folder is done.
pub fn folder_done(action: FolderAction, label: &str, source: &str) -> (r: String)
    ensures
        r@ == folder_done_text(action, label@, source@),
{
    let text = match action {
        FolderAction::Link => cat2("linked → ", source),
        FolderAction::Relink => cat2("relinked → ", source),
        FolderAction::Overwrite => cat2("overwritten → ", source),
        FolderAction::Migrate => cat2("migrated + linked → ", source),
        FolderAction::Skip => String::from_str("skipped"),
    };
    say(label, LinkMode::Folder, text.as_str())
}

/// Which entries of a directory move into the source: those whose name it does not have.
pub fn migrates(existing: &NameSet, name: &str) -> (r: (bool, String))
    ensures
        r.0 == !existing@.contains(name@),
        r.1@ == (if existing@.contains(name@) {
            "  skip (duplicate): "@ + name@
        } else {
            "  migrated: "@ + name@
        }),
{
    if existing.contains(name) {
        (false, cat2("  skip (duplicate): ", name))
    } else {
        (true, cat2("  migrated: ", name))
    }
}

// Granular links.

/// What is done about the root of a granular target.
#[derive(Debug, PartialEq, Eq)]
pub enum RootStep {
    Create,
    Proceed,
    /// Ask about the symlink that stands there; the line says what it is.
    Ask(String),
}

pub fn ensure_granular_target_dir(target: &str, label: &str, seen: &LinkSeen) -> (r: Result<RootStep, Failure>)
    ensures
        match seen {
            LinkSeen::Missing => r == Ok::<RootStep, Failure>(RootStep::Create),
            LinkSeen::Directory => r == Ok::<RootStep, Failure>(RootStep::Proceed),
            LinkSeen::Symlink(dest) => r matches Ok(RootStep::Ask(line)) && line@ == about(
                label@,
                LinkMode::Granular,
                "conflict — target root is a symlink to "@ + dest@,
            ),
            LinkSeen::Other => r matches Err(f) && f@ == about(
                label@,
                LinkMode::Granular,
                "target root is not a directory: "@ + target@,
            ),
        },
{
    match seen {
        LinkSeen::Missing => Ok(RootStep::Create),
        LinkSeen::Directory => Ok(RootStep::Proceed),
        LinkSeen::Symlink(dest) => Ok(
            RootStep::Ask(
                say(
                    label,
                    LinkMode::Granular,
                    cat2("conflict — target root is a symlink to ", dest.as_str()).as_str(),
                ),
            ),
        ),
        LinkSeen::Other => Err(
            Failure::new(
                say(
                    label,
                    LinkMode::Granular,
                    cat2("target root is not a directory: ", target).as_str(),
                ),
            ),
        ),
    }
}

/// Reads the answer about a granular conflict: whether to overwrite; an unknown one is asked
/// for again.
pub fn parse_entry_choice(answer: &str) -> (r: Option<bool>)
    ensures
        r == ({
            let a = trim(answer@);
            if a == "o"@ || a == "O"@ {
                Some(true)
            } else if a == "s"@ || a == "S"@ {
                Some(false)
            } else {
                None
            }
        }),
{
    let bare = trimmed(answer);
    let a = bare.as_str();
    if same(a, "o") || same(a, "O") {
        Some(true)
    } else if same(a, "s") || same(a, "S") {
        Some(false)
    } else {
        None
    }
}

/// What is said once the question about the root is answered.
pub fn root_done(overwrite: bool, label: &str) -> (r: String)
    ensures
        r@ == about(
            label@,
            LinkMode::Granular,
            if overwrite {
                "replaced root symlink with real directory"@
            } else {
                "skipped"@
            },
        ),
{
    say(
        label,
        LinkMode::Granular,
        if overwrite {
            "replaced root symlink with real directory"
        } else {
            "skipped"
        },
    )
}

/// What linking one skill comes to.
#[derive(Debug, Clone, Copy, PartialEq, Eq, Structural)]
pub enum EntryStep {
    Link,
    Keep,
    AskSymlink,
    AskEntry,
}

pub open spec fn entry_step(source: Text, seen: LinkSeen) -> EntryStep {
    match seen {
        LinkSeen::Missing => EntryStep::Link,
        LinkSeen::Symlink(dest) => if same_path(dest@, source) {
            EntryStep::Keep
        } else {
            EntryStep::AskSymlink
        },
        _ => EntryStep::AskEntry,
    }
}

/// What is said of one skill: after it was linked, or before the question.
pub open spec fn entry_text(source: Text, target: Text, name: Text, seen: LinkSeen) -> Text {
    match seen {
        LinkSeen::Missing => "linked "@ + name,
        LinkSeen::Symlink(dest) => if same_path(dest@, source) {
            "already linked "@ + name
        } else {
            "conflict — "@ + name + " points to "@ + dest@
        },
        _ => "conflict — real entry exists at "@ + target,
    }
}

pub fn link_granular_entry(source: &str, target: &str, name: &str, label: &str, seen: &LinkSeen) -> (r: (
    EntryStep,
    String,
))
    ensures
        r.0 == entry_step(source@, *seen),
        r.1@ == about(label@, LinkMode::Granular, entry_text(source@, target@, name@, *seen)),
{
    match seen {
        LinkSeen::Missing => (
            EntryStep::Link,
            say(label, LinkMode::Granular, cat2("linked ", name).as_str()),
        ),
        LinkSeen::Symlink(dest) => if paths_match(dest.as_str(), source) {
            (
                EntryStep::Keep,
                say(label, LinkMode::Granular, cat2("already linked ", name).as_str()),
            )
        } else {
            (
                EntryStep::AskSymlink,
                say(
                    label,
                    LinkMode::Granular,
                    cat4("conflict — ", name, " points to ", dest.as_str()).as_str(),
                ),
            )
        },
        _ => (
            EntryStep::AskEntry,
            say(
                label,
                LinkMode::Granular,
                cat2("conflict — real entry exists at ", target).as_str(),
            ),
        ),
    }
}

/// What is said once the question about a skill is answered.
pub fn entry_done(step: EntryStep, overwrite: bool, name: &str, label: &str) -> (r: String)
    ensures
        r@ == about(
            label@,
            LinkMode::Granular,
            (if !overwrite {
                "skipped "@
            } else if step == EntryStep::AskSymlink {
                "relinked "@
            } else {
                "overwritten "@
            }) + name@,
        ),
{
    let word = if !overwrite {
        "skipped "
    } else if step == EntryStep::AskSymlink {
        "relinked "
    } else {
        "overwritten "
    };
    say(label, LinkMode::Granular, cat2(word, name).as_str())
}

/// What is said once all skills of a target were linked.
pub fn link_granular(label: &str, entries: usize, linked: usize, skipped: usize) -> (r: String)
    ensures
        r@ == about(
            label@,
            LinkMode::Granular,
            if entries == 0 {
                "no source skills found — nothing to link"@
            } else {
                "done — "@ + decimal(linked as nat) + " linked/already-linked, "@ + decimal(
                    skipped as nat,
                ) + " skipped"@
            },
        ),
{
    if entries == 0 {
        say(label, LinkMode::Granular, "no source skills found — nothing to link")
    } else {
        say(
            label,
            LinkMode::Granular,
            cat5(
                "done — ",
                decimal_of(linked as u64).as_str(),
                " linked/already-linked, ",
                decimal_of(skipped as u64).as_str(),
                " skipped",
            ).as_str(),
        )
    }
}

// Unlinking.

/// Whether a folder link is removed. Anything but a symlink is refused.
pub fn unlink_folder(target: &str, label: &str, seen: &LinkSeen) -> (r: Result<bool, Failure>)
    ensures
        match seen {
            LinkSeen::Missing => r == Ok::<bool, Failure>(false),
            LinkSeen::Symlink(_) => r == Ok::<bool, Failure>(true),
            _ => r matches Err(f) && f@ == about(
                label@,
                LinkMode::Folder,
                target@ + " — not a symlink, refusing to remove"@,
            ),
        },
{
    match seen {
        LinkSeen::Missing => Ok(false),
        LinkSeen::Symlink(_) => Ok(true),
        _ => Err(
            Failure::new(
                say(
                    label,
                    LinkMode::Folder,
                    cat2(target, " — not a symlink, refusing to remove").as_str(),
                ),
            ),
        ),
    }
}

/// What is said before and after a folder is unlinked.
pub fn unlink_folder_lines(label: &str, removed: bool) -> (r: (String, String))
    ensures
        r.0@ == "warning: "@ + label@
            + " [folder] unlink only removes the symlink and will not restore any prior target contents"@,
        r.1@ == about(
            label@,
            LinkMode::Folder,
            if removed {
                "unlinked"@
            } else {
                "not linked — skipping"@
            },
        ),
{
    (
        cat3(
            "warning: ",
            label,
            " [folder] unlink only removes the symlink and will not restore any prior target contents",
        ),
        say(
            label,
            LinkMode::Folder,
            if removed {
                "unlinked"
            } else {
                "not linked — skipping"
            },
        ),
    )
}

/// Whether the skills of a granular target are unlinked, or why not. The line is what is said
/// where there is nothing to do.
pub fn unlink_granular(label: &str, source: Option<&str>, seen: &LinkSeen) -> (r: Result<
    Option<String>,
    Failure,
>)
    ensures
        if source is None {
            r matches Err(f) && f@ == about(label@, LinkMode::Granular, "source not configured"@)
        } else {
            match seen {
                LinkSeen::Missing => r matches Ok(Some(line)) && line@ == about(
                    label@,
                    LinkMode::Granular,
                    "target root missing — nothing to unlink"@,
                ),
                LinkSeen::Symlink(_) => r matches Err(f) && f@ == about(
                    label@,
                    LinkMode::Granular,
                    "target root is a symlink, refusing to remove entire directory"@,
                ),
                LinkSeen::Other => r matches Err(f) && f@ == about(
                    label@,
                    LinkMode::Granular,
                    "target root is not a directory"@,
                ),
                LinkSeen::Directory => r matches Ok(None),
            }
        },
{
    if source.is_none() {
        return Err(Failure::new(say(label, LinkMode::Granular, "source not configured")));
    }
    match seen {
        LinkSeen::Missing => Ok(
            Some(say(label, LinkMode::Granular, "target root missing — nothing to unlink")),
        ),
        LinkSeen::Symlink(_) => Err(
            Failure::new(
                say(
                    label,
                    LinkMode::Granular,
                    "target root is a symlink, refusing to remove entire directory",
                ),
            ),
        ),
        LinkSeen::Other => Err(
            Failure::new(say(label, LinkMode::Granular, "target root is not a directory")),
        ),
        LinkSeen::Directory => Ok(None),
    }
}

/// Whether an entry is unlinked: only a symlink to the very skill is.
pub open spec fn is_unlinked(source: Text, seen: PathSeen) -> bool {
    seen matches PathSeen::Symlink(Some(dest)) && same_path(dest@, source)
}

pub fn unlinks(source: &str, seen: &PathSeen) -> (r: bool)
    ensures
        r == is_unlinked(source@, *seen),
{
    match seen {
        PathSeen::Symlink(Some(dest)) => paths_match(dest.as_str(), source),
        _ => false,
    }
}

/// What is said of an entry that was unlinked, and once all are done.
pub fn unlinked_entry(label: &str, name: &str) -> (r: String)
    ensures
        r@ == about(label@, LinkMode::Granular, "unlinked "@ + name@),
{
    say(label, LinkMode::Granular, cat2("unlinked ", name).as_str())
}

pub fn unlink_granular_done(label: &str, removed: usize, skipped: usize) -> (r: String)
    ensures
        r@ == about(
            label@,
            LinkMode::Granular,
            "done — "@ + decimal(removed as nat) + " unlinked, "@ + decimal(skipped as nat)
                + " untouched"@,
        ),
{
    say(
        label,
        LinkMode::Granular,
        cat5(
            "done — ",
            decimal_of(removed as u64).as_str(),
            " unlinked, ",
            decimal_of(skipped as u64).as_str(),
            " untouched",
        ).as_str(),
    )
}

/// The line of the source in the status.
pub fn cmd_status(cfg: &Config) -> (r: String)
    ensures
        r@ == "source: "@ + match cfg.source {
            Some(s) => s@,
            None => "(not set)"@,
        },
{
    match &cfg.source {
        Some(s) => cat2("source: ", s.as_str()),
        None => cat2("source: ", "(not set)"),
    }
}

/// Linking and unlinking agree on which links are theirs: a second run of linking keeps exactly
/// the links that unlinking removes, and asks about every other symlink.
pub proof fn law_links_are_recognised(source: Text, dest: String)
    ensures
        entry_step(source, LinkSeen::Symlink(dest)) == (if is_unlinked(
            source,
            PathSeen::Symlink(Some(dest)),
        ) {
            EntryStep::Keep
        } else {
            EntryStep::AskSymlink
        }),
        folder_step(source, LinkSeen::Symlink(dest)) == (if is_unlinked(
            source,
            PathSeen::Symlink(Some(dest)),
        ) {
            FolderStep::Keep
        } else {
            FolderStep::AskSymlink
        }),
{
}

} // verus!
