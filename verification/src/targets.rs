//! Link targets: adding and removing them, and how they stand to the source.

use vstd::prelude::*;
use crate::agents::{host_folder, HostAgent, HostView};
use crate::columns::{blanks, spaces};
use crate::config::{link_mode_text, Config, LinkMode, Target};
use crate::config_ui::{insert_ordered, ordered_texts};
use crate::failure::Failure;
use crate::outside::{expand_tilde, home_directory, starts_at_home};
use crate::paths::{join_path, joined_path, paths_match, same_path};
use crate::text::{
    cat2, cat3, cat4, cat5, chars_of, decimal, decimal_of, ends_with, join, joined, opt_view, same,
    views, Text,
};

verus! {

// Built-in targets.

pub open spec fn builtin_kinds(host: HostView) -> Seq<Text> {
    seq![host.kind, "codex"@, "opencode"@, "openclaw"@, "hermes"@]
}

/// The directory of a built-in target below the home directory.
pub open spec fn builtin_relative(host: HostView, kind: Text) -> Option<Text> {
    if kind == "codex"@ {
        Some(".codex/skills"@)
    } else if kind == "opencode"@ {
        Some(".config/opencode/skills"@)
    } else if kind == "openclaw"@ {
        Some(".openclaw/skills"@)
    } else if kind == "hermes"@ {
        Some(".hermes/skills/common"@)
    } else if kind == host.kind {
        Some(host_folder(host))
    } else {
        None
    }
}

pub open spec fn builtin_path_of(host: HostView, home: Text, kind: Text) -> Option<Text> {
    match builtin_relative(host, kind) {
        Some(p) => Some(joined_path(home, p)),
        None => None,
    }
}

/// The directory of a built-in target.
pub fn builtin_path(host: &HostAgent, home: &str, kind: &str) -> (r: Option<String>)
    ensures
        opt_view(r) == builtin_path_of(host@, home@, kind@),
{
    if same(kind, "codex") {
        Some(join_path(home, ".codex/skills"))
    } else if same(kind, "opencode") {
        Some(join_path(home, ".config/opencode/skills"))
    } else if same(kind, "openclaw") {
        Some(join_path(home, ".openclaw/skills"))
    } else if same(kind, "hermes") {
        Some(join_path(home, ".hermes/skills/common"))
    } else if same(kind, host.kind.as_str()) {
        Some(join_path(home, host.folder().as_str()))
    } else {
        None
    }
}

/// `paths` are the built-in targets below a home directory.
pub open spec fn are_builtins(host: HostView, paths: Seq<(String, String)>, home: Text) -> bool {
    paths.len() == builtin_kinds(host).len() && forall|i: int|
        0 <= i < paths.len() ==> (#[trigger] paths[i]).0@ == builtin_kinds(host)[i] && Some(paths[i].1@)
            == builtin_path_of(host, home, paths[i].0@)
}

/// The built-in targets below a home directory.
pub fn builtin_paths_in(host: &HostAgent, home: &str) -> (r: Vec<(String, String)>)
    ensures
        are_builtins(host@, r@, home@),
{
    let mut out: Vec<(String, String)> = Vec::new();
    proof {
        reveal_strlit("codex");
        reveal_strlit("opencode");
        reveal_strlit("openclaw");
        reveal_strlit("hermes");
        assert("codex"@.len() == 5 && "hermes"@.len() == 6);
        assert("opencode"@.len() == 8 && "openclaw"@.len() == 8);
        assert("opencode"@[5] == 'o' && "openclaw"@[5] == 'l');
    }
    match builtin_path(host, home, host.kind.as_str()) {
        Some(path) => out.push((host.kind.clone(), path)),
        None => {},
    }
    out.push((String::from_str("codex"), join_path(home, ".codex/skills")));
    out.push((String::from_str("opencode"), join_path(home, ".config/opencode/skills")));
    out.push((String::from_str("openclaw"), join_path(home, ".openclaw/skills")));
    out.push((String::from_str("hermes"), join_path(home, ".hermes/skills/common")));
    out
}

/// The built-in targets. The home directory that they stand below depends on the environment.
pub fn builtin_paths(host: &HostAgent) -> (r: Vec<(String, String)>)
    ensures
        exists|home: Text| #[trigger] are_builtins(host@, r@, home),
{
    let home = match home_directory() {
        Some(home) => home,
        None => String::new(),
    };
    builtin_paths_in(host, home.as_str())
}

// Adding and removing.

pub open spec fn has_kind(targets: Seq<Target>, kind: Text) -> bool {
    exists|i: int| 0 <= i < targets.len() && (#[trigger] targets[i]).kind@ == kind
}

fn kind_exists(targets: &Vec<Target>, kind: &str) -> (r: bool)
    ensures
        r == has_kind(targets@, kind@),
{
    let mut i: usize = 0;
    while i < targets.len()
        invariant
            i <= targets@.len(),
            forall|j: int| 0 <= j < i ==> (#[trigger] targets@[j]).kind@ != kind@,
        decreases targets@.len() - i,
    {
        if same(targets[i].kind.as_str(), kind) {
            return true;
        }
        i = i + 1;
    }
    false
}

/// Why a target is not added, by the directory that was found for it.
pub open spec fn add_refusal(host: HostView, targets: Seq<Target>, kind: Text, resolved: Option<Text>) -> Option<Text> {
    if has_kind(targets, kind) {
        Some("target '"@ + kind + "' already exists"@)
    } else if resolved is None {
        Some(
            "unknown type '"@ + kind + "' — provide a path or use a built-in: "@ + join(
                builtin_kinds(host),
                ", "@,
            ),
        )
    } else {
        None
    }
}

pub open spec fn added_text(kind: Text, mode: LinkMode, path: Text) -> Text {
    "added target '"@ + kind + "' ["@ + link_mode_text(mode) + "] → "@ + path
}

/// Adds a target whose directory is known. The result is the sentence that reports it.
pub fn add_target(cfg: &mut Config, host: &HostAgent, kind: &str, resolved: &Option<String>, mode: LinkMode) -> (r: Result<
    String,
    Failure,
>)
    ensures
        final(cfg).source == old(cfg).source,
        match add_refusal(host@, old(cfg).targets@, kind@, opt_view(*resolved)) {
            Some(why) => r matches Err(f) && f@ == why && final(cfg).targets@ == old(cfg).targets@,
            None => {
                &&& r matches Ok(report) && report@ == added_text(kind@, mode, resolved->Some_0@)
                &&& final(cfg).targets@.len() == old(cfg).targets@.len() + 1
                &&& final(cfg).targets@.drop_last() == old(cfg).targets@
                &&& final(cfg).targets@.last().kind@ == kind@
                &&& final(cfg).targets@.last().path@ == resolved->Some_0@
                &&& final(cfg).targets@.last().mode == mode
            },
        },
{
    if kind_exists(&cfg.targets, kind) {
        return Err(Failure::new(cat3("target '", kind, "' already exists")));
    }
    let path = match resolved {
        Some(path) => path.clone(),
        None => {
            let mut kinds: Vec<String> = Vec::new();
            kinds.push(host.kind.clone());
            kinds.push(String::from_str("codex"));
            kinds.push(String::from_str("opencode"));
            kinds.push(String::from_str("openclaw"));
            kinds.push(String::from_str("hermes"));
            assert(views(kinds@) =~= builtin_kinds(host@));
            return Err(
                Failure::new(
                    cat4(
                        "unknown type '",
                        kind,
                        "' — provide a path or use a built-in: ",
                        joined(&kinds, ", ").as_str(),
                    ),
                ),
            );
        },
    };
    let report = {
        let mut text = cat5("added target '", kind, "' [", mode.label(), "] → ");
        text.append(path.as_str());
        text
    };
    let ghost before = cfg.targets@;
    cfg.targets.push(Target { kind: kind.to_owned(), path, mode });
    assert(cfg.targets@.drop_last() =~= before);
    Ok(report)
}

/// A directory that may be meant by what was given: what was given with its `~` expanded, or
/// the built-in one below some home directory.
pub open spec fn may_resolve(host: HostView, kind: Text, path: Option<Text>, resolved: Option<Text>) -> bool {
    match path {
        Some(p) => resolved is Some && (!starts_at_home(p) ==> resolved->Some_0 == p) && (
        starts_at_home(p) ==> resolved->Some_0 == p || ends_with(resolved->Some_0, p.skip(1))),
        None => exists|home: Text| resolved == #[trigger] builtin_path_of(host, home, kind),
    }
}

/// Adds a target at a given or built-in directory. The directory may depend on the
/// environment, through the home directory.
pub fn cmd_add(cfg: &mut Config, host: &HostAgent, kind: &str, path: Option<&str>, mode: LinkMode) -> (r: Result<String, Failure>)
    ensures
        final(cfg).source == old(cfg).source,
        has_kind(old(cfg).targets@, kind@) ==> r is Err && final(cfg).targets@ == old(cfg).targets@,
        !has_kind(old(cfg).targets@, kind@) && (path is Some || builtin_relative(host@, kind@) is Some)
            ==> r is Ok,
        exists|resolved: Option<Text>|
            #![trigger add_refusal(host@, old(cfg).targets@, kind@, resolved)]
            may_resolve(
                host@,
                kind@,
                match path {
                    Some(p) => Some(p@),
                    None => None,
                },
                resolved,
            ) && match add_refusal(host@, old(cfg).targets@, kind@, resolved) {
                Some(why) => r matches Err(f) && f@ == why && final(cfg).targets@
                    == old(cfg).targets@,
                None => {
                    &&& r matches Ok(report) && report@ == added_text(
                        kind@,
                        mode,
                        resolved->Some_0,
                    )
                    &&& final(cfg).targets@.len() == old(cfg).targets@.len() + 1
                    &&& final(cfg).targets@.drop_last() == old(cfg).targets@
                    &&& final(cfg).targets@.last().kind@ == kind@
                    &&& final(cfg).targets@.last().path@ == resolved->Some_0
                    &&& final(cfg).targets@.last().mode == mode
                },
            },
{
    let resolved = match path {
        Some(p) => Some(expand_tilde(p)),
        None => {
            let home = match home_directory() {
                Some(home) => home,
                None => String::new(),
            };
            let found = builtin_path(host, home.as_str(), kind);
            assert(opt_view(found) == builtin_path_of(host@, home@, kind@));
            found
        },
    };
    let ghost text = opt_view(resolved);
    let r = add_target(cfg, host, kind, &resolved, mode);
    assert(may_resolve(
        host@,
        kind@,
        match path {
            Some(p) => Some(p@),
            None => None,
        },
        text,
    ));
    assert(add_refusal(host@, old(cfg).targets@, kind@, text) is Some ==> r is Err);
    r
}

/// The targets of other kinds.
pub open spec fn other_kinds(targets: Seq<Target>, kind: Text) -> Seq<Target>
    decreases targets.len(),
{
    if targets.len() == 0 {
        Seq::empty()
    } else {
        let front = other_kinds(targets.drop_last(), kind);
        if targets.last().kind@ == kind {
            front
        } else {
            front.push(targets.last())
        }
    }
}

proof fn lemma_other_kinds(targets: Seq<Target>, kind: Text)
    ensures
        other_kinds(targets, kind).len() <= targets.len(),
        other_kinds(targets, kind).len() == targets.len() <==> !has_kind(targets, kind),
    decreases targets.len(),
{
    if targets.len() > 0 {
        let front = targets.drop_last();
        lemma_other_kinds(front, kind);
        if has_kind(front, kind) {
            let i = choose|i: int| 0 <= i < front.len() && (#[trigger] front[i]).kind@ == kind;
            assert(targets[i].kind@ == kind);
        }
        if targets.last().kind@ == kind {
            assert(targets[targets.len() - 1].kind@ == kind);
        }
        if has_kind(targets, kind) && targets.last().kind@ != kind {
            let i = choose|i: int| 0 <= i < targets.len() && (#[trigger] targets[i]).kind@ == kind;
            assert(front[i].kind@ == kind);
        }
    }
}

/// Removes the targets of a kind. The result is the sentence that reports it.
pub fn cmd_remove(cfg: &mut Config, kind: &str) -> (r: Result<String, Failure>)
    ensures
        final(cfg).source == old(cfg).source,
        final(cfg).targets@ == other_kinds(old(cfg).targets@, kind@),
        match r {
            Ok(report) => has_kind(old(cfg).targets@, kind@) && report@ == "removed target '"@
                + kind@ + "'"@,
            Err(f) => !has_kind(old(cfg).targets@, kind@) && f@ == "target '"@ + kind@
                + "' not found"@,
        },
{
    let ghost all = cfg.targets@;
    let mut kept: Vec<Target> = Vec::new();
    let mut i: usize = 0;
    while i < cfg.targets.len()
        invariant
            i <= cfg.targets@.len(),
            cfg.targets@ == all,
            kept@ == other_kinds(all.take(i as int), kind@),
        decreases cfg.targets@.len() - i,
    {
        if !same(cfg.targets[i].kind.as_str(), kind) {
            kept.push(cfg.targets[i].clone());
        }
        i = i + 1;
        assert(all.take(i as int).drop_last() =~= all.take(i - 1));
    }
    proof {
        assert(all.take(i as int) =~= all);
        lemma_other_kinds(all, kind@);
    }
    let gone = kept.len() < cfg.targets.len();
    cfg.targets = kept;
    if !gone {
        return Err(Failure::new(cat3("target '", kind, "' not found")));
    }
    Ok(cat3("removed target '", kind, "'"))
}

// Status.

/// What stands at a path.
#[derive(Debug, PartialEq, Eq)]
pub enum PathSeen {
    Missing,
    /// A symlink, and where it points to if that could be read.
    Symlink(Option<String>),
    Directory,
    Other,
}

pub open spec fn points_to(dest: Option<String>, path: Text) -> bool {
    dest is Some && same_path(dest->Some_0@, path)
}

pub fn leads_to(dest: &Option<String>, path: &str) -> (r: bool)
    ensures
        r == points_to(*dest, path@),
{
    match dest {
        Some(d) => paths_match(d.as_str(), path),
        None => false,
    }
}

pub open spec fn folder_status(seen: PathSeen, source: Option<Text>) -> Text {
    match seen {
        PathSeen::Missing => "not linked"@,
        PathSeen::Symlink(dest) => if dest is Some && source is Some {
            if points_to(dest, source->Some_0) {
                "linked"@
            } else {
                "conflict (wrong link)"@
            }
        } else {
            "linked (unknown source)"@
        },
        _ => "conflict (real dir)"@,
    }
}

/// What was observed of the entry for one source skill.
#[derive(Debug, PartialEq, Eq)]
pub struct EntrySeen {
    pub name: String,
    /// The path of the skill in the source.
    pub source: String,
    /// What stands in the target under its name.
    pub seen: PathSeen,
}

/// How many of the first `n` entries link to their skill, and how many are missing.
pub open spec fn linked_count(entries: Seq<EntrySeen>, n: int) -> nat
    decreases n,
{
    if n <= 0 {
        0
    } else {
        linked_count(entries, n - 1) + if entries[n - 1].seen is Symlink && points_to(
            entries[n - 1].seen->Symlink_0,
            entries[n - 1].source@,
        ) {
            1nat
        } else {
            0nat
        }
    }
}

pub open spec fn missing_count(entries: Seq<EntrySeen>, n: int) -> nat
    decreases n,
{
    if n <= 0 {
        0
    } else {
        missing_count(entries, n - 1) + if entries[n - 1].seen is Missing {
            1nat
        } else {
            0nat
        }
    }
}

pub open spec fn granular_status(
    seen: PathSeen,
    source: Option<Text>,
    entries: Result<Vec<EntrySeen>, String>,
) -> Text {
    if source is None {
        "source not set"@
    } else {
        match seen {
            PathSeen::Missing => "not linked"@,
            PathSeen::Symlink(_) => "conflict (target is symlink; expected dir)"@,
            PathSeen::Other => "conflict (target is not a dir)"@,
            PathSeen::Directory => match entries {
                Err(e) => "error reading source: "@ + e@,
                Ok(list) => {
                    let n = list@.len() as int;
                    if n == 0 {
                        "granular 0/0 linked"@
                    } else {
                        "granular "@ + decimal(linked_count(list@, n)) + "/"@ + decimal(n as nat)
                            + " linked, "@ + decimal(
                            (n - linked_count(list@, n) - missing_count(list@, n)) as nat,
                        ) + " conflict, "@ + decimal(missing_count(list@, n)) + " missing"@
                    }
                },
            },
        }
    }
}

/// How a target stands to the source. `entries` holds what was observed of the source skills,
/// or why the source could not be read.
pub fn link_status(
    mode: LinkMode,
    seen: &PathSeen,
    source: Option<&str>,
    entries: &Result<Vec<EntrySeen>, String>,
) -> (r: String)
    ensures
        ({
            let s = match source {
                Some(t) => Some(t@),
                None => None,
            };
            r@ == match mode {
                LinkMode::Folder => folder_status(*seen, s),
                LinkMode::Granular => granular_status(*seen, s, *entries),
            }
        }),
{
    match mode {
        LinkMode::Folder => {
            let text = match seen {
                PathSeen::Missing => "not linked",
                PathSeen::Symlink(dest) => match (dest, source) {
                    (Some(_), Some(path)) => if leads_to(dest, path) {
                        "linked"
                    } else {
                        "conflict (wrong link)"
                    },
                    _ => "linked (unknown source)",
                },
                _ => "conflict (real dir)",
            };
            text.to_owned()
        },
        LinkMode::Granular => {
            if source.is_none() {
                return String::from_str("source not set");
            }
            match seen {
                PathSeen::Missing => String::from_str("not linked"),
                PathSeen::Symlink(_) => String::from_str(
                    "conflict (target is symlink; expected dir)",
                ),
                PathSeen::Other => String::from_str("conflict (target is not a dir)"),
                PathSeen::Directory => match entries {
                    Err(e) => cat2("error reading source: ", e.as_str()),
                    Ok(list) => count_entries(list),
                },
            }
        },
    }
}

fn count_entries(list: &Vec<EntrySeen>) -> (r: String)
    ensures
        r@ == granular_status(
            PathSeen::Directory,
            Some(Seq::empty()),
            Ok::<Vec<EntrySeen>, String>(*list),
        ),
{
    let n: usize = list.len();
    if n == 0 {
        return String::from_str("granular 0/0 linked");
    }
    let mut linked: usize = 0;
    let mut missing: usize = 0;
    let mut i: usize = 0;
    while i < n
        invariant
            i <= n == list@.len(),
            linked + missing <= i,
            linked == linked_count(list@, i as int),
            missing == missing_count(list@, i as int),
        decreases n - i,
    {
        match &list[i].seen {
            PathSeen::Missing => {
                missing = missing + 1;
            },
            PathSeen::Symlink(dest) => {
                if leads_to(dest, list[i].source.as_str()) {
                    linked = linked + 1;
                }
            },
            _ => {},
        }
        i = i + 1;
    }
    let conflicts: usize = n - linked - missing;
    let mut out = cat5(
        "granular ",
        decimal_of(linked as u64).as_str(),
        "/",
        decimal_of(n as u64).as_str(),
        " linked, ",
    );
    out.append(decimal_of(conflicts as u64).as_str());
    out.append(" conflict, ");
    out.append(decimal_of(missing as u64).as_str());
    out.append(" missing");
    out
}

// Listing.

/// A text with spaces up to `n` characters.
pub open spec fn padded(s: Text, n: int) -> Text {
    s + blanks(if s.len() < n {
        (n - s.len()) as nat
    } else {
        0
    })
}

pub open spec fn target_line(target: Target, status: Text) -> Text {
    padded(target.kind@, 12) + " "@ + link_mode_text(target.mode) + " "@ + target.path@ + "  ["@
        + status + "]"@
}

fn line_of(target: &Target, status: &str) -> (r: String)
    ensures
        r@ == target_line(*target, status@),
{
    let n: usize = chars_of(target.kind.as_str()).len();
    let pad: usize = if n < 12 {
        12 - n
    } else {
        0
    };
    let mut out = cat5(
        target.kind.as_str(),
        spaces(pad).as_str(),
        " ",
        target.mode.label(),
        " ",
    );
    out.append(target.path.as_str());
    out.append("  [");
    out.append(status);
    out.append("]");
    out
}

/// The lines that list the targets; `statuses` holds the status of each.
pub fn cmd_list(cfg: &Config, statuses: &Vec<String>) -> (r: Vec<String>)
    requires
        statuses@.len() == cfg.targets@.len(),
    ensures
        cfg.targets@.len() == 0 ==> views(r@) == seq!["no targets configured"@],
        cfg.targets@.len() > 0 ==> r@.len() == cfg.targets@.len() && forall|i: int|
            0 <= i < r@.len() ==> (#[trigger] r@[i])@ == target_line(
                cfg.targets@[i],
                statuses@[i]@,
            ),
{
    let mut out: Vec<String> = Vec::new();
    if cfg.targets.len() == 0 {
        out.push(String::from_str("no targets configured"));
        assert(views(out@) =~= seq!["no targets configured"@]);
        return out;
    }
    let mut i: usize = 0;
    while i < cfg.targets.len()
        invariant
            i <= cfg.targets@.len(),
            statuses@.len() == cfg.targets@.len(),
            out@.len() == i,
            forall|j: int|
                0 <= j < i ==> (#[trigger] out@[j])@ == target_line(
                    cfg.targets@[j],
                    statuses@[j]@,
                ),
        decreases cfg.targets@.len() - i,
    {
        out.push(line_of(&cfg.targets[i], statuses[i].as_str()));
        i = i + 1;
    }
    out
}

// Source skills.

/// A directory tree as far as skill files are concerned: whether it holds one at its root,
/// and its subdirectories.
#[derive(Debug)]
pub struct SkillTree {
    pub skill_file: bool,
    pub children: Vec<SkillTree>,
}

/// Whether a skill file stands somewhere in the tree.
pub open spec fn holds_skill(tree: SkillTree) -> bool
    decreases tree, tree.children@.len() + 1,
{
    tree.skill_file || child_holds_skill(tree, tree.children@.len())
}

/// Whether a skill file stands in one of the first `n` subdirectories.
pub open spec fn child_holds_skill(tree: SkillTree, n: nat) -> bool
    decreases tree, n,
{
    if n == 0 || n > tree.children@.len() {
        false
    } else {
        child_holds_skill(tree, (n - 1) as nat) || holds_skill(tree.children@[n - 1])
    }
}

proof fn lemma_child_holds(tree: SkillTree, k: nat, n: nat)
    requires
        k <= n <= tree.children@.len(),
        child_holds_skill(tree, k),
    ensures
        child_holds_skill(tree, n),
    decreases n,
{
    if k < n {
        lemma_child_holds(tree, k, (n - 1) as nat);
    }
}

pub fn contains_skill_markdown(tree: &SkillTree) -> (r: bool)
    ensures
        r == holds_skill(*tree),
    decreases tree,
{
    if tree.skill_file {
        return true;
    }
    let mut i: usize = 0;
    while i < tree.children.len()
        invariant
            i <= tree.children@.len(),
            !tree.skill_file,
            !child_holds_skill(*tree, i as nat),
        decreases tree.children@.len() - i,
    {
        if contains_skill_markdown(&tree.children[i]) {
            proof {
                assert(child_holds_skill(*tree, (i + 1) as nat));
                lemma_child_holds(*tree, (i + 1) as nat, tree.children@.len());
            }
            return true;
        }
        i = i + 1;
    }
    false
}

/// An entry of the source: its name, and its tree where it is a directory or leads to one.
#[derive(Debug)]
pub struct SourceEntry {
    pub name: String,
    pub tree: Option<SkillTree>,
}

/// The names of those of the first `n` entries that hold skills.
pub open spec fn skill_names(entries: Seq<SourceEntry>, n: int) -> Seq<Text>
    decreases n,
{
    if n <= 0 {
        Seq::empty()
    } else {
        let front = skill_names(entries, n - 1);
        if entries[n - 1].tree is Some && holds_skill(entries[n - 1].tree->Some_0) {
            front.push(entries[n - 1].name@)
        } else {
            front
        }
    }
}

/// The names of the entries that hold skills, in ascending order.
pub fn skill_entries(entries: &Vec<SourceEntry>) -> (r: Vec<String>)
    ensures
        views(r@) == ordered_texts(skill_names(entries@, entries@.len() as int)),
{
    let mut out: Vec<String> = Vec::new();
    let mut i: usize = 0;
    assert(views(out@) =~= Seq::<Text>::empty());
    while i < entries.len()
        invariant
            i <= entries@.len(),
            views(out@) == ordered_texts(skill_names(entries@, i as int)),
        decreases entries@.len() - i,
    {
        let ghost front = skill_names(entries@, i as int);
        let holds = match &entries[i].tree {
            Some(tree) => contains_skill_markdown(tree),
            None => false,
        };
        if holds {
            insert_ordered(&mut out, entries[i].name.clone());
            assert(front.push(entries@[i as int].name@).drop_last() =~= front);
        }
        i = i + 1;
    }
    out
}

} // verus!
