//! Where a project keeps its configuration and state, and how an older layout moves there.

use vstd::prelude::*;
use crate::agents::HostAgent;
use crate::failure::Failure;
use crate::install::same_selections;
use crate::model::{
    builtin_agents, schema_refusal, validate_schema, ProjectConfig, SkillSelection, SCHEMA_VERSION,
};
use crate::outside::{json_same, json_value, parse_json, same_json};
use crate::paths::{join_path, joined_path};
use crate::text::{
    begins, cat2, cat3, copy_list, opt_view, same, same_texts, starts_with, views, Text,
};

verus! {

// Loading.

/// Which of the two configuration files are there.
#[derive(Debug, Clone, Copy, PartialEq, Eq, Structural)]
pub struct ConfigFiles {
    pub current: bool,
    pub legacy: bool,
}

#[derive(Debug, Clone, Copy, PartialEq, Eq, Structural)]
pub enum ConfigSource {
    Current,
    Legacy,
    /// There is none; the defaults hold.
    Default,
}

/// Which file the configuration is read from, once a migration is done.
pub fn config_source(files: ConfigFiles, required: bool) -> (r: Result<ConfigSource, Failure>)
    ensures
        match r {
            Ok(source) => source == (if files.current {
                ConfigSource::Current
            } else if files.legacy {
                ConfigSource::Legacy
            } else {
                ConfigSource::Default
            }) && (files.current || files.legacy || !required),
            Err(f) => !files.current && !files.legacy && required && f@
                == "run `skiller config` before installing"@,
        },
{
    if files.current {
        Ok(ConfigSource::Current)
    } else if files.legacy {
        Ok(ConfigSource::Legacy)
    } else if required {
        Err(Failure::new(String::from_str("run `skiller config` before installing")))
    } else {
        Ok(ConfigSource::Default)
    }
}

/// A project configuration as it was loaded.
#[derive(Debug)]
pub struct ProjectConfigLoad {
    pub path: String,
    pub manifest: ProjectConfig,
    pub migration: Vec<String>,
    pub legacy: bool,
}

/// Accepts what was read. `before` is what was there before the migration.
pub fn load_project_config(
    path: String,
    before: ConfigFiles,
    source: ConfigSource,
    read: ProjectConfig,
    migration: Vec<String>,
    host: &HostAgent,
) -> (r: Result<ProjectConfigLoad, Failure>)
    ensures
        match r {
            Ok(load) => {
                &&& load.path == path
                &&& load.migration == migration
                &&& source == ConfigSource::Default ==> !load.legacy && load.manifest.version
                    == SCHEMA_VERSION && load.manifest.skills@ == Map::<
                    Text,
                    SkillSelection,
                >::empty() && views(load.manifest.agents@) == builtin_agents(host@)
                &&& source != ConfigSource::Default ==> schema_refusal(
                    read.version,
                    "skill config"@,
                ) is None && load.manifest == read && load.legacy == (!before.current
                    && before.legacy)
            },
            Err(f) => source != ConfigSource::Default && schema_refusal(
                read.version,
                "skill config"@,
            ) == Some(f@),
        },
{
    if source == ConfigSource::Default {
        return Ok(
            ProjectConfigLoad {
                path,
                manifest: ProjectConfig::new(host),
                migration,
                legacy: false,
            },
        );
    }
    match validate_schema(read.version, "skill config") {
        Ok(_) => {},
        Err(f) => return Err(f),
    }
    Ok(
        ProjectConfigLoad {
            path,
            manifest: read,
            migration,
            legacy: !before.current && before.legacy,
        },
    )
}

// Moving the configuration.

/// What stands at a path.
#[derive(Debug, Clone, Copy, PartialEq, Eq, Structural)]
pub enum EntryKind {
    File,
    Directory,
    Symlink,
    Other,
}

pub fn check_legacy_config(kind: EntryKind) -> (r: Result<(), Failure>)
    ensures
        crate::failure::refusal(r) == (if kind == EntryKind::File {
            None
        } else {
            Some("legacy project configuration must be a real file"@)
        }),
{
    if kind == EntryKind::File {
        Ok(())
    } else {
        Err(Failure::new(String::from_str("legacy project configuration must be a real file")))
    }
}

/// Two configurations say the same.
pub open spec fn equal_configs(a: ProjectConfig, b: ProjectConfig) -> bool {
    a.version == b.version && a.skills@ == b.skills@ && views(a.agents@) == views(b.agents@)
}

/// What is done with an older configuration.
#[derive(Debug)]
pub struct ConfigMove {
    /// It is written to the current place.
    pub write: bool,
    /// It is removed from the old place.
    pub remove: bool,
    pub messages: Vec<String>,
}

pub open spec fn config_messages(path: Text, known: bool, remove: bool) -> Seq<Text> {
    if known {
        if remove {
            seq!["Removed matching legacy project configuration"@]
        } else {
            seq![
                "Legacy tracked or divergent skiller.config.json is ignored; remove it after review"@,
            ]
        }
    } else {
        seq![
            "Migrated project configuration to "@ + path,
            if remove {
                "Removed legacy project configuration"@
            } else {
                "Legacy tracked skiller.config.json is now ignored; remove it from the repository after review"@
            },
        ]
    }
}

/// Decides what is done with an older configuration: it moves where there is no current one,
/// and goes only where Git does not track it and nothing is lost.
pub fn migrate_config(path: &str, legacy: &ProjectConfig, current: Option<&ProjectConfig>, in_git: bool) -> (r: Result<
    ConfigMove,
    Failure,
>)
    ensures
        match r {
            Ok(plan) => {
                &&& schema_refusal(legacy.version, "legacy project skill config"@) is None
                &&& plan.write == current is None
                &&& plan.remove == (!in_git && (current is None || equal_configs(
                    *current->Some_0,
                    *legacy,
                )))
                &&& views(plan.messages@) == config_messages(path@, current is Some, plan.remove)
            },
            Err(f) => schema_refusal(legacy.version, "legacy project skill config"@) == Some(f@),
        },
{
    match validate_schema(legacy.version, "legacy project skill config") {
        Ok(_) => {},
        Err(f) => return Err(f),
    }
    let mut messages: Vec<String> = Vec::new();
    let remove = match current {
        Some(config) => {
            let matching = config.version == legacy.version && same_selections(
                &config.skills,
                &legacy.skills,
            ) && same_texts(&config.agents, &legacy.agents);
            let remove = matching && !in_git;
            messages.push(
                String::from_str(
                    if remove {
                        "Removed matching legacy project configuration"
                    } else {
                        "Legacy tracked or divergent skiller.config.json is ignored; remove it after review"
                    },
                ),
            );
            remove
        },
        None => {
            messages.push(cat2("Migrated project configuration to ", path));
            messages.push(
                String::from_str(
                    if in_git {
                        "Legacy tracked skiller.config.json is now ignored; remove it from the repository after review"
                    } else {
                        "Removed legacy project configuration"
                    },
                ),
            );
            !in_git
        },
    };
    assert(views(messages@) =~= config_messages(path@, current is Some, remove));
    Ok(ConfigMove { write: current.is_none(), remove, messages })
}

/// A configuration in contracts.
pub struct ConfigValue {
    pub version: u32,
    pub skills: Map<Text, SkillSelection>,
    pub agents: Seq<Text>,
}

pub open spec fn config_value(c: ProjectConfig) -> ConfigValue {
    ConfigValue { version: c.version, skills: c.skills@, agents: views(c.agents@) }
}

/// What stands where older versions kept the configuration.
#[derive(Debug)]
pub enum LegacyFile {
    Missing,
    /// A real file with a configuration.
    File(ProjectConfig),
    /// Anything else.
    Other,
}

/// The same in contracts.
pub enum LegacyFileView {
    Missing,
    File(ConfigValue),
    Other,
}

impl View for LegacyFile {
    type V = LegacyFileView;

    open spec fn view(&self) -> LegacyFileView {
        match self {
            LegacyFile::Missing => LegacyFileView::Missing,
            LegacyFile::File(c) => LegacyFileView::File(config_value(*c)),
            LegacyFile::Other => LegacyFileView::Other,
        }
    }
}

/// A move of the configuration in contracts.
pub struct ConfigMoveView {
    pub write: bool,
    pub remove: bool,
    pub messages: Seq<Text>,
}

impl View for ConfigMove {
    type V = ConfigMoveView;

    open spec fn view(&self) -> ConfigMoveView {
        ConfigMoveView { write: self.write, remove: self.remove, messages: views(self.messages@) }
    }
}

/// What is done with the older configuration, or the refusal. Where there is none, nothing is
/// done and nothing is said.
pub open spec fn config_plan(path: Text, legacy: LegacyFileView, current: Option<ConfigValue>, in_git: bool) -> Result<
    ConfigMoveView,
    Text,
> {
    match legacy {
        LegacyFileView::Missing => Ok(
            ConfigMoveView { write: false, remove: false, messages: Seq::empty() },
        ),
        LegacyFileView::Other => Err("legacy project configuration must be a real file"@),
        LegacyFileView::File(config) => match schema_refusal(
            config.version,
            "legacy project skill config"@,
        ) {
            Some(e) => Err(e),
            None => {
                let remove = !in_git && (current is None || current == Some(config));
                Ok(
                    ConfigMoveView {
                        write: current is None,
                        remove,
                        messages: config_messages(path, current is Some, remove),
                    },
                )
            },
        },
    }
}

/// What stands in the two places once a move is done.
pub open spec fn config_after(plan: ConfigMoveView, legacy: LegacyFileView, current: Option<ConfigValue>) -> (
    LegacyFileView,
    Option<ConfigValue>,
) {
    (
        if plan.remove {
            LegacyFileView::Missing
        } else {
            legacy
        },
        if plan.write && legacy is File {
            Some(legacy->File_0)
        } else {
            current
        },
    )
}

fn plan_config(path: &str, legacy: &LegacyFile, current: Option<&ProjectConfig>, in_git: bool) -> (r: Result<
    ConfigMove,
    Failure,
>)
    ensures
        ({
            let known = match current {
                Some(c) => Some(config_value(*c)),
                None => None,
            };
            match r {
                Ok(plan) => config_plan(path@, legacy@, known, in_git) == Ok::<
                    ConfigMoveView,
                    Text,
                >(plan@),
                Err(f) => config_plan(path@, legacy@, known, in_git) == Err::<
                    ConfigMoveView,
                    Text,
                >(f@),
            }
        }),
{
    match legacy {
        LegacyFile::Missing => {
            let plan = ConfigMove { write: false, remove: false, messages: Vec::new() };
            assert(views(plan.messages@) =~= Seq::<Text>::empty());
            Ok(plan)
        },
        LegacyFile::Other => match check_legacy_config(EntryKind::Other) {
            Ok(_) => Ok(ConfigMove { write: false, remove: false, messages: Vec::new() }),
            Err(f) => Err(f),
        },
        LegacyFile::File(config) => migrate_config(path, config, current, in_git),
    }
}

// Moving the state.

/// A directory of older state, with all below it.
#[derive(Debug)]
pub struct StateTree {
    pub entries: Vec<StateNode>,
}

#[derive(Debug)]
pub struct StateNode {
    pub name: String,
    pub kind: EntryKind,
    /// What a directory holds.
    pub tree: StateTree,
}

/// Whether the tree holds nothing but files and directories.
pub open spec fn copyable(tree: StateTree) -> bool
    decreases tree, tree.entries@.len() + 1,
{
    copyable_part(tree, tree.entries@.len())
}

/// Whether the first `n` entries, with all below them, are files and directories.
pub open spec fn copyable_part(tree: StateTree, n: nat) -> bool
    decreases tree, n,
{
    if n == 0 || n > tree.entries@.len() {
        true
    } else {
        let node = tree.entries@[n - 1];
        copyable_part(tree, (n - 1) as nat) && match node.kind {
            EntryKind::File => true,
            EntryKind::Directory => copyable(node.tree),
            _ => false,
        }
    }
}

proof fn lemma_copyable_part(tree: StateTree, k: nat, n: nat)
    requires
        k <= n <= tree.entries@.len(),
        !copyable_part(tree, k),
    ensures
        !copyable_part(tree, n),
    decreases n,
{
    if k < n {
        lemma_copyable_part(tree, k, (n - 1) as nat);
    }
}

pub fn copyable_tree(tree: &StateTree) -> (r: bool)
    ensures
        r == copyable(*tree),
    decreases tree,
{
    let mut i: usize = 0;
    while i < tree.entries.len()
        invariant
            i <= tree.entries@.len(),
            copyable_part(*tree, i as nat),
        decreases tree.entries@.len() - i,
    {
        let node = &tree.entries[i];
        let fine = match node.kind {
            EntryKind::File => true,
            EntryKind::Directory => copyable_tree(&node.tree),
            _ => false,
        };
        if !fine {
            proof {
                assert(!copyable_part(*tree, (i + 1) as nat));
                lemma_copyable_part(*tree, (i + 1) as nat, tree.entries@.len());
            }
            return false;
        }
        i = i + 1;
    }
    true
}

/// An entry of a state directory.
#[derive(Debug)]
pub enum StateSeen {
    Missing,
    /// A file with its bytes.
    File(Vec<u8>),
    Directory(StateTree),
    Symlink,
    Other,
}

/// The mark that a prepared directory carries.
pub open spec fn is_mark(node: StateNode) -> bool {
    node.name@ == ".skiller-owned"@ && node.kind == EntryKind::File
}

pub open spec fn has_mark(tree: StateTree) -> bool {
    exists|i: int| 0 <= i < tree.entries@.len() && #[trigger] is_mark(tree.entries@[i])
}

/// Whether a prepared directory is the library's own and can be copied.
pub open spec fn is_owned_prepared(seen: StateSeen) -> bool {
    seen matches StateSeen::Directory(tree) && has_mark(tree) && copyable(tree)
}

pub fn owned_prepared_directory(seen: &StateSeen) -> (r: bool)
    ensures
        r == is_owned_prepared(*seen),
{
    match seen {
        StateSeen::Directory(tree) => {
            let mut marked = false;
            let mut i: usize = 0;
            while i < tree.entries.len()
                invariant
                    i <= tree.entries@.len(),
                    marked ==> has_mark(*tree),
                    !marked ==> forall|j: int|
                        0 <= j < i ==> !#[trigger] is_mark(tree.entries@[j]),
                decreases tree.entries@.len() - i,
            {
                if same(tree.entries[i].name.as_str(), ".skiller-owned") && tree.entries[i].kind
                    == EntryKind::File {
                    assert(is_mark(tree.entries@[i as int]));
                    marked = true;
                }
                i = i + 1;
            }
            marked && copyable_tree(tree)
        },
        _ => false,
    }
}

fn read_value(bytes: &Vec<u8>, path: &str) -> (r: Result<serde_json::Value, Failure>)
    ensures
        match r {
            Ok(v) => json_value(bytes@) == Some(v),
            Err(f) => json_value(bytes@) is None && f@ == "parsing "@ + path@,
        },
{
    match parse_json(bytes.as_slice()) {
        Ok(value) => Ok(value),
        Err(_) => Err(Failure::new(cat2("parsing ", path))),
    }
}

/// What is done with an entry of the older state.
#[derive(Debug, Clone, Copy, PartialEq, Eq, Structural)]
pub enum StateAction {
    /// Nothing is there.
    Nothing,
    /// It stays for review.
    Leave,
    /// It is removed; the current state has the same.
    RemoveSource,
    /// The file moves.
    MoveFile,
    /// The directory moves.
    MoveTree,
}

pub open spec fn left_text(name: Text) -> Text {
    "Legacy project state "@ + name + " differs from current state and was left for review"@
}

/// What is done with an entry, or the refusal.
pub open spec fn entry_action(source: Text, destination: Text, from: StateSeen, to: StateSeen) -> Result<
    StateAction,
    Text,
> {
    match from {
        StateSeen::Missing => Ok(StateAction::Nothing),
        StateSeen::Symlink => Err("legacy project state contains a symlink: "@ + source),
        _ => match to {
            StateSeen::Symlink => Err(
                "current project state contains a symlink: "@ + destination,
            ),
            StateSeen::Missing => match from {
                StateSeen::File(bytes) => if json_value(bytes@) is None {
                    Err("parsing "@ + source)
                } else {
                    Ok(StateAction::MoveFile)
                },
                StateSeen::Directory(_) => Ok(StateAction::MoveTree),
                _ => Err("legacy project state is not a file or directory: "@ + source),
            },
            _ => match (from, to) {
                (StateSeen::File(a), StateSeen::File(b)) => if json_value(a@) is None {
                    Err("parsing "@ + source)
                } else if json_value(b@) is None {
                    Err("parsing "@ + destination)
                } else if json_same(json_value(a@)->Some_0, json_value(b@)->Some_0) {
                    Ok(StateAction::RemoveSource)
                } else {
                    Ok(StateAction::Leave)
                },
                _ => Ok(StateAction::Leave),
            },
        },
    }
}

pub open spec fn entry_message(name: Text, action: StateAction) -> Option<Text> {
    match action {
        StateAction::Nothing => None,
        StateAction::Leave => Some(left_text(name)),
        StateAction::RemoveSource => Some("Removed matching legacy project state "@ + name),
        _ => Some("Migrated project state "@ + name),
    }
}

/// Decides what is done with an entry of the older state.
pub fn migrate_entry(legacy_root: &str, state_root: &str, name: &str, from: &StateSeen, to: &StateSeen) -> (r: Result<
    (StateAction, Option<String>),
    Failure,
>)
    ensures
        ({
            let action = entry_action(
                joined_path(legacy_root@, name@),
                joined_path(state_root@, name@),
                *from,
                *to,
            );
            match r {
                Ok((done, message)) => action == Ok::<StateAction, Text>(done) && opt_view(message)
                    == entry_message(name@, done),
                Err(f) => action == Err::<StateAction, Text>(f@),
            }
        }),
{
    let source = join_path(legacy_root, name);
    let destination = join_path(state_root, name);
    match from {
        StateSeen::Missing => return Ok((StateAction::Nothing, None)),
        StateSeen::Symlink => return Err(
            Failure::new(
                cat2("legacy project state contains a symlink: ", source.as_str()),
            ),
        ),
        _ => {},
    }
    match to {
        StateSeen::Symlink => return Err(
            Failure::new(
                cat2("current project state contains a symlink: ", destination.as_str()),
            ),
        ),
        StateSeen::Missing => {
            let action = match from {
                StateSeen::File(bytes) => match read_value(bytes, source.as_str()) {
                    Ok(_) => StateAction::MoveFile,
                    Err(f) => return Err(f),
                },
                StateSeen::Directory(_) => StateAction::MoveTree,
                _ => return Err(
                    Failure::new(
                        cat2(
                            "legacy project state is not a file or directory: ",
                            source.as_str(),
                        ),
                    ),
                ),
            };
            Ok((action, Some(cat2("Migrated project state ", name))))
        },
        _ => {
            match (from, to) {
                (StateSeen::File(a), StateSeen::File(b)) => {
                    let before = match read_value(a, source.as_str()) {
                        Ok(value) => value,
                        Err(f) => return Err(f),
                    };
                    let now = match read_value(b, destination.as_str()) {
                        Ok(value) => value,
                        Err(f) => return Err(f),
                    };
                    if same_json(&before, &now) {
                        return Ok(
                            (
                                StateAction::RemoveSource,
                                Some(cat2("Removed matching legacy project state ", name)),
                            ),
                        );
                    }
                },
                _ => {},
            }
            Ok(
                (
                    StateAction::Leave,
                    Some(
                        cat3(
                            "Legacy project state ",
                            name,
                            " differs from current state and was left for review",
                        ),
                    ),
                ),
            )
        },
    }
}

/// An entry of the older state directory, and what stands in its place in the current one.
#[derive(Debug)]
pub struct LegacyItem {
    pub name: String,
    pub seen: StateSeen,
    pub current: StateSeen,
}

pub open spec fn is_state_file(name: Text) -> bool {
    name == "installed.json"@ || name == "transaction.json"@
}

pub open spec fn is_prepared(name: Text) -> bool {
    starts_with(name, "prepared-"@)
}

/// Whether a repair may move an entry without review.
pub open spec fn is_migratable(item: LegacyItem) -> bool {
    if is_state_file(item.name@) {
        item.seen matches StateSeen::File(bytes) && json_value(bytes@) is Some
    } else {
        is_prepared(item.name@) && is_owned_prepared(item.seen)
    }
}

fn migratable(item: &LegacyItem) -> (r: bool)
    ensures
        r == is_migratable(*item),
{
    let name = item.name.as_str();
    if same(name, "installed.json") || same(name, "transaction.json") {
        match &item.seen {
            StateSeen::File(bytes) => read_value(bytes, name).is_ok(),
            _ => false,
        }
    } else {
        begins(name, "prepared-") && owned_prepared_directory(&item.seen)
    }
}

pub fn check_legacy_state(kind: EntryKind) -> (r: Result<(), Failure>)
    ensures
        crate::failure::refusal(r) == (if kind == EntryKind::Directory {
            None
        } else {
            Some("legacy project state must be a real directory"@)
        }),
{
    if kind == EntryKind::Directory {
        Ok(())
    } else {
        Err(Failure::new(String::from_str("legacy project state must be a real directory")))
    }
}

/// Whether all of the older state can move without review. `kind` is what the state directory
/// is, if it is there.
pub fn legacy_state_is_fully_migratable(kind: Option<EntryKind>, items: &Vec<LegacyItem>) -> (r: Result<
    bool,
    Failure,
>)
    ensures
        match r {
            Ok(answer) => (kind is None || kind == Some(EntryKind::Directory)) && answer == (kind is None
                || forall|i: int| 0 <= i < items@.len() ==> #[trigger] is_migratable(items@[i])),
            Err(f) => kind is Some && kind != Some(EntryKind::Directory) && f@
                == "legacy project state must be a real directory"@,
        },
{
    match kind {
        None => return Ok(true),
        Some(kind) => match check_legacy_state(kind) {
            Ok(_) => {},
            Err(f) => return Err(f),
        },
    }
    let mut i: usize = 0;
    while i < items.len()
        invariant
            i <= items@.len(),
            kind == Some(EntryKind::Directory),
            forall|j: int| 0 <= j < i ==> #[trigger] is_migratable(items@[j]),
        decreases items@.len() - i,
    {
        if !migratable(&items[i]) {
            assert(!is_migratable(items@[i as int]));
            return Ok(false);
        }
        i = i + 1;
    }
    Ok(true)
}

// The whole migration of the state.

/// The position of an entry of a name.
pub open spec fn place_of(items: Seq<LegacyItem>, name: Text, n: int) -> Seq<int>
    decreases n,
{
    if n <= 0 {
        Seq::empty()
    } else {
        let front = place_of(items, name, n - 1);
        if items[n - 1].name@ == name {
            front.push(n - 1)
        } else {
            front
        }
    }
}

/// The positions of the prepared directories.
pub open spec fn prepared_places(items: Seq<LegacyItem>, n: int) -> Seq<int>
    decreases n,
{
    if n <= 0 {
        Seq::empty()
    } else {
        let front = prepared_places(items, n - 1);
        if is_prepared(items[n - 1].name@) {
            front.push(n - 1)
        } else {
            front
        }
    }
}

/// The order in which the entries are taken: the installed state, the journal, then the
/// prepared directories. Whatever else is there stays.
pub open spec fn migration_order(items: Seq<LegacyItem>) -> Seq<int> {
    place_of(items, "installed.json"@, items.len() as int) + place_of(
        items,
        "transaction.json"@,
        items.len() as int,
    ) + prepared_places(items, items.len() as int)
}

/// A step of the migration.
#[derive(Debug)]
pub struct StateStep {
    /// The position of the entry.
    pub item: usize,
    pub action: StateAction,
    pub message: Option<String>,
}

/// A step in contracts.
pub struct StepView {
    pub item: int,
    pub action: StateAction,
    pub message: Option<Text>,
}

impl View for StateStep {
    type V = StepView;

    open spec fn view(&self) -> StepView {
        StepView { item: self.item as int, action: self.action, message: opt_view(self.message) }
    }
}

pub open spec fn step_views(v: Seq<StateStep>) -> Seq<StepView> {
    Seq::new(v.len(), |i: int| v[i]@)
}

/// What is done with the entry at a position. A prepared directory that is not marked stays.
pub open spec fn step_at(items: Seq<LegacyItem>, legacy_root: Text, state_root: Text, at: int) -> Result<
    StepView,
    Text,
> {
    let item = items[at];
    let name = item.name@;
    if is_prepared(name) && !is_owned_prepared(item.seen) {
        Ok(
            StepView {
                item: at,
                action: StateAction::Leave,
                message: Some(
                    "Legacy project state "@ + name
                        + " is not ownership-marked and was left for review"@,
                ),
            },
        )
    } else {
        match entry_action(
            joined_path(legacy_root, name),
            joined_path(state_root, name),
            item.seen,
            item.current,
        ) {
            Ok(action) => Ok(
                StepView { item: at, action, message: entry_message(name, action) },
            ),
            Err(e) => Err(e),
        }
    }
}

/// The steps for the first `n` entries in order, up to the first refusal, and that refusal.
pub open spec fn migration_steps(
    items: Seq<LegacyItem>,
    legacy_root: Text,
    state_root: Text,
    order: Seq<int>,
    n: int,
) -> (Seq<StepView>, Option<Text>)
    decreases n,
{
    if n <= 0 {
        (Seq::empty(), None)
    } else {
        let (front, fault) = migration_steps(items, legacy_root, state_root, order, n - 1);
        if fault is Some {
            (front, fault)
        } else {
            match step_at(items, legacy_root, state_root, order[n - 1]) {
                Ok(step) => (front.push(step), None),
                Err(e) => (front, Some(e)),
            }
        }
    }
}

/// Whether an action takes the entry out of the old place.
pub open spec fn takes(action: StateAction) -> bool {
    action == StateAction::RemoveSource || action == StateAction::MoveFile || action
        == StateAction::MoveTree
}

pub open spec fn count_taken(steps: Seq<StepView>, n: int) -> nat
    decreases n,
{
    if n <= 0 {
        0
    } else {
        count_taken(steps, n - 1) + if takes(steps[n - 1].action) {
            1nat
        } else {
            0nat
        }
    }
}

/// The migration of the state: what is done, what stopped it, and whether the old directory
/// is empty then and goes too.
#[derive(Debug)]
pub struct StateMigration {
    pub steps: Vec<StateStep>,
    pub failure: Option<Failure>,
    pub remove_root: bool,
}

fn add_places(items: &Vec<LegacyItem>, name: &str, out: &mut Vec<usize>)
    ensures
        places(final(out)@) == places(old(out)@) + place_of(items@, name@, items@.len() as int),
        forall|i: int|
            0 <= i < final(out)@.len() ==> (#[trigger] final(out)@[i] < items@.len() || (i
                < old(out)@.len() && final(out)@[i] == old(out)@[i])),
{
    let ghost before = out@;
    assert(places(out@) =~= places(before) + place_of(items@, name@, 0));
    let mut i: usize = 0;
    while i < items.len()
        invariant
            i <= items@.len(),
            places(out@) == places(before) + place_of(items@, name@, i as int),
            forall|j: int|
                0 <= j < out@.len() ==> (#[trigger] out@[j] < items@.len() || (j < before.len()
                    && out@[j] == before[j])),
        decreases items@.len() - i,
    {
        if same(items[i].name.as_str(), name) {
            let ghost last = out@;
            out.push(i);
            assert(places(out@) =~= places(last).push(i as int));
            assert(places(out@) =~= places(before) + place_of(items@, name@, i as int + 1));
        }
        i = i + 1;
    }
}

/// Positions in contracts.
pub open spec fn places(v: Seq<usize>) -> Seq<int> {
    Seq::new(v.len(), |i: int| v[i] as int)
}

fn order_of(items: &Vec<LegacyItem>) -> (r: Vec<usize>)
    ensures
        places(r@) == migration_order(items@),
        forall|i: int| 0 <= i < r@.len() ==> #[trigger] r@[i] < items@.len(),
{
    let mut out: Vec<usize> = Vec::new();
    add_places(items, "installed.json", &mut out);
    let ghost first = place_of(items@, "installed.json"@, items@.len() as int);
    assert(places(out@) =~= first);
    add_places(items, "transaction.json", &mut out);
    let ghost before = out@;
    assert(places(before) + prepared_places(items@, 0) =~= places(before));
    let mut i: usize = 0;
    while i < items.len()
        invariant
            i <= items@.len(),
            places(out@) == places(before) + prepared_places(items@, i as int),
            forall|j: int| 0 <= j < out@.len() ==> #[trigger] out@[j] < items@.len(),
        decreases items@.len() - i,
    {
        if begins(items[i].name.as_str(), "prepared-") {
            let ghost last = out@;
            out.push(i);
            assert(places(out@) =~= places(last).push(i as int));
            assert(places(out@) =~= places(before) + prepared_places(items@, i as int + 1));
        }
        i = i + 1;
    }
    out
}

fn plan_step(items: &Vec<LegacyItem>, legacy_root: &str, state_root: &str, at: usize) -> (r: Result<
    StateStep,
    Failure,
>)
    requires
        at < items@.len(),
    ensures
        match r {
            Ok(step) => step_at(items@, legacy_root@, state_root@, at as int) == Ok::<
                StepView,
                Text,
            >(step@),
            Err(f) => step_at(items@, legacy_root@, state_root@, at as int) == Err::<
                StepView,
                Text,
            >(f@),
        },
{
    let item = &items[at];
    let name = item.name.as_str();
    if begins(name, "prepared-") && !owned_prepared_directory(&item.seen) {
        let step = StateStep {
            item: at,
            action: StateAction::Leave,
            message: Some(
                cat3(
                    "Legacy project state ",
                    name,
                    " is not ownership-marked and was left for review",
                ),
            ),
        };
        return Ok(step);
    }
    match migrate_entry(legacy_root, state_root, name, &item.seen, &item.current) {
        Ok((action, message)) => Ok(StateStep { item: at, action, message }),
        Err(f) => Err(f),
    }
}

/// Whether a plan takes the entries of a directory in order: the steps up to the first refusal,
/// and the directory itself where nothing is left in it.
pub open spec fn is_state_plan(plan: StateMigration, items: Seq<LegacyItem>, legacy_root: Text, state_root: Text) -> bool {
    let order = migration_order(items);
    let (steps, fault) = migration_steps(items, legacy_root, state_root, order, order.len() as int);
    &&& step_views(plan.steps@) == steps
    &&& match plan.failure {
        Some(f) => fault == Some(f@),
        None => fault is None,
    }
    &&& plan.remove_root == (fault is None && count_taken(steps, steps.len() as int) == items.len())
}

/// Plans the migration of the older state directory, which holds `items`.
pub fn migrate_project_state(items: &Vec<LegacyItem>, legacy_root: &str, state_root: &str) -> (r: StateMigration)
    ensures
        is_state_plan(r, items@, legacy_root@, state_root@),
{
    let order = order_of(items);
    let ghost places = places(order@);
    let mut steps: Vec<StateStep> = Vec::new();
    let mut taken: usize = 0;
    assert(step_views(steps@) =~= Seq::<StepView>::empty());
    let mut i: usize = 0;
    while i < order.len()
        invariant
            i <= order@.len(),
            places == self::places(order@),
            places == migration_order(items@),
            forall|j: int| 0 <= j < order@.len() ==> #[trigger] order@[j] < items@.len(),
            migration_steps(items@, legacy_root@, state_root@, places, i as int) == (
                step_views(steps@),
                None::<Text>,
            ),
            taken <= i,
            taken == count_taken(step_views(steps@), step_views(steps@).len() as int),
        decreases order@.len() - i,
    {
        assert(places[i as int] == order@[i as int] as int);
        match plan_step(items, legacy_root, state_root, order[i]) {
            Ok(step) => {
                let ghost before = steps@;
                let ghost view = step@;
                let moved = step.action == StateAction::RemoveSource || step.action
                    == StateAction::MoveFile || step.action == StateAction::MoveTree;
                steps.push(step);
                proof {
                    assert(step_views(steps@) =~= step_views(before).push(view));
                    lemma_count_taken(step_views(before), view);
                }
                if moved {
                    taken = taken + 1;
                }
            },
            Err(f) => {
                proof {
                    lemma_stopped(
                        items@,
                        legacy_root@,
                        state_root@,
                        places,
                        i as int + 1,
                        places.len() as int,
                    );
                }
                return StateMigration { steps, failure: Some(f), remove_root: false };
            },
        }
        i = i + 1;
    }
    StateMigration { steps, failure: None, remove_root: taken == items.len() }
}

proof fn lemma_count_taken(steps: Seq<StepView>, step: StepView)
    ensures
        count_taken(steps.push(step), steps.len() as int + 1) == count_taken(
            steps,
            steps.len() as int,
        ) + if takes(step.action) {
            1nat
        } else {
            0nat
        },
{
    lemma_count_prefix(steps, steps.push(step), steps.len() as int);
}

proof fn lemma_count_prefix(a: Seq<StepView>, b: Seq<StepView>, n: int)
    requires
        0 <= n <= a.len(),
        n <= b.len(),
        forall|i: int| 0 <= i < n ==> a[i] == b[i],
    ensures
        count_taken(a, n) == count_taken(b, n),
    decreases n,
{
    if n > 0 {
        lemma_count_prefix(a, b, n - 1);
    }
}

proof fn lemma_stopped(
    items: Seq<LegacyItem>,
    legacy_root: Text,
    state_root: Text,
    order: Seq<int>,
    k: int,
    n: int,
)
    requires
        0 <= k <= n,
        migration_steps(items, legacy_root, state_root, order, k).1 is Some,
    ensures
        migration_steps(items, legacy_root, state_root, order, n) == migration_steps(
            items,
            legacy_root,
            state_root,
            order,
            k,
        ),
    decreases n,
{
    if k < n {
        lemma_stopped(items, legacy_root, state_root, order, k, n - 1);
    }
}

// The whole migration.

/// The older state directory, if there is one.
#[derive(Debug)]
pub struct LegacyState {
    pub kind: EntryKind,
    pub items: Vec<LegacyItem>,
}

/// What a migration of a project's storage does: first the configuration, then the state,
/// unless the older state directory is refused.
#[derive(Debug)]
pub struct StorageMigration {
    pub config: ConfigMove,
    pub refusal: Option<Failure>,
    pub state: Option<StateMigration>,
}

/// What the steps say, one message after another.
pub open spec fn step_messages(steps: Seq<StepView>, n: int) -> Seq<Text>
    decreases n,
{
    if n <= 0 {
        Seq::empty()
    } else {
        match steps[n - 1].message {
            Some(m) => step_messages(steps, n - 1).push(m),
            None => step_messages(steps, n - 1),
        }
    }
}

/// What the migration of the state says.
pub open spec fn state_messages(state: Option<StateMigration>) -> Seq<Text> {
    match state {
        None => Seq::empty(),
        Some(plan) => {
            let steps = step_views(plan.steps@);
            let said = step_messages(steps, steps.len() as int);
            if plan.remove_root {
                said.push("Removed legacy project state directory"@)
            } else {
                said
            }
        },
    }
}

/// Plans the migration of a project's storage from what stands in the two places.
pub fn migrate_project_storage(
    path: &str,
    legacy: &LegacyFile,
    current: Option<&ProjectConfig>,
    in_git: bool,
    state: Option<&LegacyState>,
    legacy_root: &str,
    state_root: &str,
) -> (r: Result<StorageMigration, Failure>)
    ensures
        ({
            let known = match current {
                Some(c) => Some(config_value(*c)),
                None => None,
            };
            match r {
                Err(f) => config_plan(path@, legacy@, known, in_git) == Err::<
                    ConfigMoveView,
                    Text,
                >(f@),
                Ok(plan) => {
                    &&& config_plan(path@, legacy@, known, in_git) == Ok::<ConfigMoveView, Text>(
                        plan.config@,
                    )
                    &&& match state {
                        None => plan.refusal is None && plan.state is None,
                        Some(found) => if found.kind == EntryKind::Directory {
                            plan.refusal is None && plan.state is Some && is_state_plan(
                                plan.state->Some_0,
                                found.items@,
                                legacy_root@,
                                state_root@,
                            )
                        } else {
                            plan.state is None && plan.refusal is Some && plan.refusal->Some_0@
                                == "legacy project state must be a real directory"@
                        },
                    }
                },
            }
        }),
{
    let config = match plan_config(path, legacy, current, in_git) {
        Ok(config) => config,
        Err(f) => return Err(f),
    };
    match state {
        None => Ok(StorageMigration { config, refusal: None, state: None }),
        Some(found) => match check_legacy_state(found.kind) {
            Err(f) => Ok(StorageMigration { config, refusal: Some(f), state: None }),
            Ok(_) => Ok(
                StorageMigration {
                    config,
                    refusal: None,
                    state: Some(migrate_project_state(&found.items, legacy_root, state_root)),
                },
            ),
        },
    }
}

impl StorageMigration {
    /// What is said once all of it is done.
    pub fn messages(&self) -> (r: Vec<String>)
        ensures
            views(r@) == self.config@.messages + state_messages(self.state),
    {
        let mut out = copy_list(&self.config.messages);
        let ghost first = views(out@);
        match &self.state {
            None => {
                assert(views(out@) =~= first + Seq::<Text>::empty());
            },
            Some(plan) => {
                let ghost steps = step_views(plan.steps@);
                assert(views(out@) =~= first + step_messages(steps, 0));
                let mut i: usize = 0;
                while i < plan.steps.len()
                    invariant
                        i <= plan.steps@.len(),
                        steps == step_views(plan.steps@),
                        views(out@) == first + step_messages(steps, i as int),
                    decreases plan.steps@.len() - i,
                {
                    assert(steps[i as int] == plan.steps@[i as int]@);
                    match &plan.steps[i].message {
                        Some(m) => {
                            let ghost before = out@;
                            out.push(m.clone());
                            assert(views(out@) =~= views(before).push(m@));
                            assert(views(out@) =~= first + step_messages(steps, i as int + 1));
                        },
                        None => {},
                    }
                    i = i + 1;
                }
                if plan.remove_root {
                    let ghost before = out@;
                    out.push(String::from_str("Removed legacy project state directory"));
                    assert(views(out@) =~= views(before).push(
                        "Removed legacy project state directory"@,
                    ));
                }
                assert(views(out@) =~= first + state_messages(self.state));
            },
        }
        out
    }
}

/// A valid older configuration moves once. The current place then holds it, the old file is
/// gone exactly where Git does not track it, and something is said. Where it is gone, a second
/// migration without older state says nothing and changes nothing; a file that Git tracks is
/// never removed.
pub proof fn law_configuration_moves_once(path: Text, config: ConfigValue, in_git: bool)
    requires
        schema_refusal(config.version, "legacy project skill config"@) is None,
    ensures
        ({
            let legacy = LegacyFileView::File(config);
            let first = config_plan(path, legacy, None, in_git);
            let (left, now) = config_after(first->Ok_0, legacy, None);
            let second = config_plan(path, left, now, in_git);
            &&& first is Ok
            &&& now == Some(config)
            &&& left is Missing <==> !in_git
            &&& first->Ok_0.messages.len() > 0
            &&& second is Ok
            &&& config_after(second->Ok_0, left, now) == (left, now)
            &&& !in_git ==> second->Ok_0.messages + state_messages(None) == Seq::<Text>::empty()
        }),
{
    let legacy = LegacyFileView::File(config);
    let first = config_plan(path, legacy, None, in_git)->Ok_0;
    let (left, now) = config_after(first, legacy, None);
    let second = config_plan(path, left, now, in_git)->Ok_0;
    if !in_git {
        assert(second.messages + state_messages(None) =~= Seq::<Text>::empty());
    }
}

/// A file that Git tracks stays, whatever the current configuration is.
pub proof fn law_tracked_file_stays(path: Text, legacy: LegacyFileView, current: Option<ConfigValue>)
    ensures
        match config_plan(path, legacy, current, true) {
            Ok(plan) => !plan.remove && config_after(plan, legacy, current).0 == legacy,
            Err(_) => true,
        },
{
}

/// An entry leaves the old place only where the current place has the same or gets it, and
/// never through a symlink.
pub proof fn law_state_is_not_lost(source: Text, destination: Text, from: StateSeen, to: StateSeen)
    requires
        entry_action(source, destination, from, to) is Ok,
        takes(entry_action(source, destination, from, to)->Ok_0),
    ensures
        from is File || from is Directory,
        to is Missing || (to is File && from is File && json_same(
            json_value(from->File_0@)->Some_0,
            json_value(to->File_0@)->Some_0,
        )),
{
}

/// Once an entry is gone from the old place, migrating it again does and says nothing.
pub proof fn law_migration_happens_once(source: Text, destination: Text, to: StateSeen, name: Text)
    ensures
        entry_action(source, destination, StateSeen::Missing, to) == Ok::<StateAction, Text>(
            StateAction::Nothing,
        ),
        entry_message(name, StateAction::Nothing) is None,
{
}

/// Where all of the older state can move without review, and nothing stands in its place, the
/// migration refuses nothing.
pub proof fn law_migratable_state_moves(items: Seq<LegacyItem>, legacy_root: Text, state_root: Text, at: int)
    requires
        0 <= at < items.len(),
        is_migratable(items[at]),
        items[at].current is Missing,
    ensures
        step_at(items, legacy_root, state_root, at) is Ok,
        takes(step_at(items, legacy_root, state_root, at)->Ok_0.action),
{
    let item = items[at];
    if is_state_file(item.name@) {
        assert(!is_prepared(item.name@)) by {
            reveal_strlit("installed.json");
            reveal_strlit("transaction.json");
            reveal_strlit("prepared-");
            if is_prepared(item.name@) {
                assert(item.name@[0] == "prepared-"@[0]);
            }
        }
    }
}

} // verus!
