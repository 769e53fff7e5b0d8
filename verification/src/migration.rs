//! Migrating skills that were installed by hand into a catalog.

use vstd::prelude::*;
use crate::agents::HostAgent;
use crate::catalog::{comma_list, parse_list};
use crate::failure::{
    first_refusal, lemma_first_refusal_none, lemma_first_refusal_some, refusal, Failure,
};
use crate::install::{agents_refusal, validate_agents};
use crate::model::{
    alias_refusal, builtin_agents, default_agents, is_name, schema_refusal, selection_of,
    valid_name, validate_alias, validate_schema, CatalogMetadata, CatalogRegistration,
    GlobalConfig, ProjectConfig, SelectionMode, SkillSelection,
};
use crate::name_map::{lemma_walk, walk};
use crate::paths::{leaf, leaf_of, paths_match, same_path};
use crate::project_store::EntryKind;
use crate::resolve::key_of;
use crate::text::{
    cat2, cat3, cat4, copy_list, decimal, decimal_of, empty, lower_text, lowered, number,
    parse_number, same, trim, trimmed, views, Text,
};

verus! {

#[derive(Debug, PartialEq, Eq)]
pub struct MigrationPlan {
    pub version: u32,
    pub catalog: MigrationCatalog,
    pub target: MigrationTarget,
    pub agents: Vec<String>,
    pub skills: Vec<MigrationSkill>,
    pub install: bool,
    pub cleanup_legacy: bool,
}

#[derive(Debug, PartialEq, Eq)]
pub struct MigrationCatalog {
    pub alias: String,
    pub root: String,
    pub source: String,
}

#[derive(Debug, PartialEq, Eq)]
pub enum MigrationTarget {
    Global,
    Project { root: String },
}

#[derive(Debug, PartialEq, Eq)]
pub struct MigrationSkill {
    pub source: String,
    pub source_name: String,
    pub scope: String,
    pub mode: SelectionMode,
    pub gitignore: bool,
    pub legacy_installed_name: String,
}

// Choosing sources.

/// The path that an item of the selection stands for.
pub open spec fn chosen_path(item: Text, candidates: Seq<Text>) -> Result<Text, Text> {
    match parse_number(item) {
        Some(index) => if index == 0 {
            Err("selection numbers start at 1"@)
        } else if index > candidates.len() {
            Err("legacy selection is out of range: "@ + decimal(index as nat))
        } else {
            Ok(candidates[index - 1])
        },
        None => Ok(item),
    }
}

pub open spec fn holds_path(list: Seq<Text>, path: Text) -> bool {
    exists|i: int| 0 <= i < list.len() && same_path(#[trigger] list[i], path)
}

/// The paths that the first `n` items choose, each once.
pub open spec fn chosen(items: Seq<Text>, candidates: Seq<Text>, n: int) -> Result<Seq<Text>, Text>
    decreases n,
{
    if n <= 0 {
        Ok(Seq::empty())
    } else {
        match chosen(items, candidates, n - 1) {
            Err(e) => Err(e),
            Ok(front) => match chosen_path(items[n - 1], candidates) {
                Err(e) => Err(e),
                Ok(path) => Ok(
                    if holds_path(front, path) {
                        front
                    } else {
                        front.push(path)
                    },
                ),
            },
        }
    }
}

pub open spec fn source_selection(value: Text, candidates: Seq<Text>) -> Result<Seq<Text>, Text> {
    match chosen(comma_list(value), candidates, comma_list(value).len() as int) {
        Err(e) => Err(e),
        Ok(paths) => if paths.len() == 0 {
            Err("select at least one legacy skill"@)
        } else {
            Ok(paths)
        },
    }
}

fn choose_path(item: &str, candidates: &Vec<String>) -> (r: Result<String, Failure>)
    ensures
        match r {
            Ok(path) => chosen_path(item@, views(candidates@)) == Ok::<Text, Text>(path@),
            Err(f) => chosen_path(item@, views(candidates@)) == Err::<Text, Text>(f@),
        },
{
    match number(item) {
        Some(index) => if index == 0 {
            Err(Failure::new(String::from_str("selection numbers start at 1")))
        } else if index > candidates.len() {
            Err(
                Failure::new(
                    cat2(
                        "legacy selection is out of range: ",
                        decimal_of(index as u64).as_str(),
                    ),
                ),
            )
        } else {
            Ok(candidates[index - 1].clone())
        },
        None => Ok(item.to_owned()),
    }
}

fn path_listed(list: &Vec<String>, path: &str) -> (r: bool)
    ensures
        r == holds_path(views(list@), path@),
{
    let mut i: usize = 0;
    while i < list.len()
        invariant
            i <= list@.len(),
            forall|j: int| 0 <= j < i ==> !same_path(#[trigger] views(list@)[j], path@),
        decreases list@.len() - i,
    {
        assert(views(list@)[i as int] == list@[i as int]@);
        if paths_match(list[i].as_str(), path) {
            return true;
        }
        i = i + 1;
    }
    false
}

proof fn lemma_chosen_err(items: Seq<Text>, candidates: Seq<Text>, k: int, n: int)
    requires
        0 <= k <= n,
        chosen(items, candidates, k) is Err,
    ensures
        chosen(items, candidates, n) == chosen(items, candidates, k),
    decreases n,
{
    if k < n {
        lemma_chosen_err(items, candidates, k, n - 1);
    }
}

/// Reads a selection of sources: numbers of candidates, or paths, with commas between.
pub fn parse_source_selection(value: &str, candidates: &Vec<String>) -> (r: Result<Vec<String>, Failure>)
    ensures
        match r {
            Ok(paths) => source_selection(value@, views(candidates@)) == Ok::<Seq<Text>, Text>(
                views(paths@),
            ),
            Err(f) => source_selection(value@, views(candidates@)) == Err::<Seq<Text>, Text>(f@),
        },
{
    let items = parse_list(value);
    let ghost all = views(items@);
    let ghost known = views(candidates@);
    let mut out: Vec<String> = Vec::new();
    assert(views(out@) =~= Seq::<Text>::empty());
    let mut i: usize = 0;
    while i < items.len()
        invariant
            i <= items@.len(),
            all == views(items@),
            all == comma_list(value@),
            known == views(candidates@),
            chosen(all, known, i as int) == Ok::<Seq<Text>, Text>(views(out@)),
        decreases items@.len() - i,
    {
        assert(all[i as int] == items@[i as int]@);
        let path = match choose_path(items[i].as_str(), candidates) {
            Ok(path) => path,
            Err(f) => {
                proof {
                    lemma_chosen_err(all, known, i as int + 1, all.len() as int);
                }
                return Err(f);
            },
        };
        if !path_listed(&out, path.as_str()) {
            let ghost before = out@;
            let ghost text = path@;
            out.push(path);
            assert(views(out@) =~= views(before).push(text));
        }
        i = i + 1;
    }
    if out.len() == 0 {
        return Err(Failure::new(String::from_str("select at least one legacy skill")));
    }
    Ok(out)
}

/// A selection names no path twice.
pub proof fn law_selection_is_distinct(items: Seq<Text>, candidates: Seq<Text>, n: int)
    requires
        chosen(items, candidates, n) is Ok,
    ensures
        ({
            let paths = chosen(items, candidates, n)->Ok_0;
            forall|i: int, j: int|
                0 <= i < j < paths.len() ==> !same_path(#[trigger] paths[i], #[trigger] paths[j])
        }),
    decreases n,
{
    if n > 0 {
        law_selection_is_distinct(items, candidates, n - 1);
        let front = chosen(items, candidates, n - 1)->Ok_0;
        let paths = chosen(items, candidates, n)->Ok_0;
        assert forall|i: int, j: int| 0 <= i < j < paths.len() implies !same_path(
            #[trigger] paths[i],
            #[trigger] paths[j],
        ) by {
            assert(paths[i] == front[i]);
            if j < front.len() {
                assert(paths[j] == front[j]);
            } else {
                assert(!holds_path(front, paths[j]));
            }
        }
    }
}

// Plans.

/// What was found at a selected source.
#[derive(Debug)]
pub struct SourceFacts {
    /// The name in its skill file, or why that could not be read.
    pub name: Result<String, String>,
    /// What it is, or why that could not be seen.
    pub kind: Result<EntryKind, String>,
}

/// What was found where a plan points.
#[derive(Debug)]
pub struct PlanFacts {
    /// What the catalog root is, if it can be seen.
    pub root: Option<EntryKind>,
    /// The metadata of the catalog, or why it could not be read.
    pub metadata: Result<CatalogMetadata, String>,
    /// For each skill of the plan, in order.
    pub sources: Vec<SourceFacts>,
}

pub open spec fn is_global_target(target: MigrationTarget) -> bool {
    target is Global
}

/// Whether one of the first `n` skills has a source name.
pub open spec fn named_before(skills: Seq<MigrationSkill>, name: Text, n: int) -> bool {
    exists|i: int| 0 <= i < n && (#[trigger] skills[i]).source_name@ == name
}

/// Whether one of the first `n` skills has a legacy name.
pub open spec fn legacy_before(skills: Seq<MigrationSkill>, name: Text, n: int) -> bool {
    exists|i: int| 0 <= i < n && (#[trigger] skills[i]).legacy_installed_name@ == name
}

/// Why a skill of a plan is refused.
pub open spec fn skill_faults(plan: MigrationPlan, sources: Seq<SourceFacts>, scopes: Set<Text>) -> spec_fn(int) -> Option<Text> {
    |i: int|
        {
            let skill = plan.skills@[i];
            let facts = sources[i];
            match facts.name {
                Err(e) => Some(e@),
                Ok(found) => if !is_name(skill.source_name@) || named_before(
                    plan.skills@,
                    skill.source_name@,
                    i,
                ) {
                    Some("invalid or duplicate migration source name: "@ + skill.source_name@)
                } else if !scopes.contains(skill.scope@) {
                    Some("catalog has no scope named "@ + skill.scope@)
                } else if is_global_target(plan.target) && skill.gitignore {
                    Some(
                        "global migration skill "@ + skill.source_name@
                            + " cannot use Git-ignore state"@,
                    )
                } else {
                    match facts.kind {
                        Err(e) => Some(e@),
                        Ok(kind) => match leaf_of(skill.source@) {
                            None => Some("legacy source has no UTF-8 directory name"@),
                            Some(leaf) => if kind != EntryKind::Directory || leaf
                                != skill.legacy_installed_name@ || found@
                                != skill.legacy_installed_name@ || legacy_before(
                                plan.skills@,
                                skill.legacy_installed_name@,
                                i,
                            ) {
                                Some(
                                    "legacy name "@ + skill.legacy_installed_name@
                                        + " is not proven by selected source "@ + skill.source@,
                                )
                            } else {
                                None
                            },
                        },
                    }
                },
            }
        }
}

/// Why a plan is refused.
pub open spec fn plan_refusal(plan: MigrationPlan, facts: PlanFacts) -> Option<Text> {
    let root = plan.catalog.root@;
    if plan.version != 1 {
        Some(
            "unsupported migration plan version "@ + decimal(plan.version as nat)
                + "; expected 1"@,
        )
    } else if alias_refusal(plan.catalog.alias@) is Some {
        alias_refusal(plan.catalog.alias@)
    } else if agents_refusal(views(plan.agents@)) is Some {
        agents_refusal(views(plan.agents@))
    } else if trim(plan.catalog.source@).len() == 0 {
        Some("catalog source cannot be empty"@)
    } else if facts.root is None {
        Some("inspecting catalog root "@ + root)
    } else if facts.root != Some(EntryKind::Directory) {
        Some("catalog root must be a real directory: "@ + root)
    } else {
        match facts.metadata {
            Err(e) => Some(e@),
            Ok(metadata) => if schema_refusal(metadata.version, "catalog metadata"@) is Some {
                schema_refusal(metadata.version, "catalog metadata"@)
            } else if plan.skills@.len() == 0 {
                Some("migration plan must include at least one skill"@)
            } else {
                match first_refusal(
                    plan.skills@.len() as int,
                    skill_faults(plan, facts.sources@, metadata.scopes@.dom()),
                ) {
                    Some(e) => Some(e),
                    None => if plan.cleanup_legacy && !plan.install {
                        Some("legacy cleanup requires verified installation"@)
                    } else {
                        None
                    },
                }
            },
        }
    }
}

fn source_named(skills: &Vec<MigrationSkill>, name: &str, n: usize) -> (r: bool)
    requires
        n <= skills@.len(),
    ensures
        r == named_before(skills@, name@, n as int),
{
    let mut i: usize = 0;
    while i < n
        invariant
            i <= n <= skills@.len(),
            forall|j: int| 0 <= j < i ==> (#[trigger] skills@[j]).source_name@ != name@,
        decreases n - i,
    {
        if same(skills[i].source_name.as_str(), name) {
            return true;
        }
        i = i + 1;
    }
    false
}

fn legacy_named(skills: &Vec<MigrationSkill>, name: &str, n: usize) -> (r: bool)
    requires
        n <= skills@.len(),
    ensures
        r == legacy_before(skills@, name@, n as int),
{
    let mut i: usize = 0;
    while i < n
        invariant
            i <= n <= skills@.len(),
            forall|j: int| 0 <= j < i ==> (#[trigger] skills@[j]).legacy_installed_name@ != name@,
        decreases n - i,
    {
        if same(skills[i].legacy_installed_name.as_str(), name) {
            return true;
        }
        i = i + 1;
    }
    false
}

fn check_skill(plan: &MigrationPlan, facts: &PlanFacts, metadata: &CatalogMetadata, i: usize) -> (r: Result<
    (),
    Failure,
>)
    requires
        i < plan.skills@.len() == facts.sources@.len(),
    ensures
        refusal(r) == skill_faults(*plan, facts.sources@, metadata.scopes@.dom())(i as int),
{
    let skill = &plan.skills[i];
    let legacy = skill.legacy_installed_name.as_str();
    let found = match &facts.sources[i].name {
        Ok(found) => found.as_str(),
        Err(e) => return Err(Failure::new(e.clone())),
    };
    if !valid_name(skill.source_name.as_str()) || source_named(
        &plan.skills,
        skill.source_name.as_str(),
        i,
    ) {
        return Err(
            Failure::new(
                cat2(
                    "invalid or duplicate migration source name: ",
                    skill.source_name.as_str(),
                ),
            ),
        );
    }
    if !metadata.scopes.contains(skill.scope.as_str()) {
        return Err(Failure::new(cat2("catalog has no scope named ", skill.scope.as_str())));
    }
    let global = match &plan.target {
        MigrationTarget::Global => true,
        _ => false,
    };
    if global && skill.gitignore {
        return Err(
            Failure::new(
                cat3(
                    "global migration skill ",
                    skill.source_name.as_str(),
                    " cannot use Git-ignore state",
                ),
            ),
        );
    }
    let kind = match &facts.sources[i].kind {
        Ok(kind) => *kind,
        Err(e) => return Err(Failure::new(e.clone())),
    };
    let name = match leaf(skill.source.as_str()) {
        Some(name) => name,
        None => return Err(
            Failure::new(String::from_str("legacy source has no UTF-8 directory name")),
        ),
    };
    if kind != EntryKind::Directory || !same(name.as_str(), legacy) || !same(found, legacy)
        || legacy_named(&plan.skills, legacy, i) {
        return Err(
            Failure::new(
                cat4(
                    "legacy name ",
                    legacy,
                    " is not proven by selected source ",
                    skill.source.as_str(),
                ),
            ),
        );
    }
    Ok(())
}

/// Checks a plan against what was found where it points.
pub fn validate_plan(plan: &MigrationPlan, facts: &PlanFacts) -> (r: Result<(), Failure>)
    requires
        facts.sources@.len() == plan.skills@.len(),
    ensures
        refusal(r) == plan_refusal(*plan, *facts),
{
    if plan.version != 1 {
        return Err(
            Failure::new(
                cat3(
                    "unsupported migration plan version ",
                    decimal_of(plan.version as u64).as_str(),
                    "; expected 1",
                ),
            ),
        );
    }
    match validate_alias(plan.catalog.alias.as_str()) {
        Ok(_) => {},
        Err(f) => return Err(f),
    }
    match validate_agents(&plan.agents) {
        Ok(_) => {},
        Err(f) => return Err(f),
    }
    let source = trimmed(plan.catalog.source.as_str());
    if empty(source.as_str()) {
        return Err(Failure::new(String::from_str("catalog source cannot be empty")));
    }
    let root = plan.catalog.root.as_str();
    match facts.root {
        None => return Err(Failure::new(cat2("inspecting catalog root ", root))),
        Some(kind) => if kind != EntryKind::Directory {
            return Err(Failure::new(cat2("catalog root must be a real directory: ", root)));
        },
    }
    let metadata = match &facts.metadata {
        Ok(metadata) => metadata,
        Err(e) => return Err(Failure::new(e.clone())),
    };
    match validate_schema(metadata.version, "catalog metadata") {
        Ok(_) => {},
        Err(f) => return Err(f),
    }
    if plan.skills.len() == 0 {
        return Err(
            Failure::new(String::from_str("migration plan must include at least one skill")),
        );
    }
    let ghost faults = skill_faults(*plan, facts.sources@, metadata.scopes@.dom());
    let ghost count = plan.skills@.len() as int;
    let mut i: usize = 0;
    while i < plan.skills.len()
        invariant
            i <= plan.skills@.len() == facts.sources@.len(),
            count == plan.skills@.len(),
            faults == skill_faults(*plan, facts.sources@, metadata.scopes@.dom()),
            forall|j: int| 0 <= j < i ==> (#[trigger] faults(j)) is None,
            plan_refusal(*plan, *facts) == (match first_refusal(count, faults) {
                Some(e) => Some(e),
                None => if plan.cleanup_legacy && !plan.install {
                    Some("legacy cleanup requires verified installation"@)
                } else {
                    None
                },
            }),
        decreases plan.skills@.len() - i,
    {
        match check_skill(plan, facts, metadata, i) {
            Ok(_) => {},
            Err(f) => {
                proof {
                    lemma_first_refusal_some(count, faults, i as int);
                }
                return Err(f);
            },
        }
        assert(faults(i as int) is None);
        i = i + 1;
    }
    proof {
        lemma_first_refusal_none(count, faults);
    }
    if plan.cleanup_legacy && !plan.install {
        return Err(
            Failure::new(String::from_str("legacy cleanup requires verified installation")),
        );
    }
    Ok(())
}

/// A plan that is accepted removes only what its sources prove: each legacy name is that of
/// a selected directory and of its skill file, and no name stands twice.
pub proof fn law_accepted_plan_is_proven(plan: MigrationPlan, facts: PlanFacts, i: int)
    requires
        plan_refusal(plan, facts) is None,
        0 <= i < plan.skills@.len(),
    ensures
        facts.sources@[i].kind == Ok::<EntryKind, String>(EntryKind::Directory),
        leaf_of(plan.skills@[i].source@) == Some(plan.skills@[i].legacy_installed_name@),
        facts.sources@[i].name is Ok,
        facts.sources@[i].name->Ok_0@ == plan.skills@[i].legacy_installed_name@,
        is_name(plan.skills@[i].source_name@),
        forall|j: int|
            0 <= j < i ==> (#[trigger] plan.skills@[j]).source_name@ != plan.skills@[i].source_name@
                && plan.skills@[j].legacy_installed_name@ != plan.skills@[i].legacy_installed_name@,
        plan.cleanup_legacy ==> plan.install,
{
    let scopes = facts.metadata->Ok_0.scopes@.dom();
    let faults = skill_faults(plan, facts.sources@, scopes);
    crate::failure::lemma_first_refusal(plan.skills@.len() as int, faults);
    assert(faults(i) is None);
    assert forall|j: int| 0 <= j < i implies (#[trigger] plan.skills@[j]).source_name@
        != plan.skills@[i].source_name@ && plan.skills@[j].legacy_installed_name@
        != plan.skills@[i].legacy_installed_name@ by {
        assert(!named_before(plan.skills@, plan.skills@[i].source_name@, i));
        assert(!legacy_before(plan.skills@, plan.skills@[i].legacy_installed_name@, i));
    }
}

/// The plan to begin with, unless something stands at its path.
pub fn initialize(path: &str, occupied: bool, host: &HostAgent) -> (r: Result<MigrationPlan, Failure>)
    ensures
        match r {
            Err(f) => occupied && f@ == "refusing to replace existing migration plan: "@ + path@,
            Ok(plan) => {
                &&& !occupied
                &&& plan.version == 1
                &&& plan.catalog.alias@ == "pyg"@
                &&& plan.catalog.root@ == "/path/to/writable/catalog"@
                &&& plan.catalog.source@ == "owner/repository"@
                &&& plan.target is Global
                &&& views(plan.agents@) == builtin_agents(host@)
                &&& plan.skills@.len() == 1
                &&& plan.skills@[0].source@ == "/path/to/legacy/skill"@
                &&& plan.skills@[0].source_name@ == "skill"@
                &&& plan.skills@[0].scope@ == "engineering"@
                &&& plan.skills@[0].mode == SelectionMode::Enable
                &&& !plan.skills@[0].gitignore
                &&& plan.skills@[0].legacy_installed_name@ == "legacy-skill"@
                &&& plan.install
                &&& !plan.cleanup_legacy
            },
        },
{
    if occupied {
        return Err(Failure::new(cat2("refusing to replace existing migration plan: ", path)));
    }
    let mut skills: Vec<MigrationSkill> = Vec::new();
    skills.push(
        MigrationSkill {
            source: String::from_str("/path/to/legacy/skill"),
            source_name: String::from_str("skill"),
            scope: String::from_str("engineering"),
            mode: SelectionMode::Enable,
            gitignore: false,
            legacy_installed_name: String::from_str("legacy-skill"),
        },
    );
    Ok(
        MigrationPlan {
            version: 1,
            catalog: MigrationCatalog {
                alias: String::from_str("pyg"),
                root: String::from_str("/path/to/writable/catalog"),
                source: String::from_str("owner/repository"),
            },
            target: MigrationTarget::Global,
            agents: default_agents(host),
            skills,
            install: true,
            cleanup_legacy: false,
        },
    )
}

/// What is said of a plan that was created.
pub fn created_lines(path: &str) -> (r: (String, String))
    ensures
        r.0@ == "created "@ + path@,
        r.1@ == "next: skiller migrate --plan "@ + path@ + " --check"@,
{
    (cat2("created ", path), cat3("next: skiller migrate --plan ", path, " --check"))
}

// Questions.

/// What follows the check of a plan.
#[derive(Debug, Clone, Copy, PartialEq, Eq, Structural)]
pub enum PlanStep {
    Report,
    Ask,
    Apply,
}

pub fn run_plan(apply: bool, yes: bool) -> (r: PlanStep)
    ensures
        r == (if !apply {
            PlanStep::Report
        } else if yes {
            PlanStep::Apply
        } else {
            PlanStep::Ask
        }),
{
    if !apply {
        PlanStep::Report
    } else if yes {
        PlanStep::Apply
    } else {
        PlanStep::Ask
    }
}

pub fn valid_line(path: &str) -> (r: String)
    ensures
        r@ == "migration plan is valid; apply with `skiller migrate --plan "@ + path@
            + " --apply`"@,
{
    cat3("migration plan is valid; apply with `skiller migrate --plan ", path, " --apply`")
}

/// Reads an answer that must not be empty.
pub fn required_answer(message: &str, answer: &str) -> (r: Result<String, Failure>)
    ensures
        match r {
            Ok(value) => value@ == trim(answer@) && value@.len() > 0,
            Err(f) => trim(answer@).len() == 0 && f@ == "a value is required for "@ + message@,
        },
{
    let value = trimmed(answer);
    if empty(value.as_str()) {
        Err(Failure::new(cat2("a value is required for ", message)))
    } else {
        Ok(value)
    }
}

/// Reads an answer that has a default.
pub fn answer_or(answer: &str, default: &str) -> (r: String)
    ensures
        r@ == (if trim(answer@).len() == 0 {
            default@
        } else {
            trim(answer@)
        }),
{
    let value = trimmed(answer);
    if empty(value.as_str()) {
        default.to_owned()
    } else {
        value
    }
}

/// Reads the answer to a question of yes or no. Without a terminal there is nobody to ask.
pub fn confirm(terminal: bool, message: &str, answer: &str) -> (r: Result<bool, Failure>)
    ensures
        match r {
            Ok(agreed) => {
                let a = lower_text(trim(answer@));
                terminal && trim(answer@).len() > 0 && agreed == (a == "y"@ || a == "yes"@)
            },
            Err(f) => if !terminal {
                f@ == "noninteractive migration apply requires --yes"@
            } else {
                trim(answer@).len() == 0 && f@ == "a value is required for "@ + message@
            },
        },
{
    if !terminal {
        return Err(
            Failure::new(String::from_str("noninteractive migration apply requires --yes")),
        );
    }
    match required_answer(message, answer) {
        Ok(value) => {
            let a = lowered(value.as_str());
            Ok(same(a.as_str(), "y") || same(a.as_str(), "yes"))
        },
        Err(f) => Err(f),
    }
}

/// The answers about one skill.
#[derive(Debug)]
pub struct SkillAnswers {
    pub source: String,
    pub source_name: String,
    pub scope: String,
    pub mode: String,
    /// The answer about Git, where it was asked for.
    pub gitignore: String,
    pub legacy_installed_name: String,
}

pub open spec fn answered_mode(answer: Text) -> Result<SelectionMode, Text> {
    if answer == "enable"@ {
        Ok(SelectionMode::Enable)
    } else if answer == "manual"@ {
        Ok(SelectionMode::Manual)
    } else {
        Err("invalid mode: "@ + answer)
    }
}

/// The skill that the answers describe. Only a project can ignore one.
pub fn answered_skill(answers: &SkillAnswers, global: bool) -> (r: Result<MigrationSkill, Failure>)
    ensures
        match r {
            Ok(skill) => {
                &&& answered_mode(answers.mode@) == Ok::<SelectionMode, Text>(skill.mode)
                &&& skill.source@ == answers.source@
                &&& skill.source_name@ == answers.source_name@
                &&& skill.scope@ == answers.scope@
                &&& skill.gitignore == (!global && answers.gitignore@ == "yes"@)
                &&& skill.legacy_installed_name@ == answers.legacy_installed_name@
            },
            Err(f) => answered_mode(answers.mode@) == Err::<SelectionMode, Text>(f@),
        },
{
    let mode = if same(answers.mode.as_str(), "enable") {
        SelectionMode::Enable
    } else if same(answers.mode.as_str(), "manual") {
        SelectionMode::Manual
    } else {
        return Err(Failure::new(cat2("invalid mode: ", answers.mode.as_str())));
    };
    Ok(
        MigrationSkill {
            source: answers.source.clone(),
            source_name: answers.source_name.clone(),
            scope: answers.scope.clone(),
            mode,
            gitignore: !global && same(answers.gitignore.as_str(), "yes"),
            legacy_installed_name: answers.legacy_installed_name.clone(),
        },
    )
}

/// The answers about a whole migration.
#[derive(Debug)]
pub struct PlanAnswers {
    pub alias: String,
    pub root: String,
    pub source: String,
    pub target: String,
    pub project_root: String,
    pub agents: String,
    pub install: String,
    pub cleanup: String,
}

/// The plan that the answers describe.
pub fn answered_plan(answers: PlanAnswers, skills: Vec<MigrationSkill>) -> (r: MigrationPlan)
    ensures
        r.version == 1,
        r.catalog.alias@ == answers.alias@,
        r.catalog.root@ == answers.root@,
        r.catalog.source@ == answers.source@,
        if answers.target@ == "global"@ {
            r.target is Global
        } else {
            r.target matches MigrationTarget::Project { root } && root@ == answers.project_root@
        },
        views(r.agents@) == comma_list(answers.agents@),
        r.skills == skills,
        r.install == (answers.install@ == "yes"@),
        r.cleanup_legacy == (answers.cleanup@ == "yes"@),
{
    let agents = parse_list(answers.agents.as_str());
    let target = if same(answers.target.as_str(), "global") {
        MigrationTarget::Global
    } else {
        MigrationTarget::Project { root: answers.project_root }
    };
    MigrationPlan {
        version: 1,
        catalog: MigrationCatalog {
            alias: answers.alias,
            root: answers.root,
            source: answers.source,
        },
        target,
        agents,
        skills,
        install: same(answers.install.as_str(), "yes"),
        cleanup_legacy: same(answers.cleanup.as_str(), "yes"),
    }
}

// Applying a plan.

/// The configuration with the plan's catalog registered, unless its alias has another source.
pub fn register(config: &GlobalConfig, plan: &MigrationPlan) -> (r: Result<GlobalConfig, Failure>)
    ensures
        ({
            let alias = plan.catalog.alias@;
            let known = config.catalogs@.contains_key(alias);
            match r {
                Ok(now) => {
                    &&& known ==> config.catalogs@[alias].source@ == plan.catalog.source@
                        && now.catalogs@ == config.catalogs@
                    &&& !known ==> now.catalogs@.dom() == config.catalogs@.dom().insert(alias)
                        && now.catalogs@[alias].source@ == plan.catalog.source@
                        && now.catalogs@[alias].reference is None && crate::text::opt_view(
                        now.catalogs@[alias].authoring_root,
                    ) == Some(plan.catalog.root@) && forall|a: Text| #[trigger]
                        config.catalogs@.contains_key(a) ==> now.catalogs@[a] == config.catalogs@[a]
                    &&& now.version == config.version
                    &&& now.skills@ == config.skills@
                    &&& now.agents@ == config.agents@
                },
                Err(f) => known && config.catalogs@[alias].source@ != plan.catalog.source@ && f@
                    == "catalog alias "@ + alias + " is already registered to "@
                    + config.catalogs@[alias].source@,
            }
        }),
{
    let alias = plan.catalog.alias.as_str();
    let mut now = config.clone();
    match config.catalogs.get(alias) {
        Some(registration) => {
            if !same(registration.source.as_str(), plan.catalog.source.as_str()) {
                return Err(
                    Failure::new(
                        cat4(
                            "catalog alias ",
                            alias,
                            " is already registered to ",
                            registration.source.as_str(),
                        ),
                    ),
                );
            }
        },
        None => {
            let mut catalogs = config.catalogs.clone();
            assert(catalogs@ =~= config.catalogs@);
            catalogs.insert(
                plan.catalog.alias.clone(),
                CatalogRegistration {
                    source: plan.catalog.source.clone(),
                    reference: None,
                    authoring_root: Some(plan.catalog.root.clone()),
                },
            );
            assert(catalogs@.dom() =~= config.catalogs@.dom().insert(alias@));
            now = GlobalConfig {
                version: now.version,
                catalogs,
                skills: now.skills,
                agents: now.agents,
            };
        },
    }
    Ok(now)
}

/// The name that an addition brought: the first that is there now and was not before.
pub fn added_name(before: &CatalogMetadata, after: &CatalogMetadata) -> (r: Result<String, Failure>)
    ensures
        match r {
            Ok(name) => {
                let names = walk(after.skills@.dom());
                exists|i: int|
                    0 <= i < names.len() && #[trigger] names[i] == name@
                        && !before.skills@.contains_key(name@) && forall|j: int|
                        0 <= j < i ==> before.skills@.contains_key(#[trigger] names[j])
            },
            Err(f) => (forall|n: Text| #[trigger]
                after.skills@.contains_key(n) ==> before.skills@.contains_key(n)) && f@
                == "catalog migration did not add one skill"@,
        },
{
    let n: usize = after.skills.len();
    let ghost names = after.skills.names();
    proof {
        lemma_walk(names);
    }
    let mut i: usize = 0;
    while i < n
        invariant
            i <= n == names.len(),
            names == after.skills.names(),
            names == walk(after.skills@.dom()),
            after.skills.ordered(),
            forall|j: int| 0 <= j < i ==> before.skills@.contains_key(#[trigger] names[j]),
        decreases n - i,
    {
        let name = after.skills.name_at(i);
        if !before.skills.contains(name.as_str()) {
            assert(names[i as int] == name@);
            return Ok(name.clone());
        }
        i = i + 1;
    }
    proof {
        assert forall|k: Text| #[trigger]
            after.skills@.contains_key(k) implies before.skills@.contains_key(k) by {
            assert(names.to_set().contains(k));
            let j = names.index_of(k);
            assert(before.skills@.contains_key(names[j]));
        }
    }
    Err(Failure::new(String::from_str("catalog migration did not add one skill")))
}

/// The selections after the first `n` skills of a plan were added under `names`.
pub open spec fn migrated_skills(
    skills: Map<Text, SkillSelection>,
    alias: Text,
    added: Seq<MigrationSkill>,
    names: Seq<Text>,
    n: int,
) -> Map<Text, SkillSelection>
    decreases n,
{
    if n <= 0 {
        skills
    } else {
        migrated_skills(skills, alias, added, names, n - 1).insert(
            key_of(alias, names[n - 1]),
            selection_of(added[n - 1].mode, added[n - 1].gitignore),
        )
    }
}

/// The configuration that selects what was added, for the plan's agents.
pub fn migrated_manifest(manifest: &ProjectConfig, plan: &MigrationPlan, names: &Vec<String>) -> (r: ProjectConfig)
    requires
        names@.len() == plan.skills@.len(),
    ensures
        r.version == manifest.version,
        views(r.agents@) == views(plan.agents@),
        r.skills@ == migrated_skills(
            manifest.skills@,
            plan.catalog.alias@,
            plan.skills@,
            views(names@),
            names@.len() as int,
        ),
{
    let mut skills = manifest.skills.clone();
    assert(skills@ =~= manifest.skills@);
    let ghost all = views(names@);
    let mut i: usize = 0;
    while i < names.len()
        invariant
            i <= names@.len() == plan.skills@.len(),
            all == views(names@),
            skills@ == migrated_skills(
                manifest.skills@,
                plan.catalog.alias@,
                plan.skills@,
                all,
                i as int,
            ),
        decreases names@.len() - i,
    {
        assert(all[i as int] == names@[i as int]@);
        let key = cat3(plan.catalog.alias.as_str(), "/", names[i].as_str());
        assert(key@ =~= key_of(plan.catalog.alias@, all[i as int]));
        skills.insert(
            key,
            SkillSelection::from_parts(plan.skills[i].mode, plan.skills[i].gitignore),
        );
        i = i + 1;
    }
    ProjectConfig { version: manifest.version, skills, agents: copy_list(&plan.agents) }
}

/// A migration selects every skill that it added, and keeps every selection under another
/// key.
pub proof fn law_migration_keeps_selections(
    skills: Map<Text, SkillSelection>,
    alias: Text,
    added: Seq<MigrationSkill>,
    names: Seq<Text>,
    n: int,
    key: Text,
)
    requires
        0 <= n <= names.len(),
    ensures
        (forall|i: int| 0 <= i < n ==> key_of(alias, #[trigger] names[i]) != key) ==> (
        migrated_skills(skills, alias, added, names, n).contains_key(key) == skills.contains_key(
            key,
        ) && (skills.contains_key(key) ==> migrated_skills(skills, alias, added, names, n)[key]
            == skills[key])),
        forall|i: int|
            0 <= i < n ==> migrated_skills(skills, alias, added, names, n).contains_key(
                key_of(alias, #[trigger] names[i]),
            ),
    decreases n,
{
    if n > 0 {
        law_migration_keeps_selections(skills, alias, added, names, n - 1, key);
    }
}

/// A step of applying a plan.
#[derive(Debug, Clone, Copy, PartialEq, Eq, Structural)]
pub enum ApplyStep {
    /// Copy the sources to a preparation directory.
    Prepare,
    /// Add every prepared skill to the catalog.
    Add,
    /// Remove the preparation directory.
    CleanPrepared,
    /// Remove the preparation directory after an addition failed.
    CleanFailed,
    /// Read the catalog again.
    Scan,
    /// Write the configuration.
    Configure,
    /// Put the previous global configuration back.
    RestoreGlobal,
    /// Take the added skills out of the catalog.
    Rollback,
    Install,
    Cleanup,
    Done,
    Failed,
}

/// The step after one that was done, or that failed.
pub open spec fn apply_after(step: ApplyStep, done: bool, install: bool, cleanup: bool) -> ApplyStep {
    match step {
        ApplyStep::Prepare => if done {
            ApplyStep::Add
        } else {
            ApplyStep::Failed
        },
        ApplyStep::Add => if done {
            ApplyStep::CleanPrepared
        } else {
            ApplyStep::CleanFailed
        },
        ApplyStep::CleanPrepared => if !done {
            ApplyStep::Failed
        } else if install {
            ApplyStep::Scan
        } else {
            ApplyStep::Configure
        },
        ApplyStep::CleanFailed => ApplyStep::Rollback,
        ApplyStep::Scan => if done {
            ApplyStep::Configure
        } else {
            ApplyStep::Rollback
        },
        ApplyStep::Configure => if !done {
            ApplyStep::RestoreGlobal
        } else if install {
            ApplyStep::Install
        } else {
            ApplyStep::Done
        },
        ApplyStep::RestoreGlobal => ApplyStep::Rollback,
        ApplyStep::Rollback => ApplyStep::Failed,
        ApplyStep::Install => if !done {
            ApplyStep::Failed
        } else if cleanup {
            ApplyStep::Cleanup
        } else {
            ApplyStep::Done
        },
        ApplyStep::Cleanup => if done {
            ApplyStep::Done
        } else {
            ApplyStep::Failed
        },
        ApplyStep::Done => ApplyStep::Done,
        ApplyStep::Failed => ApplyStep::Failed,
    }
}

pub fn apply_plan(step: ApplyStep, done: bool, plan: &MigrationPlan) -> (r: ApplyStep)
    ensures
        r == apply_after(step, done, plan.install, plan.cleanup_legacy),
{
    match step {
        ApplyStep::Prepare => if done {
            ApplyStep::Add
        } else {
            ApplyStep::Failed
        },
        ApplyStep::Add => if done {
            ApplyStep::CleanPrepared
        } else {
            ApplyStep::CleanFailed
        },
        ApplyStep::CleanPrepared => if !done {
            ApplyStep::Failed
        } else if plan.install {
            ApplyStep::Scan
        } else {
            ApplyStep::Configure
        },
        ApplyStep::CleanFailed => ApplyStep::Rollback,
        ApplyStep::Scan => if done {
            ApplyStep::Configure
        } else {
            ApplyStep::Rollback
        },
        ApplyStep::Configure => if !done {
            ApplyStep::RestoreGlobal
        } else if plan.install {
            ApplyStep::Install
        } else {
            ApplyStep::Done
        },
        ApplyStep::RestoreGlobal => ApplyStep::Rollback,
        ApplyStep::Rollback => ApplyStep::Failed,
        ApplyStep::Install => if !done {
            ApplyStep::Failed
        } else if plan.cleanup_legacy {
            ApplyStep::Cleanup
        } else {
            ApplyStep::Done
        },
        ApplyStep::Cleanup => if done {
            ApplyStep::Done
        } else {
            ApplyStep::Failed
        },
        ApplyStep::Done => ApplyStep::Done,
        ApplyStep::Failed => ApplyStep::Failed,
    }
}

/// The step that is reached from `step` after `n` more, by the outcome of each.
pub open spec fn applied(
    step: ApplyStep,
    outcome: spec_fn(ApplyStep) -> bool,
    install: bool,
    cleanup: bool,
    n: nat,
) -> ApplyStep
    decreases n,
{
    if n == 0 {
        step
    } else {
        applied(
            apply_after(step, outcome(step), install, cleanup),
            outcome,
            install,
            cleanup,
            (n - 1) as nat,
        )
    }
}

/// Applying a plan always ends. An addition, a scan or a configuration that fails ends in
/// failure by way of the rollback, and legacy skills are cleaned up only after an
/// installation was verified.
pub proof fn law_failed_migration_is_rolled_back(
    outcome: spec_fn(ApplyStep) -> bool,
    install: bool,
    cleanup: bool,
)
    ensures
        ({
            let end = applied(ApplyStep::Prepare, outcome, install, cleanup, 8);
            end == ApplyStep::Done || end == ApplyStep::Failed
        }),
        !outcome(ApplyStep::Add) ==> applied(ApplyStep::Add, outcome, install, cleanup, 2)
            == ApplyStep::Rollback,
        !outcome(ApplyStep::Scan) ==> applied(ApplyStep::Scan, outcome, install, cleanup, 1)
            == ApplyStep::Rollback,
        !outcome(ApplyStep::Configure) ==> applied(
            ApplyStep::Configure,
            outcome,
            install,
            cleanup,
            2,
        ) == ApplyStep::Rollback,
        forall|step: ApplyStep|
            step != ApplyStep::Cleanup && #[trigger] apply_after(
                step,
                outcome(step),
                install,
                cleanup,
            ) == ApplyStep::Cleanup ==> step == ApplyStep::Install && outcome(step) && cleanup,
{
    reveal_with_fuel(applied, 9);
}

/// What is said once a plan is applied.
pub fn applied_lines(plan: &MigrationPlan) -> (r: (String, String))
    ensures
        r.0@ == "next: inspect and publish "@ + plan.catalog.root@,
        r.1@ == "then run `skiller doctor"@ + (if is_global_target(plan.target) {
            " -g"@
        } else {
            ""@
        }) + "`"@,
{
    let flag = match &plan.target {
        MigrationTarget::Global => " -g",
        _ => "",
    };
    (
        cat2("next: inspect and publish ", plan.catalog.root.as_str()),
        cat3("then run `skiller doctor", flag, "`"),
    )
}

} // verus!
