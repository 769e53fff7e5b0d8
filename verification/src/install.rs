//! Installing: what is checked before anything changes, the work that a run consists of, and
//! the order of its steps.

use vstd::prelude::*;
use crate::catalog::CatalogIndex;
use crate::failure::{
    first_refusal, first_where, lemma_first_refusal_none, lemma_first_refusal_some,
    lemma_first_where_none, lemma_first_where_some, refusal, Failure,
};
use crate::model::{
    is_name, lemma_take_all, lemma_take_set, schema_refusal, state_version_refusal, valid_name,
    validate_installed_state, validate_schema, InstalledSkill, InstalledSkillView, InstalledState,
    ProjectConfig, SkillSelection,
};
use crate::name_map::{lemma_walk, walk, NameMap, NameSet};
use crate::paths::{join_path, joined_path};
use crate::plan::{
    all_acyclic, all_coherent, forest, inputs, install_plan, removed_rows, row_views, InstallPlan,
};
use crate::resolve::{
    alias_of, all_closed, bad_key, catalogs_of, key_alias, key_parts, resolution, resolve_manifest,
    resolved_views, split_key, ResolvedSkill, ResolvedView,
};
use crate::text::{
    cat2, cat3, chars_of, contains, control, empty, is_control, same, trim, trimmed, views, Text,
};

verus! {

/// Where skills are installed.
#[derive(Debug, PartialEq, Eq)]
pub enum InstallScope {
    Project(String),
    Global,
}

impl InstallScope {
    pub fn is_global(&self) -> (r: bool)
        ensures
            r == (*self is Global),
    {
        match self {
            InstallScope::Global => true,
            InstallScope::Project(_) => false,
        }
    }
}

/// The paths that an installation works with.
#[derive(Debug, PartialEq, Eq)]
pub struct InstallPaths {
    pub state_path: String,
    pub transaction_path: String,
    pub work_root: String,
    pub command_root: String,
    pub state_prefix: String,
}

/// The directories that the paths are made from.
#[derive(Debug, PartialEq, Eq)]
pub struct InstallRoots {
    /// The private state of the current worktree.
    pub project_state: String,
    pub global_state_path: String,
    pub global_state: String,
    pub cache: String,
    pub home: String,
}

/// The paths of a scope.
pub fn install_paths(scope: &InstallScope, roots: &InstallRoots) -> (r: InstallPaths)
    ensures
        r.state_prefix@ == ".agents/skills"@,
        match scope {
            InstallScope::Project(root) => {
                &&& r.state_path@ == joined_path(roots.project_state@, "installed.json"@)
                &&& r.transaction_path@ == joined_path(roots.project_state@, "transaction.json"@)
                &&& r.work_root@ == roots.project_state@
                &&& r.command_root@ == root@
            },
            InstallScope::Global => {
                &&& r.state_path@ == roots.global_state_path@
                &&& r.transaction_path@ == joined_path(roots.global_state@, "transaction.json"@)
                &&& r.work_root@ == joined_path(roots.cache@, "install"@)
                &&& r.command_root@ == roots.home@
            },
        },
{
    match scope {
        InstallScope::Project(root) => InstallPaths {
            state_path: join_path(roots.project_state.as_str(), "installed.json"),
            transaction_path: join_path(roots.project_state.as_str(), "transaction.json"),
            work_root: roots.project_state.clone(),
            command_root: root.clone(),
            state_prefix: String::from_str(".agents/skills"),
        },
        InstallScope::Global => InstallPaths {
            state_path: roots.global_state_path.clone(),
            transaction_path: join_path(roots.global_state.as_str(), "transaction.json"),
            work_root: join_path(roots.cache.as_str(), "install"),
            command_root: roots.home.clone(),
            state_prefix: String::from_str(".agents/skills"),
        },
    }
}

#[derive(Debug, Clone, Copy, PartialEq, Eq, PartialOrd, Ord, Structural)]
pub enum TransactionPhase {
    P,
    I,
    V,
    C,
}

/// The record of an installation under way.
#[derive(Debug, PartialEq, Eq)]
pub struct TransactionJournal {
    pub v: u32,
    pub scope: String,
    pub phase: TransactionPhase,
    pub config: String,
    pub desired: Vec<String>,
    pub remove: Vec<String>,
}

// Unavailable catalogs.

/// Whether the catalog of a key is unavailable.
pub open spec fn is_held(key: Text, unavailable: Set<Text>) -> bool {
    alias_of(key) is Some && unavailable.contains(alias_of(key)->Some_0)
}

pub fn held(key: &str, unavailable: &NameSet) -> (r: bool)
    ensures
        r == is_held(key@, unavailable@),
{
    match key_alias(key) {
        Some(alias) => unavailable.contains(alias.as_str()),
        None => false,
    }
}

/// The selections whose catalog is at hand, or is not.
pub open spec fn selections_where(
    skills: Map<Text, SkillSelection>,
    unavailable: Set<Text>,
    on_hold: bool,
) -> Map<Text, SkillSelection> {
    Map::new(
        |k: Text| skills.contains_key(k) && is_held(k, unavailable) == on_hold,
        |k: Text| skills[k],
    )
}

fn keep_selections(skills: &NameMap<SkillSelection>, unavailable: &NameSet, on_hold: bool) -> (r: NameMap<
    SkillSelection,
>)
    ensures
        r@ == selections_where(skills@, unavailable@, on_hold),
        r.ordered(),
{
    let mut out: NameMap<SkillSelection> = NameMap::new();
    let n: usize = skills.len();
    let ghost keys = skills.names();
    let mut i: usize = 0;
    while i < n
        invariant
            i <= n == keys.len(),
            keys == skills.names(),
            skills.ordered(),
            out.ordered(),
            forall|k: Text| #[trigger]
                out@.contains_key(k) ==> skills@.contains_key(k) && out@[k] == skills@[k]
                    && is_held(k, unavailable@) == on_hold,
            forall|j: int|
                0 <= j < i && is_held(keys[j], unavailable@) == on_hold ==> out@.contains_key(
                    #[trigger] keys[j],
                ),
        decreases n - i,
    {
        let key = skills.name_at(i);
        if held(key.as_str(), unavailable) == on_hold {
            out.insert(key.clone(), *skills.value_at(i));
        }
        i = i + 1;
    }
    proof {
        let b = selections_where(skills@, unavailable@, on_hold);
        assert forall|k: Text| out@.contains_key(k) == b.contains_key(k) by {
            if b.contains_key(k) {
                assert(keys.to_set().contains(k));
                let j = keys.index_of(k);
                assert(out@.contains_key(keys[j]));
            }
        }
        assert(out@ =~= b);
    }
    out
}

/// The configuration without the selections whose catalog is unavailable.
pub fn manifest_without_unavailable(manifest: &ProjectConfig, unavailable: &NameSet) -> (r: ProjectConfig)
    ensures
        r.version == manifest.version,
        r.agents@ == manifest.agents@,
        r.skills@ == selections_where(manifest.skills@, unavailable@, false),
{
    ProjectConfig {
        version: manifest.version,
        skills: keep_selections(&manifest.skills, unavailable, false),
        agents: crate::text::copy_list(&manifest.agents),
    }
}

/// The configuration with `active` in place of the selections whose catalogs are at hand.
pub fn merge_active(manifest: &ProjectConfig, active: &NameMap<SkillSelection>, unavailable: &NameSet) -> (r: ProjectConfig)
    ensures
        r.version == manifest.version,
        r.agents@ == manifest.agents@,
        r.skills@ == selections_where(manifest.skills@, unavailable@, true).union_prefer_right(
            active@,
        ),
{
    let mut skills = keep_selections(&manifest.skills, unavailable, true);
    let ghost base = skills@;
    let n: usize = active.len();
    let ghost keys = active.names();
    let mut i: usize = 0;
    while i < n
        invariant
            i <= n == keys.len(),
            keys == active.names(),
            active.ordered(),
            forall|k: Text| #[trigger]
                skills@.contains_key(k) <==> base.contains_key(k) || keys.take(i as int).contains(k),
            forall|k: Text| #[trigger]
                skills@.contains_key(k) ==> skills@[k] == (if keys.take(i as int).contains(k) {
                    active@[k]
                } else {
                    base[k]
                }),
        decreases n - i,
    {
        let key = active.name_at(i);
        proof {
            lemma_take_set(keys, i as int);
            assert forall|k: Text|
                #[trigger] keys.take(i + 1).contains(k) == (keys.take(i as int).contains(k) || k
                    == keys[i as int]) by {
                assert(keys.take(i + 1).to_set().contains(k) == keys.take(
                    i as int,
                ).to_set().insert(keys[i as int]).contains(k));
            }
        }
        skills.insert(key.clone(), *active.value_at(i));
        i = i + 1;
    }
    proof {
        lemma_take_all(keys);
        assert forall|k: Text| #[trigger] active@.contains_key(k) == keys.contains(k) by {
            assert(active@.dom().contains(k) == keys.to_set().contains(k));
        }
        assert(skills@ =~= base.union_prefer_right(active@));
    }
    ProjectConfig {
        version: manifest.version,
        skills,
        agents: crate::text::copy_list(&manifest.agents),
    }
}

/// Filtering the selections by what is at hand and merging them back changes nothing, and a
/// selection whose catalog is unavailable stays as it is whatever is merged, unless it is
/// named there.
pub proof fn law_unavailable_selections_stay(
    skills: Map<Text, SkillSelection>,
    active: Map<Text, SkillSelection>,
    unavailable: Set<Text>,
    key: Text,
)
    ensures
        selections_where(skills, unavailable, true).union_prefer_right(
            selections_where(skills, unavailable, false),
        ) == skills,
        skills.contains_key(key) && is_held(key, unavailable) && !active.contains_key(key) ==> ({
            let merged = selections_where(skills, unavailable, true).union_prefer_right(active);
            merged.contains_key(key) && merged[key] == skills[key]
        }),
{
    assert(selections_where(skills, unavailable, true).union_prefer_right(
        selections_where(skills, unavailable, false),
    ) =~= skills);
}

/// Whether two sets of selections are the same.
pub fn same_selections(a: &NameMap<SkillSelection>, b: &NameMap<SkillSelection>) -> (r: bool)
    ensures
        r == (a@ == b@),
{
    let n: usize = a.len();
    let ghost keys = a.names();
    if n != b.len() {
        proof {
            if a@ == b@ {
                crate::name_map::lemma_ascending_unique(a.names(), b.names());
            }
        }
        return false;
    }
    let mut i: usize = 0;
    while i < n
        invariant
            i <= n == keys.len(),
            n == b.names().len(),
            keys == a.names(),
            a.ordered(),
            b.ordered(),
            forall|j: int|
                0 <= j < i ==> b.names()[j] == #[trigger] keys[j] && a@[keys[j]] == b@[keys[j]],
        decreases n - i,
    {
        if !same(a.name_at(i).as_str(), b.name_at(i).as_str()) {
            proof {
                if a@ == b@ {
                    crate::name_map::lemma_ascending_unique(a.names(), b.names());
                }
            }
            return false;
        }
        if *a.value_at(i) != *b.value_at(i) {
            return false;
        }
        i = i + 1;
    }
    proof {
        assert(keys =~= b.names());
        assert forall|k: Text| a@.contains_key(k) implies a@[k] == b@[k] by {
            assert(keys.to_set().contains(k));
            let j = keys.index_of(k);
            assert(a@[keys[j]] == b@[keys[j]]);
        }
        assert(a@ =~= b@);
    }
    true
}

// Checks.

pub open spec fn has_control(s: Text) -> bool {
    exists|i: int| 0 <= i < s.len() && is_control(#[trigger] s[i])
}

pub open spec fn is_agent_name(s: Text) -> bool {
    trim(s).len() > 0 && s == trim(s) && !has_control(s)
}

pub open spec fn same_as(list: Seq<Text>, i: int) -> spec_fn(int) -> bool {
    |j: int| list[j] == list[i]
}

pub open spec fn agent_faults(agents: Seq<Text>) -> spec_fn(int) -> Option<Text> {
    |i: int|
        if !is_agent_name(agents[i]) {
            Some("invalid empty or whitespace Vercel agent name"@)
        } else if first_where(i, same_as(agents, i)) is Some {
            Some("duplicate Vercel agent name: "@ + agents[i])
        } else {
            None
        }
}

/// Why a list of agents is refused.
pub open spec fn agents_refusal(agents: Seq<Text>) -> Option<Text> {
    if agents.len() == 0 {
        Some("skill configuration must select at least one Vercel agent"@)
    } else {
        first_refusal(agents.len() as int, agent_faults(agents))
    }
}

fn valid_agent_name(agent: &str) -> (r: bool)
    ensures
        r == is_agent_name(agent@),
{
    let bare = trimmed(agent);
    if empty(bare.as_str()) || !same(bare.as_str(), agent) {
        return false;
    }
    let v = chars_of(agent);
    let mut i: usize = 0;
    while i < v.len()
        invariant
            i <= v.len(),
            v@ == agent@,
            forall|j: int| 0 <= j < i ==> !is_control(#[trigger] agent@[j]),
        decreases v.len() - i,
    {
        if control(v[i]) {
            assert(is_control(agent@[i as int]));
            return false;
        }
        i = i + 1;
    }
    true
}

/// Checks that the agents are named, each once and without stray characters.
pub fn validate_agents(agents: &Vec<String>) -> (r: Result<(), Failure>)
    ensures
        refusal(r) == agents_refusal(views(agents@)),
{
    let ghost all = views(agents@);
    if agents.len() == 0 {
        return Err(
            Failure::new(
                String::from_str("skill configuration must select at least one Vercel agent"),
            ),
        );
    }
    let ghost faults = agent_faults(all);
    let ghost n = all.len() as int;
    let mut i: usize = 0;
    while i < agents.len()
        invariant
            i <= agents.len(),
            agents@.len() > 0,
            all == views(agents@),
            n == all.len(),
            faults == agent_faults(all),
            forall|j: int| 0 <= j < i ==> (#[trigger] faults(j)) is None,
        decreases agents.len() - i,
    {
        let agent = agents[i].as_str();
        assert(all[i as int] == agent@);
        if !valid_agent_name(agent) {
            proof {
                assert(faults(i as int) is Some);
                lemma_first_refusal_some(n, faults, i as int);
            }
            return Err(
                Failure::new(String::from_str("invalid empty or whitespace Vercel agent name")),
            );
        }
        let ghost twin = same_as(all, i as int);
        let mut j: usize = 0;
        while j < i
            invariant
                j <= i < agents.len(),
                agents@.len() > 0,
                all == views(agents@),
                n == all.len(),
                agent@ == all[i as int],
                is_agent_name(agent@),
                faults == agent_faults(all),
                twin == same_as(all, i as int),
                forall|k: int| 0 <= k < j ==> !#[trigger] twin(k),
                forall|k: int| 0 <= k < i ==> (#[trigger] faults(k)) is None,
            decreases i - j,
        {
            assert(all[j as int] == agents@[j as int]@);
            if same(agents[j].as_str(), agent) {
                proof {
                    assert(twin(j as int));
                    lemma_first_where_some(i as int, twin, j as int);
                    assert(faults(i as int) is Some);
                    lemma_first_refusal_some(n, faults, i as int);
                }
                return Err(Failure::new(cat2("duplicate Vercel agent name: ", agent)));
            }
            assert(!twin(j as int));
            j = j + 1;
        }
        proof {
            lemma_first_where_none(i as int, twin);
            assert(faults(i as int) is None);
        }
        i = i + 1;
    }
    proof {
        lemma_first_refusal_none(n, faults);
    }
    Ok(())
}

/// Why one recorded skill is refused.
pub open spec fn owned_fault(key: Text, skill: InstalledSkillView, prefix: Text) -> Option<Text> {
    if key_parts(key) is None {
        Some(bad_key(key))
    } else if !is_name(skill.installed_name) {
        Some("installed state contains an unsafe owned name: "@ + skill.installed_name)
    } else {
        match skill.legacy_path {
            Some(path) if path != prefix + "/"@ + skill.installed_name => Some(
                "installed state contains an unsafe owned path: "@ + path,
            ),
            _ => None,
        }
    }
}

pub open spec fn owned_faults(skills: Map<Text, InstalledSkillView>, prefix: Text) -> spec_fn(int) -> Option<Text> {
    |i: int| owned_fault(walk(skills.dom())[i], skills[walk(skills.dom())[i]], prefix)
}

/// Why recorded ownership is refused: the first record in key order that is not safe.
pub open spec fn owned_refusal(skills: Map<Text, InstalledSkillView>, prefix: Text) -> Option<Text> {
    first_refusal(walk(skills.dom()).len() as int, owned_faults(skills, prefix))
}

pub fn validate_owned_state(state: &InstalledState, prefix: &str) -> (r: Result<(), Failure>)
    ensures
        refusal(r) == owned_refusal(state@.skills, prefix@),
{
    let n: usize = state.skills.len();
    let ghost keys = state.skills.names();
    let ghost skills = state@.skills;
    proof {
        assert(skills.dom() =~= state.skills@.dom());
        lemma_walk(keys);
    }
    let ghost faults = owned_faults(skills, prefix@);
    let mut i: usize = 0;
    while i < n
        invariant
            i <= n == keys.len(),
            keys == state.skills.names(),
            keys == walk(skills.dom()),
            skills == state@.skills,
            faults == owned_faults(skills, prefix@),
            forall|j: int| 0 <= j < i ==> (#[trigger] faults(j)) is None,
        decreases n - i,
    {
        let key = state.skills.name_at(i);
        let skill = state.skills.value_at(i);
        assert(skills[keys[i as int]] == skill@);
        match split_key(key.as_str()) {
            Ok(_) => {},
            Err(f) => {
                proof {
                    assert(faults(i as int) is Some);
                    lemma_first_refusal_some(n as int, faults, i as int);
                }
                return Err(f);
            },
        }
        if !valid_name(skill.installed_name.as_str()) {
            proof {
                assert(faults(i as int) is Some);
                lemma_first_refusal_some(n as int, faults, i as int);
            }
            return Err(
                Failure::new(
                    cat2(
                        "installed state contains an unsafe owned name: ",
                        skill.installed_name.as_str(),
                    ),
                ),
            );
        }
        match &skill.legacy_path {
            Some(path) => {
                let expected = cat3(prefix, "/", skill.installed_name.as_str());
                if !same(path.as_str(), expected.as_str()) {
                    proof {
                        assert(faults(i as int) is Some);
                        lemma_first_refusal_some(n as int, faults, i as int);
                    }
                    return Err(
                        Failure::new(
                            cat2(
                                "installed state contains an unsafe owned path: ",
                                path.as_str(),
                            ),
                        ),
                    );
                }
            },
            None => {},
        }
        assert(faults(i as int) is None);
        i = i + 1;
    }
    proof {
        lemma_first_refusal_none(n as int, faults);
    }
    Ok(())
}

// Before anything changes.

/// Why an installation does not begin.
pub open spec fn start_refusal(
    manifest: ProjectConfig,
    active: ProjectConfig,
    catalogs: Map<Text, CatalogIndex>,
    previous: InstalledState,
    prefix: Text,
    global: bool,
) -> Option<Text> {
    match schema_refusal(manifest.version, "skill config"@) {
        Some(m) => Some(m),
        None => match agents_refusal(views(manifest.agents@)) {
            Some(m) => Some(m),
            None => match state_version_refusal(previous.version) {
                Some(m) => Some(m),
                None => match owned_refusal(previous@.skills, prefix) {
                    Some(m) => Some(m),
                    None => match resolution(catalogs_of(catalogs), active.skills@, global) {
                        Err(m) => Some(m),
                        Ok(_) => None,
                    },
                },
            },
        },
    }
}

/// Checks the configuration and the recorded state, and resolves and plans what is active.
pub fn begin_install<'a>(
    manifest: &ProjectConfig,
    active: &ProjectConfig,
    catalogs: &'a NameMap<CatalogIndex>,
    previous: &InstalledState,
    prefix: &str,
    global: bool,
    unavailable: &NameSet,
) -> (r: Result<(Vec<ResolvedSkill<'a>>, InstallPlan), Failure>)
    requires
        all_closed(catalogs_of(catalogs@)),
        all_acyclic(catalogs_of(catalogs@)),
    ensures
        match r {
            Ok((resolved, plan)) => {
                &&& start_refusal(*manifest, *active, catalogs@, *previous, prefix@, global) is None
                &&& resolution(catalogs_of(catalogs@), active.skills@, global) == Ok::<
                    Seq<ResolvedView>,
                    Text,
                >(resolved_views(resolved@))
                &&& all_coherent(resolved@, catalogs@)
                &&& row_views(plan.rows@) == forest(
                    inputs(*active, catalogs@, resolved@, *previous),
                    walk(active.skills@.dom()),
                    walk(active.skills@.dom()).len() as int,
                )
                &&& views(plan.removals@) == removed_rows(
                    resolved_views(resolved@),
                    unavailable@,
                    previous@.skills,
                    walk(previous.skills@.dom()),
                    walk(previous.skills@.dom()).len() as int,
                )
            },
            Err(f) => start_refusal(*manifest, *active, catalogs@, *previous, prefix@, global)
                == Some(f@),
        },
{
    match validate_schema(manifest.version, "skill config") {
        Ok(_) => {},
        Err(f) => return Err(f),
    }
    match validate_agents(&manifest.agents) {
        Ok(_) => {},
        Err(f) => return Err(f),
    }
    match validate_installed_state(previous.version) {
        Ok(_) => {},
        Err(f) => return Err(f),
    }
    match validate_owned_state(previous, prefix) {
        Ok(_) => {},
        Err(f) => return Err(f),
    }
    let resolved = match resolve_manifest(active, catalogs, global) {
        Ok(resolved) => resolved,
        Err(f) => return Err(f),
    };
    let plan = install_plan(active, catalogs, &resolved, previous, unavailable);
    Ok((resolved, plan))
}

pub open spec fn scope_code(global: bool) -> Text {
    if global {
        "g"@
    } else {
        "p"@
    }
}

pub open spec fn doctor_flag(global: bool) -> Text {
    if global {
        " -g"@
    } else {
        ""@
    }
}

/// Whether some resolved skill is installed under a name.
pub open spec fn is_desired(resolved: Seq<ResolvedView>, name: Text) -> bool {
    exists|i: int| 0 <= i < resolved.len() && (#[trigger] resolved[i]).installed_name == name
}

fn desired_name(resolved: &Vec<ResolvedSkill<'_>>, name: &str) -> (r: bool)
    ensures
        r == is_desired(resolved_views(resolved@), name@),
{
    let ghost list = resolved_views(resolved@);
    let mut i: usize = 0;
    while i < resolved.len()
        invariant
            i <= resolved.len(),
            list == resolved_views(resolved@),
            forall|j: int| 0 <= j < i ==> (#[trigger] list[j]).installed_name != name@,
        decreases resolved.len() - i,
    {
        assert(list[i as int] == resolved@[i as int]@);
        if same(resolved[i].installed_name.as_str(), name) {
            return true;
        }
        i = i + 1;
    }
    false
}

/// Whether an unfinished transaction is the one that this run would repeat.
pub open spec fn resumable(journal: TransactionJournal, resolved: Seq<ResolvedView>, global: bool, fingerprint: Text) -> bool {
    &&& journal.v == 1
    &&& journal.scope@ == scope_code(global)
    &&& journal.config@ == fingerprint
    &&& forall|i: int|
        0 <= i < journal.desired@.len() ==> is_desired(resolved, #[trigger] views(journal.desired@)[i])
}

fn can_resume(journal: &TransactionJournal, resolved: &Vec<ResolvedSkill<'_>>, global: bool, fingerprint: &str) -> (r: bool)
    ensures
        r == resumable(*journal, resolved_views(resolved@), global, fingerprint@),
{
    let code = if global {
        "g"
    } else {
        "p"
    };
    if journal.v != 1 || !same(journal.scope.as_str(), code) || !same(
        journal.config.as_str(),
        fingerprint,
    ) {
        return false;
    }
    let mut i: usize = 0;
    while i < journal.desired.len()
        invariant
            i <= journal.desired.len(),
            forall|j: int|
                0 <= j < i ==> is_desired(
                    resolved_views(resolved@),
                    #[trigger] views(journal.desired@)[j],
                ),
        decreases journal.desired.len() - i,
    {
        if !desired_name(resolved, journal.desired[i].as_str()) {
            assert(!is_desired(resolved_views(resolved@), views(journal.desired@)[i as int]));
            return false;
        }
        i = i + 1;
    }
    true
}

/// What an admitted run starts from.
#[derive(Debug)]
pub struct Admission {
    /// Names that may be replaced though nothing records them.
    pub replacement_owned: NameSet,
    pub recovering: bool,
    /// The records that stay because their catalog is unavailable.
    pub preserved: NameMap<InstalledSkill>,
}

/// The records whose catalog is unavailable.
pub open spec fn preserved_records(previous: Map<Text, InstalledSkill>, unavailable: Set<Text>) -> Map<Text, InstalledSkill> {
    Map::new(
        |k: Text| previous.contains_key(k) && is_held(k, unavailable),
        |k: Text| previous[k],
    )
}

/// Whether a preserved record has a name.
pub open spec fn is_reserved(preserved: Map<Text, InstalledSkill>, name: Text) -> bool {
    exists|k: Text| preserved.contains_key(k) && (#[trigger] preserved[k]).installed_name@ == name
}

pub open spec fn reserved_at(resolved: Seq<ResolvedView>, preserved: Map<Text, InstalledSkill>) -> spec_fn(int) -> bool {
    |i: int| is_reserved(preserved, resolved[i].installed_name)
}

/// Why a planned installation is not admitted.
pub open spec fn admission_refusal(
    resolved: Seq<ResolvedView>,
    previous: Map<Text, InstalledSkill>,
    unavailable: Set<Text>,
    pending: Option<TransactionJournal>,
    fingerprint: Text,
    global: bool,
) -> Option<Text> {
    if pending is Some && !resumable(pending->Some_0, resolved, global, fingerprint) {
        Some(
            "unfinished transaction is not safe for inline recovery; run `skiller doctor"@
                + doctor_flag(global) + "`"@,
        )
    } else {
        match first_where(
            resolved.len() as int,
            reserved_at(resolved, preserved_records(previous, unavailable)),
        ) {
            Some(i) => Some(
                "installed skill name collision: unavailable catalog owns "@
                    + resolved[i].installed_name,
            ),
            None => None,
        }
    }
}

fn keep_preserved(previous: &NameMap<InstalledSkill>, unavailable: &NameSet) -> (r: NameMap<InstalledSkill>)
    ensures
        r@ == preserved_records(previous@, unavailable@),
        r.ordered(),
{
    let mut out: NameMap<InstalledSkill> = NameMap::new();
    let n: usize = previous.len();
    let ghost keys = previous.names();
    let mut i: usize = 0;
    while i < n
        invariant
            i <= n == keys.len(),
            keys == previous.names(),
            previous.ordered(),
            out.ordered(),
            forall|k: Text| #[trigger]
                out@.contains_key(k) ==> previous@.contains_key(k) && out@[k] == previous@[k]
                    && is_held(k, unavailable@),
            forall|j: int|
                0 <= j < i && is_held(keys[j], unavailable@) ==> out@.contains_key(
                    #[trigger] keys[j],
                ),
        decreases n - i,
    {
        let key = previous.name_at(i);
        if held(key.as_str(), unavailable) {
            out.insert(key.clone(), previous.value_at(i).clone());
        }
        i = i + 1;
    }
    proof {
        let b = preserved_records(previous@, unavailable@);
        assert forall|k: Text| out@.contains_key(k) == b.contains_key(k) by {
            if b.contains_key(k) {
                assert(keys.to_set().contains(k));
                let j = keys.index_of(k);
                assert(out@.contains_key(keys[j]));
            }
        }
        assert(out@ =~= b);
    }
    out
}

fn reserves(preserved: &NameMap<InstalledSkill>, name: &str) -> (r: bool)
    ensures
        r == is_reserved(preserved@, name@),
{
    let n: usize = preserved.len();
    let ghost keys = preserved.names();
    let mut i: usize = 0;
    while i < n
        invariant
            i <= n == keys.len(),
            keys == preserved.names(),
            preserved.ordered(),
            forall|j: int|
                0 <= j < i ==> preserved@[#[trigger] keys[j]].installed_name@ != name@,
        decreases n - i,
    {
        let skill = preserved.value_at(i);
        let key = preserved.name_at(i);
        if same(skill.installed_name.as_str(), name) {
            assert(preserved@[key@].installed_name@ == name@);
            return true;
        }
        i = i + 1;
    }
    proof {
        assert forall|k: Text| preserved@.contains_key(k) implies (
        #[trigger] preserved@[k]).installed_name@ != name@ by {
            assert(keys.to_set().contains(k));
            let j = keys.index_of(k);
            assert(preserved@[keys[j]].installed_name@ != name@);
        }
    }
    false
}

/// The names of a list as members.
pub open spec fn members(list: Seq<Text>) -> Set<Text> {
    list.to_set()
}

fn insert_all(set: &mut NameSet, list: &Vec<String>)
    ensures
        final(set)@ == old(set)@.union(members(views(list@))),
{
    let ghost start = set@;
    let ghost all = views(list@);
    let mut i: usize = 0;
    assert(start.union(all.take(0).to_set()) =~= start);
    while i < list.len()
        invariant
            i <= list.len(),
            all == views(list@),
            set@ == start.union(all.take(i as int).to_set()),
        decreases list.len() - i,
    {
        proof {
            lemma_take_set(all, i as int);
        }
        let _ = set.insert(list[i].clone());
        i = i + 1;
        assert(set@ =~= start.union(all.take(i as int).to_set()));
    }
    assert(all.take(i as int) =~= all);
}

/// Admits a planned installation: an unfinished transaction must be the same one, and no name
/// may belong to an unavailable catalog.
pub fn admit_install(
    resolved: &Vec<ResolvedSkill<'_>>,
    previous: &InstalledState,
    replacement_owned: &NameSet,
    recovering: bool,
    unavailable: &NameSet,
    pending: Option<&TransactionJournal>,
    fingerprint: &str,
    global: bool,
) -> (r: Result<Admission, Failure>)
    ensures
        ({
            let journal = match pending {
                Some(j) => Some(*j),
                None => None,
            };
            let why = admission_refusal(
                resolved_views(resolved@),
                previous.skills@,
                unavailable@,
                journal,
                fingerprint@,
                global,
            );
            match r {
                Ok(admission) => {
                    &&& why is None
                    &&& admission.recovering == (recovering || pending is Some)
                    &&& admission.preserved@ == preserved_records(previous.skills@, unavailable@)
                    &&& admission.replacement_owned@ == match pending {
                        Some(j) => replacement_owned@.union(members(views(j.desired@))).union(
                            members(views(j.remove@)),
                        ),
                        None => replacement_owned@,
                    }
                },
                Err(f) => why == Some(f@),
            }
        }),
{
    let mut owned = replacement_owned.clone();
    let mut resuming = recovering;
    match pending {
        Some(journal) => {
            if !can_resume(journal, resolved, global, fingerprint) {
                return Err(
                    Failure::new(
                        cat3(
                            "unfinished transaction is not safe for inline recovery; run `skiller doctor",
                            if global { " -g" } else { "" },
                            "`",
                        ),
                    ),
                );
            }
            insert_all(&mut owned, &journal.desired);
            insert_all(&mut owned, &journal.remove);
            resuming = true;
        },
        None => {},
    }
    let preserved = keep_preserved(&previous.skills, unavailable);
    let ghost list = resolved_views(resolved@);
    let ghost taken = reserved_at(list, preserved@);
    let mut i: usize = 0;
    while i < resolved.len()
        invariant
            i <= resolved.len(),
            list == resolved_views(resolved@),
            preserved@ == preserved_records(previous.skills@, unavailable@),
            taken == reserved_at(list, preserved@),
            forall|j: int| 0 <= j < i ==> !#[trigger] taken(j),
            pending matches Some(j) ==> resumable(*j, list, global, fingerprint@),
        decreases resolved.len() - i,
    {
        assert(list[i as int] == resolved@[i as int]@);
        if reserves(&preserved, resolved[i].installed_name.as_str()) {
            proof {
                assert(taken(i as int));
                lemma_first_where_some(list.len() as int, taken, i as int);
            }
            return Err(
                Failure::new(
                    cat2(
                        "installed skill name collision: unavailable catalog owns ",
                        resolved[i].installed_name.as_str(),
                    ),
                ),
            );
        }
        assert(!taken(i as int));
        i = i + 1;
    }
    proof {
        lemma_first_where_none(list.len() as int, taken);
    }
    Ok(Admission { replacement_owned: owned, recovering: resuming, preserved })
}

} // verus!
