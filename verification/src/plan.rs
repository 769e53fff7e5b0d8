//! The plan shown before an installation: one row for each skill, with its dependencies as a
//! tree below it.

use vstd::prelude::*;
use vstd::set_lib::lemma_len_subset;
use crate::catalog::{requirements, CatalogIndex};
use crate::columns::{blanks, less, pad_measured};
use crate::graph::{acyclic, is_cycle, is_path};
use crate::model::{
    selected_mode, InstalledSkill, InstalledSkillView, InstalledState, ProjectConfig,
    SelectionMode, SkillSelection, SCHEMA_VERSION,
};
use crate::name_map::{lemma_walk, walk, NameMap, NameSet};
use crate::output::{is_painted, HumanOutput, Tone};
use crate::outside::{columns_of, text_columns};
use crate::resolve::{
    alias_of, all_closed, catalogs_of, coherent, find_skill, key_alias, key_of, key_parts, lookup,
    resolution, resolve_manifest, resolved_views, selection_at, skill_at, Catalogs, ResolvedSkill,
    ResolvedView,
};
use crate::text::{cat2, cat3, decimal, decimal_of, join, joined, plural, same, views, Text};

verus! {

/// What installing a row will do.
#[derive(Debug, Clone, Copy, PartialEq, Eq, Structural)]
pub enum InstallPlanChange {
    New,
    Update,
    Current,
}

pub open spec fn change_label(change: InstallPlanChange) -> Text {
    match change {
        InstallPlanChange::New => "new"@,
        InstallPlanChange::Update => "update"@,
        InstallPlanChange::Current => "current"@,
    }
}

pub open spec fn change_tone(change: InstallPlanChange) -> Tone {
    match change {
        InstallPlanChange::New => Tone::Success,
        InstallPlanChange::Update => Tone::Warning,
        InstallPlanChange::Current => Tone::Muted,
    }
}

impl InstallPlanChange {
    pub fn label(self) -> (r: &'static str)
        ensures
            r@ == change_label(self),
    {
        match self {
            InstallPlanChange::New => "new",
            InstallPlanChange::Update => "update",
            InstallPlanChange::Current => "current",
        }
    }

    pub fn tone(self) -> (r: Tone)
        ensures
            r == change_tone(self),
    {
        match self {
            InstallPlanChange::New => Tone::Success,
            InstallPlanChange::Update => Tone::Warning,
            InstallPlanChange::Current => Tone::Muted,
        }
    }
}

/// Why a row is in the plan.
#[derive(Debug, Clone, Copy, PartialEq, Eq, Structural)]
pub enum InstallPlanState {
    Configured(SelectionMode),
    Dependency,
}

pub open spec fn mode_label(mode: SelectionMode) -> Text {
    match mode {
        SelectionMode::Enable => "Agent + Human"@,
        SelectionMode::Manual => "Human only"@,
    }
}

pub fn selection_mode_label(mode: SelectionMode) -> (r: &'static str)
    ensures
        r@ == mode_label(mode),
{
    match mode {
        SelectionMode::Enable => "Agent + Human",
        SelectionMode::Manual => "Human only",
    }
}

pub open spec fn state_label(state: InstallPlanState) -> Text {
    match state {
        InstallPlanState::Configured(mode) => mode_label(mode),
        InstallPlanState::Dependency => "dependency"@,
    }
}

pub open spec fn state_tone(state: InstallPlanState) -> Tone {
    match state {
        InstallPlanState::Configured(SelectionMode::Enable) => Tone::Success,
        InstallPlanState::Configured(SelectionMode::Manual) => Tone::Warning,
        InstallPlanState::Dependency => Tone::Muted,
    }
}

impl InstallPlanState {
    pub fn label(self) -> (r: String)
        ensures
            r@ == state_label(self),
    {
        match self {
            InstallPlanState::Configured(mode) => selection_mode_label(mode).to_owned(),
            InstallPlanState::Dependency => "dependency".to_owned(),
        }
    }

    pub fn tone(self) -> (r: Tone)
        ensures
            r == state_tone(self),
    {
        match self {
            InstallPlanState::Configured(SelectionMode::Enable) => Tone::Success,
            InstallPlanState::Configured(SelectionMode::Manual) => Tone::Warning,
            InstallPlanState::Dependency => Tone::Muted,
        }
    }
}

/// One row of the plan. `branch` holds only the tree glyphs before the name.
#[derive(Debug, PartialEq, Eq)]
pub struct InstallPlanRow {
    pub branch: String,
    pub name: String,
    pub state: InstallPlanState,
    pub change: InstallPlanChange,
}

/// A row in contracts.
pub struct RowView {
    pub branch: Text,
    pub name: Text,
    pub state: InstallPlanState,
    pub change: InstallPlanChange,
}

impl View for InstallPlanRow {
    type V = RowView;

    open spec fn view(&self) -> RowView {
        RowView {
            branch: self.branch@,
            name: self.name@,
            state: self.state,
            change: self.change,
        }
    }
}

pub open spec fn row_views(rows: Seq<InstallPlanRow>) -> Seq<RowView> {
    Seq::new(rows.len(), |i: int| rows[i]@)
}

#[derive(Debug, PartialEq, Eq)]
pub struct InstallPlan {
    pub rows: Vec<InstallPlanRow>,
    pub removals: Vec<String>,
}

/// Whether a recorded skill differs from what is to be installed in its name, mode, ignore
/// flag or digest.
pub open spec fn differs(installed: InstalledSkillView, desired: ResolvedView) -> bool {
    ||| installed.installed_name != desired.installed_name
    ||| installed.mode != desired.mode
    ||| installed.gitignore != desired.gitignore
    ||| installed.digest != Some(desired.digest)
}

pub fn is_stale(installed: &InstalledSkill, desired: &ResolvedSkill<'_>) -> (r: bool)
    ensures
        r == differs(installed@, desired@),
{
    if !same(installed.installed_name.as_str(), desired.installed_name.as_str())
        || installed.mode != desired.mode || installed.gitignore != desired.gitignore {
        return true;
    }
    match &installed.digest {
        Some(d) => !same(d.as_str(), desired.digest.as_str()),
        None => true,
    }
}

pub open spec fn change_of(previous: Map<Text, InstalledSkillView>, desired: ResolvedView) -> InstallPlanChange {
    if !previous.contains_key(desired.key) {
        InstallPlanChange::New
    } else if differs(previous[desired.key], desired) {
        InstallPlanChange::Update
    } else {
        InstallPlanChange::Current
    }
}

pub fn install_change(previous: &InstalledState, skill: &ResolvedSkill<'_>) -> (r: InstallPlanChange)
    ensures
        r == change_of(previous@.skills, skill@),
{
    match previous.skills.get(skill.key.as_str()) {
        None => InstallPlanChange::New,
        Some(installed) => if is_stale(installed, skill) {
            InstallPlanChange::Update
        } else {
            InstallPlanChange::Current
        },
    }
}

// The tree.

/// The position of the last resolved skill with a key.
pub open spec fn last_with(rs: Seq<ResolvedView>, key: Text) -> Option<int>
    decreases rs.len(),
{
    if rs.len() == 0 {
        None
    } else if rs.last().key == key {
        Some(rs.len() - 1)
    } else {
        last_with(rs.drop_last(), key)
    }
}

proof fn lemma_last_with(rs: Seq<ResolvedView>, key: Text)
    ensures
        match last_with(rs, key) {
            Some(i) => 0 <= i < rs.len() && rs[i].key == key,
            None => forall|j: int| 0 <= j < rs.len() ==> (#[trigger] rs[j]).key != key,
        },
    decreases rs.len(),
{
    if rs.len() > 0 && rs.last().key != key {
        lemma_last_with(rs.drop_last(), key);
        if last_with(rs, key) is None {
            assert forall|j: int| 0 <= j < rs.len() implies (#[trigger] rs[j]).key != key by {
                if j < rs.len() - 1 {
                    assert(rs.drop_last()[j] == rs[j]);
                }
            }
        }
    }
}

pub fn find_resolved(resolved: &Vec<ResolvedSkill<'_>>, key: &str) -> (r: Option<usize>)
    ensures
        match r {
            Some(i) => last_with(resolved_views(resolved@), key@) == Some(i as int) && i
                < resolved@.len() && resolved@[i as int].key@ == key@,
            None => last_with(resolved_views(resolved@), key@) is None,
        },
{
    let ghost rs = resolved_views(resolved@);
    let mut i: usize = resolved.len();
    assert(rs.take(rs.len() as int) =~= rs);
    while i > 0
        invariant
            i <= resolved.len(),
            rs == resolved_views(resolved@),
            last_with(rs, key@) == last_with(rs.take(i as int), key@),
        decreases i,
    {
        proof {
            assert(rs.take(i as int).last() == resolved@[i - 1]@);
            assert(rs.take(i as int).drop_last() =~= rs.take(i - 1));
        }
        if same(resolved[i - 1].key.as_str(), key) {
            return Some(i - 1);
        }
        i = i - 1;
    }
    None
}

/// What the plan is made from.
pub struct PlanInputs {
    pub cats: Catalogs,
    pub selections: Map<Text, SkillSelection>,
    pub resolved: Seq<ResolvedView>,
    pub previous: Map<Text, InstalledSkillView>,
}

/// The keys of those of the named dependencies that are resolved.
pub open spec fn resolved_keys(rs: Seq<ResolvedView>, alias: Text, names: Seq<Text>) -> Seq<Text>
    decreases names.len(),
{
    if names.len() == 0 {
        Seq::empty()
    } else {
        let front = resolved_keys(rs, alias, names.drop_last());
        let key = key_of(alias, names.last());
        if last_with(rs, key) is Some {
            front.push(key)
        } else {
            front
        }
    }
}

/// The resolved dependencies of a key.
pub open spec fn children(p: PlanInputs, key: Text) -> Seq<Text> {
    resolved_keys(p.resolved, key_parts(key)->Some_0.0, skill_at(p.cats, key).requires)
}

pub open spec fn plan_state(p: PlanInputs, key: Text) -> InstallPlanState {
    match selection_at(p.selections, key) {
        Some(s) => InstallPlanState::Configured(selected_mode(s)),
        None => InstallPlanState::Dependency,
    }
}

pub open spec fn row_at(p: PlanInputs, key: Text, branch: Text) -> RowView {
    let r = p.resolved[last_with(p.resolved, key)->Some_0];
    RowView {
        branch,
        name: r.installed_name,
        state: plan_state(p, key),
        change: change_of(p.previous, r),
    }
}

/// The rows below a key.
pub open spec fn tree(p: PlanInputs, key: Text, prefix: Text, depth: nat) -> Seq<RowView>
    decreases depth, 0nat,
{
    if depth == 0 {
        Seq::empty()
    } else {
        branches(
            p,
            children(p, key),
            children(p, key).len(),
            prefix,
            (depth - 1) as nat,
        )
    }
}

/// The rows of the first `n` of the keys, each with the rows below it.
pub open spec fn branches(p: PlanInputs, keys: Seq<Text>, n: nat, prefix: Text, depth: nat) -> Seq<RowView>
    decreases depth, n,
{
    if n == 0 {
        Seq::empty()
    } else {
        let key = keys[n - 1];
        let last = n == keys.len();
        branches(p, keys, (n - 1) as nat, prefix, depth) + seq![
            row_at(
                p,
                key,
                prefix + if last {
                    "└─ "@
                } else {
                    "├─ "@
                },
            ),
        ] + tree(
            p,
            key,
            prefix + if last {
                "   "@
            } else {
                "│  "@
            },
            depth,
        )
    }
}

/// The rows of the first `n` configured keys that are resolved, each with its tree.
pub open spec fn forest(p: PlanInputs, keys: Seq<Text>, n: int) -> Seq<RowView>
    decreases n,
{
    if n <= 0 {
        Seq::empty()
    } else {
        let front = forest(p, keys, n - 1);
        if last_with(p.resolved, keys[n - 1]) is Some {
            front + seq![row_at(p, keys[n - 1], ""@)] + tree(
                p,
                keys[n - 1],
                ""@,
                p.resolved.len(),
            )
        } else {
            front
        }
    }
}

/// Whether a recorded skill goes: its catalog is at hand and nothing resolved has its key.
pub open spec fn goes(rs: Seq<ResolvedView>, unavailable: Set<Text>, key: Text) -> bool {
    !(alias_of(key) is Some && unavailable.contains(alias_of(key)->Some_0)) && last_with(rs, key)
        is None
}

/// The names of the first `n` recorded skills that go.
pub open spec fn removed_rows(
    rs: Seq<ResolvedView>,
    unavailable: Set<Text>,
    previous: Map<Text, InstalledSkillView>,
    keys: Seq<Text>,
    n: int,
) -> Seq<Text>
    decreases n,
{
    if n <= 0 {
        Seq::empty()
    } else {
        let front = removed_rows(rs, unavailable, previous, keys, n - 1);
        if goes(rs, unavailable, keys[n - 1]) {
            front.push(previous[keys[n - 1]].installed_name)
        } else {
            front
        }
    }
}

pub open spec fn all_coherent(resolved: Seq<ResolvedSkill>, catalogs: Map<Text, CatalogIndex>) -> bool {
    forall|i: int| 0 <= i < resolved.len() ==> coherent(#[trigger] resolved[i], catalogs)
}

pub open spec fn all_acyclic(cats: Catalogs) -> bool {
    forall|a: Text| #[trigger] cats.contains_key(a) ==> acyclic(requirements(cats[a]))
}

pub open spec fn inputs(
    manifest: ProjectConfig,
    catalogs: Map<Text, CatalogIndex>,
    resolved: Seq<ResolvedSkill>,
    previous: InstalledState,
) -> PlanInputs {
    PlanInputs {
        cats: catalogs_of(catalogs),
        selections: manifest.skills@,
        resolved: resolved_views(resolved),
        previous: previous@.skills,
    }
}

fn append_dependency_rows(
    manifest: &ProjectConfig,
    catalogs: &NameMap<CatalogIndex>,
    resolved: &Vec<ResolvedSkill<'_>>,
    previous: &InstalledState,
    parent: usize,
    prefix: &str,
    depth: usize,
    rows: &mut Vec<InstallPlanRow>,
)
    requires
        parent < resolved@.len(),
        all_coherent(resolved@, catalogs@),
    ensures
        row_views(final(rows)@) == row_views(old(rows)@) + tree(
            inputs(*manifest, catalogs@, resolved@, *previous),
            resolved@[parent as int].key@,
            prefix@,
            depth as nat,
        ),
    decreases depth,
{
    let ghost p = inputs(*manifest, catalogs@, resolved@, *previous);
    let ghost key = resolved@[parent as int].key@;
    let ghost start = row_views(rows@);
    if depth == 0 {
        assert(start + Seq::<RowView>::empty() =~= start);
        return;
    }
    assert(coherent(resolved@[parent as int], catalogs@));
    let mut keys: Vec<String> = Vec::new();
    match find_skill(catalogs, resolved[parent].key.as_str()) {
        Err(_) => {
            assert(false);
        },
        Ok((alias, _, _, skill)) => {
            let ghost names = skill@.requires;
            let mut i: usize = 0;
            assert(names.take(0) =~= Seq::<Text>::empty());
            assert(views(keys@) =~= Seq::<Text>::empty());
            while i < skill.requires.len()
                invariant
                    i <= skill.requires.len(),
                    names == views(skill.requires@),
                    p.resolved == resolved_views(resolved@),
                    views(keys@) == resolved_keys(p.resolved, alias@, names.take(i as int)),
                decreases skill.requires.len() - i,
            {
                let ghost prior = keys@;
                let candidate = cat3(alias.as_str(), "/", skill.requires[i].as_str());
                i = i + 1;
                proof {
                    assert(names.take(i as int).drop_last() =~= names.take(i - 1));
                    assert(names.take(i as int).last() == names[i - 1]);
                    assert(candidate@ == key_of(alias@, names[i - 1]));
                }
                if find_resolved(resolved, candidate.as_str()).is_some() {
                    keys.push(candidate);
                    assert(views(keys@) =~= views(prior).push(candidate@));
                }
            }
            proof {
                assert(names.take(i as int) =~= names);
                assert(views(keys@) == children(p, key));
            }
        },
    }
    let ghost all = children(p, key);
    proof {
        lemma_children_resolved(
            p.resolved,
            key_parts(key)->Some_0.0,
            skill_at(p.cats, key).requires,
        );
    }
    let mut k: usize = 0;
    assert(start + Seq::<RowView>::empty() =~= start);
    while k < keys.len()
        invariant
            k <= keys.len(),
            depth > 0,
            views(keys@) == all,
            all == children(p, key),
            p == inputs(*manifest, catalogs@, resolved@, *previous),
            all_coherent(resolved@, catalogs@),
            forall|j: int| 0 <= j < all.len() ==> last_with(p.resolved, #[trigger] all[j]) is Some,
            row_views(rows@) == start + branches(p, all, k as nat, prefix@, (depth - 1) as nat),
        decreases keys.len() - k,
    {
        let last = k + 1 == keys.len();
        let ghost before = rows@;
        assert(all[k as int] == keys@[k as int]@);
        match find_resolved(resolved, keys[k].as_str()) {
            None => {
                assert(false);
            },
            Some(child) => {
                let state = match manifest.skills.get(keys[k].as_str()) {
                    Some(selection) => InstallPlanState::Configured(selection.mode()),
                    None => InstallPlanState::Dependency,
                };
                let row = InstallPlanRow {
                    branch: cat2(prefix, if last { "└─ " } else { "├─ " }),
                    name: resolved[child].installed_name.clone(),
                    state,
                    change: install_change(previous, &resolved[child]),
                };
                assert(p.resolved[child as int] == resolved@[child as int]@);
                rows.push(row);
                let ghost middle = rows@;
                proof {
                    assert(row_views(middle) =~= row_views(before).push(row@));
                }
                append_dependency_rows(
                    manifest,
                    catalogs,
                    resolved,
                    previous,
                    child,
                    cat2(prefix, if last { "   " } else { "│  " }).as_str(),
                    depth - 1,
                    rows,
                );
                proof {
                    let n = (k + 1) as nat;
                    let b = branches(p, all, k as nat, prefix@, (depth - 1) as nat);
                    let t = tree(
                        p,
                        all[k as int],
                        prefix@ + if last {
                            "   "@
                        } else {
                            "│  "@
                        },
                        (depth - 1) as nat,
                    );
                    assert(row_views(rows@) == row_views(middle) + t);
                    assert(branches(p, all, n, prefix@, (depth - 1) as nat) == b + seq![row@] + t);
                    assert(row_views(rows@) =~= start + (b + seq![row@] + t));
                }
            },
        }
        k = k + 1;
    }
}

proof fn lemma_children_resolved(rs: Seq<ResolvedView>, alias: Text, names: Seq<Text>)
    ensures
        forall|j: int|
            0 <= j < resolved_keys(rs, alias, names).len() ==> last_with(
                rs,
                #[trigger] resolved_keys(rs, alias, names)[j],
            ) is Some,
        forall|j: int|
            0 <= j < resolved_keys(rs, alias, names).len() ==> exists|i: int|
                0 <= i < names.len() && #[trigger] resolved_keys(rs, alias, names)[j] == key_of(
                    alias,
                    #[trigger] names[i],
                ),
    decreases names.len(),
{
    if names.len() > 0 {
        let front = names.drop_last();
        lemma_children_resolved(rs, alias, front);
        let f = resolved_keys(rs, alias, front);
        let all = resolved_keys(rs, alias, names);
        assert forall|j: int| 0 <= j < all.len() implies last_with(rs, #[trigger] all[j]) is Some by {
            if j < f.len() {
                assert(all[j] == f[j]);
            }
        }
        assert forall|j: int| 0 <= j < all.len() implies exists|i: int|
            0 <= i < names.len() && #[trigger] all[j] == key_of(alias, #[trigger] names[i]) by {
            if j < f.len() {
                assert(all[j] == f[j]);
                let i = choose|i: int|
                    0 <= i < front.len() && f[j] == key_of(alias, #[trigger] front[i]);
                assert(names[i] == front[i]);
            } else {
                let i = names.len() - 1;
                assert(all[j] == key_of(alias, names[i]));
            }
        }
    }
}

/// Builds the plan of an installation.
pub fn install_plan(
    manifest: &ProjectConfig,
    catalogs: &NameMap<CatalogIndex>,
    resolved: &Vec<ResolvedSkill<'_>>,
    previous: &InstalledState,
    unavailable: &NameSet,
) -> (r: InstallPlan)
    requires
        all_coherent(resolved@, catalogs@),
        all_acyclic(catalogs_of(catalogs@)),
    ensures
        row_views(r.rows@) == forest(
            inputs(*manifest, catalogs@, resolved@, *previous),
            walk(manifest.skills@.dom()),
            walk(manifest.skills@.dom()).len() as int,
        ),
        views(r.removals@) == removed_rows(
            resolved_views(resolved@),
            unavailable@,
            previous@.skills,
            walk(previous.skills@.dom()),
            walk(previous.skills@.dom()).len() as int,
        ),
{
    let ghost p = inputs(*manifest, catalogs@, resolved@, *previous);
    let mut rows: Vec<InstallPlanRow> = Vec::new();
    let n: usize = manifest.skills.len();
    let ghost keys = manifest.skills.names();
    proof {
        lemma_walk(keys);
        assert(row_views(rows@) =~= Seq::<RowView>::empty());
    }
    let mut i: usize = 0;
    while i < n
        invariant
            i <= n == keys.len(),
            keys == manifest.skills.names(),
            p == inputs(*manifest, catalogs@, resolved@, *previous),
            all_coherent(resolved@, catalogs@),
            row_views(rows@) == forest(p, keys, i as int),
        decreases n - i,
    {
        let key = manifest.skills.name_at(i);
        match find_resolved(resolved, key.as_str()) {
            None => {},
            Some(root) => {
                let ghost before = rows@;
                let row = InstallPlanRow {
                    branch: String::from_str(""),
                    name: resolved[root].installed_name.clone(),
                    state: InstallPlanState::Configured(manifest.skills.value_at(i).mode()),
                    change: install_change(previous, &resolved[root]),
                };
                assert(p.resolved[root as int] == resolved@[root as int]@);
                assert(row@ == row_at(p, keys[i as int], ""@));
                rows.push(row);
                assert(row_views(rows@) =~= row_views(before) + seq![row@]);
                append_dependency_rows(
                    manifest,
                    catalogs,
                    resolved,
                    previous,
                    root,
                    "",
                    resolved.len(),
                    &mut rows,
                );
            },
        }
        i = i + 1;
    }
    let mut removals: Vec<String> = Vec::new();
    let m: usize = previous.skills.len();
    let ghost old_keys = previous.skills.names();
    proof {
        lemma_walk(old_keys);
        assert(views(removals@) =~= Seq::<Text>::empty());
    }
    let mut k: usize = 0;
    while k < m
        invariant
            k <= m == old_keys.len(),
            old_keys == previous.skills.names(),
            previous.skills.ordered(),
            views(removals@) == removed_rows(
                resolved_views(resolved@),
                unavailable@,
                previous@.skills,
                old_keys,
                k as int,
            ),
        decreases m - k,
    {
        let key = previous.skills.name_at(k);
        let held = match key_alias(key.as_str()) {
            Some(alias) => unavailable.contains(alias.as_str()),
            None => false,
        };
        let ghost before = removals@;
        if !held && find_resolved(resolved, key.as_str()).is_none() {
            let name = previous.skills.value_at(k).installed_name.clone();
            removals.push(name);
            assert(views(removals@) =~= views(before).push(name@));
        }
        k = k + 1;
    }
    InstallPlan { rows, removals }
}

/// A configuration of one skill.
pub open spec fn single(key: Text) -> Map<Text, SkillSelection> {
    Map::empty().insert(key, SkillSelection::Mode(SelectionMode::Enable))
}

/// The tree of what a skill brings along, by name, where it can be installed at all.
pub open spec fn skill_tree(cats: Catalogs, key: Text, global: bool) -> Seq<Text> {
    match resolution(cats, single(key), global) {
        Ok(resolved) => {
            let p = PlanInputs { cats, selections: single(key), resolved, previous: Map::empty() };
            forest(p, seq![key], 1).map_values(|row: RowView| row.branch + row.name)
        },
        Err(_) => Seq::empty(),
    }
}

/// Plans one skill alone: its name, and below it the names that it requires.
pub fn plan_skill(key: &str, catalogs: &NameMap<CatalogIndex>, global: bool) -> (r: Vec<String>)
    requires
        all_closed(catalogs_of(catalogs@)),
        all_acyclic(catalogs_of(catalogs@)),
    ensures
        views(r@) == skill_tree(catalogs_of(catalogs@), key@, global),
{
    let ghost cats = catalogs_of(catalogs@);
    let mut out: Vec<String> = Vec::new();
    assert(views(out@) =~= Seq::<Text>::empty());
    let mut wish = ProjectConfig {
        version: SCHEMA_VERSION,
        skills: NameMap::new(),
        agents: Vec::new(),
    };
    wish.skills.insert(key.to_owned(), SkillSelection::Mode(SelectionMode::Enable));
    let ghost keys = wish.skills.names();
    proof {
        assert(wish.skills@ == single(key@));
        lemma_walk(keys);
        assert(keys.to_set() =~= Set::<Text>::empty().insert(key@));
        keys.unique_seq_to_set();
        assert(keys.to_set().contains(keys[0]));
        assert(keys =~= seq![key@]);
    }
    let resolved = match resolve_manifest(&wish, catalogs, global) {
        Ok(resolved) => resolved,
        Err(_) => return out,
    };
    let previous = InstalledState::default();
    let none = NameSet::new();
    let plan = install_plan(&wish, catalogs, &resolved, &previous, &none);
    let ghost p = inputs(wish, catalogs@, resolved@, previous);
    let ghost rows = row_views(plan.rows@);
    let ghost names = rows.map_values(|row: RowView| row.branch + row.name);
    proof {
        assert(p.previous =~= Map::<Text, InstalledSkillView>::empty());
        assert(rows == forest(p, seq![key@], 1));
        assert(names.take(0) =~= Seq::<Text>::empty());
    }
    let mut i: usize = 0;
    while i < plan.rows.len()
        invariant
            i <= plan.rows@.len() == rows.len(),
            rows == row_views(plan.rows@),
            names == rows.map_values(|row: RowView| row.branch + row.name),
            views(out@) == names.take(i as int),
        decreases plan.rows@.len() - i,
    {
        assert(rows[i as int] == plan.rows@[i as int]@);
        let line = cat2(plan.rows[i].branch.as_str(), plan.rows[i].name.as_str());
        let ghost before = out@;
        let ghost text = line@;
        out.push(line);
        proof {
            assert(views(out@) =~= views(before).push(text));
            assert(names.take(i + 1) =~= names.take(i as int).push(names[i as int]));
        }
        i = i + 1;
    }
    assert(names.take(i as int) =~= names);
    out
}

// The tree does not depend on how deep it may go.

/// A key that begins with an alias without `/` splits at the end of the alias.
proof fn lemma_split_key(alias: Text, name: Text, key: Text)
    requires
        !alias.contains('/'),
        key == key_of(alias, name),
        key_parts(key) is Some,
    ensures
        key_parts(key) == Some((alias, name)),
{
    reveal_strlit("/");
    assert("/"@ =~= seq!['/']);
    let i = alias.len() as int;
    assert forall|j: int| 0 <= j < i implies key[j] != '/' by {
        assert(key[j] == alias[j]);
        assert(alias.contains(alias[j]));
    }
    assert(key[i] == '/');
    crate::text::lemma_find_char(key, '/', i);
    assert(key.take(i) =~= alias);
    assert(key.skip(i + 1) =~= name);
}

proof fn lemma_alias_bare(key: Text)
    requires
        key_parts(key) is Some,
    ensures
        !key_parts(key)->Some_0.0.contains('/'),
{
    crate::text::lemma_find_char_bound(key, '/');
    let alias = key_parts(key)->Some_0.0;
    if alias.contains('/') {
        let j = alias.index_of('/');
        assert(key[j] == alias[j]);
    }
}

/// Every resolved key names a catalog skill.
pub open spec fn all_found(p: PlanInputs) -> bool {
    forall|i: int|
        0 <= i < p.resolved.len() ==> lookup(p.cats, (#[trigger] p.resolved[i]).key) is Ok
}

/// Each key of the path is resolved and is a child of the one before it.
spec fn is_branch(p: PlanInputs, path: Seq<Text>) -> bool {
    &&& forall|i: int| 0 <= i < path.len() ==> last_with(p.resolved, #[trigger] path[i]) is Some
    &&& forall|i: int|
        0 <= i < path.len() - 1 ==> children(p, path[i]).contains(#[trigger] path[i + 1])
}

/// The skill names of the keys of a path in one catalog.
spec fn names_of(path: Seq<Text>) -> Seq<Text> {
    Seq::new(path.len(), |i: int| key_parts(path[i])->Some_0.1)
}

proof fn lemma_child(p: PlanInputs, a: Text, b: Text)
    requires
        all_found(p),
        last_with(p.resolved, a) is Some,
        last_with(p.resolved, b) is Some,
        children(p, a).contains(b),
    ensures
        key_parts(a) is Some,
        key_parts(b) is Some,
        key_parts(a)->Some_0.0 == key_parts(b)->Some_0.0,
        p.cats.contains_key(key_parts(a)->Some_0.0),
        ({
            let g = requirements(p.cats[key_parts(a)->Some_0.0]);
            g.contains_key(key_parts(a)->Some_0.1) && g[key_parts(a)->Some_0.1].contains(
                key_parts(b)->Some_0.1,
            )
        }),
{
    lemma_last_with(p.resolved, a);
    lemma_last_with(p.resolved, b);
    assert(lookup(p.cats, p.resolved[last_with(p.resolved, a)->Some_0].key) is Ok);
    assert(lookup(p.cats, p.resolved[last_with(p.resolved, b)->Some_0].key) is Ok);
    let (alias, name) = key_parts(a)->Some_0;
    let names = skill_at(p.cats, a).requires;
    lemma_children_resolved(p.resolved, alias, names);
    let j = children(p, a).index_of(b);
    let i = choose|i: int|
        0 <= i < names.len() && children(p, a)[j] == key_of(alias, #[trigger] names[i]);
    lemma_alias_bare(a);
    lemma_split_key(alias, names[i], b);
    let g = requirements(p.cats[alias]);
    assert(g[name] == names);
}

proof fn lemma_branch_path(p: PlanInputs, path: Seq<Text>, i: int)
    requires
        all_found(p),
        is_branch(p, path),
        0 <= i < path.len() - 1,
    ensures
        key_parts(path[i]) is Some,
        key_parts(path[i + 1]) is Some,
        key_parts(path[0]) is Some,
        key_parts(path[i])->Some_0.0 == key_parts(path[0])->Some_0.0,
        key_parts(path[i + 1])->Some_0.0 == key_parts(path[0])->Some_0.0,
        p.cats.contains_key(key_parts(path[0])->Some_0.0),
        ({
            let g = requirements(p.cats[key_parts(path[0])->Some_0.0]);
            g.contains_key(names_of(path)[i]) && g[names_of(path)[i]].contains(
                names_of(path)[i + 1],
            )
        }),
    decreases i,
{
    assert(last_with(p.resolved, path[i]) is Some);
    assert(last_with(p.resolved, path[i + 1]) is Some);
    assert(children(p, path[i]).contains(path[i + 1]));
    lemma_child(p, path[i], path[i + 1]);
    if i > 0 {
        lemma_branch_path(p, path, i - 1);
    }
}

/// A branch of acyclic catalogs does not come back to a key.
proof fn lemma_branch_distinct(p: PlanInputs, path: Seq<Text>)
    requires
        all_found(p),
        all_acyclic(p.cats),
        is_branch(p, path),
    ensures
        path.no_duplicates(),
{
    assert forall|i: int, j: int|
        0 <= i < path.len() && 0 <= j < path.len() && i != j implies path[i] != path[j] by {
        if path[i] == path[j] {
            let a = if i < j {
                i
            } else {
                j
            };
            let b = if i < j {
                j
            } else {
                i
            };
            let part = path.subrange(a, b + 1);
            assert forall|k: int| 0 <= k < part.len() - 1 implies children(p, part[k]).contains(
                #[trigger] part[k + 1],
            ) by {
                assert(part[k] == path[a + k]);
                assert(part[k + 1] == path[(a + k) + 1]);
            }
            assert forall|k: int| 0 <= k < part.len() implies last_with(
                p.resolved,
                #[trigger] part[k],
            ) is Some by {
                assert(part[k] == path[a + k]);
            }
            let c = names_of(part);
            lemma_branch_path(p, part, 0);
            let g = requirements(p.cats[key_parts(part[0])->Some_0.0]);
            assert(is_path(g, c)) by {
                assert forall|k: int| 0 <= k < c.len() - 1 implies g.contains_key(
                    #[trigger] c[k],
                ) && g[c[k]].contains(c[k + 1]) by {
                    lemma_branch_path(p, part, k);
                }
            }
            assert(part[0] == path[a]);
            assert(part[part.len() - 1] == path[b]);
            assert(c[0] == c[c.len() - 1]);
            assert(is_cycle(g, c));
            assert(acyclic(g));
        }
    }
}

/// A branch is no longer than the resolution.
proof fn lemma_branch_short(p: PlanInputs, path: Seq<Text>)
    requires
        all_found(p),
        all_acyclic(p.cats),
        is_branch(p, path),
    ensures
        path.len() <= p.resolved.len(),
{
    lemma_branch_distinct(p, path);
    path.unique_seq_to_set();
    let keys = p.resolved.map_values(|r: ResolvedView| r.key);
    assert forall|k: Text| path.to_set().contains(k) implies keys.to_set().contains(k) by {
        let i = path.index_of(k);
        assert(last_with(p.resolved, path[i]) is Some);
        lemma_last_with(p.resolved, k);
        let j = last_with(p.resolved, k)->Some_0;
        assert(keys[j] == k);
    }
    vstd::seq_lib::seq_to_set_is_finite(keys);
    lemma_len_subset(path.to_set(), keys.to_set());
    keys.lemma_cardinality_of_set();
}

proof fn lemma_tree_stable(p: PlanInputs, path: Seq<Text>, key: Text, prefix: Text, depth: nat)
    requires
        all_found(p),
        all_acyclic(p.cats),
        is_branch(p, path.push(key)),
        depth + path.len() >= p.resolved.len(),
    ensures
        tree(p, key, prefix, depth) == tree(p, key, prefix, depth + 1),
    decreases depth, 0nat,
{
    let here = path.push(key);
    lemma_branch_short(p, here);
    assert(depth > 0);
    let keys = children(p, key);
    lemma_branches_stable(p, path, key, keys.len(), prefix, (depth - 1) as nat);
}

proof fn lemma_branches_stable(p: PlanInputs, path: Seq<Text>, key: Text, n: nat, prefix: Text, depth: nat)
    requires
        all_found(p),
        all_acyclic(p.cats),
        is_branch(p, path.push(key)),
        depth + path.len() + 1 >= p.resolved.len(),
        n <= children(p, key).len(),
    ensures
        branches(p, children(p, key), n, prefix, depth) == branches(
            p,
            children(p, key),
            n,
            prefix,
            depth + 1,
        ),
    decreases depth, n + 1,
{
    if n > 0 {
        let keys = children(p, key);
        let child = keys[n - 1];
        lemma_branches_stable(p, path, key, (n - 1) as nat, prefix, depth);
        let here = path.push(key);
        let next = here.push(child);
        lemma_children_resolved(p.resolved, key_parts(key)->Some_0.0, skill_at(p.cats, key).requires);
        assert(is_branch(p, next)) by {
            assert forall|i: int| 0 <= i < next.len() implies last_with(
                p.resolved,
                #[trigger] next[i],
            ) is Some by {
                if i < here.len() {
                    assert(next[i] == here[i]);
                } else {
                    assert(last_with(p.resolved, keys[n - 1]) is Some);
                }
            }
            assert forall|i: int| 0 <= i < next.len() - 1 implies children(p, next[i]).contains(
                #[trigger] next[i + 1],
            ) by {
                if i + 1 < here.len() {
                    assert(next[i] == here[i] && next[i + 1] == here[i + 1]);
                } else {
                    assert(next[i] == key);
                    assert(keys.contains(keys[n - 1]));
                }
            }
        }
        let last = n == keys.len();
        lemma_tree_stable(
            p,
            here,
            child,
            prefix + if last {
                "   "@
            } else {
                "│  "@
            },
            depth,
        );
    }
}

/// In acyclic catalogs the tree below a resolved key is whole: a deeper search adds nothing.
pub proof fn law_tree_is_whole(p: PlanInputs, key: Text, prefix: Text, depth: nat)
    requires
        all_found(p),
        all_acyclic(p.cats),
        last_with(p.resolved, key) is Some,
        depth >= p.resolved.len(),
    ensures
        tree(p, key, prefix, depth) == tree(p, key, prefix, p.resolved.len()),
    decreases depth,
{
    if depth > p.resolved.len() {
        law_tree_is_whole(p, key, prefix, (depth - 1) as nat);
        let none = Seq::<Text>::empty();
        assert(none.push(key)[0] == key);
        lemma_tree_stable(p, none, key, prefix, (depth - 1) as nat);
    }
}

// Writing the plan.

pub open spec fn count_changes(rows: Seq<InstallPlanRow>, change: InstallPlanChange) -> nat
    decreases rows.len(),
{
    if rows.len() == 0 {
        0
    } else {
        count_changes(rows.drop_last(), change) + if rows.last().change == change {
            1nat
        } else {
            0nat
        }
    }
}

pub open spec fn heading_parts(rows: nat, fresh: nat, updates: nat) -> Seq<Text> {
    let first = seq![decimal(rows) + " skill"@ + plural(rows)];
    let second = if fresh > 0 {
        first.push(decimal(fresh) + " new"@)
    } else {
        first
    };
    if updates > 0 {
        second.push(decimal(updates) + " update"@ + plural(updates))
    } else {
        second
    }
}

impl InstallPlan {
    /// Counts every row, then the changes that occur.
    pub fn heading(&self) -> (r: String)
        ensures
            r@ == "Install plan  "@ + join(
                heading_parts(
                    self.rows@.len(),
                    count_changes(self.rows@, InstallPlanChange::New),
                    count_changes(self.rows@, InstallPlanChange::Update),
                ),
                "  "@,
            ),
    {
        let mut fresh: usize = 0;
        let mut updates: usize = 0;
        let mut i: usize = 0;
        while i < self.rows.len()
            invariant
                i <= self.rows.len(),
                fresh <= i,
                updates <= i,
                fresh == count_changes(self.rows@.take(i as int), InstallPlanChange::New),
                updates == count_changes(self.rows@.take(i as int), InstallPlanChange::Update),
            decreases self.rows.len() - i,
        {
            if self.rows[i].change == InstallPlanChange::New {
                fresh = fresh + 1;
            }
            if self.rows[i].change == InstallPlanChange::Update {
                updates = updates + 1;
            }
            i = i + 1;
            assert(self.rows@.take(i as int).drop_last() =~= self.rows@.take(i - 1));
        }
        assert(self.rows@.take(i as int) =~= self.rows@);
        let n: usize = self.rows.len();
        let mut parts: Vec<String> = Vec::new();
        parts.push(
            cat3(
                decimal_of(n as u64).as_str(),
                " skill",
                if n == 1 { "" } else { "s" },
            ),
        );
        if fresh > 0 {
            parts.push(cat2(decimal_of(fresh as u64).as_str(), " new"));
        }
        if updates > 0 {
            parts.push(
                cat3(
                    decimal_of(updates as u64).as_str(),
                    " update",
                    if updates == 1 { "" } else { "s" },
                ),
            );
        }
        assert(views(parts@) =~= heading_parts(n as nat, fresh as nat, updates as nat));
        cat2("Install plan  ", joined(&parts, "  ").as_str())
    }
}

/// The largest of the numbers, or 0.
pub open spec fn largest(v: Seq<usize>) -> usize
    decreases v.len(),
{
    if v.len() == 0 {
        0
    } else if v.last() > largest(v.drop_last()) {
        v.last()
    } else {
        largest(v.drop_last())
    }
}

fn largest_of(v: &Vec<usize>) -> (r: usize)
    ensures
        r == largest(v@),
{
    let mut out: usize = 0;
    let mut i: usize = 0;
    while i < v.len()
        invariant
            i <= v.len(),
            out == largest(v@.take(i as int)),
        decreases v.len() - i,
    {
        if v[i] > out {
            out = v[i];
        }
        i = i + 1;
        assert(v@.take(i as int).drop_last() =~= v@.take(i - 1));
    }
    assert(v@.take(i as int) =~= v@);
    out
}

/// `out` is `message` in a tone where styles are on, and `message` where they are off.
pub open spec fn toned(out: Text, message: Text, tone: Tone, styled: bool) -> bool {
    if styled {
        is_painted(out, message, tone, false)
    } else {
        out == message
    }
}

/// `line` shows a row in aligned columns. The widths are those of the row's name with its
/// branch and of its state, and the widest of each.
pub open spec fn is_plan_line(
    line: Text,
    row: RowView,
    label_columns: usize,
    state_columns: usize,
    width: usize,
    state_width: usize,
    styled: bool,
) -> bool {
    exists|state: Text, change: Text|
        #[trigger] toned(
            state,
            state_label(row.state) + blanks(less(state_width, state_columns)),
            state_tone(row.state),
            styled,
        ) && #[trigger] toned(change, change_label(row.change), change_tone(row.change), styled)
            && line == row.branch + row.name + blanks(less(width, label_columns)) + "  "@ + state
            + "  "@ + change
}

/// Writes the rows by the columns that their names and states take.
pub fn render_measured(
    rows: &Vec<InstallPlanRow>,
    label_columns: &Vec<usize>,
    state_columns: &Vec<usize>,
    output: HumanOutput,
) -> (r: Vec<String>)
    requires
        label_columns@.len() == rows@.len(),
        state_columns@.len() == rows@.len(),
    ensures
        r@.len() == rows@.len(),
        forall|i: int|
            0 <= i < rows@.len() ==> is_plan_line(
                (#[trigger] r@[i])@,
                rows@[i]@,
                label_columns@[i],
                state_columns@[i],
                largest(label_columns@),
                largest(state_columns@),
                output.styled,
            ),
{
    let width: usize = largest_of(label_columns);
    let state_width: usize = largest_of(state_columns);
    let mut out: Vec<String> = Vec::new();
    let mut i: usize = 0;
    while i < rows.len()
        invariant
            i <= rows.len(),
            label_columns@.len() == rows@.len(),
            state_columns@.len() == rows@.len(),
            width == largest(label_columns@),
            state_width == largest(state_columns@),
            out@.len() == i,
            forall|j: int|
                0 <= j < i ==> is_plan_line(
                    (#[trigger] out@[j])@,
                    rows@[j]@,
                    label_columns@[j],
                    state_columns@[j],
                    width,
                    state_width,
                    output.styled,
                ),
        decreases rows.len() - i,
    {
        let row = &rows[i];
        let label = cat2(row.branch.as_str(), row.name.as_str());
        let state = pad_measured(row.state.label().as_str(), state_columns[i], state_width);
        let painted = output.tone(state.as_str(), row.state.tone());
        let change = output.tone(row.change.label(), row.change.tone());
        let mut line = pad_measured(label.as_str(), label_columns[i], width);
        line.append("  ");
        line.append(painted.as_str());
        line.append("  ");
        line.append(change.as_str());
        proof {
            assert(toned(
                painted@,
                state_label(row@.state) + blanks(less(state_width, state_columns@[i as int])),
                state_tone(row@.state),
                output.styled,
            ));
            assert(toned(
                change@,
                change_label(row@.change),
                change_tone(row@.change),
                output.styled,
            ));
        }
        out.push(line);
        i = i + 1;
    }
    out
}

/// Writes the rows with aligned columns; only states and changes are coloured.
pub fn render_install_plan(rows: &Vec<InstallPlanRow>, output: HumanOutput) -> (r: Vec<String>)
    ensures
        r@.len() == rows@.len(),
        forall|i: int|
            0 <= i < rows@.len() ==> is_plan_line(
                (#[trigger] r@[i])@,
                rows@[i]@,
                label_widths(rows@)[i],
                state_widths(rows@)[i],
                largest(label_widths(rows@)),
                largest(state_widths(rows@)),
                output.styled,
            ),
{
    let mut label_columns: Vec<usize> = Vec::new();
    let mut state_columns: Vec<usize> = Vec::new();
    let mut i: usize = 0;
    while i < rows.len()
        invariant
            i <= rows.len(),
            label_columns@ == label_widths(rows@).take(i as int),
            state_columns@ == state_widths(rows@).take(i as int),
        decreases rows.len() - i,
    {
        let label = cat2(rows[i].branch.as_str(), rows[i].name.as_str());
        label_columns.push(columns_of(label.as_str()));
        state_columns.push(columns_of(rows[i].state.label().as_str()));
        i = i + 1;
        assert(label_widths(rows@).take(i as int) =~= label_widths(rows@).take(i - 1).push(
            label_widths(rows@)[i - 1],
        ));
        assert(state_widths(rows@).take(i as int) =~= state_widths(rows@).take(i - 1).push(
            state_widths(rows@)[i - 1],
        ));
    }
    assert(label_widths(rows@).take(i as int) =~= label_widths(rows@));
    assert(state_widths(rows@).take(i as int) =~= state_widths(rows@));
    render_measured(rows, &label_columns, &state_columns, output)
}

pub open spec fn label_widths(rows: Seq<InstallPlanRow>) -> Seq<usize> {
    Seq::new(rows.len(), |i: int| text_columns(rows[i].branch@ + rows[i].name@))
}

pub open spec fn state_widths(rows: Seq<InstallPlanRow>) -> Seq<usize> {
    Seq::new(rows.len(), |i: int| text_columns(state_label(rows[i].state)))
}

} // verus!
