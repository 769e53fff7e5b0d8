//! Deciding what an installation does with each resolved skill, and what it records.

use vstd::prelude::*;
use crate::model::{
    skills_view, InstalledSkill, InstalledSkillView, InstalledState, InstalledStateView,
    INSTALLED_STATE_VERSION,
};
use crate::name_map::{NameMap, NameSet};
use crate::plan::{differs, is_stale};
use crate::resolve::{resolved_views, ResolvedSkill, ResolvedView};
use crate::text::{cat3, cat5, same, trim, trimmed, views, Text};

verus! {

// Projections.

#[derive(Debug, Clone, Copy, PartialEq, Eq, Structural)]
pub enum ProjectionStatus {
    Synced,
    Missing,
    Drift,
    Incoming,
    KeepLocal,
    Conflict,
    OrphanedLocal,
    Unknown,
}

pub open spec fn status_label(status: ProjectionStatus) -> Text {
    match status {
        ProjectionStatus::Synced => "SYNCED"@,
        ProjectionStatus::Missing => "MISSING"@,
        ProjectionStatus::Drift => "DRIFT"@,
        ProjectionStatus::Incoming => "UPDATE"@,
        ProjectionStatus::KeepLocal => "KEEP LOCAL"@,
        ProjectionStatus::Conflict => "CONFLICT"@,
        ProjectionStatus::OrphanedLocal => "ORPHANED"@,
        ProjectionStatus::Unknown => "REVIEW"@,
    }
}

impl ProjectionStatus {
    pub fn label(self) -> (r: &'static str)
        ensures
            r@ == status_label(self),
    {
        match self {
            ProjectionStatus::Synced => "SYNCED",
            ProjectionStatus::Missing => "MISSING",
            ProjectionStatus::Drift => "DRIFT",
            ProjectionStatus::Incoming => "UPDATE",
            ProjectionStatus::KeepLocal => "KEEP LOCAL",
            ProjectionStatus::Conflict => "CONFLICT",
            ProjectionStatus::OrphanedLocal => "ORPHANED",
            ProjectionStatus::Unknown => "REVIEW",
        }
    }
}

/// The status of a projection whose directory has the digest `actual`, if there is one.
pub open spec fn status_of(
    installed: InstalledSkillView,
    desired: Option<ResolvedView>,
    actual: Option<Text>,
) -> ProjectionStatus {
    if actual is None {
        ProjectionStatus::Missing
    } else if installed.content_digest != actual {
        ProjectionStatus::Drift
    } else if desired is Some && differs(installed, desired->Some_0) {
        ProjectionStatus::Incoming
    } else {
        ProjectionStatus::Synced
    }
}

pub fn projection_status(
    installed: &InstalledSkill,
    desired: Option<&ResolvedSkill<'_>>,
    actual: Option<&str>,
) -> (r: ProjectionStatus)
    ensures
        r == status_of(
            installed@,
            match desired {
                Some(d) => Some(d@),
                None => None,
            },
            match actual {
                Some(a) => Some(a@),
                None => None,
            },
        ),
{
    let current = match actual {
        None => return ProjectionStatus::Missing,
        Some(current) => current,
    };
    let matching = match &installed.content_digest {
        Some(baseline) => same(baseline.as_str(), current),
        None => false,
    };
    if !matching {
        return ProjectionStatus::Drift;
    }
    match desired {
        Some(d) => if is_stale(installed, d) {
            ProjectionStatus::Incoming
        } else {
            ProjectionStatus::Synced
        },
        None => ProjectionStatus::Synced,
    }
}

// Classification.

/// A selected skill whose name is taken by something that is not managed.
#[derive(Debug, PartialEq, Eq)]
pub struct UnownedConflict {
    pub key: String,
    pub installed_name: String,
    pub message: String,
}

/// A conflict in contracts.
pub struct ConflictView {
    pub key: Text,
    pub installed_name: Text,
    pub message: Text,
}

impl View for UnownedConflict {
    type V = ConflictView;

    open spec fn view(&self) -> ConflictView {
        ConflictView {
            key: self.key@,
            installed_name: self.installed_name@,
            message: self.message@,
        }
    }
}

pub open spec fn conflict_views(v: Seq<UnownedConflict>) -> Seq<ConflictView> {
    Seq::new(v.len(), |i: int| v[i]@)
}

#[derive(Debug)]
pub struct ReconcileSelection {
    pub install_names: NameSet,
    pub complete_names: NameSet,
    pub blocked: Vec<String>,
    pub conflicts: Vec<UnownedConflict>,
}

/// A selection in contracts.
pub struct SelectionView {
    pub install: Set<Text>,
    pub complete: Set<Text>,
    pub blocked: Seq<Text>,
    pub conflicts: Seq<ConflictView>,
}

impl View for ReconcileSelection {
    type V = SelectionView;

    open spec fn view(&self) -> SelectionView {
        SelectionView {
            install: self.install_names@,
            complete: self.complete_names@,
            blocked: views(self.blocked@),
            conflicts: conflict_views(self.conflicts@),
        }
    }
}

/// What was observed of the copies of each resolved skill and of each agent's list.
pub struct Observed {
    /// For each resolved skill, whether each copy that exists equals what is intended.
    pub copies: Seq<Seq<bool>>,
    /// The skills that each agent lists.
    pub agents: Seq<Set<Text>>,
}

pub open spec fn all_match(copies: Seq<bool>) -> bool {
    forall|i: int| 0 <= i < copies.len() ==> #[trigger] copies[i]
}

pub open spec fn all_list(agents: Seq<Set<Text>>, name: Text) -> bool {
    forall|i: int| 0 <= i < agents.len() ==> (#[trigger] agents[i]).contains(name)
}

pub open spec fn any_lists(agents: Seq<Set<Text>>, name: Text) -> bool {
    exists|i: int| 0 <= i < agents.len() && (#[trigger] agents[i]).contains(name)
}

/// What happens to one skill.
#[derive(Debug, Clone, Copy, PartialEq, Eq, Structural)]
pub enum Verdict {
    Install,
    Complete,
    Conflict,
}

/// The names that belong to this installation: those recorded and those under recovery.
pub open spec fn owned_names(previous: Map<Text, InstalledSkillView>, recovery: Set<Text>) -> Set<Text> {
    Set::new(
        |n: Text|
            recovery.contains(n) || exists|k: Text|
                previous.contains_key(k) && (#[trigger] previous[k]).installed_name == n,
    )
}

pub open spec fn verdict(
    owned: Set<Text>,
    previous: Map<Text, InstalledSkillView>,
    skill: ResolvedView,
    copies: Seq<bool>,
    agents: Seq<Set<Text>>,
) -> Verdict {
    let name = skill.installed_name;
    let current = previous.contains_key(skill.key) && !differs(previous[skill.key], skill);
    let present = copies.len() > 0;
    if owned.contains(name) {
        if current && all_list(agents, name) && present && all_match(copies) {
            Verdict::Complete
        } else {
            Verdict::Install
        }
    } else if !present && !any_lists(agents, name) {
        Verdict::Install
    } else if present && all_match(copies) {
        if all_list(agents, name) {
            Verdict::Complete
        } else {
            Verdict::Install
        }
    } else {
        Verdict::Conflict
    }
}

pub open spec fn conflict_text(key: Text, installed_name: Text, global: bool) -> Text {
    "[unowned-conflict] "@ + key + " was not installed: a skill named "@ + installed_name
        + " already exists and is not managed by Skiller. The existing copy was left unchanged. Remove or rename it and rerun to let Skiller manage this name, or stop trying with `skiller config"@
        + (if global {
        " -g"@
    } else {
        ""@
    }) + " --set "@ + key + "=off`"@
}

pub fn unowned_conflict_message(key: &str, installed_name: &str, global: bool) -> (r: String)
    ensures
        r@ == conflict_text(key@, installed_name@, global),
{
    let mut out = cat5(
        "[unowned-conflict] ",
        key,
        " was not installed: a skill named ",
        installed_name,
        " already exists and is not managed by Skiller. The existing copy was left unchanged. Remove or rename it and rerun to let Skiller manage this name, or stop trying with `skiller config",
    );
    out.append(if global { " -g" } else { "" });
    out.append(" --set ");
    out.append(key);
    out.append("=off`");
    out
}

/// What the resolution looks like to the classification.
pub struct Wanted {
    pub skills: Seq<ResolvedView>,
    /// What each skill requires.
    pub requires: Seq<Seq<Text>>,
    pub global: bool,
    pub owned: Set<Text>,
    pub previous: Map<Text, InstalledSkillView>,
}

pub open spec fn verdict_at(w: Wanted, o: Observed, i: int) -> Verdict {
    verdict(w.owned, w.previous, w.skills[i], o.copies[i], o.agents)
}

pub open spec fn conflict_at(w: Wanted, i: int) -> ConflictView {
    ConflictView {
        key: w.skills[i].key,
        installed_name: w.skills[i].installed_name,
        message: conflict_text(w.skills[i].key, w.skills[i].installed_name, w.global),
    }
}

/// A selection together with the source names that are blocked.
pub struct Sorting {
    pub selection: SelectionView,
    pub names: Set<Text>,
}

/// The first `n` skills by their verdicts.
pub open spec fn sorted(w: Wanted, o: Observed, n: int) -> Sorting
    decreases n,
{
    if n <= 0 {
        Sorting {
            selection: SelectionView {
                install: Set::empty(),
                complete: Set::empty(),
                blocked: Seq::empty(),
                conflicts: Seq::empty(),
            },
            names: Set::empty(),
        }
    } else {
        let s = sorted(w, o, n - 1);
        let name = w.skills[n - 1].installed_name;
        match verdict_at(w, o, n - 1) {
            Verdict::Install => Sorting {
                selection: SelectionView { install: s.selection.install.insert(name), ..s.selection },
                ..s
            },
            Verdict::Complete => Sorting {
                selection: SelectionView {
                    complete: s.selection.complete.insert(name),
                    ..s.selection
                },
                ..s
            },
            Verdict::Conflict => Sorting {
                selection: SelectionView {
                    blocked: s.selection.blocked.push(conflict_at(w, n - 1).message),
                    conflicts: s.selection.conflicts.push(conflict_at(w, n - 1)),
                    ..s.selection
                },
                names: s.names.insert(w.skills[n - 1].source_name),
            },
        }
    }
}

pub open spec fn depends_on(requires_list: Seq<Text>, names: Set<Text>) -> bool {
    exists|i: int| 0 <= i < requires_list.len() && names.contains(#[trigger] requires_list[i])
}

/// Blocks a skill that requires a blocked one.
pub open spec fn block_one(w: Wanted, s: Sorting, i: int) -> Sorting {
    let skill = w.skills[i];
    if s.names.contains(skill.source_name) || !depends_on(w.requires[i], s.names) {
        s
    } else {
        Sorting {
            selection: SelectionView {
                install: s.selection.install.remove(skill.installed_name),
                complete: s.selection.complete.remove(skill.installed_name),
                blocked: s.selection.blocked.push(
                    "[dependency-blocked] "@ + skill.key + " depends on a blocked skill"@,
                ),
                ..s.selection
            },
            names: s.names.insert(skill.source_name),
        }
    }
}

/// Blocks dependents among the first `n` skills.
pub open spec fn block_pass(w: Wanted, s: Sorting, n: int) -> Sorting
    decreases n,
{
    if n <= 0 {
        s
    } else {
        block_one(w, block_pass(w, s, n - 1), n - 1)
    }
}

/// Blocks dependents until a pass changes nothing.
pub open spec fn block_all(w: Wanted, s: Sorting, passes: nat) -> Sorting
    decreases passes,
{
    let next = block_pass(w, s, w.skills.len() as int);
    if passes == 0 || next.names == s.names {
        s
    } else {
        block_all(w, next, (passes - 1) as nat)
    }
}

/// What an installation does with the resolved skills.
pub open spec fn classified(w: Wanted, o: Observed) -> SelectionView {
    block_all(w, sorted(w, o, w.skills.len() as int), w.skills.len()).selection
}

/// How many of the first `n` skills are not blocked.
pub open spec fn unblocked(w: Wanted, names: Set<Text>, n: int) -> nat
    decreases n,
{
    if n <= 0 {
        0
    } else {
        unblocked(w, names, n - 1) + if names.contains(w.skills[n - 1].source_name) {
            0nat
        } else {
            1nat
        }
    }
}

proof fn lemma_unblocked_bound(w: Wanted, names: Set<Text>, n: int)
    requires
        0 <= n,
    ensures
        unblocked(w, names, n) <= n,
    decreases n,
{
    if n > 0 {
        lemma_unblocked_bound(w, names, n - 1);
    }
}

proof fn lemma_unblocked_shrinks(w: Wanted, a: Set<Text>, b: Set<Text>, n: int)
    requires
        a.subset_of(b),
    ensures
        unblocked(w, b, n) <= unblocked(w, a, n),
    decreases n,
{
    if n > 0 {
        lemma_unblocked_shrinks(w, a, b, n - 1);
    }
}

proof fn lemma_unblocked_less(w: Wanted, a: Set<Text>, b: Set<Text>, n: int, i: int)
    requires
        a.subset_of(b),
        0 <= i < n,
        !a.contains(w.skills[i].source_name),
        b.contains(w.skills[i].source_name),
    ensures
        unblocked(w, b, n) < unblocked(w, a, n),
    decreases n,
{
    if n - 1 == i {
        lemma_unblocked_shrinks(w, a, b, n - 1);
    } else {
        lemma_unblocked_less(w, a, b, n - 1, i);
    }
}

/// A pass only adds blocked names; where it adds one, that is the name of an unblocked skill.
proof fn lemma_pass_grows(w: Wanted, s: Sorting, n: int)
    requires
        0 <= n <= w.skills.len(),
    ensures
        s.names.subset_of(block_pass(w, s, n).names),
        block_pass(w, s, n).names != s.names ==> exists|i: int|
            0 <= i < n && !s.names.contains((#[trigger] w.skills[i]).source_name) && block_pass(
                w,
                s,
                n,
            ).names.contains(w.skills[i].source_name),
        block_pass(w, s, n).names == s.names ==> block_pass(w, s, n) == s,
    decreases n,
{
    if n > 0 {
        lemma_pass_grows(w, s, n - 1);
        let mid = block_pass(w, s, n - 1);
        let end = block_pass(w, s, n);
        if end.names != mid.names {
            assert(!s.names.contains(w.skills[n - 1].source_name));
            assert(end.names.contains(w.skills[n - 1].source_name));
        }
        if mid.names != s.names {
            let i = choose|i: int|
                0 <= i < n - 1 && !s.names.contains((#[trigger] w.skills[i]).source_name)
                    && mid.names.contains(w.skills[i].source_name);
            assert(end.names.contains(w.skills[i].source_name));
        }
        if end != mid {
            assert(end.names.contains(w.skills[n - 1].source_name));
            assert(end.names != s.names);
        }
    }
}

proof fn lemma_pass_shrinks(w: Wanted, s: Sorting)
    requires
        block_pass(w, s, w.skills.len() as int).names != s.names,
    ensures
        unblocked(w, block_pass(w, s, w.skills.len() as int).names, w.skills.len() as int)
            < unblocked(w, s.names, w.skills.len() as int),
{
    let n = w.skills.len() as int;
    lemma_pass_grows(w, s, n);
    let end = block_pass(w, s, n);
    let i = choose|i: int|
        0 <= i < n && !s.names.contains((#[trigger] w.skills[i]).source_name) && end.names.contains(
            w.skills[i].source_name,
        );
    lemma_unblocked_less(w, s.names, end.names, n, i);
}

fn requires_blocked(requires_list: &Vec<String>, names: &NameSet) -> (r: bool)
    ensures
        r == depends_on(views(requires_list@), names@),
{
    let mut i: usize = 0;
    while i < requires_list.len()
        invariant
            i <= requires_list.len(),
            forall|j: int| 0 <= j < i ==> !names@.contains(#[trigger] views(requires_list@)[j]),
        decreases requires_list.len() - i,
    {
        if names.contains(requires_list[i].as_str()) {
            assert(names@.contains(views(requires_list@)[i as int]));
            return true;
        }
        i = i + 1;
    }
    false
}

pub open spec fn agent_sets(v: Seq<NameSet>) -> Seq<Set<Text>> {
    Seq::new(v.len(), |i: int| v[i]@)
}

pub open spec fn copy_lists(v: Seq<Vec<bool>>) -> Seq<Seq<bool>> {
    Seq::new(v.len(), |i: int| v[i]@)
}

/// What each resolved skill requires.
pub open spec fn requirement_lists(v: Seq<ResolvedSkill>) -> Seq<Seq<Text>> {
    Seq::new(v.len(), |i: int| views(v[i].catalog.skills@[v[i].source_name@].requires@))
}

pub open spec fn wanted(
    global: bool,
    previous: InstalledState,
    resolved: Seq<ResolvedSkill>,
    recovery: Set<Text>,
) -> Wanted {
    Wanted {
        skills: resolved_views(resolved),
        requires: requirement_lists(resolved),
        global,
        owned: owned_names(previous@.skills, recovery),
        previous: previous@.skills,
    }
}

/// The catalog of each resolved skill has it.
pub open spec fn all_sourced(resolved: Seq<ResolvedSkill>) -> bool {
    forall|i: int|
        0 <= i < resolved.len() ==> (#[trigger] resolved[i]).catalog.skills@.contains_key(
            resolved[i].source_name@,
        )
}

pub fn owned_set(previous: &InstalledState, recovery: &NameSet) -> (r: NameSet)
    ensures
        r@ == owned_names(previous@.skills, recovery@),
{
    let mut out = recovery.clone();
    let n: usize = previous.skills.len();
    let ghost keys = previous.skills.names();
    let ghost all = previous@.skills;
    let mut i: usize = 0;
    while i < n
        invariant
            i <= n == keys.len(),
            keys == previous.skills.names(),
            all == previous@.skills,
            previous.skills.ordered(),
            forall|x: Text| #[trigger]
                out@.contains(x) ==> owned_names(all, recovery@).contains(x),
            forall|x: Text| recovery@.contains(x) ==> #[trigger] out@.contains(x),
            forall|j: int| 0 <= j < i ==> out@.contains(all[#[trigger] keys[j]].installed_name),
        decreases n - i,
    {
        let skill = previous.skills.value_at(i);
        let _ = previous.skills.name_at(i);
        assert(all.contains_key(keys[i as int]));
        assert(all[keys[i as int]] == skill@);
        let _ = out.insert(skill.installed_name.clone());
        i = i + 1;
    }
    proof {
        assert forall|x: Text| owned_names(all, recovery@).contains(x) implies out@.contains(x) by {
            if !recovery@.contains(x) {
                let k = choose|k: Text|
                    all.contains_key(k) && (#[trigger] all[k]).installed_name == x;
                assert(keys.to_set().contains(k));
                let j = keys.index_of(k);
                assert(out@.contains(all[keys[j]].installed_name));
            }
        }
        assert(out@ =~= owned_names(all, recovery@));
    }
    out
}

fn judge(
    owned: &NameSet,
    previous: &InstalledState,
    skill: &ResolvedSkill<'_>,
    copies: &Vec<bool>,
    agents: &Vec<NameSet>,
) -> (r: Verdict)
    ensures
        r == verdict(owned@, previous@.skills, skill@, copies@, agent_sets(agents@)),
{
    let name = skill.installed_name.as_str();
    let ghost sets = agent_sets(agents@);
    let mut every = true;
    let mut some = false;
    let mut i: usize = 0;
    while i < agents.len()
        invariant
            i <= agents.len(),
            sets == agent_sets(agents@),
            name@ == skill@.installed_name,
            every == (forall|j: int| 0 <= j < i ==> (#[trigger] sets[j]).contains(name@)),
            some == (exists|j: int| 0 <= j < i && (#[trigger] sets[j]).contains(name@)),
        decreases agents.len() - i,
    {
        assert(sets[i as int] == agents@[i as int]@);
        if agents[i].contains(name) {
            some = true;
        } else {
            every = false;
        }
        i = i + 1;
    }
    let mut exact = true;
    let mut k: usize = 0;
    while k < copies.len()
        invariant
            k <= copies.len(),
            exact == (forall|j: int| 0 <= j < k ==> #[trigger] copies@[j]),
        decreases copies.len() - k,
    {
        if !copies[k] {
            exact = false;
        }
        k = k + 1;
    }
    assert(every == all_list(sets, name@));
    assert(some == any_lists(sets, name@));
    assert(exact == all_match(copies@));
    let current = match previous.skills.get(skill.key.as_str()) {
        Some(installed) => !is_stale(installed, skill),
        None => false,
    };
    if owned.contains(name) {
        if current && every && copies.len() > 0 && exact {
            Verdict::Complete
        } else {
            Verdict::Install
        }
    } else if copies.len() == 0 && !some {
        Verdict::Install
    } else if copies.len() > 0 && exact {
        if every {
            Verdict::Complete
        } else {
            Verdict::Install
        }
    } else {
        Verdict::Conflict
    }
}

/// Sorts the resolved skills into those to install, those that are complete, and those that
/// are blocked by something unmanaged or by a blocked dependency.
///
/// `copies` says for each resolved skill whether each existing copy equals the intended
/// content; `agents` holds the skills that each agent lists.
pub fn classify_reconciliation(
    global: bool,
    previous: &InstalledState,
    resolved: &Vec<ResolvedSkill<'_>>,
    recovery_owned: &NameSet,
    copies: &Vec<Vec<bool>>,
    agents: &Vec<NameSet>,
) -> (r: ReconcileSelection)
    requires
        all_sourced(resolved@),
        copies@.len() == resolved@.len(),
    ensures
        r@ == classified(
            wanted(global, *previous, resolved@, recovery_owned@),
            (Observed { copies: copy_lists(copies@), agents: agent_sets(agents@) }),
        ),
{
    let ghost w = wanted(global, *previous, resolved@, recovery_owned@);
    let ghost o = Observed { copies: copy_lists(copies@), agents: agent_sets(agents@) };
    let owned = owned_set(previous, recovery_owned);
    let mut selection = ReconcileSelection {
        install_names: NameSet::new(),
        complete_names: NameSet::new(),
        blocked: Vec::new(),
        conflicts: Vec::new(),
    };
    let mut names = NameSet::new();
    let mut i: usize = 0;
    proof {
        assert(views(selection.blocked@) =~= Seq::<Text>::empty());
        assert(conflict_views(selection.conflicts@) =~= Seq::<ConflictView>::empty());
    }
    while i < resolved.len()
        invariant
            i <= resolved.len(),
            copies@.len() == resolved@.len(),
            w == wanted(global, *previous, resolved@, recovery_owned@),
            o == (Observed { copies: copy_lists(copies@), agents: agent_sets(agents@) }),
            owned@ == w.owned,
            sorted(w, o, i as int) == (Sorting { selection: selection@, names: names@ }),
        decreases resolved.len() - i,
    {
        let skill = &resolved[i];
        assert(w.skills[i as int] == skill@);
        assert(o.copies[i as int] == copies@[i as int]@);
        let ghost prior = selection@;
        match judge(&owned, previous, skill, &copies[i], agents) {
            Verdict::Install => {
                let _ = selection.install_names.insert(skill.installed_name.clone());
            },
            Verdict::Complete => {
                let _ = selection.complete_names.insert(skill.installed_name.clone());
            },
            Verdict::Conflict => {
                let message = unowned_conflict_message(
                    skill.key.as_str(),
                    skill.installed_name.as_str(),
                    global,
                );
                let conflict = UnownedConflict {
                    key: skill.key.clone(),
                    installed_name: skill.installed_name.clone(),
                    message: message.clone(),
                };
                selection.blocked.push(message);
                selection.conflicts.push(conflict);
                let _ = names.insert(skill.source_name.clone());
                proof {
                    assert(views(selection.blocked@) =~= prior.blocked.push(message@));
                    assert(conflict_views(selection.conflicts@) =~= prior.conflicts.push(
                        conflict@,
                    ));
                }
            },
        }
        i = i + 1;
    }
    let ghost total = resolved@.len();
    let ghost start = sorted(w, o, total as int);
    let ghost mut passes: nat = total;
    proof {
        lemma_unblocked_bound(w, start.names, total as int);
    }
    let mut changed = true;
    while changed
        invariant
            copies@.len() == resolved@.len(),
            w == wanted(global, *previous, resolved@, recovery_owned@),
            all_sourced(resolved@),
            total == resolved@.len(),
            changed ==> block_all(w, start, total) == block_all(
                w,
                Sorting { selection: selection@, names: names@ },
                passes,
            ),
            changed ==> unblocked(w, names@, total as int) <= passes,
            !changed ==> block_all(w, start, total) == (Sorting {
                selection: selection@,
                names: names@,
            }),
        decreases passes, (if changed { 1int } else { 0int }),
    {
        let ghost before = Sorting { selection: selection@, names: names@ };
        changed = false;
        let mut k: usize = 0;
        while k < resolved.len()
            invariant
                k <= resolved.len(),
                w == wanted(global, *previous, resolved@, recovery_owned@),
                all_sourced(resolved@),
                block_pass(w, before, k as int) == (Sorting {
                    selection: selection@,
                    names: names@,
                }),
                changed == (names@ != before.names),
                before.names.subset_of(names@),
            decreases resolved.len() - k,
        {
            let skill = &resolved[k];
            assert(w.skills[k as int] == skill@);
            if !names.contains(skill.source_name.as_str()) {
                assert(resolved@[k as int].catalog.skills@.contains_key(
                    resolved@[k as int].source_name@,
                ));
                match skill.catalog.skills.get(skill.source_name.as_str()) {
                    None => {
                        assert(false);
                    },
                    Some(source) => {
                        assert(w.requires[k as int] == views(source.requires@));
                        if requires_blocked(&source.requires, &names) {
                            let ghost prior = selection@;
                            let _ = names.insert(skill.source_name.clone());
                            selection.install_names.remove(skill.installed_name.as_str());
                            selection.complete_names.remove(skill.installed_name.as_str());
                            let message = cat3(
                                "[dependency-blocked] ",
                                skill.key.as_str(),
                                " depends on a blocked skill",
                            );
                            selection.blocked.push(message);
                            changed = true;
                            proof {
                                assert(views(selection.blocked@) =~= prior.blocked.push(message@));
                                assert(!before.names.contains(skill.source_name@));
                                assert(names@.contains(skill.source_name@));
                            }
                        }
                    },
                }
            }
            k = k + 1;
        }
        proof {
            lemma_pass_grows(w, before, total as int);
            if changed {
                lemma_pass_shrinks(w, before);
                assert(passes > 0);
                passes = (passes - 1) as nat;
            }
        }
    }
    selection
}

// What a classification keeps.

pub open spec fn distinct_names(w: Wanted) -> bool {
    forall|i: int, j: int|
        0 <= i < w.skills.len() && 0 <= j < w.skills.len() && i != j ==> (
        #[trigger] w.skills[i]).installed_name != (#[trigger] w.skills[j]).installed_name
}

pub open spec fn distinct_sources(w: Wanted) -> bool {
    forall|i: int, j: int|
        0 <= i < w.skills.len() && 0 <= j < w.skills.len() && i != j ==> (
        #[trigger] w.skills[i]).source_name != (#[trigger] w.skills[j]).source_name
}

proof fn lemma_sorted(w: Wanted, o: Observed, n: int)
    requires
        0 <= n <= w.skills.len(),
    ensures
        forall|x: Text| #[trigger]
            sorted(w, o, n).selection.install.contains(x) <==> exists|i: int|
                0 <= i < n && (#[trigger] w.skills[i]).installed_name == x && verdict_at(w, o, i)
                    == Verdict::Install,
        forall|x: Text| #[trigger]
            sorted(w, o, n).selection.complete.contains(x) <==> exists|i: int|
                0 <= i < n && (#[trigger] w.skills[i]).installed_name == x && verdict_at(w, o, i)
                    == Verdict::Complete,
        forall|x: Text| #[trigger]
            sorted(w, o, n).names.contains(x) <==> exists|i: int|
                0 <= i < n && (#[trigger] w.skills[i]).source_name == x && verdict_at(w, o, i)
                    == Verdict::Conflict,
        forall|i: int|
            0 <= i < n && verdict_at(w, o, i) == Verdict::Conflict ==> sorted(
                w,
                o,
                n,
            ).selection.blocked.contains((#[trigger] conflict_at(w, i)).message),
    decreases n,
{
    if n > 0 {
        lemma_sorted(w, o, n - 1);
        let a = sorted(w, o, n - 1);
        let b = sorted(w, o, n);
        let last = w.skills[n - 1];
        assert forall|x: Text| #[trigger] b.selection.install.contains(x) <==> exists|i: int|
            0 <= i < n && (#[trigger] w.skills[i]).installed_name == x && verdict_at(w, o, i)
                == Verdict::Install by {
            if b.selection.install.contains(x) {
                if a.selection.install.contains(x) {
                    let i = choose|i: int|
                        0 <= i < n - 1 && (#[trigger] w.skills[i]).installed_name == x
                            && verdict_at(w, o, i) == Verdict::Install;
                    assert(w.skills[i].installed_name == x);
                } else {
                    assert(w.skills[n - 1].installed_name == x);
                }
            }
            if exists|i: int|
                0 <= i < n && (#[trigger] w.skills[i]).installed_name == x && verdict_at(w, o, i)
                    == Verdict::Install {
                let i = choose|i: int|
                    0 <= i < n && (#[trigger] w.skills[i]).installed_name == x && verdict_at(
                        w,
                        o,
                        i,
                    ) == Verdict::Install;
                if i < n - 1 {
                    assert(w.skills[i].installed_name == x);
                    assert(a.selection.install.contains(x));
                }
            }
        }
        assert forall|x: Text| #[trigger] b.selection.complete.contains(x) <==> exists|i: int|
            0 <= i < n && (#[trigger] w.skills[i]).installed_name == x && verdict_at(w, o, i)
                == Verdict::Complete by {
            if b.selection.complete.contains(x) {
                if a.selection.complete.contains(x) {
                    let i = choose|i: int|
                        0 <= i < n - 1 && (#[trigger] w.skills[i]).installed_name == x
                            && verdict_at(w, o, i) == Verdict::Complete;
                    assert(w.skills[i].installed_name == x);
                } else {
                    assert(w.skills[n - 1].installed_name == x);
                }
            }
            if exists|i: int|
                0 <= i < n && (#[trigger] w.skills[i]).installed_name == x && verdict_at(w, o, i)
                    == Verdict::Complete {
                let i = choose|i: int|
                    0 <= i < n && (#[trigger] w.skills[i]).installed_name == x && verdict_at(
                        w,
                        o,
                        i,
                    ) == Verdict::Complete;
                if i < n - 1 {
                    assert(w.skills[i].installed_name == x);
                    assert(a.selection.complete.contains(x));
                }
            }
        }
        assert forall|x: Text| #[trigger] b.names.contains(x) <==> exists|i: int|
            0 <= i < n && (#[trigger] w.skills[i]).source_name == x && verdict_at(w, o, i)
                == Verdict::Conflict by {
            if b.names.contains(x) {
                if a.names.contains(x) {
                    let i = choose|i: int|
                        0 <= i < n - 1 && (#[trigger] w.skills[i]).source_name == x && verdict_at(
                            w,
                            o,
                            i,
                        ) == Verdict::Conflict;
                    assert(w.skills[i].source_name == x);
                } else {
                    assert(w.skills[n - 1].source_name == x);
                }
            }
            if exists|i: int|
                0 <= i < n && (#[trigger] w.skills[i]).source_name == x && verdict_at(w, o, i)
                    == Verdict::Conflict {
                let i = choose|i: int|
                    0 <= i < n && (#[trigger] w.skills[i]).source_name == x && verdict_at(w, o, i)
                        == Verdict::Conflict;
                if i < n - 1 {
                    assert(w.skills[i].source_name == x);
                    assert(a.names.contains(x));
                }
            }
        }
        assert forall|i: int| 0 <= i < n && verdict_at(w, o, i) == Verdict::Conflict implies b.selection.blocked.contains(
            (#[trigger] conflict_at(w, i)).message,
        ) by {
            if i < n - 1 {
                let m = conflict_at(w, i).message;
                let k = a.selection.blocked.index_of(m);
                assert(b.selection.blocked[k] == m);
            } else {
                assert(b.selection.blocked[a.selection.blocked.len() as int] == conflict_at(
                    w,
                    i,
                ).message);
            }
        }
    }
}

/// Blocking takes skills out and adds reasons.
pub open spec fn narrows(a: Sorting, b: Sorting) -> bool {
    &&& b.selection.install.subset_of(a.selection.install)
    &&& b.selection.complete.subset_of(a.selection.complete)
    &&& a.selection.blocked.is_prefix_of(b.selection.blocked)
    &&& b.selection.conflicts == a.selection.conflicts
    &&& a.names.subset_of(b.names)
}

proof fn lemma_pass_narrows(w: Wanted, s: Sorting, n: int)
    ensures
        narrows(s, block_pass(w, s, n)),
    decreases n,
{
    if n > 0 {
        lemma_pass_narrows(w, s, n - 1);
    }
}

proof fn lemma_all_narrows(w: Wanted, s: Sorting, passes: nat)
    ensures
        narrows(s, block_all(w, s, passes)),
    decreases passes,
{
    let next = block_pass(w, s, w.skills.len() as int);
    if passes > 0 && next.names != s.names {
        lemma_pass_narrows(w, s, w.skills.len() as int);
        lemma_all_narrows(w, next, (passes - 1) as nat);
    }
}

/// A divergent unowned skill is neither installed nor counted as complete, and is reported.
pub proof fn law_unowned_is_protected(w: Wanted, o: Observed, i: int)
    requires
        distinct_names(w),
        0 <= i < w.skills.len(),
        verdict_at(w, o, i) == Verdict::Conflict,
    ensures
        !classified(w, o).install.contains(w.skills[i].installed_name),
        !classified(w, o).complete.contains(w.skills[i].installed_name),
        classified(w, o).blocked.contains(conflict_at(w, i).message),
{
    let n = w.skills.len() as int;
    lemma_sorted(w, o, n);
    let start = sorted(w, o, n);
    lemma_all_narrows(w, start, w.skills.len());
    let x = w.skills[i].installed_name;
    if start.selection.install.contains(x) {
        let j = choose|j: int|
            0 <= j < n && (#[trigger] w.skills[j]).installed_name == x && verdict_at(w, o, j)
                == Verdict::Install;
        assert(w.skills[j].installed_name == w.skills[i].installed_name);
    }
    if start.selection.complete.contains(x) {
        let j = choose|j: int|
            0 <= j < n && (#[trigger] w.skills[j]).installed_name == x && verdict_at(w, o, j)
                == Verdict::Complete;
        assert(w.skills[j].installed_name == w.skills[i].installed_name);
    }
    let m = conflict_at(w, i).message;
    let k = start.selection.blocked.index_of(m);
    assert(classified(w, o).blocked[k] == m);
}

/// Something unowned is taken over only where every copy of it is exactly what is intended.
pub proof fn law_adoption_needs_exact_copies(w: Wanted, o: Observed, i: int)
    requires
        0 <= i < w.skills.len(),
        !w.owned.contains(w.skills[i].installed_name),
        o.copies[i].len() > 0,
        verdict_at(w, o, i) != Verdict::Conflict,
    ensures
        all_match(o.copies[i]),
{
}

/// Each skill is in exactly one of three places.
pub open spec fn partitioned(w: Wanted, s: Sorting) -> bool {
    forall|i: int|
        0 <= i < w.skills.len() ==> {
            let x = (#[trigger] w.skills[i]).installed_name;
            &&& s.names.contains(w.skills[i].source_name) <==> !s.selection.install.contains(x)
                && !s.selection.complete.contains(x)
            &&& !(s.selection.install.contains(x) && s.selection.complete.contains(x))
        }
}

proof fn lemma_pass_partitioned(w: Wanted, s: Sorting, n: int)
    requires
        distinct_names(w),
        distinct_sources(w),
        partitioned(w, s),
        0 <= n <= w.skills.len(),
    ensures
        partitioned(w, block_pass(w, s, n)),
    decreases n,
{
    if n > 0 {
        lemma_pass_partitioned(w, s, n - 1);
        let a = block_pass(w, s, n - 1);
        let b = block_pass(w, s, n);
        assert forall|i: int| 0 <= i < w.skills.len() implies {
            let x = (#[trigger] w.skills[i]).installed_name;
            &&& b.names.contains(w.skills[i].source_name) <==> !b.selection.install.contains(x)
                && !b.selection.complete.contains(x)
            &&& !(b.selection.install.contains(x) && b.selection.complete.contains(x))
        } by {
            if i != n - 1 {
                assert(w.skills[i].installed_name != w.skills[n - 1].installed_name);
                assert(w.skills[i].source_name != w.skills[n - 1].source_name);
            }
        }
    }
}

proof fn lemma_all_partitioned(w: Wanted, s: Sorting, passes: nat)
    requires
        distinct_names(w),
        distinct_sources(w),
        partitioned(w, s),
        unblocked(w, s.names, w.skills.len() as int) <= passes,
    ensures
        ({
            let end = block_all(w, s, passes);
            &&& partitioned(w, end)
            &&& block_pass(w, end, w.skills.len() as int).names == end.names
        }),
    decreases passes,
{
    let n = w.skills.len() as int;
    let next = block_pass(w, s, n);
    if next.names != s.names {
        lemma_pass_shrinks(w, s);
        lemma_pass_partitioned(w, s, n);
        lemma_all_partitioned(w, next, (passes - 1) as nat);
    }
}

/// Once nothing changes, whatever requires a blocked skill is blocked.
proof fn lemma_settled(w: Wanted, s: Sorting, n: int, i: int)
    requires
        0 <= i < n <= w.skills.len(),
        block_pass(w, s, n).names == s.names,
        depends_on(w.requires[i], s.names),
    ensures
        s.names.contains(w.skills[i].source_name),
    decreases n,
{
    lemma_pass_grows(w, s, n);
    lemma_pass_grows(w, s, n - 1);
    lemma_pass_grows(w, block_pass(w, s, n - 1), 1);
    let mid = block_pass(w, s, n - 1);
    assert(mid.names.subset_of(block_pass(w, s, n).names));
    assert(mid.names =~= s.names);
    if i < n - 1 {
        lemma_settled(w, s, n - 1, i);
    }
}

/// Every skill is installed, complete or blocked, and only one of these; a skill that
/// requires a blocked one is blocked itself.
pub proof fn law_classification(w: Wanted, o: Observed, i: int)
    requires
        distinct_names(w),
        distinct_sources(w),
        0 <= i < w.skills.len(),
    ensures
        ({
            let end = block_all(w, sorted(w, o, w.skills.len() as int), w.skills.len());
            let x = w.skills[i].installed_name;
            &&& end.selection == classified(w, o)
            &&& end.names.contains(w.skills[i].source_name) <==> !end.selection.install.contains(x)
                && !end.selection.complete.contains(x)
            &&& !(end.selection.install.contains(x) && end.selection.complete.contains(x))
            &&& depends_on(w.requires[i], end.names) ==> end.names.contains(
                w.skills[i].source_name,
            )
            &&& verdict_at(w, o, i) == Verdict::Conflict ==> end.names.contains(
                w.skills[i].source_name,
            )
        }),
{
    let n = w.skills.len() as int;
    let start = sorted(w, o, n);
    lemma_sorted(w, o, n);
    assert(partitioned(w, start)) by {
        assert forall|k: int| 0 <= k < w.skills.len() implies {
            let x = (#[trigger] w.skills[k]).installed_name;
            &&& start.names.contains(w.skills[k].source_name) <==> !start.selection.install.contains(
                x,
            ) && !start.selection.complete.contains(x)
            &&& !(start.selection.install.contains(x) && start.selection.complete.contains(x))
        } by {
            let x = w.skills[k].installed_name;
            if start.selection.install.contains(x) {
                let j = choose|j: int|
                    0 <= j < n && (#[trigger] w.skills[j]).installed_name == x && verdict_at(
                        w,
                        o,
                        j,
                    ) == Verdict::Install;
                assert(j == k);
            }
            if start.selection.complete.contains(x) {
                let j = choose|j: int|
                    0 <= j < n && (#[trigger] w.skills[j]).installed_name == x && verdict_at(
                        w,
                        o,
                        j,
                    ) == Verdict::Complete;
                assert(j == k);
            }
            if start.names.contains(w.skills[k].source_name) {
                let j = choose|j: int|
                    0 <= j < n && (#[trigger] w.skills[j]).source_name == w.skills[k].source_name
                        && verdict_at(w, o, j) == Verdict::Conflict;
                assert(j == k);
            }
        }
    }
    lemma_unblocked_bound(w, start.names, n);
    lemma_all_partitioned(w, start, w.skills.len());
    lemma_all_narrows(w, start, w.skills.len());
    let end = block_all(w, start, w.skills.len());
    if depends_on(w.requires[i], end.names) {
        lemma_settled(w, end, n, i);
    }
    assert(w.skills[i].installed_name == w.skills[i].installed_name);
}

/// Every blocked source name has a reason: it is a skill whose name is taken, or one that
/// requires a blocked one.
spec fn reasoned(w: Wanted, o: Observed, names: Set<Text>) -> bool {
    &&& forall|i: int|
        0 <= i < w.skills.len() && names.contains((#[trigger] w.skills[i]).source_name)
            ==> verdict_at(w, o, i) == Verdict::Conflict || depends_on(w.requires[i], names)
    &&& forall|x: Text| #[trigger]
        names.contains(x) ==> exists|i: int|
            0 <= i < w.skills.len() && (#[trigger] w.skills[i]).source_name == x
}

proof fn lemma_pass_reasoned(w: Wanted, o: Observed, s: Sorting, n: int)
    requires
        distinct_sources(w),
        reasoned(w, o, s.names),
        0 <= n <= w.skills.len(),
    ensures
        reasoned(w, o, block_pass(w, s, n).names),
    decreases n,
{
    if n > 0 {
        lemma_pass_reasoned(w, o, s, n - 1);
        let a = block_pass(w, s, n - 1);
        let b = block_pass(w, s, n);
        assert forall|i: int| 0 <= i < w.skills.len() && b.names.contains(
            (#[trigger] w.skills[i]).source_name,
        ) implies verdict_at(w, o, i) == Verdict::Conflict || depends_on(w.requires[i], b.names) by {
            if a.names.contains(w.skills[i].source_name) {
                if depends_on(w.requires[i], a.names) {
                    let k = choose|k: int|
                        0 <= k < w.requires[i].len() && a.names.contains(
                            #[trigger] w.requires[i][k],
                        );
                    assert(b.names.contains(w.requires[i][k]));
                }
            } else {
                assert(w.skills[i].source_name == w.skills[n - 1].source_name);
                let k = choose|k: int|
                    0 <= k < w.requires[i].len() && a.names.contains(#[trigger] w.requires[i][k]);
                assert(b.names.contains(w.requires[i][k]));
            }
        }
        assert forall|x: Text| #[trigger] b.names.contains(x) implies exists|i: int|
            0 <= i < w.skills.len() && (#[trigger] w.skills[i]).source_name == x by {
            if !a.names.contains(x) {
                assert(w.skills[n - 1].source_name == x);
            }
        }
    }
}

proof fn lemma_all_reasoned(w: Wanted, o: Observed, s: Sorting, passes: nat)
    requires
        distinct_sources(w),
        reasoned(w, o, s.names),
    ensures
        reasoned(w, o, block_all(w, s, passes).names),
    decreases passes,
{
    let next = block_pass(w, s, w.skills.len() as int);
    if passes > 0 && next.names != s.names {
        lemma_pass_reasoned(w, o, s, w.skills.len() as int);
        lemma_all_reasoned(w, o, next, (passes - 1) as nat);
    }
}

/// A skill is complete only where every agent lists it, it has a copy, every copy is what is
/// intended, and, if its name is managed already, the record agrees with what was resolved; where
/// all of that holds it is not installed again. What is installed is managed already, or there
/// is nothing of its name, or all copies of it are exact.
pub proof fn law_complete_means_in_place(
    global: bool,
    previous: InstalledState,
    resolved: Seq<ResolvedSkill>,
    recovery: Set<Text>,
    copies: Seq<Vec<bool>>,
    agents: Seq<NameSet>,
    i: int,
)
    requires
        forall|a: int, b: int|
            0 <= a < b < resolved.len() ==> (#[trigger] resolved[a]).installed_name@ != (
            #[trigger] resolved[b]).installed_name@,
        copies.len() == resolved.len(),
        0 <= i < resolved.len(),
    ensures
        ({
            let s = classified(
                wanted(global, previous, resolved, recovery),
                (Observed { copies: copy_lists(copies), agents: agent_sets(agents) }),
            );
            let name = resolved[i].installed_name@;
            let key = resolved[i].key@;
            let managed = recovery.contains(name) || exists|k: Text|
                previous.skills@.contains_key(k) && (
                #[trigger] previous.skills@[k]).installed_name@ == name;
            let record = previous.skills@[key];
            let agrees = previous.skills@.contains_key(key) && record.installed_name@ == name
                && record.mode == resolved[i].mode && record.gitignore == resolved[i].gitignore
                && record.digest is Some && record.digest->Some_0@ == resolved[i].digest@;
            let listed = forall|a: int| 0 <= a < agents.len() ==> (#[trigger] agents[a])@.contains(name);
            let unlisted = forall|a: int|
                0 <= a < agents.len() ==> !(#[trigger] agents[a])@.contains(name);
            let exact = copies[i]@.len() > 0 && forall|c: int|
                0 <= c < copies[i]@.len() ==> #[trigger] copies[i]@[c];
            let settled = listed && exact && (managed ==> agrees);
            &&& s.complete.contains(name) ==> settled
            &&& s.install.contains(name) ==> !settled
            &&& s.install.contains(name) ==> managed || exact || (copies[i]@.len() == 0 && unlisted)
        }),
{
    let w = wanted(global, previous, resolved, recovery);
    let o = Observed { copies: copy_lists(copies), agents: agent_sets(agents) };
    let n = w.skills.len() as int;
    let name = resolved[i].installed_name@;
    let key = resolved[i].key@;
    lemma_sorted(w, o, n);
    lemma_all_narrows(w, sorted(w, o, n), w.skills.len());
    assert forall|j: int| 0 <= j < n && (#[trigger] w.skills[j]).installed_name == name implies j
        == i by {
        assert(resolved[j].installed_name@ == resolved[i].installed_name@);
    }
    lemma_verdict_is_raw(w, o, previous, resolved, recovery, copies, agents, i);
}

/// What the verdict on a skill rests on, in terms of what was handed in.
proof fn lemma_verdict_is_raw(
    w: Wanted,
    o: Observed,
    previous: InstalledState,
    resolved: Seq<ResolvedSkill>,
    recovery: Set<Text>,
    copies: Seq<Vec<bool>>,
    agents: Seq<NameSet>,
    i: int,
)
    requires
        w == wanted(w.global, previous, resolved, recovery),
        o == (Observed { copies: copy_lists(copies), agents: agent_sets(agents) }),
        copies.len() == resolved.len(),
        0 <= i < resolved.len(),
    ensures
        ({
            let name = resolved[i].installed_name@;
            let key = resolved[i].key@;
            let managed = recovery.contains(name) || exists|k: Text|
                previous.skills@.contains_key(k) && (
                #[trigger] previous.skills@[k]).installed_name@ == name;
            let record = previous.skills@[key];
            let agrees = previous.skills@.contains_key(key) && record.installed_name@ == name
                && record.mode == resolved[i].mode && record.gitignore == resolved[i].gitignore
                && record.digest is Some && record.digest->Some_0@ == resolved[i].digest@;
            let listed = forall|a: int| 0 <= a < agents.len() ==> (#[trigger] agents[a])@.contains(name);
            let unlisted = forall|a: int|
                0 <= a < agents.len() ==> !(#[trigger] agents[a])@.contains(name);
            let exact = copies[i]@.len() > 0 && forall|c: int|
                0 <= c < copies[i]@.len() ==> #[trigger] copies[i]@[c];
            let settled = listed && exact && (managed ==> agrees);
            let taken = !managed && !exact && !(copies[i]@.len() == 0 && unlisted);
            &&& verdict_at(w, o, i) == Verdict::Complete <==> settled
            &&& verdict_at(w, o, i) == Verdict::Conflict <==> taken
        }),
{
    let name = resolved[i].installed_name@;
    let managed = recovery.contains(name) || exists|k: Text|
        previous.skills@.contains_key(k) && (#[trigger] previous.skills@[k]).installed_name@ == name;
    let listed = forall|a: int| 0 <= a < agents.len() ==> (#[trigger] agents[a])@.contains(name);
    let unlisted = forall|a: int| 0 <= a < agents.len() ==> !(#[trigger] agents[a])@.contains(name);
    let exact = forall|c: int| 0 <= c < copies[i]@.len() ==> #[trigger] copies[i]@[c];
    assert(w.owned.contains(name) == managed) by {
        if exists|k: Text|
            previous.skills@.contains_key(k) && (#[trigger] previous.skills@[k]).installed_name@
                == name {
            let k = choose|k: Text|
                previous.skills@.contains_key(k) && (
                #[trigger] previous.skills@[k]).installed_name@ == name;
            assert(w.previous.contains_key(k) && w.previous[k].installed_name == name);
        }
        if exists|k: Text|
            w.previous.contains_key(k) && (#[trigger] w.previous[k]).installed_name == name {
            let k = choose|k: Text|
                w.previous.contains_key(k) && (#[trigger] w.previous[k]).installed_name == name;
            assert(previous.skills@.contains_key(k) && previous.skills@[k].installed_name@ == name);
        }
    }
    assert(all_list(o.agents, name) == listed) by {
        if listed {
            assert forall|a: int| 0 <= a < o.agents.len() implies (#[trigger] o.agents[a]).contains(
                name,
            ) by {
                assert(agents[a]@.contains(name));
            }
        } else {
            let a = choose|a: int| 0 <= a < agents.len() && !(#[trigger] agents[a])@.contains(name);
            assert(!o.agents[a].contains(name));
        }
    }
    assert(any_lists(o.agents, name) == !unlisted) by {
        if !unlisted {
            let a = choose|a: int| 0 <= a < agents.len() && (#[trigger] agents[a])@.contains(name);
            assert(o.agents[a].contains(name));
        }
        if any_lists(o.agents, name) {
            let a = choose|a: int|
                0 <= a < o.agents.len() && (#[trigger] o.agents[a]).contains(name);
            assert(agents[a]@.contains(name));
        }
    }
    assert(o.copies[i] == copies[i]@);
    assert(all_match(o.copies[i]) == exact);
}

/// A skill that is neither installed nor complete has a name that is taken by something
/// unmanaged and divergent, or it requires a skill of which the same holds; and whatever has
/// such a name or requirement is neither installed nor complete. No skill is both.
pub proof fn law_blocked_skills_have_a_reason(
    global: bool,
    previous: InstalledState,
    resolved: Seq<ResolvedSkill>,
    recovery: Set<Text>,
    copies: Seq<Vec<bool>>,
    agents: Seq<NameSet>,
    i: int,
)
    requires
        forall|a: int, b: int|
            0 <= a < b < resolved.len() ==> (#[trigger] resolved[a]).installed_name@ != (
            #[trigger] resolved[b]).installed_name@ && resolved[a].source_name@
                != resolved[b].source_name@,
        copies.len() == resolved.len(),
        0 <= i < resolved.len(),
    ensures
        ({
            let s = classified(
                wanted(global, previous, resolved, recovery),
                (Observed { copies: copy_lists(copies), agents: agent_sets(agents) }),
            );
            let idle = |j: int|
                !s.install.contains(resolved[j].installed_name@) && !s.complete.contains(
                    resolved[j].installed_name@,
                );
            let name = resolved[i].installed_name@;
            let managed = recovery.contains(name) || exists|k: Text|
                previous.skills@.contains_key(k) && (
                #[trigger] previous.skills@[k]).installed_name@ == name;
            let unlisted = forall|a: int|
                0 <= a < agents.len() ==> !(#[trigger] agents[a])@.contains(name);
            let exact = copies[i]@.len() > 0 && forall|c: int|
                0 <= c < copies[i]@.len() ==> #[trigger] copies[i]@[c];
            let taken = !managed && !exact && !(copies[i]@.len() == 0 && unlisted);
            let needs = resolved[i].catalog.skills@[resolved[i].source_name@].requires@;
            let waits = exists|k: int, j: int|
                0 <= k < needs.len() && 0 <= j < resolved.len() && (#[trigger] needs[k])@ == (
                #[trigger] resolved[j]).source_name@ && idle(j);
            &&& idle(i) <==> taken || waits
            &&& !(s.install.contains(name) && s.complete.contains(name))
        }),
{
    let w = wanted(global, previous, resolved, recovery);
    let o = Observed { copies: copy_lists(copies), agents: agent_sets(agents) };
    let n = w.skills.len() as int;
    let start = sorted(w, o, n);
    let end = block_all(w, start, w.skills.len());
    let needs = resolved[i].catalog.skills@[resolved[i].source_name@].requires@;
    assert forall|a: int, b: int| 0 <= a < n && 0 <= b < n && a != b implies (
    #[trigger] w.skills[a]).installed_name != (#[trigger] w.skills[b]).installed_name
        && w.skills[a].source_name != w.skills[b].source_name by {
        if a < b {
            assert(resolved[a].installed_name@ != resolved[b].installed_name@);
        } else {
            assert(resolved[b].installed_name@ != resolved[a].installed_name@);
        }
    }
    lemma_sorted(w, o, n);
    assert(reasoned(w, o, start.names)) by {
        assert forall|j: int| 0 <= j < n && start.names.contains(
            (#[trigger] w.skills[j]).source_name,
        ) implies verdict_at(w, o, j) == Verdict::Conflict by {
            let x = w.skills[j].source_name;
            let k = choose|k: int|
                0 <= k < n && (#[trigger] w.skills[k]).source_name == x && verdict_at(w, o, k)
                    == Verdict::Conflict;
            assert(k == j);
        }
    }
    lemma_all_reasoned(w, o, start, w.skills.len());
    assert forall|j: int| 0 <= j < n implies end.names.contains(
        (#[trigger] resolved[j]).source_name@,
    ) == (!end.selection.install.contains(resolved[j].installed_name@)
        && !end.selection.complete.contains(resolved[j].installed_name@)) by {
        law_classification(w, o, j);
        assert(w.skills[j] == resolved[j]@);
    }
    law_classification(w, o, i);
    lemma_verdict_is_raw(w, o, previous, resolved, recovery, copies, agents, i);
    assert(w.skills[i] == resolved[i]@);
    assert(w.requires[i] == views(needs));
    assert(resolved[i].source_name@ == w.skills[i].source_name);
    if depends_on(w.requires[i], end.names) {
        let k = choose|k: int|
            0 <= k < w.requires[i].len() && end.names.contains(#[trigger] w.requires[i][k]);
        let j = choose|j: int|
            0 <= j < w.skills.len() && (#[trigger] w.skills[j]).source_name == w.requires[i][k];
        assert(needs[k]@ == resolved[j].source_name@);
        assert(end.names.contains(resolved[j].source_name@));
    }
    if exists|k: int, j: int|
        0 <= k < needs.len() && 0 <= j < resolved.len() && (#[trigger] needs[k])@ == (
        #[trigger] resolved[j]).source_name@ && end.names.contains(resolved[j].source_name@) {
        let (k, j) = choose|k: int, j: int|
            0 <= k < needs.len() && 0 <= j < resolved.len() && (#[trigger] needs[k])@ == (
            #[trigger] resolved[j]).source_name@ && end.names.contains(resolved[j].source_name@);
        assert(end.names.contains(w.requires[i][k]));
    }
}

// Approved replacements.

#[derive(Debug, Clone, Copy, PartialEq, Eq, Structural)]
pub enum ReplacementChoice {
    This,
    All,
    Keep,
}

/// What an answer asks for; an unknown answer keeps.
pub open spec fn choice_of(answer: Text) -> ReplacementChoice {
    let a = trim(answer);
    if a == "y"@ || a == "yes"@ {
        ReplacementChoice::This
    } else if a == "Y"@ || a == "YES"@ || a == "a"@ || a == "all"@ {
        ReplacementChoice::All
    } else {
        ReplacementChoice::Keep
    }
}

pub fn parse_replacement(answer: &str) -> (r: ReplacementChoice)
    ensures
        r == choice_of(answer@),
{
    let a = trimmed(answer);
    let a = a.as_str();
    if same(a, "y") || same(a, "yes") {
        ReplacementChoice::This
    } else if same(a, "Y") || same(a, "YES") || same(a, "a") || same(a, "all") {
        ReplacementChoice::All
    } else {
        ReplacementChoice::Keep
    }
}

/// Whether the first `n` answers approve all that is left.
pub open spec fn takes_all(choices: Seq<ReplacementChoice>, n: int) -> bool {
    exists|j: int| 0 <= j < n && j < choices.len() && #[trigger] choices[j] == ReplacementChoice::All
}

/// Whether the answers approve the replacement of conflict `i`. Without an answer nothing is
/// approved.
pub open spec fn approves(choices: Seq<ReplacementChoice>, i: int) -> bool {
    takes_all(choices, i) || (i < choices.len() && choices[i] != ReplacementChoice::Keep)
}

/// Whether another answer is needed for the next of `conflicts` conflicts.
pub fn needs_answer(conflicts: usize, choices: &Vec<ReplacementChoice>) -> (r: bool)
    ensures
        r == (choices@.len() < conflicts && !takes_all(choices@, choices@.len() as int)),
{
    if choices.len() >= conflicts {
        return false;
    }
    let mut i: usize = 0;
    while i < choices.len()
        invariant
            i <= choices.len(),
            choices.len() < conflicts,
            !takes_all(choices@, i as int),
        decreases choices.len() - i,
    {
        if choices[i] == ReplacementChoice::All {
            assert(takes_all(choices@, choices@.len() as int));
            return false;
        }
        i = i + 1;
    }
    true
}

/// The messages of the approved conflicts among the first `n`.
pub open spec fn approved_messages(conflicts: Seq<ConflictView>, choices: Seq<ReplacementChoice>, n: int) -> Set<
    Text,
>
    decreases n,
{
    if n <= 0 {
        Set::empty()
    } else {
        let front = approved_messages(conflicts, choices, n - 1);
        if approves(choices, n - 1) {
            front.insert(conflicts[n - 1].message)
        } else {
            front
        }
    }
}

/// The names of the first `n` conflicts whose message is approved.
pub open spec fn approved_names(conflicts: Seq<ConflictView>, approved: Set<Text>, n: int) -> Set<Text>
    decreases n,
{
    if n <= 0 {
        Set::empty()
    } else {
        let front = approved_names(conflicts, approved, n - 1);
        if approved.contains(conflicts[n - 1].message) {
            front.insert(conflicts[n - 1].installed_name)
        } else {
            front
        }
    }
}

/// The texts that are not in the set.
pub open spec fn without(texts: Seq<Text>, gone: Set<Text>) -> Seq<Text>
    decreases texts.len(),
{
    if texts.len() == 0 {
        Seq::empty()
    } else {
        let front = without(texts.drop_last(), gone);
        if gone.contains(texts.last()) {
            front
        } else {
            front.push(texts.last())
        }
    }
}

/// The selection after the answers.
pub open spec fn overridden(s: SelectionView, choices: Seq<ReplacementChoice>) -> SelectionView {
    let n = s.conflicts.len() as int;
    let approved = approved_messages(s.conflicts, choices, n);
    SelectionView {
        install: s.install.union(approved_names(s.conflicts, approved, n)),
        blocked: without(s.blocked, approved),
        ..s
    }
}

/// Moves the conflicts that the answers approve to the skills to install. Without a terminal
/// nothing is approved.
pub fn resolve_unowned_overrides(
    selection: &mut ReconcileSelection,
    interactive: bool,
    choices: &Vec<ReplacementChoice>,
)
    ensures
        final(selection)@ == (if interactive {
            overridden(old(selection)@, choices@)
        } else {
            old(selection)@
        }),
{
    if !interactive {
        return;
    }
    let ghost was = selection@;
    let n: usize = selection.conflicts.len();
    let mut approved = NameSet::new();
    let mut every = false;
    let mut i: usize = 0;
    while i < n
        invariant
            i <= n == selection.conflicts@.len(),
            selection@ == was,
            every == takes_all(choices@, i as int),
            approved@ == approved_messages(was.conflicts, choices@, i as int),
        decreases n - i,
    {
        let mut replace = every;
        assert(takes_all(choices@, i + 1) == (takes_all(choices@, i as int) || (i < choices@.len()
            && choices@[i as int] == ReplacementChoice::All))) by {
            if takes_all(choices@, i as int) {
                let j = choose|j: int|
                    0 <= j < i && j < choices@.len() && #[trigger] choices@[j]
                        == ReplacementChoice::All;
                assert(choices@[j] == ReplacementChoice::All);
            }
        }
        if !every && i < choices.len() {
            match choices[i] {
                ReplacementChoice::All => {
                    every = true;
                    replace = true;
                },
                ReplacementChoice::This => {
                    replace = true;
                },
                ReplacementChoice::Keep => {},
            }
        }
        assert(replace == approves(choices@, i as int));
        if replace {
            assert(was.conflicts[i as int].message == selection.conflicts@[i as int].message@);
            let _ = approved.insert(selection.conflicts[i].message.clone());
        }
        i = i + 1;
    }
    let ghost set = approved@;
    let mut k: usize = 0;
    assert(was.install.union(approved_names(was.conflicts, set, 0)) =~= was.install);
    while k < n
        invariant
            k <= n == selection.conflicts@.len(),
            set == approved@,
            selection@.complete == was.complete,
            selection@.blocked == was.blocked,
            selection@.conflicts == was.conflicts,
            selection@.install == was.install.union(approved_names(was.conflicts, set, k as int)),
        decreases n - k,
    {
        assert(was.conflicts[k as int] == selection.conflicts@[k as int]@);
        if approved.contains(selection.conflicts[k].message.as_str()) {
            let name = selection.conflicts[k].installed_name.clone();
            let ghost before = selection@;
            let _ = selection.install_names.insert(name);
            assert(selection@.install =~= was.install.union(
                approved_names(was.conflicts, set, k + 1),
            ));
        }
        k = k + 1;
    }
    let mut kept: Vec<String> = Vec::new();
    let ghost reasons = was.blocked;
    let mut m: usize = 0;
    assert(views(kept@) =~= without(reasons.take(0), set));
    while m < selection.blocked.len()
        invariant
            m <= selection.blocked@.len(),
            reasons == views(selection.blocked@),
            set == approved@,
            views(kept@) == without(reasons.take(m as int), set),
        decreases selection.blocked@.len() - m,
    {
        let ghost before = kept@;
        let reason = selection.blocked[m].clone();
        m = m + 1;
        assert(reasons.take(m as int).drop_last() =~= reasons.take(m - 1));
        assert(reasons.take(m as int).last() == reason@);
        if !approved.contains(reason.as_str()) {
            kept.push(reason);
            assert(views(kept@) =~= views(before).push(reason@));
        }
    }
    assert(reasons.take(m as int) =~= reasons);
    selection.blocked = kept;
}

/// Without an approving answer a selection stays as it was.
pub proof fn law_unanswered_keeps(s: SelectionView, choices: Seq<ReplacementChoice>)
    requires
        forall|i: int|
            0 <= i < choices.len() ==> #[trigger] choices[i] == ReplacementChoice::Keep,
    ensures
        overridden(s, choices) == s,
{
    let n = s.conflicts.len() as int;
    lemma_none_approved(s.conflicts, choices, n);
    lemma_no_names(s.conflicts, n);
    lemma_without_none(s.blocked);
    assert(s.install.union(Set::empty()) =~= s.install);
}

proof fn lemma_none_approved(conflicts: Seq<ConflictView>, choices: Seq<ReplacementChoice>, n: int)
    requires
        forall|i: int|
            0 <= i < choices.len() ==> #[trigger] choices[i] == ReplacementChoice::Keep,
    ensures
        approved_messages(conflicts, choices, n) == Set::<Text>::empty(),
    decreases n,
{
    if n > 0 {
        lemma_none_approved(conflicts, choices, n - 1);
    }
}

proof fn lemma_no_names(conflicts: Seq<ConflictView>, n: int)
    ensures
        approved_names(conflicts, Set::empty(), n) == Set::<Text>::empty(),
    decreases n,
{
    if n > 0 {
        lemma_no_names(conflicts, n - 1);
    }
}

proof fn lemma_without_none(texts: Seq<Text>)
    ensures
        without(texts, Set::empty()) == texts,
    decreases texts.len(),
{
    if texts.len() > 0 {
        lemma_without_none(texts.drop_last());
        assert(texts.drop_last().push(texts.last()) =~= texts);
    } else {
        assert(without(texts, Set::empty()) =~= texts);
    }
}

// Verification after placement.

pub open spec fn placed(agents: Seq<Set<Text>>, exact: Seq<bool>, skills: Seq<ResolvedView>, i: int) -> bool {
    all_list(agents, skills[i].installed_name) && exact[i]
}

/// The names of the first `n` skills that are completely placed.
pub open spec fn placed_names(agents: Seq<Set<Text>>, exact: Seq<bool>, skills: Seq<ResolvedView>, n: int) -> Set<
    Text,
>
    decreases n,
{
    if n <= 0 {
        Set::empty()
    } else {
        let front = placed_names(agents, exact, skills, n - 1);
        if placed(agents, exact, skills, n - 1) {
            front.insert(skills[n - 1].installed_name)
        } else {
            front
        }
    }
}

/// What is reported of the first `n` skills.
pub open spec fn drift_reports(agents: Seq<Set<Text>>, exact: Seq<bool>, skills: Seq<ResolvedView>, n: int) -> Seq<
    Text,
>
    decreases n,
{
    if n <= 0 {
        Seq::empty()
    } else {
        let front = drift_reports(agents, exact, skills, n - 1);
        if placed(agents, exact, skills, n - 1) {
            front
        } else {
            front.push(
                "[projection-drift] "@ + skills[n - 1].key
                    + " was not completely placed and verified"@,
            )
        }
    }
}

fn lists_all(agents: &Vec<NameSet>, name: &str) -> (r: bool)
    ensures
        r == all_list(agent_sets(agents@), name@),
{
    let mut i: usize = 0;
    while i < agents.len()
        invariant
            i <= agents.len(),
            forall|j: int| 0 <= j < i ==> (#[trigger] agent_sets(agents@)[j]).contains(name@),
        decreases agents.len() - i,
    {
        if !agents[i].contains(name) {
            assert(!agent_sets(agents@)[i as int].contains(name@));
            return false;
        }
        i = i + 1;
    }
    true
}

/// The skills that every agent lists and whose canonical copy is what was intended, and a
/// report of each of the others. Where the agents could not be listed, nothing is verified.
pub fn verified_skill_names(
    eligible: &Vec<&ResolvedSkill<'_>>,
    agents: &Result<Vec<NameSet>, String>,
    exact: &Vec<bool>,
) -> (r: (NameSet, Vec<String>))
    requires
        exact@.len() == eligible@.len(),
    ensures
        match agents {
            Ok(lists) => {
                &&& r.0@ == placed_names(
                    agent_sets(lists@),
                    exact@,
                    eligible_views(eligible@),
                    eligible@.len() as int,
                )
                &&& views(r.1@) == drift_reports(
                    agent_sets(lists@),
                    exact@,
                    eligible_views(eligible@),
                    eligible@.len() as int,
                )
            },
            Err(e) => r.0@ == Set::<Text>::empty() && views(r.1@) == seq!["[environment] "@ + e@],
        },
{
    let mut verified = NameSet::new();
    let mut issues: Vec<String> = Vec::new();
    match agents {
        Err(e) => {
            issues.push(crate::text::cat2("[environment] ", e.as_str()));
            assert(views(issues@) =~= seq!["[environment] "@ + e@]);
        },
        Ok(lists) => {
            let ghost skills = eligible_views(eligible@);
            let ghost sets = agent_sets(lists@);
            let mut i: usize = 0;
            assert(views(issues@) =~= Seq::<Text>::empty());
            while i < eligible.len()
                invariant
                    i <= eligible.len(),
                    exact@.len() == eligible@.len(),
                    skills == eligible_views(eligible@),
                    sets == agent_sets(lists@),
                    verified@ == placed_names(sets, exact@, skills, i as int),
                    views(issues@) == drift_reports(sets, exact@, skills, i as int),
                decreases eligible.len() - i,
            {
                let skill = eligible[i];
                assert(skills[i as int] == skill@);
                if lists_all(lists, skill.installed_name.as_str()) && exact[i] {
                    let _ = verified.insert(skill.installed_name.clone());
                } else {
                    let ghost before = issues@;
                    let report = cat3(
                        "[projection-drift] ",
                        skill.key.as_str(),
                        " was not completely placed and verified",
                    );
                    issues.push(report);
                    assert(views(issues@) =~= views(before).push(report@));
                }
                i = i + 1;
            }
        },
    }
    (verified, issues)
}

pub open spec fn eligible_views(v: Seq<&ResolvedSkill>) -> Seq<ResolvedView> {
    Seq::new(v.len(), |i: int| v[i]@)
}

// Recording.

/// The recorded skills whose name is not in the set.
pub open spec fn keep_names(m: Map<Text, InstalledSkillView>, removed: Set<Text>) -> Map<Text, InstalledSkillView> {
    Map::new(
        |k: Text| m.contains_key(k) && !removed.contains(m[k].installed_name),
        |k: Text| m[k],
    )
}

/// What is recorded of a skill that was placed.
pub open spec fn record_of(skill: ResolvedView, content: Text) -> InstalledSkillView {
    InstalledSkillView {
        installed_name: skill.installed_name,
        mode: skill.mode,
        gitignore: skill.gitignore,
        digest: Some(skill.digest),
        content_digest: Some(content),
        legacy_path: None,
    }
}

/// The records without other owners of a skill's name, and with its own.
pub open spec fn recorded(m: Map<Text, InstalledSkillView>, skill: ResolvedView, content: Text) -> Map<
    Text,
    InstalledSkillView,
> {
    Map::new(
        |k: Text|
            m.contains_key(k) && (k == skill.key || m[k].installed_name != skill.installed_name),
        |k: Text| m[k],
    ).insert(skill.key, record_of(skill, content))
}

/// The records once the first `n` skills that are complete are recorded.
pub open spec fn records(
    m: Map<Text, InstalledSkillView>,
    skills: Seq<ResolvedView>,
    complete: Set<Text>,
    contents: Seq<Text>,
    n: int,
) -> Map<Text, InstalledSkillView>
    decreases n,
{
    if n <= 0 {
        m
    } else {
        let front = records(m, skills, complete, contents, n - 1);
        if complete.contains(skills[n - 1].installed_name) {
            recorded(front, skills[n - 1], contents[n - 1])
        } else {
            front
        }
    }
}

fn keep_unremoved(skills: &NameMap<InstalledSkill>, removed: &NameSet) -> (r: NameMap<InstalledSkill>)
    ensures
        skills_view(r@) == keep_names(skills_view(skills@), removed@),
        r.ordered(),
{
    let mut out: NameMap<InstalledSkill> = NameMap::new();
    let n: usize = skills.len();
    let ghost keys = skills.names();
    let mut i: usize = 0;
    while i < n
        invariant
            i <= n == keys.len(),
            keys == skills.names(),
            skills.ordered(),
            out.ordered(),
            forall|k: Text| #[trigger]
                out@.contains_key(k) ==> skills@.contains_key(k) && out@[k] == skills@[k]
                    && !removed@.contains(skills@[k].installed_name@),
            forall|j: int|
                0 <= j < i && !removed@.contains(skills@[keys[j]].installed_name@)
                    ==> out@.contains_key(#[trigger] keys[j]),
        decreases n - i,
    {
        let skill = skills.value_at(i);
        let key = skills.name_at(i);
        if !removed.contains(skill.installed_name.as_str()) {
            out.insert(key.clone(), skill.clone());
        }
        i = i + 1;
    }
    proof {
        let a = skills_view(out@);
        let b = keep_names(skills_view(skills@), removed@);
        assert forall|k: Text| a.contains_key(k) == b.contains_key(k) by {
            if b.contains_key(k) {
                assert(keys.to_set().contains(k));
                let j = keys.index_of(k);
                assert(out@.contains_key(keys[j]));
            }
        }
        assert(a =~= b);
    }
    out
}

fn record_skill(skills: &NameMap<InstalledSkill>, skill: &ResolvedSkill<'_>, content: &str) -> (r: NameMap<
    InstalledSkill,
>)
    ensures
        skills_view(r@) == recorded(skills_view(skills@), skill@, content@),
        r.ordered(),
{
    let mut out: NameMap<InstalledSkill> = NameMap::new();
    let n: usize = skills.len();
    let ghost keys = skills.names();
    let ghost mine = skill@;
    let mut i: usize = 0;
    while i < n
        invariant
            i <= n == keys.len(),
            keys == skills.names(),
            skills.ordered(),
            mine == skill@,
            forall|k: Text| #[trigger]
                out@.contains_key(k) ==> skills@.contains_key(k) && out@[k] == skills@[k] && (k
                    == mine.key || skills@[k].installed_name@ != mine.installed_name),
            forall|j: int|
                0 <= j < i && (keys[j] == mine.key || skills@[keys[j]].installed_name@
                    != mine.installed_name) ==> out@.contains_key(#[trigger] keys[j]),
        decreases n - i,
    {
        let installed = skills.value_at(i);
        let key = skills.name_at(i);
        if same(key.as_str(), skill.key.as_str()) || !same(
            installed.installed_name.as_str(),
            skill.installed_name.as_str(),
        ) {
            out.insert(key.clone(), installed.clone());
        }
        i = i + 1;
    }
    let ghost kept = out@;
    let record = InstalledSkill {
        installed_name: skill.installed_name.clone(),
        mode: skill.mode,
        gitignore: skill.gitignore,
        digest: Some(skill.digest.clone()),
        content_digest: Some(content.to_owned()),
        legacy_path: None,
    };
    out.insert(skill.key.clone(), record);
    proof {
        let a = skills_view(out@);
        let b = recorded(skills_view(skills@), mine, content@);
        assert(record@ == record_of(mine, content@));
        assert forall|k: Text| a.contains_key(k) == b.contains_key(k) by {
            if b.contains_key(k) && k != mine.key {
                assert(keys.to_set().contains(k));
                let j = keys.index_of(k);
                assert(kept.contains_key(keys[j]));
            }
            if a.contains_key(k) && k != mine.key {
                assert(kept.contains_key(k));
            }
        }
        assert forall|k: Text| a.contains_key(k) implies a[k] == b[k] by {
            if k != mine.key {
                assert(kept.contains_key(k));
            }
        }
        assert(a =~= b);
    }
    out
}

/// The installed state after a run: removed names are gone, and each complete skill is
/// recorded with the digest of its content.
pub fn checkpoint_state(
    previous: &InstalledState,
    resolved: &Vec<ResolvedSkill<'_>>,
    complete: &NameSet,
    removed: &NameSet,
    contents: &Vec<String>,
) -> (r: InstalledState)
    requires
        contents@.len() == resolved@.len(),
    ensures
        r@ == checkpoint(
            previous@,
            resolved_views(resolved@),
            complete@,
            removed@,
            views(contents@),
        ),
{
    let ghost list = resolved_views(resolved@);
    let ghost texts = views(contents@);
    let mut skills = keep_unremoved(&previous.skills, removed);
    let ghost base = keep_names(previous@.skills, removed@);
    let mut i: usize = 0;
    while i < resolved.len()
        invariant
            i <= resolved.len(),
            contents@.len() == resolved@.len(),
            list == resolved_views(resolved@),
            texts == views(contents@),
            skills_view(skills@) == records(base, list, complete@, texts, i as int),
        decreases resolved.len() - i,
    {
        assert(list[i as int] == resolved@[i as int]@);
        assert(texts[i as int] == contents@[i as int]@);
        if complete.contains(resolved[i].installed_name.as_str()) {
            skills = record_skill(&skills, &resolved[i], contents[i].as_str());
        }
        i = i + 1;
    }
    InstalledState { version: INSTALLED_STATE_VERSION, skills }
}

pub open spec fn checkpoint(
    previous: InstalledStateView,
    skills: Seq<ResolvedView>,
    complete: Set<Text>,
    removed: Set<Text>,
    contents: Seq<Text>,
) -> InstalledStateView {
    InstalledStateView {
        version: INSTALLED_STATE_VERSION,
        skills: records(
            keep_names(previous.skills, removed),
            skills,
            complete,
            contents,
            skills.len() as int,
        ),
    }
}

proof fn lemma_records_keep(
    m: Map<Text, InstalledSkillView>,
    skills: Seq<ResolvedView>,
    complete: Set<Text>,
    contents: Seq<Text>,
    n: int,
    k: Text,
)
    requires
        0 <= n <= skills.len(),
        m.contains_key(k),
        !complete.contains(m[k].installed_name),
        forall|i: int| 0 <= i < skills.len() ==> (#[trigger] skills[i]).key != k || !complete.contains(
            skills[i].installed_name,
        ),
    ensures
        records(m, skills, complete, contents, n).contains_key(k),
        records(m, skills, complete, contents, n)[k] == m[k],
    decreases n,
{
    if n > 0 {
        lemma_records_keep(m, skills, complete, contents, n - 1, k);
        assert(skills[n - 1].key != k || !complete.contains(skills[n - 1].installed_name));
    }
}

/// What was recorded stays as it was, unless its name was removed or is now complete.
pub proof fn law_checkpoint_keeps_the_rest(
    previous: InstalledStateView,
    skills: Seq<ResolvedView>,
    complete: Set<Text>,
    removed: Set<Text>,
    contents: Seq<Text>,
    k: Text,
)
    requires
        previous.skills.contains_key(k),
        !removed.contains(previous.skills[k].installed_name),
        !complete.contains(previous.skills[k].installed_name),
        forall|i: int| 0 <= i < skills.len() ==> (#[trigger] skills[i]).key != k || !complete.contains(
            skills[i].installed_name,
        ),
    ensures
        checkpoint(previous, skills, complete, removed, contents).skills.contains_key(k),
        checkpoint(previous, skills, complete, removed, contents).skills[k] == previous.skills[k],
{
    lemma_records_keep(
        keep_names(previous.skills, removed),
        skills,
        complete,
        contents,
        skills.len() as int,
        k,
    );
}

proof fn lemma_records_have(
    m: Map<Text, InstalledSkillView>,
    skills: Seq<ResolvedView>,
    complete: Set<Text>,
    contents: Seq<Text>,
    n: int,
    i: int,
)
    requires
        0 <= i < n <= skills.len(),
        complete.contains(skills[i].installed_name),
        forall|a: int, b: int|
            0 <= a < skills.len() && 0 <= b < skills.len() && a != b ==> (
            #[trigger] skills[a]).installed_name != (#[trigger] skills[b]).installed_name
                && skills[a].key != skills[b].key,
    ensures
        records(m, skills, complete, contents, n).contains_key(skills[i].key),
        records(m, skills, complete, contents, n)[skills[i].key] == record_of(
            skills[i],
            contents[i],
        ),
    decreases n,
{
    if n - 1 > i {
        lemma_records_have(m, skills, complete, contents, n - 1, i);
        assert(skills[n - 1].key != skills[i].key);
    }
}

/// Every complete skill is recorded under its key, with its digests.
pub proof fn law_checkpoint_records_progress(
    previous: InstalledStateView,
    skills: Seq<ResolvedView>,
    complete: Set<Text>,
    removed: Set<Text>,
    contents: Seq<Text>,
    i: int,
)
    requires
        0 <= i < skills.len(),
        complete.contains(skills[i].installed_name),
        forall|a: int, b: int|
            0 <= a < skills.len() && 0 <= b < skills.len() && a != b ==> (
            #[trigger] skills[a]).installed_name != (#[trigger] skills[b]).installed_name
                && skills[a].key != skills[b].key,
    ensures
        ({
            let next = checkpoint(previous, skills, complete, removed, contents);
            next.skills.contains_key(skills[i].key) && next.skills[skills[i].key] == record_of(
                skills[i],
                contents[i],
            )
        }),
{
    lemma_records_have(
        keep_names(previous.skills, removed),
        skills,
        complete,
        contents,
        skills.len() as int,
        i,
    );
}

} // verus!
