//! One installation run: its work, its steps and what it reports.

use vstd::prelude::*;
use crate::agents::{host_folder, HostAgent, HostView};
use crate::failure::Failure;
use crate::install::{is_desired, scope_code, TransactionJournal, TransactionPhase};
use crate::model::{
    builtin_agents, default_agents, same_stored, stored_alike, EffectiveMode, InstalledSkill,
    InstalledSkillView, InstalledState,
};
use crate::name_map::{NameMap, NameSet};
use crate::output::{line_views, Line, LineView};
use crate::paths::{join_path, joined_path};
use crate::reconcile::owned_names;
use crate::resolve::{resolved_views, scope_word, ResolvedSkill, ResolvedView};
use crate::text::{
    cat2, cat3, cat4, cat5, contains, contains_text, copy_list, decimal, decimal_of, empty,
    list_has, lower_text, lowered, plural, plural_ending, views, Text,
};

verus! {

// Work.

/// What a run has to do.
#[derive(Debug)]
pub struct InstallWork {
    /// Names whose entries are taken out of the project Skills lock.
    pub lock_owned: NameSet,
    /// The positions of the resolved skills to place.
    pub eligible: Vec<usize>,
    /// The names that will be in place.
    pub desired: NameSet,
    /// The names to remove.
    pub removed: NameSet,
}

/// The positions among the first `n` whose name is to be installed.
pub open spec fn eligible_positions(resolved: Seq<ResolvedView>, install: Set<Text>, n: int) -> Seq<usize>
    decreases n,
{
    if n <= 0 {
        Seq::empty()
    } else {
        let front = eligible_positions(resolved, install, n - 1);
        if install.contains(resolved[n - 1].installed_name) {
            front.push((n - 1) as usize)
        } else {
            front
        }
    }
}

pub open spec fn resolved_names(resolved: Seq<ResolvedView>) -> Set<Text> {
    Set::new(|n: Text| is_desired(resolved, n))
}

/// The recorded names that nothing resolved has, unless their record is preserved.
pub open spec fn obsolete_names(
    previous: Map<Text, InstalledSkillView>,
    preserved: Set<Text>,
    resolved: Seq<ResolvedView>,
) -> Set<Text> {
    Set::new(
        |n: Text|
            !is_desired(resolved, n) && exists|k: Text|
                previous.contains_key(k) && !preserved.contains(k) && (
                #[trigger] previous[k]).installed_name == n,
    )
}

/// The names under which the resolved skills are installed.
pub fn names_of(resolved: &Vec<ResolvedSkill<'_>>) -> (r: NameSet)
    ensures
        r@ == resolved_names(resolved_views(resolved@)),
        r.ordered(),
{
    let ghost list = resolved_views(resolved@);
    let mut out = NameSet::new();
    let mut i: usize = 0;
    while i < resolved.len()
        invariant
            i <= resolved.len(),
            list == resolved_views(resolved@),
            forall|n: Text| #[trigger] out@.contains(n) ==> is_desired(list, n),
            forall|j: int| 0 <= j < i ==> out@.contains((#[trigger] list[j]).installed_name),
        decreases resolved.len() - i,
    {
        assert(list[i as int] == resolved@[i as int]@);
        let _ = out.insert(resolved[i].installed_name.clone());
        i = i + 1;
    }
    assert(out@ =~= resolved_names(list));
    let _ = out.len();
    out
}

fn add_names(set: &mut NameSet, more: &NameSet)
    ensures
        final(set)@ == old(set)@.union(more@),
{
    let n: usize = more.len();
    let ghost names = more.names();
    let ghost start = set@;
    let mut i: usize = 0;
    assert(start.union(names.take(0).to_set()) =~= start);
    while i < n
        invariant
            i <= n == names.len(),
            names == more.names(),
            set@ == start.union(names.take(i as int).to_set()),
        decreases n - i,
    {
        proof {
            crate::model::lemma_take_set(names, i as int);
        }
        let _ = set.insert(more.name_at(i).clone());
        i = i + 1;
        assert(set@ =~= start.union(names.take(i as int).to_set()));
    }
    proof {
        crate::model::lemma_take_all(names);
    }
}

fn recorded_names(previous: &InstalledState) -> (r: NameSet)
    ensures
        r@ == owned_names(previous@.skills, Set::empty()),
{
    let mut out = NameSet::new();
    let n: usize = previous.skills.len();
    let ghost keys = previous.skills.names();
    let ghost all = previous@.skills;
    let mut i: usize = 0;
    while i < n
        invariant
            i <= n == keys.len(),
            keys == previous.skills.names(),
            all == previous@.skills,
            previous.skills.ordered(),
            forall|x: Text| #[trigger]
                out@.contains(x) ==> owned_names(all, Set::empty()).contains(x),
            forall|j: int| 0 <= j < i ==> out@.contains(all[#[trigger] keys[j]].installed_name),
        decreases n - i,
    {
        let skill = previous.skills.value_at(i);
        let _ = previous.skills.name_at(i);
        assert(all.contains_key(keys[i as int]));
        assert(all[keys[i as int]] == skill@);
        let _ = out.insert(skill.installed_name.clone());
        i = i + 1;
    }
    proof {
        assert forall|x: Text| owned_names(all, Set::empty()).contains(x) implies out@.contains(x) by {
            let k = choose|k: Text| all.contains_key(k) && (#[trigger] all[k]).installed_name == x;
            assert(keys.to_set().contains(k));
            let j = keys.index_of(k);
            assert(out@.contains(all[keys[j]].installed_name));
        }
        assert(out@ =~= owned_names(all, Set::empty()));
    }
    out
}

fn obsolete(previous: &InstalledState, preserved: &NameMap<InstalledSkill>, wanted: &NameSet, resolved: Ghost<
    Seq<ResolvedView>,
>) -> (r: NameSet)
    requires
        wanted@ == resolved_names(resolved@),
    ensures
        r@ == obsolete_names(previous@.skills, preserved@.dom(), resolved@),
{
    let mut out = NameSet::new();
    let n: usize = previous.skills.len();
    let ghost keys = previous.skills.names();
    let ghost all = previous@.skills;
    let ghost target = obsolete_names(all, preserved@.dom(), resolved@);
    let mut i: usize = 0;
    while i < n
        invariant
            i <= n == keys.len(),
            keys == previous.skills.names(),
            all == previous@.skills,
            previous.skills.ordered(),
            wanted@ == resolved_names(resolved@),
            target == obsolete_names(all, preserved@.dom(), resolved@),
            forall|x: Text| #[trigger] out@.contains(x) ==> target.contains(x),
            forall|j: int|
                0 <= j < i && !preserved@.contains_key(keys[j]) && !is_desired(
                    resolved@,
                    all[keys[j]].installed_name,
                ) ==> out@.contains(all[#[trigger] keys[j]].installed_name),
        decreases n - i,
    {
        let skill = previous.skills.value_at(i);
        let key = previous.skills.name_at(i);
        assert(all.contains_key(keys[i as int]));
        assert(all[keys[i as int]] == skill@);
        if !preserved.contains(key.as_str()) && !wanted.contains(skill.installed_name.as_str()) {
            assert(target.contains(all[keys[i as int]].installed_name));
            let _ = out.insert(skill.installed_name.clone());
        }
        i = i + 1;
    }
    proof {
        assert forall|x: Text| target.contains(x) implies out@.contains(x) by {
            let k = choose|k: Text|
                all.contains_key(k) && !preserved@.contains_key(k) && (
                #[trigger] all[k]).installed_name == x;
            assert(keys.to_set().contains(k));
            let j = keys.index_of(k);
            assert(out@.contains(all[keys[j]].installed_name));
        }
        assert(out@ =~= target);
    }
    out
}

/// The work of a run. Only recorded names that nothing needs any more, and names approved for
/// cleanup, are removed.
pub fn install_work(
    previous: &InstalledState,
    resolved: &Vec<ResolvedSkill<'_>>,
    install_names: &NameSet,
    complete_names: &NameSet,
    preserved: &NameMap<InstalledSkill>,
    replacement_owned: &NameSet,
    cleanup_owned: &NameSet,
) -> (r: InstallWork)
    ensures
        r.lock_owned@ == owned_names(previous@.skills, Set::empty()).union(
            resolved_names(resolved_views(resolved@)),
        ).union(replacement_owned@).union(cleanup_owned@),
        r.eligible@ == eligible_positions(
            resolved_views(resolved@),
            install_names@,
            resolved@.len() as int,
        ),
        r.desired@ == resolved_names(resolved_views(resolved@)).intersect(install_names@).union(
            complete_names@,
        ),
        r.removed@ == obsolete_names(
            previous@.skills,
            preserved@.dom(),
            resolved_views(resolved@),
        ).union(cleanup_owned@),
        forall|n: Text| #[trigger]
            r.removed@.contains(n) ==> cleanup_owned@.contains(n) || owned_names(
                previous@.skills,
                Set::empty(),
            ).contains(n),
        forall|i: int| 0 <= i < r.eligible@.len() ==> (#[trigger] r.eligible@[i]) < resolved@.len(),
{
    let ghost list = resolved_views(resolved@);
    let mut eligible: Vec<usize> = Vec::new();
    let mut desired = NameSet::new();
    let mut i: usize = 0;
    while i < resolved.len()
        invariant
            i <= resolved.len(),
            list == resolved_views(resolved@),
            eligible@ == eligible_positions(list, install_names@, i as int),
            forall|k: int| 0 <= k < eligible@.len() ==> (#[trigger] eligible@[k]) < i,
            forall|n: Text| #[trigger]
                desired@.contains(n) ==> is_desired(list, n) && install_names@.contains(n),
            forall|j: int|
                0 <= j < i && install_names@.contains(list[j].installed_name) ==> desired@.contains(
                    (#[trigger] list[j]).installed_name,
                ),
        decreases resolved.len() - i,
    {
        assert(list[i as int] == resolved@[i as int]@);
        if install_names.contains(resolved[i].installed_name.as_str()) {
            eligible.push(i);
            let _ = desired.insert(resolved[i].installed_name.clone());
        }
        i = i + 1;
    }
    assert(desired@ =~= resolved_names(list).intersect(install_names@));
    add_names(&mut desired, complete_names);
    let wanted = names_of(resolved);
    let mut lock_owned = recorded_names(previous);
    add_names(&mut lock_owned, &wanted);
    add_names(&mut lock_owned, replacement_owned);
    add_names(&mut lock_owned, cleanup_owned);
    let mut removed = obsolete(previous, preserved, &wanted, Ghost(list));
    add_names(&mut removed, cleanup_owned);
    proof {
        assert forall|n: Text| #[trigger] removed@.contains(n) implies cleanup_owned@.contains(n)
            || owned_names(previous@.skills, Set::empty()).contains(n) by {
            if !cleanup_owned@.contains(n) {
                let k = choose|k: Text|
                    previous@.skills.contains_key(k) && !preserved@.contains_key(k) && (
                    #[trigger] previous@.skills[k]).installed_name == n;
                assert(previous@.skills[k].installed_name == n);
            }
        }
    }
    InstallWork { lock_owned, eligible, desired, removed }
}

/// No name that a resolved skill is installed under is removed, unless its cleanup was
/// approved.
pub proof fn law_resolved_names_stay(
    previous: Map<Text, InstalledSkillView>,
    preserved: Set<Text>,
    resolved: Seq<ResolvedView>,
    cleanup: Set<Text>,
    i: int,
)
    requires
        0 <= i < resolved.len(),
        !cleanup.contains(resolved[i].installed_name),
    ensures
        !obsolete_names(previous, preserved, resolved).union(cleanup).contains(
            resolved[i].installed_name,
        ),
{
    assert(is_desired(resolved, resolved[i].installed_name));
}

/// The record of a run that is about to place skills.
pub fn open_journal(global: bool, fingerprint: &str, work: &InstallWork) -> (r: TransactionJournal)
    ensures
        r.v == 1,
        r.scope@ == scope_code(global),
        r.phase == TransactionPhase::P,
        r.config@ == fingerprint@,
        views(r.desired@) == work.desired.names(),
        views(r.remove@) == work.removed.names(),
{
    TransactionJournal {
        v: 1,
        scope: String::from_str(if global { "g" } else { "p" }),
        phase: TransactionPhase::P,
        config: fingerprint.to_owned(),
        desired: work.desired.to_list(),
        remove: work.removed.to_list(),
    }
}

// Steps.

/// What is known of a run.
#[derive(Debug, Clone, Copy, PartialEq, Eq, Structural)]
pub struct InstallRun {
    /// Something is to be placed or removed.
    pub transactional: bool,
    pub project: bool,
    pub recovering: bool,
    /// A placement that ended well left skills out. It counts from the step after verification
    /// on.
    pub retry: bool,
    /// Everything placed was verified. It counts from the step after the last verification on.
    pub complete: bool,
    /// The state to record differs from the recorded one.
    pub state_changed: bool,
    /// Nothing is blocked.
    pub unblocked: bool,
}

#[derive(Debug, Clone, Copy, PartialEq, Eq, Structural)]
pub enum InstallStep {
    /// Write the journal in phase P, which must not exist yet.
    CreateJournal,
    /// Write the journal in phase P over the one that is resumed.
    RewriteJournal,
    /// Put the prepared skills where placement takes them from.
    PromotePrepared,
    /// Place the eligible skills; a failure is kept as an issue.
    PlaceSkills,
    /// Write the journal in phase I.
    JournalPlaced,
    VerifyPlacement,
    /// Place once more what was left out; a failure is kept as an issue.
    PlaceOmitted,
    /// Verify everything eligible once more.
    VerifyAgain,
    RemoveSkills,
    /// Write the journal in phase C.
    JournalCleaned,
    WriteState,
    WriteIgnore,
    RemoveJournal,
    Finish,
}

pub open spec fn one(flag: bool, step: InstallStep) -> Seq<InstallStep> {
    if flag {
        seq![step]
    } else {
        Seq::empty()
    }
}

/// The steps of a transaction up to its last verification.
pub open spec fn opening(run: InstallRun) -> Seq<InstallStep> {
    let first = if run.recovering {
        InstallStep::RewriteJournal
    } else {
        InstallStep::CreateJournal
    };
    if run.retry {
        seq![
            first,
            InstallStep::PromotePrepared,
            InstallStep::PlaceSkills,
            InstallStep::JournalPlaced,
            InstallStep::VerifyPlacement,
            InstallStep::PlaceOmitted,
            InstallStep::VerifyAgain,
        ]
    } else {
        seq![
            first,
            InstallStep::PromotePrepared,
            InstallStep::PlaceSkills,
            InstallStep::JournalPlaced,
            InstallStep::VerifyPlacement,
        ]
    }
}

/// The steps after the last verification.
pub open spec fn ending(run: InstallRun) -> Seq<InstallStep> {
    if run.complete && run.project {
        seq![
            InstallStep::RemoveSkills,
            InstallStep::JournalCleaned,
            InstallStep::WriteState,
            InstallStep::WriteIgnore,
            InstallStep::RemoveJournal,
        ]
    } else if run.complete {
        seq![
            InstallStep::RemoveSkills,
            InstallStep::JournalCleaned,
            InstallStep::WriteState,
            InstallStep::RemoveJournal,
        ]
    } else if run.project {
        seq![InstallStep::WriteState, InstallStep::WriteIgnore]
    } else {
        seq![InstallStep::WriteState]
    }
}

/// The steps of a run in order. Each must end well before the next begins, except placement.
pub open spec fn script(run: InstallRun) -> Seq<InstallStep> {
    if run.transactional {
        opening(run) + ending(run)
    } else {
        one(run.state_changed, InstallStep::WriteState) + one(
            run.state_changed && run.project,
            InstallStep::WriteIgnore,
        ) + one(run.recovering && run.unblocked, InstallStep::RemoveJournal)
    }
}

/// Whether a run places or removes something.
pub fn is_transactional(work: &InstallWork) -> (r: bool)
    ensures
        r == (work.eligible@.len() > 0 || work.removed@ != Set::<Text>::empty()),
{
    work.eligible.len() > 0 || !work.removed.is_empty()
}

/// What is known of a run when it starts. A run that places and removes nothing writes the
/// state only where `next` is stored otherwise than `previous`.
pub fn start_run(
    work: &InstallWork,
    project: bool,
    recovering: bool,
    previous: &InstalledState,
    next: &InstalledState,
    blocked: &Vec<String>,
) -> (r: InstallRun)
    ensures
        r.transactional == (work.eligible@.len() > 0 || work.removed@ != Set::<Text>::empty()),
        r.project == project,
        r.recovering == recovering,
        !r.retry,
        !r.complete,
        r.state_changed == (!r.transactional && !stored_alike(previous@, next@)),
        r.unblocked == (blocked@.len() == 0),
{
    let transactional = is_transactional(work);
    InstallRun {
        transactional,
        project,
        recovering,
        retry: false,
        complete: false,
        state_changed: !transactional && !same_stored(previous, next),
        unblocked: blocked.len() == 0,
    }
}

/// Whether a run changes anything: the project lock, the skills or the state.
pub fn run_changes(lock_changed: bool, run: InstallRun) -> (r: bool)
    ensures
        r == (lock_changed || run.transactional || run.state_changed),
{
    lock_changed || run.transactional || run.state_changed
}

/// The step of a run after `done` steps.
pub fn next_step(run: InstallRun, done: usize) -> (r: InstallStep)
    ensures
        r == (if done < script(run).len() {
            script(run)[done as int]
        } else {
            InstallStep::Finish
        }),
{
    let mut steps: Vec<InstallStep> = Vec::new();
    if run.transactional {
        steps.push(
            if run.recovering {
                InstallStep::RewriteJournal
            } else {
                InstallStep::CreateJournal
            },
        );
        steps.push(InstallStep::PromotePrepared);
        steps.push(InstallStep::PlaceSkills);
        steps.push(InstallStep::JournalPlaced);
        steps.push(InstallStep::VerifyPlacement);
        if run.retry {
            steps.push(InstallStep::PlaceOmitted);
            steps.push(InstallStep::VerifyAgain);
        }
        if run.complete {
            steps.push(InstallStep::RemoveSkills);
            steps.push(InstallStep::JournalCleaned);
        }
        steps.push(InstallStep::WriteState);
        if run.project {
            steps.push(InstallStep::WriteIgnore);
        }
        if run.complete {
            steps.push(InstallStep::RemoveJournal);
        }
    } else {
        if run.state_changed {
            steps.push(InstallStep::WriteState);
            if run.project {
                steps.push(InstallStep::WriteIgnore);
            }
        }
        if run.recovering && run.unblocked {
            steps.push(InstallStep::RemoveJournal);
        }
    }
    assert(steps@ =~= script(run));
    if done < steps.len() {
        steps[done]
    } else {
        InstallStep::Finish
    }
}

/// How many steps there are up to the last verification.
pub open spec fn verified_after(run: InstallRun) -> int {
    if run.retry {
        7
    } else {
        5
    }
}

/// Nothing is removed, and a transaction is not closed, before everything placed was
/// verified; the steps up to a verification do not depend on its outcome; what was left out is
/// placed again only after a verification, and is verified itself; the state is recorded before
/// the journal goes.
pub proof fn law_steps_are_safe(run: InstallRun, i: int)
    requires
        run.transactional,
        0 <= i < script(run).len(),
    ensures
        script(run)[i] == InstallStep::RemoveSkills ==> run.complete && i == verified_after(run),
        script(run)[i] == InstallStep::RemoveJournal ==> run.complete && i == script(run).len() - 1,
        script(run)[4] == InstallStep::VerifyPlacement,
        script(run)[i] == InstallStep::PlaceOmitted ==> run.retry && i == 5 && script(run)[6]
            == InstallStep::VerifyAgain,
        i <= 4 ==> script(run)[i] == script(InstallRun { retry: !run.retry, ..run })[i],
        i < verified_after(run) ==> script(run)[i] == script(
            InstallRun { complete: !run.complete, ..run },
        )[i],
        script(run)[i] == InstallStep::RemoveJournal ==> script(run).take(i).contains(
            InstallStep::WriteState,
        ),
{
    let s = script(run);
    if s[i] == InstallStep::RemoveJournal {
        let k = verified_after(run) + 2;
        assert(s[k] == InstallStep::WriteState);
        assert(s.take(i)[k] == InstallStep::WriteState);
    }
}

/// The positions of the eligible skills that a placement left out: those that are not complete,
/// where the placement ended well and the agents could be listed. After a retry there are none.
pub open spec fn left_out_at(
    retried: bool,
    placement: Option<Text>,
    listed: bool,
    resolved: Seq<ResolvedView>,
    eligible: Seq<usize>,
    complete: Set<Text>,
) -> Seq<usize> {
    if retried || placement is Some || !listed {
        Seq::empty()
    } else {
        eligible.filter(|at: usize| !complete.contains(resolved[at as int].installed_name))
    }
}

/// What is placed once more after a verification.
pub fn omitted_skills(
    run: InstallRun,
    placement: &Option<String>,
    listed: bool,
    resolved: &Vec<ResolvedSkill<'_>>,
    eligible: &Vec<usize>,
    complete: &NameSet,
) -> (r: Vec<usize>)
    requires
        forall|i: int| 0 <= i < eligible@.len() ==> (#[trigger] eligible@[i]) < resolved@.len(),
    ensures
        r@ == left_out_at(
            run.retry,
            crate::text::opt_view(*placement),
            listed,
            resolved_views(resolved@),
            eligible@,
            complete@,
        ),
        forall|i: int| 0 <= i < r@.len() ==> (#[trigger] r@[i]) < resolved@.len(),
{
    let mut out: Vec<usize> = Vec::new();
    if run.retry || placement.is_some() || !listed {
        return out;
    }
    let ghost list = resolved_views(resolved@);
    let ghost p = |at: usize| !complete@.contains(list[at as int].installed_name);
    proof {
        reveal(Seq::filter);
        assert(eligible@.take(0) =~= Seq::<usize>::empty());
    }
    let mut i: usize = 0;
    while i < eligible.len()
        invariant
            i <= eligible@.len(),
            list == resolved_views(resolved@),
            p == (|at: usize| !complete@.contains(list[at as int].installed_name)),
            forall|j: int| 0 <= j < eligible@.len() ==> (#[trigger] eligible@[j]) < resolved@.len(),
            forall|j: int| 0 <= j < out@.len() ==> (#[trigger] out@[j]) < resolved@.len(),
            out@ == eligible@.take(i as int).filter(p),
        decreases eligible@.len() - i,
    {
        let at: usize = eligible[i];
        proof {
            assert(eligible@[i as int] < resolved@.len());
            assert(list[at as int] == resolved@[at as int]@);
            reveal(Seq::filter);
            assert(eligible@.take(i + 1).drop_last() =~= eligible@.take(i as int));
            assert(eligible@.take(i + 1).last() == at);
        }
        if !complete.contains(resolved[at].installed_name.as_str()) {
            out.push(at);
        }
        i = i + 1;
    }
    assert(eligible@.take(i as int) =~= eligible@);
    out
}

/// What is known of a run after a verification: `unverified` is what it reports, `omitted` what
/// is placed once more.
pub fn verified_run(run: InstallRun, unverified: &Vec<String>, omitted: &Vec<usize>) -> (r: InstallRun)
    ensures
        r == (InstallRun {
            retry: run.retry || omitted@.len() > 0,
            complete: unverified@.len() == 0,
            ..run
        }),
{
    InstallRun {
        retry: run.retry || omitted.len() > 0,
        complete: unverified.len() == 0,
        ..run
    }
}

/// Exactly the eligible skills that are not complete are placed once more, after a placement that
/// ended well, and once at most.
pub proof fn law_only_omitted_skills_are_placed_again(
    retried: bool,
    placement: Option<Text>,
    listed: bool,
    resolved: Seq<ResolvedView>,
    eligible: Seq<usize>,
    complete: Set<Text>,
    at: usize,
)
    ensures
        left_out_at(retried, placement, listed, resolved, eligible, complete).contains(at) == (
        !retried && placement is None && listed && eligible.contains(at) && !complete.contains(
            resolved[at as int].installed_name,
        )),
{
    let p = |x: usize| !complete.contains(resolved[x as int].installed_name);
    if !retried && placement is None && listed {
        let kept = eligible.filter(p);
        if eligible.contains(at) && p(at) {
            let i = eligible.index_of(at);
            eligible.lemma_filter_contains(p, i);
        }
        if kept.contains(at) {
            eligible.lemma_filter_contains_rev(p, at);
            let k = kept.index_of(at);
            eligible.lemma_filter_pred(p, k);
        }
    }
}

/// What is left to report: what is blocked, what was not verified, and the failure of the
/// placement where it left something out.
pub open spec fn issues_of(
    blocked: Seq<Text>,
    unverified: Seq<Text>,
    placement: Option<Text>,
    left_out: bool,
) -> Seq<Text> {
    let base = blocked + unverified;
    if placement is Some && left_out {
        base.push(placement->Some_0)
    } else {
        base
    }
}

/// Whether some eligible skill is not complete.
pub open spec fn leaves_out(resolved: Seq<ResolvedView>, eligible: Seq<usize>, complete: Set<Text>) -> bool {
    exists|i: int|
        0 <= i < eligible.len() && !complete.contains(
            resolved[(#[trigger] eligible[i]) as int].installed_name,
        )
}

pub fn remaining_issues(
    blocked: &Vec<String>,
    unverified: &Vec<String>,
    placement: &Option<String>,
    resolved: &Vec<ResolvedSkill<'_>>,
    eligible: &Vec<usize>,
    complete: &NameSet,
) -> (r: Vec<String>)
    requires
        forall|i: int| 0 <= i < eligible@.len() ==> (#[trigger] eligible@[i]) < resolved@.len(),
    ensures
        views(r@) == issues_of(
            views(blocked@),
            views(unverified@),
            crate::text::opt_view(*placement),
            leaves_out(resolved_views(resolved@), eligible@, complete@),
        ),
{
    let mut out = copy_list(blocked);
    let mut more = copy_list(unverified);
    let ghost a = out@;
    let ghost b = more@;
    out.append(&mut more);
    assert(views(out@) =~= views(a) + views(b));
    let ghost list = resolved_views(resolved@);
    let mut left_out = false;
    let mut i: usize = 0;
    while i < eligible.len()
        invariant
            i <= eligible.len(),
            list == resolved_views(resolved@),
            forall|j: int| 0 <= j < eligible@.len() ==> (#[trigger] eligible@[j]) < resolved@.len(),
            left_out == (exists|j: int|
                0 <= j < i && !complete@.contains(
                    list[(#[trigger] eligible@[j]) as int].installed_name,
                )),
        decreases eligible.len() - i,
    {
        let at: usize = eligible[i];
        assert(eligible@[i as int] < resolved@.len());
        assert(list[at as int] == resolved@[at as int]@);
        if !complete.contains(resolved[at].installed_name.as_str()) {
            left_out = true;
        }
        i = i + 1;
    }
    match placement {
        Some(error) => {
            if left_out {
                let ghost before = out@;
                out.push(error.clone());
                assert(views(out@) =~= views(before).push(error@));
            }
        },
        None => {},
    }
    out
}

// Reports.

pub open spec fn any_mode(resolved: Seq<ResolvedView>, mode: EffectiveMode) -> bool {
    exists|i: int| 0 <= i < resolved.len() && (#[trigger] resolved[i]).mode == mode
}

/// What is said of agents that keep to the manual mode.
pub open spec fn manual_notice(host: HostView) -> Text {
    "Manual mode is enforced by Pi, "@ + host.label
        + ", Cursor, and Codex; OpenCode and Gemini CLI may still expose these skills to the model"@
}

/// What is said of agents that hide dependencies.
pub open spec fn dependency_notice(host: HostView) -> Text {
    "Dependency-only user hiding is enforced by "@ + host.label
        + " and Pygmalion; other agents may expose exact invocation"@
}

/// What a run without issues reports.
pub open spec fn report_of(resolved: Seq<ResolvedView>, global: bool, changed: bool, host: HostView) -> Seq<LineView> {
    let n = resolved.len();
    if !changed {
        seq![
            LineView::Success(
                decimal(n) + " managed "@ + scope_word(global) + " skill"@ + plural(n)
                    + " already converged"@,
            ),
        ]
    } else {
        let first = seq![
            LineView::Success(
                "Reconciled "@ + decimal(n) + " managed "@ + scope_word(global) + " skill"@
                    + plural(n) + " through Vercel Skills"@,
            ),
        ];
        let second = if any_mode(resolved, EffectiveMode::Manual) {
            first.push(LineView::Warning(manual_notice(host)))
        } else {
            first
        };
        if any_mode(resolved, EffectiveMode::Dependency) {
            second.push(LineView::Warning(dependency_notice(host)))
        } else {
            second
        }
    }
}

fn has_mode(resolved: &Vec<ResolvedSkill<'_>>, mode: EffectiveMode) -> (r: bool)
    ensures
        r == any_mode(resolved_views(resolved@), mode),
{
    let ghost list = resolved_views(resolved@);
    let mut i: usize = 0;
    while i < resolved.len()
        invariant
            i <= resolved.len(),
            list == resolved_views(resolved@),
            forall|j: int| 0 <= j < i ==> (#[trigger] list[j]).mode != mode,
        decreases resolved.len() - i,
    {
        assert(list[i as int] == resolved@[i as int]@);
        if resolved[i].mode == mode {
            return true;
        }
        i = i + 1;
    }
    false
}

pub fn install_report(resolved: &Vec<ResolvedSkill<'_>>, global: bool, changed: bool, host: &HostAgent) -> (r: Vec<Line>)
    ensures
        line_views(r@) == report_of(resolved_views(resolved@), global, changed, host@),
{
    let n: usize = resolved.len();
    let count = decimal_of(n as u64);
    let word = if global {
        "global"
    } else {
        "project"
    };
    let ending = plural_ending(n);
    let mut out: Vec<Line> = Vec::new();
    if !changed {
        let mut text = cat5(count.as_str(), " managed ", word, " skill", ending);
        text.append(" already converged");
        out.push(Line::Success(text));
    } else {
        let mut text = cat5("Reconciled ", count.as_str(), " managed ", word, " skill");
        text.append(ending);
        text.append(" through Vercel Skills");
        out.push(Line::Success(text));
        if has_mode(resolved, EffectiveMode::Manual) {
            out.push(
                Line::Warning(
                    cat3(
                        "Manual mode is enforced by Pi, ",
                        host.label.as_str(),
                        ", Cursor, and Codex; OpenCode and Gemini CLI may still expose these skills to the model",
                    ),
                ),
            );
        }
        if has_mode(resolved, EffectiveMode::Dependency) {
            out.push(
                Line::Warning(
                    cat3(
                        "Dependency-only user hiding is enforced by ",
                        host.label.as_str(),
                        " and Pygmalion; other agents may expose exact invocation",
                    ),
                ),
            );
        }
    }
    assert(line_views(out@) =~= report_of(resolved_views(resolved@), global, changed, host@));
    out
}

/// Why a run with issues fails.
pub fn incomplete_failure(issues: usize) -> (r: Failure)
    ensures
        r@ == "install remains incomplete for "@ + decimal(issues as nat) + " item(s)"@,
{
    Failure::new(
        cat3(
            "install remains incomplete for ",
            decimal_of(issues as u64).as_str(),
            " item(s)",
        ),
    )
}

/// The issues of the environment, as they are listed, and why they stop a run; nothing where
/// there are none.
pub fn check_environment(issues: &Vec<String>) -> (r: Option<(String, Vec<String>, Failure)>)
    ensures
        match r {
            None => issues@.len() == 0,
            Some((heading, items, f)) => {
                &&& issues@.len() > 0
                &&& heading@ == "Install preflight · "@ + decimal(issues@.len())
                    + " environment issue(s)"@
                &&& items@.len() == issues@.len()
                &&& forall|i: int|
                    0 <= i < items@.len() ==> (#[trigger] items@[i])@
                        == "[environment-permission] "@ + issues@[i]@
                &&& f@ == "install preflight failed before projection mutation"@
            },
        },
{
    if issues.len() == 0 {
        return None;
    }
    let mut items: Vec<String> = Vec::new();
    let mut i: usize = 0;
    while i < issues.len()
        invariant
            i <= issues.len(),
            items@.len() == i,
            forall|j: int|
                0 <= j < i ==> (#[trigger] items@[j])@ == "[environment-permission] "@ + issues@[j]@,
        decreases issues.len() - i,
    {
        items.push(cat2("[environment-permission] ", issues[i].as_str()));
        i = i + 1;
    }
    let heading = cat3(
        "Install preflight · ",
        decimal_of(issues.len() as u64).as_str(),
        " environment issue(s)",
    );
    Some(
        (
            heading,
            items,
            Failure::new(String::from_str("install preflight failed before projection mutation")),
        ),
    )
}

// Placement through Vercel Skills.

pub open spec fn vercel_package() -> Text {
    "skills@1.5.23"@
}

/// The arguments that every call begins with.
pub open spec fn vercel_base() -> Seq<Text> {
    seq!["--yes"@, vercel_package()]
}

fn base_arguments() -> (r: Vec<String>)
    ensures
        views(r@) == vercel_base(),
{
    let mut out: Vec<String> = Vec::new();
    out.push(String::from_str("--yes"));
    out.push(String::from_str("skills@1.5.23"));
    assert(views(out@) =~= vercel_base());
    out
}

fn push_text(list: &mut Vec<String>, text: &str)
    ensures
        views(final(list)@) == views(old(list)@).push(text@),
{
    let ghost before = list@;
    list.push(text.to_owned());
    assert(views(list@) =~= views(before).push(text@));
}

/// `--skill` and the name of each eligible skill.
pub open spec fn skill_arguments(resolved: Seq<ResolvedView>, eligible: Seq<usize>, n: int) -> Seq<Text>
    decreases n,
{
    if n <= 0 {
        Seq::empty()
    } else {
        skill_arguments(resolved, eligible, n - 1).push("--skill"@).push(
            resolved[eligible[n - 1] as int].installed_name,
        )
    }
}

pub open spec fn with_global(args: Seq<Text>, global: bool) -> Seq<Text> {
    if global {
        args.push("--global"@)
    } else {
        args
    }
}

/// The arguments that place the eligible skills; none where there are none.
pub fn install_arguments(
    prepared_root: &str,
    resolved: &Vec<ResolvedSkill<'_>>,
    eligible: &Vec<usize>,
    agents: &Vec<String>,
    global: bool,
) -> (r: Option<Vec<String>>)
    requires
        forall|i: int| 0 <= i < eligible@.len() ==> (#[trigger] eligible@[i]) < resolved@.len(),
    ensures
        match r {
            None => eligible@.len() == 0,
            Some(args) => eligible@.len() > 0 && views(args@) == with_global(
                ((vercel_base().push("add"@).push(prepared_root@) + skill_arguments(
                    resolved_views(resolved@),
                    eligible@,
                    eligible@.len() as int,
                )).push("--agent"@) + views(agents@)).push("--yes"@),
                global,
            ),
        },
{
    if eligible.len() == 0 {
        return None;
    }
    let ghost list = resolved_views(resolved@);
    let mut args = base_arguments();
    push_text(&mut args, "add");
    push_text(&mut args, prepared_root);
    let ghost head = views(args@);
    let mut i: usize = 0;
    assert(head + Seq::<Text>::empty() =~= head);
    while i < eligible.len()
        invariant
            i <= eligible.len(),
            list == resolved_views(resolved@),
            forall|j: int| 0 <= j < eligible@.len() ==> (#[trigger] eligible@[j]) < resolved@.len(),
            views(args@) == head + skill_arguments(list, eligible@, i as int),
        decreases eligible.len() - i,
    {
        let at: usize = eligible[i];
        assert(eligible@[i as int] < resolved@.len());
        assert(list[at as int] == resolved@[at as int]@);
        push_text(&mut args, "--skill");
        push_text(&mut args, resolved[at].installed_name.as_str());
        i = i + 1;
        assert(views(args@) =~= head + skill_arguments(list, eligible@, i as int));
    }
    push_text(&mut args, "--agent");
    let ghost middle = args@;
    let mut more = copy_list(agents);
    args.append(&mut more);
    assert(views(args@) =~= views(middle) + views(agents@));
    push_text(&mut args, "--yes");
    if global {
        push_text(&mut args, "--global");
    }
    Some(args)
}

/// The arguments that remove names; none where there are none.
pub fn remove_arguments(names: &NameSet, global: bool) -> (r: Option<Vec<String>>)
    ensures
        match r {
            None => names.names().len() == 0,
            Some(args) => names.names().len() > 0 && views(args@) == with_global(
                (vercel_base().push("remove"@) + names.names()).push("--yes"@),
                global,
            ),
        },
{
    if names.len() == 0 {
        return None;
    }
    let mut args = base_arguments();
    push_text(&mut args, "remove");
    let ghost head = args@;
    let mut list = names.to_list();
    let ghost tail = list@;
    args.append(&mut list);
    assert(views(args@) =~= views(head) + views(tail));
    push_text(&mut args, "--yes");
    if global {
        push_text(&mut args, "--global");
    }
    Some(args)
}

/// The arguments that list the skills of an agent.
pub fn list_arguments(agent: &str, global: bool) -> (r: Vec<String>)
    ensures
        views(r@) == with_global(
            vercel_base().push("list"@).push("--json"@).push("--agent"@).push(agent@),
            global,
        ),
{
    let mut args = base_arguments();
    push_text(&mut args, "list");
    push_text(&mut args, "--json");
    push_text(&mut args, "--agent");
    push_text(&mut args, agent);
    if global {
        push_text(&mut args, "--global");
    }
    args
}

pub open spec fn mentions_permission(lower: Text) -> bool {
    ||| contains_text(lower, "eacces"@)
    ||| contains_text(lower, "eperm"@)
    ||| contains_text(lower, "permission denied"@)
    ||| contains_text(lower, "sandbox"@)
}

pub open spec fn mentions_network(lower: Text) -> bool {
    ||| contains_text(lower, "enotfound"@)
    ||| contains_text(lower, "econn"@)
    ||| contains_text(lower, "network"@)
    ||| contains_text(lower, "fetch failed"@)
    ||| contains_text(lower, "timed out"@)
}

/// The class of a failed call by what it printed.
pub open spec fn failure_class(detail: Text) -> Text {
    let lower = lower_text(detail);
    if mentions_permission(lower) {
        "environment-permission"@
    } else if mentions_network(lower) {
        "environment-network"@
    } else {
        "placement"@
    }
}

/// The failure of a call that ended badly, by its two outputs.
pub fn child_failure(action: &str, stdout: &str, stderr: &str) -> (r: Failure)
    ensures
        r@ == "["@ + failure_class(stdout@ + stderr@) + "] Vercel Skills failed while "@ + action@
            + ": "@ + (stdout@ + stderr@),
{
    let detail = cat2(stdout, stderr);
    let lower = lowered(detail.as_str());
    let l = lower.as_str();
    let class = if contains(l, "eacces") || contains(l, "eperm") || contains(
        l,
        "permission denied",
    ) || contains(l, "sandbox") {
        "environment-permission"
    } else if contains(l, "enotfound") || contains(l, "econn") || contains(l, "network")
        || contains(l, "fetch failed") || contains(l, "timed out") {
        "environment-network"
    } else {
        "placement"
    };
    let mut out = cat5("[", class, "] Vercel Skills failed while ", action, ": ");
    out.append(detail.as_str());
    Failure::new(out)
}

/// The failure of a call that could not be run or took too long.
pub fn bounded_environment_error(detail: &str) -> (r: Failure)
    ensures
        r@ == "["@ + (if contains_text(detail@, "exceeded"@) {
            "environment-timeout"@
        } else {
            "environment-process"@
        }) + "] "@ + detail@,
{
    let class = if contains(detail, "exceeded") {
        "environment-timeout"
    } else {
        "environment-process"
    };
    Failure::new(cat4("[", class, "] ", detail))
}

/// What is reported of a call and of the lock cleanup after it.
#[derive(Debug, PartialEq, Eq)]
pub enum LockedCall {
    Done,
    /// The failure of the call, and what to say of a cleanup that failed too.
    CallFailed(Option<String>),
    CleanupFailed,
}

/// Combines the outcome of a call with that of the lock cleanup, which may have failed with
/// `cleanup`.
pub fn locked_call(failed: bool, cleanup: Option<&str>) -> (r: LockedCall)
    ensures
        match r {
            LockedCall::Done => !failed && cleanup is None,
            LockedCall::CleanupFailed => !failed && cleanup is Some,
            LockedCall::CallFailed(None) => failed && cleanup is None,
            LockedCall::CallFailed(Some(context)) => failed && (cleanup matches Some(c) && context@
                == "project Skills lock cleanup also failed: "@ + c@),
        },
{
    match (failed, cleanup) {
        (false, None) => LockedCall::Done,
        (true, None) => LockedCall::CallFailed(None),
        (false, Some(_)) => LockedCall::CleanupFailed,
        (true, Some(c)) => LockedCall::CallFailed(
            Some(cat2("project Skills lock cleanup also failed: ", c)),
        ),
    }
}

// Projection directories.

pub open spec fn common_roots(host: HostView) -> Seq<Text> {
    seq![
        ".agents/skills"@,
        host_folder(host),
        ".codex/skills"@,
        ".config/opencode/skills"@,
        ".cursor/skills"@,
        ".gemini/skills"@,
        ".hermes/skills"@,
    ]
}

/// Where agents look for skills, below the root of a scope.
pub open spec fn relative_roots(global: bool, host: HostView) -> Seq<Text> {
    if global {
        common_roots(host).push(".pi/agent/skills"@)
    } else {
        common_roots(host).push(".opencode/skills"@).push(".pi/skills"@)
    }
}

/// The directories in which agents look for skills; the first is the canonical one.
pub fn projection_roots(command_root: &str, global: bool, host: &HostAgent) -> (r: Vec<String>)
    ensures
        views(r@) == relative_roots(global, host@).map_values(|p: Text| joined_path(command_root@, p)),
{
    let mut out: Vec<String> = Vec::new();
    out.push(join_path(command_root, ".agents/skills"));
    out.push(join_path(command_root, host.folder().as_str()));
    out.push(join_path(command_root, ".codex/skills"));
    out.push(join_path(command_root, ".config/opencode/skills"));
    out.push(join_path(command_root, ".cursor/skills"));
    out.push(join_path(command_root, ".gemini/skills"));
    out.push(join_path(command_root, ".hermes/skills"));
    if global {
        out.push(join_path(command_root, ".pi/agent/skills"));
    } else {
        out.push(join_path(command_root, ".opencode/skills"));
        out.push(join_path(command_root, ".pi/skills"));
    }
    assert(views(out@) =~= relative_roots(global, host@).map_values(
        |p: Text| joined_path(command_root@, p),
    ));
    out
}

/// The directory of an agent whose skills can be read without a call.
pub fn known_agent_projection_root(command_root: &str, agent: &str, host: &HostAgent) -> (r: Option<String>)
    ensures
        crate::text::opt_view(r) == (if builtin_agents(host@).contains(agent@) {
            Some(joined_path(command_root@, ".agents/skills"@))
        } else {
            None
        }),
{
    if list_has(&default_agents(host), agent) {
        Some(join_path(command_root, ".agents/skills"))
    } else {
        None
    }
}

/// What stands where a transaction journal is expected.
#[derive(Debug, Clone, Copy, PartialEq, Eq, Structural)]
pub enum JournalFile {
    Absent,
    File,
    Other,
}

/// Whether the journal is to be removed; anything but a real file is refused.
pub fn remove_transaction(path: &str, seen: JournalFile) -> (r: Result<bool, Failure>)
    ensures
        match seen {
            JournalFile::Absent => r == Ok::<bool, Failure>(false),
            JournalFile::File => r == Ok::<bool, Failure>(true),
            JournalFile::Other => r matches Err(f) && f@
                == "refusing to remove invalid transaction journal: "@ + path@,
        },
{
    match seen {
        JournalFile::Absent => Ok(false),
        JournalFile::File => Ok(true),
        JournalFile::Other => Err(
            Failure::new(cat2("refusing to remove invalid transaction journal: ", path)),
        ),
    }
}

} // verus!
