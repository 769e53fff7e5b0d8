//! What a run does, said of what is recorded, resolved and selected.

use vstd::prelude::*;
use crate::diagnosis_laws::has_name;
use crate::install::is_desired;
use crate::agents::HostView;
use crate::model::{EffectiveMode, InstalledState};
use crate::output::LineView;
use crate::reconcile::owned_names;
use crate::resolve::{resolved_views, ResolvedSkill, ResolvedView};
use crate::text::Text;
use crate::transaction::{
    any_mode, dependency_notice, eligible_positions, issues_of, leaves_out, manual_notice,
    obsolete_names, report_of, resolved_names, script, skill_arguments, InstallRun, InstallStep,
};

verus! {

pub proof fn lemma_desired_name(resolved: Seq<ResolvedSkill>, name: Text)
    ensures
        is_desired(resolved_views(resolved), name) == has_name(resolved, name),
{
    let rs = resolved_views(resolved);
    if is_desired(rs, name) {
        let i = choose|i: int| 0 <= i < rs.len() && (#[trigger] rs[i]).installed_name == name;
        assert(resolved[i].installed_name@ == name);
    }
    if has_name(resolved, name) {
        let i = choose|i: int|
            0 <= i < resolved.len() && (#[trigger] resolved[i]).installed_name@ == name;
        assert(rs[i].installed_name == name);
    }
}

proof fn lemma_eligible(rs: Seq<ResolvedView>, install: Set<Text>, n: int, p: usize)
    requires
        0 <= n <= rs.len() <= usize::MAX,
    ensures
        eligible_positions(rs, install, n).contains(p) == (p < n && install.contains(
            rs[p as int].installed_name,
        )),
        forall|a: int, b: int|
            0 <= a < b < eligible_positions(rs, install, n).len() ==> (
            #[trigger] eligible_positions(rs, install, n)[a]) < (#[trigger] eligible_positions(
                rs,
                install,
                n,
            )[b]),
        forall|a: int|
            0 <= a < eligible_positions(rs, install, n).len() ==> (#[trigger] eligible_positions(
                rs,
                install,
                n,
            )[a]) < n,
    decreases n,
{
    if n > 0 {
        lemma_eligible(rs, install, n - 1, p);
        let front = eligible_positions(rs, install, n - 1);
        let whole = eligible_positions(rs, install, n);
        if front.contains(p) {
            let i = front.index_of(p);
            assert(whole[i] == p);
        }
        if whole.len() > front.len() {
            assert(whole[whole.len() - 1] == (n - 1) as usize);
            if whole.contains(p) {
                let i = whole.index_of(p);
                if i < front.len() {
                    assert(front[i] == p);
                }
            }
        }
    }
}

/// A run places the resolved skills whose names are to be installed, each once and in order. It
/// removes exactly the recorded names that no resolved skill has and whose record is not preserved.
pub proof fn law_work_follows_the_selection(
    previous: InstalledState,
    resolved: Seq<ResolvedSkill>,
    install: Set<Text>,
    preserved: Set<Text>,
    position: usize,
    name: Text,
)
    requires
        resolved.len() <= usize::MAX,
    ensures
        ({
            let rs = resolved_views(resolved);
            let eligible = eligible_positions(rs, install, rs.len() as int);
            &&& eligible.contains(position) <==> position < resolved.len() && install.contains(
                resolved[position as int].installed_name@,
            )
            &&& forall|a: int, b: int|
                0 <= a < b < eligible.len() ==> (#[trigger] eligible[a]) < (#[trigger] eligible[b])
            &&& resolved_names(rs).contains(name) <==> has_name(resolved, name)
            &&& obsolete_names(previous@.skills, preserved, rs).contains(name) <==> !has_name(
                resolved,
                name,
            ) && exists|k: Text|
                previous.skills@.contains_key(k) && !preserved.contains(k) && (
                #[trigger] previous.skills@[k]).installed_name@ == name
            &&& owned_names(previous@.skills, Set::empty()).contains(name) <==> exists|k: Text|
                previous.skills@.contains_key(k) && (
                #[trigger] previous.skills@[k]).installed_name@ == name
        }),
{
    let rs = resolved_views(resolved);
    lemma_eligible(rs, install, rs.len() as int, position);
    lemma_desired_name(resolved, name);
    let all = previous@.skills;
    assert forall|k: Text| previous.skills@.contains_key(k) implies (
    #[trigger] all[k]).installed_name == previous.skills@[k].installed_name@ by {}
    if exists|k: Text|
        previous.skills@.contains_key(k) && !preserved.contains(k) && (
        #[trigger] previous.skills@[k]).installed_name@ == name {
        let k = choose|k: Text|
            previous.skills@.contains_key(k) && !preserved.contains(k) && (
            #[trigger] previous.skills@[k]).installed_name@ == name;
        assert(all[k].installed_name == name);
    }
    if exists|k: Text|
        previous.skills@.contains_key(k) && (#[trigger] previous.skills@[k]).installed_name@
            == name {
        let k = choose|k: Text|
            previous.skills@.contains_key(k) && (#[trigger] previous.skills@[k]).installed_name@
                == name;
        assert(all[k].installed_name == name);
    }
    if exists|k: Text|
        all.contains_key(k) && !preserved.contains(k) && (#[trigger] all[k]).installed_name
            == name {
        let k = choose|k: Text|
            all.contains_key(k) && !preserved.contains(k) && (#[trigger] all[k]).installed_name
                == name;
        assert(previous.skills@[k].installed_name@ == name);
    }
    if exists|k: Text| all.contains_key(k) && (#[trigger] all[k]).installed_name == name {
        let k = choose|k: Text| all.contains_key(k) && (#[trigger] all[k]).installed_name == name;
        assert(previous.skills@[k].installed_name@ == name);
    }
}

/// Where a step stands among the others.
pub open spec fn rank(step: InstallStep) -> int {
    match step {
        InstallStep::CreateJournal => 0,
        InstallStep::RewriteJournal => 0,
        InstallStep::PromotePrepared => 1,
        InstallStep::PlaceSkills => 2,
        InstallStep::JournalPlaced => 3,
        InstallStep::VerifyPlacement => 4,
        InstallStep::PlaceOmitted => 5,
        InstallStep::VerifyAgain => 6,
        InstallStep::RemoveSkills => 7,
        InstallStep::JournalCleaned => 8,
        InstallStep::WriteState => 9,
        InstallStep::WriteIgnore => 10,
        InstallStep::RemoveJournal => 11,
        InstallStep::Finish => 12,
    }
}

/// Whether a run takes a step.
pub open spec fn is_taken(run: InstallRun, step: InstallStep) -> bool {
    match step {
        InstallStep::CreateJournal => run.transactional && !run.recovering,
        InstallStep::RewriteJournal => run.transactional && run.recovering,
        InstallStep::PromotePrepared => run.transactional,
        InstallStep::PlaceSkills => run.transactional,
        InstallStep::JournalPlaced => run.transactional,
        InstallStep::VerifyPlacement => run.transactional,
        InstallStep::PlaceOmitted => run.transactional && run.retry,
        InstallStep::VerifyAgain => run.transactional && run.retry,
        InstallStep::RemoveSkills => run.transactional && run.complete,
        InstallStep::JournalCleaned => run.transactional && run.complete,
        InstallStep::WriteState => run.transactional || run.state_changed,
        InstallStep::WriteIgnore => run.project && (run.transactional || run.state_changed),
        InstallStep::RemoveJournal => if run.transactional {
            run.complete
        } else {
            run.recovering && run.unblocked
        },
        InstallStep::Finish => false,
    }
}

/// A run takes its steps in one order, each at most once. A run that places or removes something
/// always prepares, places, verifies and records; it removes, and closes its journal, only where all
/// was verified. A run that does not, records only what changed, and drops the journal it resumed
/// only where nothing is blocked. Only a project has an ignore file to write.
pub proof fn law_steps_follow_the_run(run: InstallRun, step: InstallStep)
    ensures
        script(run).contains(step) <==> is_taken(run, step),
        forall|a: int, b: int|
            0 <= a < b < script(run).len() ==> rank(#[trigger] script(run)[a]) < rank(
                #[trigger] script(run)[b],
            ),
{
    let s = script(run);
    if s.len() > 0 {
        assert(s.contains(s[0]));
    }
    if is_taken(run, step) {
        if run.transactional {
            let skip: int = if run.retry { 0 } else { 2 };
            let gap: int = if run.complete { 0 } else { 2 };
            let tail: int = if run.project { 0 } else { 1 };
            let r = rank(step);
            let at = if r <= 6 {
                r
            } else if r <= 8 {
                r - skip
            } else if r <= 10 {
                r - skip - gap
            } else {
                r - skip - tail
            };
            assert(s[at] == step);
        } else {
            let r = rank(step);
            let at: int = if r == 9 {
                0
            } else if r == 10 {
                1
            } else {
                s.len() - 1
            };
            assert(s[at] == step);
        }
    }
}

/// What a run reports is what was blocked, what was not verified, and the failure of the placement
/// where some skill to be placed is not complete.
pub proof fn law_issues_are_reported(
    blocked: Seq<Text>,
    unverified: Seq<Text>,
    placement: Option<Text>,
    resolved: Seq<ResolvedSkill>,
    eligible: Seq<usize>,
    complete: Set<Text>,
    text: Text,
)
    requires
        forall|i: int| 0 <= i < eligible.len() ==> (#[trigger] eligible[i]) < resolved.len(),
    ensures
        issues_of(
            blocked,
            unverified,
            placement,
            leaves_out(resolved_views(resolved), eligible, complete),
        ).contains(text) <==> blocked.contains(text) || unverified.contains(text) || (placement
            == Some(text) && exists|i: int|
            0 <= i < eligible.len() && !complete.contains(
                resolved[(#[trigger] eligible[i]) as int].installed_name@,
            )),
{
    let rs = resolved_views(resolved);
    let left = leaves_out(rs, eligible, complete);
    assert forall|i: int| 0 <= i < eligible.len() implies rs[(
    #[trigger] eligible[i]) as int].installed_name == resolved[eligible[i] as int].installed_name@
         by {}
    let base = blocked + unverified;
    let all = issues_of(blocked, unverified, placement, left);
    if blocked.contains(text) {
        let i = blocked.index_of(text);
        assert(base[i] == text);
        assert(all[i] == text);
    }
    if unverified.contains(text) {
        let i = unverified.index_of(text);
        assert(base[blocked.len() + i] == text);
        assert(all[blocked.len() + i] == text);
    }
    if placement is Some && left {
        assert(all[base.len() as int] == placement->Some_0);
    }
    if all.contains(text) {
        let i = all.index_of(text);
        if i < blocked.len() {
            assert(blocked[i] == text);
        } else if i < base.len() {
            assert(unverified[i - blocked.len()] == text);
        }
    }
}

/// A run that changed something warns of agents that do not keep to the manual mode exactly where a
/// resolved skill is manual, and of agents that do not hide dependencies exactly where one is only a
/// dependency. A run that changed nothing warns of nothing.
pub proof fn law_report_warns_of_modes(
    resolved: Seq<ResolvedSkill>,
    global: bool,
    changed: bool,
    host: HostView,
)
    ensures
        ({
            let lines = report_of(resolved_views(resolved), global, changed, host);
            let manual = exists|i: int|
                0 <= i < resolved.len() && (#[trigger] resolved[i]).mode is Manual;
            let hidden = exists|i: int|
                0 <= i < resolved.len() && (#[trigger] resolved[i]).mode is Dependency;
            &&& lines.len() == 1 + (if changed && manual {
                1int
            } else {
                0
            }) + (if changed && hidden {
                1int
            } else {
                0
            })
            &&& lines[0] is Success
            &&& changed && manual ==> lines[1] == LineView::Warning(manual_notice(host))
            &&& changed && hidden ==> lines.last() == LineView::Warning(dependency_notice(host))
        }),
{
    let rs = resolved_views(resolved);
    assert forall|i: int| 0 <= i < resolved.len() implies (#[trigger] resolved[i]).mode
        == rs[i].mode by {}
    if any_mode(rs, EffectiveMode::Manual) {
        let i = choose|i: int|
            0 <= i < rs.len() && (#[trigger] rs[i]).mode == EffectiveMode::Manual;
        assert(resolved[i].mode is Manual);
    }
    if any_mode(rs, EffectiveMode::Dependency) {
        let i = choose|i: int|
            0 <= i < rs.len() && (#[trigger] rs[i]).mode == EffectiveMode::Dependency;
        assert(resolved[i].mode is Dependency);
    }
}

/// Every skill to be placed is named in the arguments, in order, each behind its flag.
pub proof fn law_arguments_name_the_skills(resolved: Seq<ResolvedView>, eligible: Seq<usize>, n: int, i: int)
    requires
        0 <= i < n <= eligible.len(),
    ensures
        skill_arguments(resolved, eligible, n).len() == 2 * n,
        skill_arguments(resolved, eligible, n)[2 * i] == "--skill"@,
        skill_arguments(resolved, eligible, n)[2 * i + 1]
            == resolved[eligible[i] as int].installed_name,
    decreases n,
{
    if n == 1 {
        assert(skill_arguments(resolved, eligible, 0) =~= Seq::empty());
    } else if i < n - 1 {
        law_arguments_name_the_skills(resolved, eligible, n - 1, i);
    } else {
        law_arguments_name_the_skills(resolved, eligible, n - 1, 0);
    }
}

} // verus!
