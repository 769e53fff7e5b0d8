//! When a migration plan is accepted, what it selects, and how applying it goes.

use vstd::prelude::*;
use crate::failure::lemma_first_refusal;
use crate::install::agents_refusal;
use crate::migration::{
    answered_mode, applied, apply_after, chosen, chosen_path, holds_path, legacy_before,
    migrated_skills, named_before, plan_refusal, skill_faults, ApplyStep, MigrationPlan,
    MigrationSkill, PlanFacts, SourceFacts,
};
use crate::model::{is_name, SelectionMode, SkillSelection};
use crate::paths::{leaf_of, same_path};
use crate::resolve::key_of;
use crate::text::{parse_number, trim, views, Text};
use crate::project_store::EntryKind;

verus! {

/// What a skill of a plan must satisfy.
pub open spec fn is_proven(plan: MigrationPlan, sources: Seq<SourceFacts>, scopes: Set<Text>, i: int) -> bool {
    let skill = plan.skills@[i];
    &&& sources[i].name matches Ok(found) && found@ == skill.legacy_installed_name@
    &&& sources[i].kind == Ok::<EntryKind, String>(EntryKind::Directory)
    &&& leaf_of(skill.source@) == Some(skill.legacy_installed_name@)
    &&& is_name(skill.source_name@)
    &&& scopes.contains(skill.scope@)
    &&& plan.target is Global ==> !skill.gitignore
    &&& forall|j: int|
        0 <= j < i ==> (#[trigger] plan.skills@[j]).source_name@ != skill.source_name@
            && plan.skills@[j].legacy_installed_name@ != skill.legacy_installed_name@
}

proof fn lemma_proven(plan: MigrationPlan, sources: Seq<SourceFacts>, scopes: Set<Text>, i: int)
    requires
        0 <= i < plan.skills@.len(),
    ensures
        skill_faults(plan, sources, scopes)(i) is None <==> is_proven(plan, sources, scopes, i),
{
    let skill = plan.skills@[i];
    if is_proven(plan, sources, scopes, i) {
        if named_before(plan.skills@, skill.source_name@, i) {
            let j = choose|j: int|
                0 <= j < i && (#[trigger] plan.skills@[j]).source_name@ == skill.source_name@;
            assert(plan.skills@[j].source_name@ != skill.source_name@);
        }
        if legacy_before(plan.skills@, skill.legacy_installed_name@, i) {
            let j = choose|j: int|
                0 <= j < i && (#[trigger] plan.skills@[j]).legacy_installed_name@
                    == skill.legacy_installed_name@;
            assert(plan.skills@[j].legacy_installed_name@ != skill.legacy_installed_name@);
        }
    }
}

/// A plan is accepted exactly where its version is known, its catalog has a portable alias, a source
/// and a real directory with known metadata, its agents are accepted, it has a skill and every skill
/// is proven, and it cleans up only what it installs.
pub proof fn law_sound_plans_are_accepted(plan: MigrationPlan, facts: PlanFacts)
    ensures
        plan_refusal(plan, facts) is None <==> {
            &&& plan.version == 1
            &&& is_name(plan.catalog.alias@)
            &&& agents_refusal(views(plan.agents@)) is None
            &&& trim(plan.catalog.source@).len() > 0
            &&& facts.root == Some(EntryKind::Directory)
            &&& facts.metadata matches Ok(metadata) && metadata.version == 1 && forall|i: int|
                0 <= i < plan.skills@.len() ==> #[trigger] is_proven(
                    plan,
                    facts.sources@,
                    metadata.scopes@.dom(),
                    i,
                )
            &&& plan.skills@.len() > 0
            &&& plan.cleanup_legacy ==> plan.install
        },
{
    if let Ok(metadata) = facts.metadata {
        let n = plan.skills@.len() as int;
        let scopes = metadata.scopes@.dom();
        let f = skill_faults(plan, facts.sources@, scopes);
        lemma_first_refusal(n, f);
        assert forall|i: int| 0 <= i < n implies ((#[trigger] f(i)) is None <==> is_proven(
            plan,
            facts.sources@,
            scopes,
            i,
        )) by {
            lemma_proven(plan, facts.sources@, scopes, i);
        }
        if forall|i: int| 0 <= i < n ==> #[trigger] is_proven(plan, facts.sources@, scopes, i) {
            assert forall|i: int| 0 <= i < n implies (#[trigger] f(i)) is None by {
                assert(is_proven(plan, facts.sources@, scopes, i));
            }
        }
        if forall|i: int| 0 <= i < n ==> (#[trigger] f(i)) is None {
            assert forall|i: int| 0 <= i < n implies #[trigger] is_proven(
                plan,
                facts.sources@,
                scopes,
                i,
            ) by {
                assert(f(i) is None);
            }
        }
    }
}

/// A number stands for the candidate at that place, counted from one; anything that is no number stands
/// for itself.
pub proof fn law_choices_count_from_one(item: Text, candidates: Seq<Text>)
    ensures
        parse_number(item) is None ==> chosen_path(item, candidates) == Ok::<Text, Text>(item),
        parse_number(item) matches Some(n) ==> {
            &&& chosen_path(item, candidates) is Ok <==> 1 <= n <= candidates.len()
            &&& 1 <= n <= candidates.len() ==> chosen_path(item, candidates) == Ok::<Text, Text>(
                candidates[n - 1],
            )
        },
{
}

/// A selection holds every path that its items choose, and no other. It is refused exactly where an
/// item is.
pub proof fn law_selection_holds_the_choices(items: Seq<Text>, candidates: Seq<Text>, n: int)
    requires
        0 <= n <= items.len(),
    ensures
        chosen(items, candidates, n) is Ok <==> forall|i: int|
            0 <= i < n ==> chosen_path(#[trigger] items[i], candidates) is Ok,
        chosen(items, candidates, n) matches Ok(paths) ==> {
            &&& forall|i: int|
                0 <= i < n ==> holds_path(
                    paths,
                    chosen_path(#[trigger] items[i], candidates)->Ok_0,
                )
            &&& forall|k: int|
                0 <= k < paths.len() ==> exists|i: int|
                    0 <= i < n && chosen_path(#[trigger] items[i], candidates) == Ok::<Text, Text>(
                        #[trigger] paths[k],
                    )
        },
    decreases n,
{
    if n > 0 {
        law_selection_holds_the_choices(items, candidates, n - 1);
        let before = chosen(items, candidates, n - 1);
        let now = chosen(items, candidates, n);
        if now is Ok {
            let front = before->Ok_0;
            let paths = now->Ok_0;
            let path = chosen_path(items[n - 1], candidates)->Ok_0;
            assert forall|i: int| 0 <= i < n implies chosen_path(
                #[trigger] items[i],
                candidates,
            ) is Ok by {}
            assert forall|i: int| 0 <= i < n implies holds_path(
                paths,
                chosen_path(#[trigger] items[i], candidates)->Ok_0,
            ) by {
                let want = chosen_path(items[i], candidates)->Ok_0;
                if i < n - 1 || holds_path(front, path) {
                    let k = choose|k: int|
                        0 <= k < front.len() && same_path(#[trigger] front[k], want);
                    assert(same_path(paths[k], want));
                } else {
                    assert(paths[front.len() as int] == path);
                    assert(same_path(path, path));
                }
            }
            assert forall|k: int| 0 <= k < paths.len() implies exists|i: int|
                0 <= i < n && chosen_path(#[trigger] items[i], candidates) == Ok::<Text, Text>(
                    #[trigger] paths[k],
                ) by {
                if k < front.len() {
                    assert(paths[k] == front[k]);
                    let i = choose|i: int|
                        0 <= i < n - 1 && chosen_path(#[trigger] items[i], candidates) == Ok::<
                            Text,
                            Text,
                        >(front[k]);
                    assert(chosen_path(items[i], candidates) == Ok::<Text, Text>(paths[k]));
                } else {
                    assert(chosen_path(items[n - 1], candidates) == Ok::<Text, Text>(paths[k]));
                }
            }
        } else if before is Ok {
            assert(chosen_path(items[n - 1], candidates) is Err);
        }
    }
}

/// Only `enable` and `manual` are modes, each its own.
pub proof fn law_answers_name_a_mode(answer: Text)
    ensures
        answered_mode(answer) == Ok::<SelectionMode, Text>(SelectionMode::Enable) <==> answer
            == "enable"@,
        answered_mode(answer) == Ok::<SelectionMode, Text>(SelectionMode::Manual) <==> answer
            == "manual"@,
{
    reveal_strlit("enable");
    reveal_strlit("manual");
    assert("enable"@[0] == 'e' && "manual"@[0] == 'm');
}

/// Every skill that a migration added is selected with the mode and the ignore flag that the plan has
/// for it.
pub proof fn law_added_skills_are_selected_as_planned(
    skills: Map<Text, SkillSelection>,
    alias: Text,
    added: Seq<MigrationSkill>,
    names: Seq<Text>,
    n: int,
    i: int,
)
    requires
        0 <= i < n <= names.len(),
        forall|j: int| i < j < n ==> #[trigger] names[j] != names[i],
    ensures
        ({
            let choice = migrated_skills(skills, alias, added, names, n)[alias + "/"@ + names[i]];
            match choice {
                SkillSelection::Mode(mode) => mode == added[i].mode && !added[i].gitignore,
                SkillSelection::Detailed { mode, gitignore } => mode == added[i].mode && gitignore
                    == added[i].gitignore,
            }
        }),
    decreases n,
{
    if i < n - 1 {
        law_added_skills_are_selected_as_planned(skills, alias, added, names, n - 1, i);
        assert(names[n - 1] != names[i]);
        let a = key_of(alias, names[n - 1]);
        let b = key_of(alias, names[i]);
        if a == b {
            let m = (alias + "/"@).len() as int;
            assert(names[n - 1] =~= a.skip(m));
            assert(names[i] =~= b.skip(m));
        }
    }
}

/// Where every step is done, a plan is prepared, added and configured in this order; with an
/// installation the catalog is read again before, and the skills are installed after; and what was
/// there before is cleaned up last, only where that was asked for.
pub proof fn law_migration_runs_in_order(outcome: spec_fn(ApplyStep) -> bool, install: bool, cleanup: bool)
    requires
        forall|s: ApplyStep| #[trigger] outcome(s),
    ensures
        ({
            let at = |n: nat| applied(ApplyStep::Prepare, outcome, install, cleanup, n);
            &&& at(1) is Add && at(2) is CleanPrepared
            &&& install ==> at(3) is Scan && at(4) is Configure && at(5) is Install
            &&& install && cleanup ==> at(6) is Cleanup && at(7) is Done
            &&& install && !cleanup ==> at(6) is Done
            &&& !install ==> at(3) is Configure && at(4) is Done
        }),
{
    reveal_with_fuel(applied, 9);
    assert(outcome(ApplyStep::Prepare) && outcome(ApplyStep::Add) && outcome(
        ApplyStep::CleanPrepared,
    ) && outcome(ApplyStep::Scan) && outcome(ApplyStep::Configure) && outcome(ApplyStep::Install)
        && outcome(ApplyStep::Cleanup));
}

/// A step that fails never leads to success: whatever follows, a plan of which a step failed ends in
/// failure.
pub proof fn law_failed_steps_fail_the_plan(step: ApplyStep, install: bool, cleanup: bool)
    requires
        !(step is Done),
    ensures
        ({
            let next = apply_after(step, false, install, cleanup);
            next is Failed || next is CleanFailed || next is RestoreGlobal || next is Rollback
        }),
        forall|done: bool| #[trigger]
            apply_after(ApplyStep::CleanFailed, done, install, cleanup) is Rollback,
        forall|done: bool| #[trigger]
            apply_after(ApplyStep::RestoreGlobal, done, install, cleanup) is Rollback,
        forall|done: bool| #[trigger]
            apply_after(ApplyStep::Rollback, done, install, cleanup) is Failed,
        forall|done: bool| #[trigger]
            apply_after(ApplyStep::Failed, done, install, cleanup) is Failed,
{
}

} // verus!
