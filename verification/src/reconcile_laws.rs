//! What reconciling does, said of what goes in and what comes out.

use vstd::prelude::*;
use crate::model::{InstalledSkill, InstalledSkillView, InstalledStateView};
use crate::reconcile::{
    agent_sets, approved_messages, approved_names, approves, checkpoint, choice_of, drift_reports,
    eligible_views, keep_names, overridden, placed, placed_names, record_of, records, status_of,
    takes_all, without, ConflictView, ReplacementChoice, SelectionView,
};
use crate::resolve::{ResolvedSkill, ResolvedView};
use crate::name_map::NameSet;
use crate::text::{trim, Text};

verus! {

/// A projection is missing exactly where there is none, has drifted exactly where it is not what was
/// placed, awaits an update exactly where it is what was placed and something else is desired, and is
/// in sync otherwise.
pub proof fn law_projection_status(
    installed: InstalledSkill,
    desired: Option<ResolvedSkill>,
    actual: Option<Text>,
)
    ensures
        ({
            let status = status_of(
                installed@,
                match desired {
                    Some(d) => Some(d@),
                    None => None,
                },
                actual,
            );
            let untouched = actual is Some && installed.content_digest is Some
                && installed.content_digest->Some_0@ == actual->Some_0;
            let outdated = desired matches Some(d) && !(d.installed_name@
                == installed.installed_name@ && d.mode == installed.mode && d.gitignore
                == installed.gitignore && installed.digest is Some && installed.digest->Some_0@
                == d.digest@);
            &&& status is Missing <==> actual is None
            &&& status is Drift <==> actual is Some && !untouched
            &&& status is Incoming <==> untouched && outdated
            &&& status is Synced <==> untouched && !outdated
        }),
{
    if actual is Some && installed.content_digest is Some && installed.content_digest->Some_0@
        =~= actual->Some_0 {
        assert(installed@.content_digest == actual);
    }
    if let Some(d) = desired {
        if installed.digest is Some && installed.digest->Some_0@ =~= d.digest@ {
            assert(installed@.digest == Some(d.digest@));
        }
        assert(installed.installed_name@ =~= d.installed_name@ ==> installed@.installed_name
            == d@.installed_name);
    }
}

/// Only `y` and `yes` approve one replacement; only `Y`, `YES`, `a` and `all` approve the rest.
pub proof fn law_replacements_need_a_yes(answer: Text)
    ensures
        choice_of(answer) is This <==> trim(answer) == "y"@ || trim(answer) == "yes"@,
        choice_of(answer) is All <==> trim(answer) == "Y"@ || trim(answer) == "YES"@ || trim(answer)
            == "a"@ || trim(answer) == "all"@,
{
    reveal_strlit("y");
    reveal_strlit("yes");
    reveal_strlit("Y");
    reveal_strlit("YES");
    reveal_strlit("a");
    reveal_strlit("all");
    assert("y"@[0] == 'y' && "yes"@[0] == 'y' && "Y"@[0] == 'Y' && "YES"@[0] == 'Y' && "a"@[0]
        == 'a' && "all"@[0] == 'a');
}

/// A conflict is approved by an answer of its own, or by an earlier one for all that follow.
pub open spec fn answered(choices: Seq<ReplacementChoice>, i: int) -> bool {
    (0 <= i < choices.len() && choices[i] is This) || exists|j: int|
        0 <= j <= i && j < choices.len() && (#[trigger] choices[j]) is All
}

proof fn lemma_answered(choices: Seq<ReplacementChoice>, i: int)
    requires
        0 <= i,
    ensures
        approves(choices, i) == answered(choices, i),
{
    if takes_all(choices, i) {
        let j = choose|j: int|
            0 <= j < i && j < choices.len() && #[trigger] choices[j] == ReplacementChoice::All;
        assert(choices[j] is All);
    }
    if exists|j: int| 0 <= j <= i && j < choices.len() && (#[trigger] choices[j]) is All {
        let j = choose|j: int|
            0 <= j <= i && j < choices.len() && (#[trigger] choices[j]) is All;
        if j < i {
            assert(choices[j] == ReplacementChoice::All);
        }
    }
}

/// The message is that of an approved conflict.
pub open spec fn is_approved(conflicts: Seq<ConflictView>, choices: Seq<ReplacementChoice>, n: int, message: Text) -> bool {
    exists|i: int|
        0 <= i < n && (#[trigger] conflicts[i]).message == message && answered(choices, i)
}

proof fn lemma_approved(conflicts: Seq<ConflictView>, choices: Seq<ReplacementChoice>, n: int, message: Text)
    requires
        0 <= n <= conflicts.len(),
    ensures
        approved_messages(conflicts, choices, n).contains(message) == is_approved(
            conflicts,
            choices,
            n,
            message,
        ),
    decreases n,
{
    if n > 0 {
        lemma_approved(conflicts, choices, n - 1, message);
        lemma_answered(choices, n - 1);
        if is_approved(conflicts, choices, n - 1, message) {
            let i = choose|i: int|
                0 <= i < n - 1 && (#[trigger] conflicts[i]).message == message && answered(
                    choices,
                    i,
                );
            assert(conflicts[i].message == message);
        }
        if conflicts[n - 1].message == message && answered(choices, n - 1) {
            assert(is_approved(conflicts, choices, n, message));
        }
    }
}

proof fn lemma_approved_names(conflicts: Seq<ConflictView>, approved: Set<Text>, n: int, name: Text)
    requires
        0 <= n <= conflicts.len(),
    ensures
        approved_names(conflicts, approved, n).contains(name) == (exists|k: int|
            0 <= k < n && (#[trigger] conflicts[k]).installed_name == name && approved.contains(
                conflicts[k].message,
            )),
    decreases n,
{
    if n > 0 {
        lemma_approved_names(conflicts, approved, n - 1, name);
        let last = conflicts[n - 1];
    }
}

proof fn lemma_without(texts: Seq<Text>, gone: Set<Text>, text: Text)
    ensures
        without(texts, gone).contains(text) == (texts.contains(text) && !gone.contains(text)),
    decreases texts.len(),
{
    if texts.len() > 0 {
        lemma_without(texts.drop_last(), gone, text);
        let front = without(texts.drop_last(), gone);
        let whole = without(texts, gone);
        if texts.contains(text) {
            let i = texts.index_of(text);
            if i < texts.len() - 1 {
                assert(texts.drop_last()[i] == text);
            }
        }
        if texts.drop_last().contains(text) {
            let i = texts.drop_last().index_of(text);
            assert(texts[i] == text);
        }
        if front.contains(text) {
            let i = front.index_of(text);
            assert(whole[i] == text);
        }
        if !gone.contains(texts.last()) {
            assert(whole[whole.len() - 1] == texts.last());
            if whole.contains(text) {
                let i = whole.index_of(text);
                if i < front.len() {
                    assert(front[i] == text);
                }
            }
        }
        assert(texts[texts.len() - 1] == texts.last());
    }
}

/// The answers move exactly the approved conflicts: the names of the approved conflicts join what is
/// installed, their messages leave what is blocked, and nothing else changes.
pub proof fn law_approved_conflicts_are_replaced(
    s: SelectionView,
    choices: Seq<ReplacementChoice>,
    text: Text,
)
    ensures
        ({
            let next = overridden(s, choices);
            let n = s.conflicts.len() as int;
            &&& next.install.contains(text) <==> s.install.contains(text) || exists|k: int|
                0 <= k < n && (#[trigger] s.conflicts[k]).installed_name == text && is_approved(
                    s.conflicts,
                    choices,
                    n,
                    s.conflicts[k].message,
                )
            &&& next.blocked.contains(text) <==> s.blocked.contains(text) && !is_approved(
                s.conflicts,
                choices,
                n,
                text,
            )
            &&& next.complete == s.complete
            &&& next.conflicts == s.conflicts
        }),
{
    let n = s.conflicts.len() as int;
    let approved = approved_messages(s.conflicts, choices, n);
    lemma_approved(s.conflicts, choices, n, text);
    lemma_approved_names(s.conflicts, approved, n, text);
    lemma_without(s.blocked, approved, text);
    assert forall|k: int| 0 <= k < n implies approved.contains(
        (#[trigger] s.conflicts[k]).message,
    ) == is_approved(s.conflicts, choices, n, s.conflicts[k].message) by {
        lemma_approved(s.conflicts, choices, n, s.conflicts[k].message);
    }
}

/// Every agent lists a skill, and its canonical copy is what was intended.
pub open spec fn is_in_place(
    eligible: Seq<&ResolvedSkill>,
    lists: Seq<NameSet>,
    exact: Seq<bool>,
    i: int,
) -> bool {
    exact[i] && forall|a: int|
        0 <= a < lists.len() ==> (#[trigger] lists[a])@.contains(eligible[i].installed_name@)
}

/// The verified names are those of the skills in place, and each of the others is reported.
pub proof fn law_verified_skills_are_in_place(
    eligible: Seq<&ResolvedSkill>,
    lists: Seq<NameSet>,
    exact: Seq<bool>,
    text: Text,
)
    ensures
        ({
            let n = eligible.len() as int;
            let skills = eligible_views(eligible);
            &&& placed_names(agent_sets(lists), exact, skills, n).contains(text) <==> exists|i: int|
                0 <= i < n && (#[trigger] eligible[i]).installed_name@ == text && is_in_place(
                    eligible,
                    lists,
                    exact,
                    i,
                )
            &&& drift_reports(agent_sets(lists), exact, skills, n).contains(text) <==> exists|
                i: int,
            |
                0 <= i < n && text == "[projection-drift] "@ + (#[trigger] eligible[i]).key@
                    + " was not completely placed and verified"@ && !is_in_place(
                    eligible,
                    lists,
                    exact,
                    i,
                )
        }),
{
    lemma_verified(eligible, lists, exact, text, eligible.len() as int);
}

proof fn lemma_in_place(eligible: Seq<&ResolvedSkill>, lists: Seq<NameSet>, exact: Seq<bool>, i: int)
    requires
        0 <= i < eligible.len(),
    ensures
        placed(agent_sets(lists), exact, eligible_views(eligible), i) == is_in_place(
            eligible,
            lists,
            exact,
            i,
        ),
{
    let sets = agent_sets(lists);
    assert forall|a: int| 0 <= a < lists.len() implies (#[trigger] lists[a])@ == sets[a] by {}
    let name = eligible[i].installed_name@;
    assert(eligible_views(eligible)[i].installed_name == name);
    if is_in_place(eligible, lists, exact, i) {
        assert forall|a: int| 0 <= a < sets.len() implies (#[trigger] sets[a]).contains(name) by {
            assert(lists[a]@.contains(name));
        }
    }
    if placed(sets, exact, eligible_views(eligible), i) {
        assert forall|a: int| 0 <= a < lists.len() implies (#[trigger] lists[a])@.contains(name) by {
            assert(sets[a].contains(name));
        }
    }
}

proof fn lemma_verified(
    eligible: Seq<&ResolvedSkill>,
    lists: Seq<NameSet>,
    exact: Seq<bool>,
    text: Text,
    n: int,
)
    requires
        0 <= n <= eligible.len(),
    ensures
        ({
            let skills = eligible_views(eligible);
            &&& placed_names(agent_sets(lists), exact, skills, n).contains(text) <==> exists|i: int|
                0 <= i < n && (#[trigger] eligible[i]).installed_name@ == text && is_in_place(
                    eligible,
                    lists,
                    exact,
                    i,
                )
            &&& drift_reports(agent_sets(lists), exact, skills, n).contains(text) <==> exists|
                i: int,
            |
                0 <= i < n && text == "[projection-drift] "@ + (#[trigger] eligible[i]).key@
                    + " was not completely placed and verified"@ && !is_in_place(
                    eligible,
                    lists,
                    exact,
                    i,
                )
        }),
    decreases n,
{
    if n > 0 {
        lemma_verified(eligible, lists, exact, text, n - 1);
        lemma_in_place(eligible, lists, exact, n - 1);
        let skills = eligible_views(eligible);
        let last = eligible[n - 1];
        assert(skills[n - 1] == last@);
        let front = drift_reports(agent_sets(lists), exact, skills, n - 1);
        let whole = drift_reports(agent_sets(lists), exact, skills, n);
        if front.contains(text) {
            let i = front.index_of(text);
            assert(whole[i] == text);
        }
        if whole.len() > front.len() {
            assert(whole[whole.len() - 1] == "[projection-drift] "@ + last.key@
                + " was not completely placed and verified"@);
            if whole.contains(text) {
                let i = whole.index_of(text);
                if i < front.len() {
                    assert(front[i] == text);
                }
            }
        }
    }
}

/// A complete skill is recorded under the key.
pub open spec fn is_recorded(skills: Seq<ResolvedView>, complete: Set<Text>, n: int, key: Text) -> bool {
    exists|i: int|
        0 <= i < n && (#[trigger] skills[i]).key == key && complete.contains(
            skills[i].installed_name,
        )
}

/// A complete skill is installed under the name.
pub open spec fn is_taken(skills: Seq<ResolvedView>, complete: Set<Text>, n: int, name: Text) -> bool {
    complete.contains(name) && exists|i: int|
        0 <= i < n && (#[trigger] skills[i]).installed_name == name
}

proof fn lemma_records(
    m: Map<Text, InstalledSkillView>,
    skills: Seq<ResolvedView>,
    complete: Set<Text>,
    contents: Seq<Text>,
    n: int,
    key: Text,
)
    requires
        0 <= n <= skills.len(),
        forall|a: int, b: int|
            0 <= a < skills.len() && 0 <= b < skills.len() && a != b ==> (
            #[trigger] skills[a]).installed_name != (#[trigger] skills[b]).installed_name
                && skills[a].key != skills[b].key,
    ensures
        ({
            let next = records(m, skills, complete, contents, n);
            &&& is_recorded(skills, complete, n, key) ==> next.contains_key(key)
            &&& !is_recorded(skills, complete, n, key) ==> (next.contains_key(key) <==> m.contains_key(
                key,
            ) && !is_taken(skills, complete, n, m[key].installed_name))
            &&& !is_recorded(skills, complete, n, key) && next.contains_key(key) ==> next[key]
                == m[key]
            &&& forall|i: int|
                0 <= i < n && complete.contains((#[trigger] skills[i]).installed_name)
                    && skills[i].key == key ==> next[key] == record_of(skills[i], contents[i])
        }),
    decreases n,
{
    if n > 0 {
        lemma_records(m, skills, complete, contents, n - 1, key);
        let front = records(m, skills, complete, contents, n - 1);
        let next = records(m, skills, complete, contents, n);
        let last = skills[n - 1];
        if is_recorded(skills, complete, n - 1, key) {
            let i = choose|i: int|
                0 <= i < n - 1 && (#[trigger] skills[i]).key == key && complete.contains(
                    skills[i].installed_name,
                );
            assert(is_recorded(skills, complete, n, key));
            assert(last.key != key && last.installed_name != skills[i].installed_name);
        }
        if m.contains_key(key) {
            let name = m[key].installed_name;
            if is_taken(skills, complete, n - 1, name) {
                let i = choose|i: int|
                    0 <= i < n - 1 && (#[trigger] skills[i]).installed_name == name;
                assert(skills[i].installed_name == name);
                assert(is_taken(skills, complete, n, name));
            }
            if last.installed_name == name && complete.contains(name) {
                assert(is_taken(skills, complete, n, name));
            }
        }
        if last.key == key && complete.contains(last.installed_name) {
            assert(is_recorded(skills, complete, n, key));
        }
    }
}

/// After a run, the record of each complete skill holds its name, mode, ignore flag, digest and the
/// digest of its content; a record of another key stays as it was exactly where its name was neither
/// removed nor taken by a complete skill; and there are no others.
pub proof fn law_checkpoint_is_exact(
    previous: InstalledStateView,
    skills: Seq<ResolvedView>,
    complete: Set<Text>,
    removed: Set<Text>,
    contents: Seq<Text>,
    key: Text,
)
    requires
        forall|a: int, b: int|
            0 <= a < skills.len() && 0 <= b < skills.len() && a != b ==> (
            #[trigger] skills[a]).installed_name != (#[trigger] skills[b]).installed_name
                && skills[a].key != skills[b].key,
    ensures
        ({
            let next = checkpoint(previous, skills, complete, removed, contents);
            let n = skills.len() as int;
            let was = previous.skills;
            &&& next.version == 3
            &&& next.skills.contains_key(key) <==> is_recorded(skills, complete, n, key) || (
            was.contains_key(key) && !removed.contains(was[key].installed_name) && !is_taken(
                skills,
                complete,
                n,
                was[key].installed_name,
            ))
            &&& next.skills.contains_key(key) && !is_recorded(skills, complete, n, key)
                ==> next.skills[key] == was[key]
            &&& forall|i: int|
                0 <= i < n && (#[trigger] skills[i]).key == key && complete.contains(
                    skills[i].installed_name,
                ) ==> {
                    let record = next.skills[key];
                    &&& record.installed_name == skills[i].installed_name
                    &&& record.mode == skills[i].mode
                    &&& record.gitignore == skills[i].gitignore
                    &&& record.digest == Some(skills[i].digest)
                    &&& record.content_digest == Some(contents[i])
                    &&& record.legacy_path is None
                }
        }),
{
    lemma_records(
        keep_names(previous.skills, removed),
        skills,
        complete,
        contents,
        skills.len() as int,
        key,
    );
}

} // verus!
