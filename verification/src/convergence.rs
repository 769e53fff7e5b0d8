//! Reconciliation converges: once a run is complete, the next one finds nothing to do.

use vstd::prelude::*;
use crate::install::is_desired;
use crate::model::{
    stored_alike, stored_skill, InstalledSkillView, InstalledStateView, INSTALLED_STATE_VERSION,
};
use crate::plan::differs;
use crate::reconcile::{
    all_list, all_match, block_pass, checkpoint, classified, depends_on, keep_names, owned_names,
    record_of, recorded, records, sorted, status_of, verdict_at, Observed, ProjectionStatus, Sorting,
    Verdict, Wanted,
};
use crate::resolve::ResolvedView;
use crate::text::Text;
use crate::transaction::{obsolete_names, resolved_names};

verus! {

/// No two skills share a key or an installed name.
pub open spec fn distinct(skills: Seq<ResolvedView>) -> bool {
    forall|a: int, b: int|
        0 <= a < skills.len() && 0 <= b < skills.len() && a != b ==> (
        #[trigger] skills[a]).installed_name != (#[trigger] skills[b]).installed_name
            && skills[a].key != skills[b].key
}

/// Every skill is recorded under its key, and no other record has its name.
pub open spec fn settled(m: Map<Text, InstalledSkillView>, skills: Seq<ResolvedView>, contents: Seq<Text>, n: int) -> bool {
    forall|i: int|
        0 <= i < n ==> {
            &&& m.contains_key((#[trigger] skills[i]).key)
            &&& m[skills[i].key] == record_of(skills[i], contents[i])
            &&& forall|k: Text| #[trigger]
                m.contains_key(k) && k != skills[i].key ==> m[k].installed_name
                    != skills[i].installed_name
        }
}

proof fn lemma_records_settle(
    m: Map<Text, InstalledSkillView>,
    skills: Seq<ResolvedView>,
    contents: Seq<Text>,
    n: int,
)
    requires
        0 <= n <= skills.len(),
        distinct(skills),
    ensures
        settled(records(m, skills, resolved_names(skills), contents, n), skills, contents, n),
    decreases n,
{
    if n > 0 {
        let all = resolved_names(skills);
        lemma_records_settle(m, skills, contents, n - 1);
        let front = records(m, skills, all, contents, n - 1);
        let now = records(m, skills, all, contents, n);
        assert(all.contains(skills[n - 1].installed_name)) by {
            assert(is_desired(skills, skills[n - 1].installed_name));
        }
        assert(now == recorded(front, skills[n - 1], contents[n - 1]));
        assert forall|i: int| 0 <= i < n implies {
            &&& now.contains_key((#[trigger] skills[i]).key)
            &&& now[skills[i].key] == record_of(skills[i], contents[i])
            &&& forall|k: Text| #[trigger]
                now.contains_key(k) && k != skills[i].key ==> now[k].installed_name
                    != skills[i].installed_name
        } by {
            if i < n - 1 {
                assert(skills[i].key != skills[n - 1].key);
                assert(skills[i].installed_name != skills[n - 1].installed_name);
                assert(front[skills[i].key].installed_name == skills[i].installed_name);
                assert forall|k: Text| #[trigger]
                    now.contains_key(k) && k != skills[i].key implies now[k].installed_name
                    != skills[i].installed_name by {
                    if k != skills[n - 1].key {
                        assert(front.contains_key(k));
                    }
                }
            }
        }
    }
}

proof fn lemma_settled_stays(
    m: Map<Text, InstalledSkillView>,
    skills: Seq<ResolvedView>,
    contents: Seq<Text>,
    n: int,
)
    requires
        0 <= n <= skills.len(),
        settled(m, skills, contents, skills.len() as int),
    ensures
        records(m, skills, resolved_names(skills), contents, n) == m,
    decreases n,
{
    if n > 0 {
        lemma_settled_stays(m, skills, contents, n - 1);
        assert(skills[n - 1].key == skills[n - 1].key);
        assert(recorded(m, skills[n - 1], contents[n - 1]) =~= m);
    }
}

/// The state after a run that completed every skill.
pub open spec fn completed(
    previous: InstalledStateView,
    skills: Seq<ResolvedView>,
    removed: Set<Text>,
    contents: Seq<Text>,
) -> InstalledStateView {
    checkpoint(previous, skills, resolved_names(skills), removed, contents)
}

/// Recording a completed run again changes nothing.
pub proof fn law_completed_state_is_stable(
    previous: InstalledStateView,
    skills: Seq<ResolvedView>,
    removed: Set<Text>,
    contents: Seq<Text>,
)
    requires
        distinct(skills),
    ensures
        completed(completed(previous, skills, removed, contents), skills, Set::empty(), contents)
            == completed(previous, skills, removed, contents),
{
    let next = completed(previous, skills, removed, contents);
    let n = skills.len() as int;
    lemma_records_settle(keep_names(previous.skills, removed), skills, contents, n);
    lemma_settled_stays(next.skills, skills, contents, n);
    assert(keep_names(next.skills, Set::empty()) =~= next.skills);
}

/// What the next run looks at.
pub open spec fn next_run(
    state: InstalledStateView,
    skills: Seq<ResolvedView>,
    requires_lists: Seq<Seq<Text>>,
    global: bool,
) -> Wanted {
    Wanted {
        skills,
        requires: requires_lists,
        global,
        owned: owned_names(state.skills, Set::empty()),
        previous: state.skills,
    }
}

/// Every skill is there, in exact copies, and every agent lists it.
pub open spec fn in_place(skills: Seq<ResolvedView>, o: Observed) -> bool {
    forall|i: int|
        0 <= i < skills.len() ==> (#[trigger] o.copies[i]).len() > 0 && all_match(o.copies[i])
            && all_list(o.agents, skills[i].installed_name)
}

proof fn lemma_sorted_complete(w: Wanted, o: Observed, n: int)
    requires
        0 <= n <= w.skills.len(),
        forall|i: int| 0 <= i < n ==> #[trigger] verdict_at(w, o, i) == Verdict::Complete,
    ensures
        ({
            let s = sorted(w, o, n);
            &&& s.selection.install == Set::<Text>::empty()
            &&& s.selection.blocked.len() == 0
            &&& s.selection.conflicts.len() == 0
            &&& s.names == Set::<Text>::empty()
            &&& forall|i: int|
                0 <= i < n ==> s.selection.complete.contains(
                    (#[trigger] w.skills[i]).installed_name,
                )
        }),
    decreases n,
{
    if n > 0 {
        lemma_sorted_complete(w, o, n - 1);
        assert(verdict_at(w, o, n - 1) == Verdict::Complete);
    }
}

proof fn lemma_nothing_blocked(w: Wanted, s: Sorting, n: int)
    requires
        0 <= n,
        s.names == Set::<Text>::empty(),
    ensures
        block_pass(w, s, n) == s,
    decreases n,
{
    if n > 0 {
        lemma_nothing_blocked(w, s, n - 1);
        assert(!depends_on(w.requires[n - 1], s.names));
    }
}

/// A state as it is read back from its stored form.
pub open spec fn read_back(state: InstalledStateView) -> InstalledStateView {
    InstalledStateView {
        version: INSTALLED_STATE_VERSION,
        skills: state.skills.map_values(|s: InstalledSkillView| stored_skill(s)),
    }
}

/// After a run that completed every skill, and while all of them stay in place, the next run,
/// which reads the state that was stored, installs nothing, blocks nothing and finds every skill
/// complete.
pub proof fn law_reconciliation_converges(
    previous: InstalledStateView,
    skills: Seq<ResolvedView>,
    removed: Set<Text>,
    contents: Seq<Text>,
    requires_lists: Seq<Seq<Text>>,
    global: bool,
    o: Observed,
)
    requires
        distinct(skills),
        in_place(skills, o),
        forall|i: int| 0 <= i < skills.len() ==> (#[trigger] skills[i]).digest.len() > 0,
    ensures
        ({
            let state = read_back(completed(previous, skills, removed, contents));
            let s = classified(next_run(state, skills, requires_lists, global), o);
            &&& s.install == Set::<Text>::empty()
            &&& s.blocked.len() == 0
            &&& s.conflicts.len() == 0
            &&& forall|i: int|
                0 <= i < skills.len() ==> s.complete.contains((#[trigger] skills[i]).installed_name)
        }),
{
    let state = read_back(completed(previous, skills, removed, contents));
    let w = next_run(state, skills, requires_lists, global);
    let n = skills.len() as int;
    lemma_records_settle(keep_names(previous.skills, removed), skills, contents, n);
    assert forall|i: int| 0 <= i < n implies #[trigger] verdict_at(w, o, i) == Verdict::Complete by {
        let skill = skills[i];
        assert(skill.digest.len() > 0);
        assert(state.skills.contains_key(skill.key));
        assert(state.skills[skill.key].installed_name == skill.installed_name);
        assert(w.owned.contains(skill.installed_name));
        assert(!differs(state.skills[skill.key], skill));
        assert(o.copies[i].len() > 0);
    }
    lemma_sorted_complete(w, o, n);
    lemma_nothing_blocked(w, sorted(w, o, n), n);
}

/// `now` stores as `m`, key by key.
spec fn stores_as(now: Map<Text, InstalledSkillView>, m: Map<Text, InstalledSkillView>) -> bool {
    now.dom() == m.dom() && forall|k: Text| #[trigger]
        m.contains_key(k) ==> stored_skill(now[k]) == stored_skill(m[k])
}

proof fn lemma_settled_stores(
    m: Map<Text, InstalledSkillView>,
    base: Map<Text, InstalledSkillView>,
    skills: Seq<ResolvedView>,
    contents: Seq<Text>,
    n: int,
)
    requires
        0 <= n <= skills.len(),
        settled(m, skills, contents, skills.len() as int),
        stores_as(base, m),
    ensures
        stores_as(records(base, skills, resolved_names(skills), contents, n), m),
    decreases n,
{
    if n > 0 {
        lemma_settled_stores(m, base, skills, contents, n - 1);
        let front = records(base, skills, resolved_names(skills), contents, n - 1);
        let skill = skills[n - 1];
        assert(is_desired(skills, skill.installed_name));
        let now = recorded(front, skill, contents[n - 1]);
        assert(m.contains_key(skill.key));
        assert forall|k: Text| now.contains_key(k) == m.contains_key(k) by {
            if m.contains_key(k) && k != skill.key {
                assert(stored_skill(front[k]).installed_name == stored_skill(m[k]).installed_name);
            }
        }
        assert(now.dom() =~= m.dom());
    }
}

/// Such a run writes nothing: what it would record is stored as it already is.
pub proof fn law_converged_run_writes_nothing(
    previous: InstalledStateView,
    skills: Seq<ResolvedView>,
    removed: Set<Text>,
    contents: Seq<Text>,
)
    requires
        distinct(skills),
    ensures
        ({
            let state = read_back(completed(previous, skills, removed, contents));
            stored_alike(state, completed(state, skills, Set::empty(), contents))
        }),
{
    let first = completed(previous, skills, removed, contents);
    let state = read_back(first);
    let n = skills.len() as int;
    lemma_records_settle(keep_names(previous.skills, removed), skills, contents, n);
    let base = keep_names(state.skills, Set::empty());
    assert(base =~= state.skills);
    assert(stores_as(base, first.skills)) by {
        assert(base.dom() =~= first.skills.dom());
        assert forall|k: Text| #[trigger] first.skills.contains_key(k) implies stored_skill(base[k])
            == stored_skill(first.skills[k]) by {
            assert(base[k] == stored_skill(first.skills[k]));
        }
    }
    lemma_settled_stores(first.skills, base, skills, contents, n);
    let next = completed(state, skills, Set::empty(), contents);
    let x = state.skills.map_values(|s: InstalledSkillView| stored_skill(s));
    let y = next.skills.map_values(|s: InstalledSkillView| stored_skill(s));
    assert forall|k: Text| x.contains_key(k) implies x[k] == y[k] by {
        assert(first.skills.contains_key(k));
        assert(stored_skill(next.skills[k]) == stored_skill(first.skills[k]));
    }
    assert(x =~= y);
}

/// After such a run every projection is in sync, as long as its directory has the content that
/// was recorded.
pub proof fn law_completed_projections_are_synced(
    previous: InstalledStateView,
    skills: Seq<ResolvedView>,
    removed: Set<Text>,
    contents: Seq<Text>,
    i: int,
)
    requires
        distinct(skills),
        0 <= i < skills.len(),
        skills[i].digest.len() > 0,
        contents[i].len() > 0,
    ensures
        ({
            let state = read_back(completed(previous, skills, removed, contents));
            &&& state.skills.contains_key(skills[i].key)
            &&& status_of(state.skills[skills[i].key], Some(skills[i]), Some(contents[i]))
                == ProjectionStatus::Synced
        }),
{
    let n = skills.len() as int;
    lemma_records_settle(keep_names(previous.skills, removed), skills, contents, n);
    let state = read_back(completed(previous, skills, removed, contents));
    assert(state.skills[skills[i].key] == record_of(skills[i], contents[i]));
}

/// A run that removed every obsolete name leaves none for the next run.
pub proof fn law_obsolete_names_are_gone(
    previous: InstalledStateView,
    skills: Seq<ResolvedView>,
    preserved: Set<Text>,
    cleanup: Set<Text>,
    contents: Seq<Text>,
)
    requires
        distinct(skills),
    ensures
        ({
            let removed = obsolete_names(previous.skills, preserved, skills).union(cleanup);
            obsolete_names(
                completed(previous, skills, removed, contents).skills,
                preserved,
                skills,
            ) == Set::<Text>::empty()
        }),
{
    let removed = obsolete_names(previous.skills, preserved, skills).union(cleanup);
    let base = keep_names(previous.skills, removed);
    let n = skills.len() as int;
    let next = completed(previous, skills, removed, contents);
    lemma_records_from(base, skills, contents, n);
    assert forall|x: Text| !obsolete_names(next.skills, preserved, skills).contains(x) by {
        if obsolete_names(next.skills, preserved, skills).contains(x) {
            let k = choose|k: Text|
                next.skills.contains_key(k) && !preserved.contains(k) && (
                #[trigger] next.skills[k]).installed_name == x;
            if base.contains_key(k) && next.skills[k] == base[k] {
                assert(previous.skills[k].installed_name == x);
                assert(obsolete_names(previous.skills, preserved, skills).contains(x));
            }
        }
    }
    assert(obsolete_names(next.skills, preserved, skills) =~= Set::<Text>::empty());
}

/// Each record is an old one or that of a desired name.
proof fn lemma_records_from(
    m: Map<Text, InstalledSkillView>,
    skills: Seq<ResolvedView>,
    contents: Seq<Text>,
    n: int,
)
    requires
        0 <= n <= skills.len(),
    ensures
        ({
            let now = records(m, skills, resolved_names(skills), contents, n);
            forall|k: Text| #[trigger]
                now.contains_key(k) ==> (m.contains_key(k) && now[k] == m[k]) || is_desired(
                    skills,
                    now[k].installed_name,
                )
        }),
    decreases n,
{
    if n > 0 {
        lemma_records_from(m, skills, contents, n - 1);
        assert(is_desired(skills, skills[n - 1].installed_name));
    }
}

} // verus!
