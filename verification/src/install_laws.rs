//! What is checked before an installation, and what stays out of it.

use vstd::prelude::*;
use crate::diagnosis_laws::{has_name, lemma_held, of_catalog};
use crate::failure::{lemma_first_refusal, lemma_first_where};
use crate::install::{
    admission_refusal, agent_faults, agents_refusal, owned_faults, owned_refusal, preserved_records,
    reserved_at, resumable, same_as, selections_where, start_refusal, TransactionJournal,
};
use crate::catalog::CatalogIndex;
use crate::model::{is_name, InstalledSkill, InstalledState, ProjectConfig, SkillSelection};
use crate::name_map::{lemma_walk_finite, walk};
use crate::resolve::{catalogs_of, key_parts, resolution, resolved_views, ResolvedSkill};
use crate::text::{is_control, trim, views, Text};
use crate::transaction_laws::lemma_desired_name;

verus! {

/// The selections that take part are those whose catalog is at hand, each as it was; the records that
/// are preserved are those whose catalog is not.
pub proof fn law_unavailable_catalogs_are_left_alone(
    skills: Map<Text, SkillSelection>,
    records: Map<Text, InstalledSkill>,
    unavailable: Set<Text>,
    key: Text,
)
    ensures
        ({
            let active = selections_where(skills, unavailable, false);
            &&& active.contains_key(key) <==> skills.contains_key(key) && !of_catalog(
                key,
                unavailable,
            )
            &&& active.contains_key(key) ==> active[key] == skills[key]
        }),
        ({
            let kept = preserved_records(records, unavailable);
            &&& kept.contains_key(key) <==> records.contains_key(key) && of_catalog(
                key,
                unavailable,
            )
            &&& kept.contains_key(key) ==> kept[key] == records[key]
        }),
{
    lemma_held(key, unavailable);
}

/// Agents are accepted exactly where there is one, each has a name without control characters and
/// without white space around it, and no name occurs twice.
pub proof fn law_agents_are_named_once(agents: Seq<Text>)
    ensures
        agents_refusal(agents) is None <==> {
            &&& agents.len() > 0
            &&& forall|i: int|
                0 <= i < agents.len() ==> (#[trigger] agents[i]).len() > 0 && trim(agents[i])
                    == agents[i]
            &&& forall|i: int, j: int|
                0 <= i < agents.len() && 0 <= j < agents[i].len() ==> !is_control(
                    #[trigger] agents[i][j],
                )
            &&& forall|i: int, j: int|
                0 <= i < j < agents.len() ==> #[trigger] agents[i] != #[trigger] agents[j]
        },
{
    let n = agents.len() as int;
    let f = agent_faults(agents);
    lemma_first_refusal(n, f);
    if agents_refusal(agents) is None {
        assert forall|i: int| 0 <= i < n implies (#[trigger] agents[i]).len() > 0 && trim(agents[i])
            == agents[i] by {
            assert(f(i) is None);
        }
        assert forall|i: int, j: int| 0 <= i < n && 0 <= j < agents[i].len() implies !is_control(
            #[trigger] agents[i][j],
        ) by {
            assert(f(i) is None);
        }
        assert forall|i: int, j: int| 0 <= i < j < n implies #[trigger] agents[i]
            != #[trigger] agents[j] by {
            assert(f(j) is None);
            lemma_first_where(j, same_as(agents, j));
            assert(!same_as(agents, j)(i));
        }
    }
    if n > 0 && (forall|i: int|
        0 <= i < n ==> (#[trigger] agents[i]).len() > 0 && trim(agents[i]) == agents[i]) && (
    forall|i: int, j: int|
        0 <= i < n && 0 <= j < agents[i].len() ==> !is_control(#[trigger] agents[i][j])) && (
    forall|i: int, j: int|
        0 <= i < j < n ==> #[trigger] agents[i] != #[trigger] agents[j]) {
        assert forall|i: int| 0 <= i < n implies (#[trigger] f(i)) is None by {
            assert(agents[i].len() > 0 && trim(agents[i]) == agents[i]);
            lemma_first_where(i, same_as(agents, i));
            if let Some(j) = crate::failure::first_where(i, same_as(agents, i)) {
                assert(same_as(agents, i)(j));
                assert(agents[j] == agents[i]);
            }
        }
    }
}

/// Recorded ownership is trusted exactly where every record has a key of two parts and a portable
/// name, and a path of the first form only below the directory of the scope.
pub proof fn law_owned_records_are_safe(state: InstalledState, prefix: Text)
    requires
        state.skills@.dom().finite(),
    ensures
        owned_refusal(state@.skills, prefix) is None <==> forall|k: Text| #[trigger]
            state.skills@.contains_key(k) ==> {
                let record = state.skills@[k];
                &&& key_parts(k) is Some
                &&& is_name(record.installed_name@)
                &&& record.legacy_path is Some ==> record.legacy_path->Some_0@ == prefix + "/"@
                    + record.installed_name@
            },
{
    let skills = state@.skills;
    assert(skills.dom() =~= state.skills@.dom());
    lemma_walk_finite(skills.dom());
    let keys = walk(skills.dom());
    let n = keys.len() as int;
    let f = owned_faults(skills, prefix);
    lemma_first_refusal(n, f);
    assert forall|i: int| 0 <= i < n implies ((#[trigger] f(i)) is None <==> {
        let record = state.skills@[keys[i]];
        &&& key_parts(keys[i]) is Some
        &&& is_name(record.installed_name@)
        &&& record.legacy_path is Some ==> record.legacy_path->Some_0@ == prefix + "/"@
            + record.installed_name@
    }) && state.skills@.contains_key(keys[i]) by {
        assert(keys.to_set().contains(keys[i]));
        assert(skills[keys[i]] == state.skills@[keys[i]]@);
    }
    if owned_refusal(skills, prefix) is None {
        assert forall|k: Text| #[trigger] state.skills@.contains_key(k) implies {
            let record = state.skills@[k];
            &&& key_parts(k) is Some
            &&& is_name(record.installed_name@)
            &&& record.legacy_path is Some ==> record.legacy_path->Some_0@ == prefix + "/"@
                + record.installed_name@
        } by {
            assert(keys.to_set().contains(k));
            let i = keys.index_of(k);
            assert(keys[i] == k);
            assert(f(i) is None);
        }
    }
}

/// A planned installation is admitted exactly where an unfinished transaction, if there is one, is of
/// this scope and configuration and wants only what is resolved, and no resolved skill takes a name
/// that a record of an unavailable catalog holds.
pub proof fn law_admission_is_safe(
    resolved: Seq<ResolvedSkill>,
    previous: InstalledState,
    unavailable: Set<Text>,
    pending: Option<TransactionJournal>,
    fingerprint: Text,
    global: bool,
)
    ensures
        admission_refusal(
            resolved_views(resolved),
            previous.skills@,
            unavailable,
            pending,
            fingerprint,
            global,
        ) is None <==> {
            &&& pending matches Some(j) ==> {
                &&& j.v == 1
                &&& j.scope@ == (if global {
                    "g"@
                } else {
                    "p"@
                })
                &&& j.config@ == fingerprint
                &&& forall|i: int|
                    0 <= i < j.desired@.len() ==> has_name(resolved, (#[trigger] j.desired@[i])@)
            }
            &&& forall|i: int, k: Text|
                0 <= i < resolved.len() && #[trigger] previous.skills@.contains_key(k)
                    && of_catalog(k, unavailable) ==> previous.skills@[k].installed_name@ != (
                #[trigger] resolved[i]).installed_name@
        },
{
    let rs = resolved_views(resolved);
    let kept = preserved_records(previous.skills@, unavailable);
    if let Some(j) = pending {
        assert forall|i: int| 0 <= i < j.desired@.len() implies crate::install::is_desired(
            rs,
            #[trigger] views(j.desired@)[i],
        ) == has_name(resolved, j.desired@[i]@) by {
            lemma_desired_name(resolved, j.desired@[i]@);
        }
        if resumable(j, rs, global, fingerprint) {
            assert forall|i: int| 0 <= i < j.desired@.len() implies has_name(
                resolved,
                (#[trigger] j.desired@[i])@,
            ) by {
                assert(crate::install::is_desired(rs, views(j.desired@)[i]));
            }
        }
        if forall|i: int|
            0 <= i < j.desired@.len() ==> has_name(resolved, (#[trigger] j.desired@[i])@) {
            assert forall|i: int| 0 <= i < j.desired@.len() implies crate::install::is_desired(
                rs,
                #[trigger] views(j.desired@)[i],
            ) by {
                assert(has_name(resolved, j.desired@[i]@));
            }
        }
    }
    let n = rs.len() as int;
    let p = reserved_at(rs, kept);
    lemma_first_where(n, p);
    match crate::failure::first_where(n, p) {
        Some(i) => {
            assert(p(i));
            let k = choose|k: Text|
                kept.contains_key(k) && (#[trigger] kept[k]).installed_name@
                    == rs[i].installed_name;
            lemma_held(k, unavailable);
            assert(previous.skills@.contains_key(k));
            assert(resolved[i].installed_name@ == rs[i].installed_name);
        },
        None => {
            assert forall|i: int, k: Text|
                0 <= i < resolved.len() && #[trigger] previous.skills@.contains_key(k)
                    && of_catalog(k, unavailable) implies previous.skills@[k].installed_name@ != (
            #[trigger] resolved[i]).installed_name@ by {
                lemma_held(k, unavailable);
                assert(!p(i));
                assert(kept.contains_key(k));
                assert(kept[k] == previous.skills@[k]);
                assert(rs[i].installed_name == resolved[i].installed_name@);
            }
        },
    }
}

/// An installation begins exactly where the versions are known, the agents and the records are
/// accepted, and what is active resolves.
pub proof fn law_installation_begins_when_sound(
    manifest: ProjectConfig,
    active: ProjectConfig,
    catalogs: Map<Text, CatalogIndex>,
    previous: InstalledState,
    prefix: Text,
    global: bool,
)
    ensures
        start_refusal(manifest, active, catalogs, previous, prefix, global) is None <==> {
            &&& manifest.version == 1
            &&& agents_refusal(views(manifest.agents@)) is None
            &&& 1 <= previous.version <= 3
            &&& owned_refusal(previous@.skills, prefix) is None
            &&& resolution(catalogs_of(catalogs), active.skills@, global) is Ok
        },
{
}

} // verus!
