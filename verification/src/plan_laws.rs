//! What a plan and an update report show, said of what is recorded and what is resolved.

use vstd::prelude::*;
use crate::catalog::CatalogIndex;
use crate::diagnosis::desired_at;
use crate::diagnosis_laws::{lemma_desired, lemma_held, of_catalog};
use crate::install::is_held;
use crate::model::{
    CatalogRegistration, InstalledSkill, InstalledSkillView, InstalledState, ProjectConfig,
    SkillSelection,
};
use crate::name_map::{lemma_walk_finite, walk};
use crate::plan::{
    change_of, forest, goes, inputs, last_with, removed_rows, row_at, InstallPlanState, PlanInputs,
};
use crate::resolve::{alias_of, resolved_views, ResolvedSkill, ResolvedView};
use crate::text::Text;
use crate::update::{
    drafts_of, has_checkout, is_draft, record_at, update_of, updates_of, UpdateView,
};

verus! {

/// A record agrees with a resolved skill in its name, mode, ignore flag and digest.
pub open spec fn agrees(record: InstalledSkill, skill: ResolvedSkill) -> bool {
    &&& record.installed_name@ == skill.installed_name@
    &&& record.mode == skill.mode
    &&& record.gitignore == skill.gitignore
    &&& record.digest is Some
    &&& record.digest->Some_0@ == skill.digest@
}

/// A skill is new exactly where nothing is recorded under its key, current exactly where what is
/// recorded agrees with it, and to be updated otherwise.
pub proof fn law_changes_follow_the_records(previous: InstalledState, skill: ResolvedSkill)
    ensures
        ({
            let change = change_of(previous@.skills, skill@);
            let known = previous.skills@.contains_key(skill.key@);
            let record = previous.skills@[skill.key@];
            &&& change is New <==> !known
            &&& change is Current <==> known && agrees(record, skill)
            &&& change is Update <==> known && !agrees(record, skill)
        }),
{
    if previous.skills@.contains_key(skill.key@) {
        let record = previous.skills@[skill.key@];
        assert(previous@.skills[skill.key@] == record@);
        if record.digest is Some && record.digest->Some_0@ =~= skill.digest@ {
            assert(record@.digest == Some(skill@.digest));
        }
        if record.installed_name@ =~= skill.installed_name@ {
            assert(record@.installed_name == skill@.installed_name);
        }
    }
}

/// An update is reported exactly for a skill that is not recorded or does not agree with its record.
/// It names the skill and both digests, and its status says what differs.
pub proof fn law_updates_say_what_differs(skill: ResolvedSkill, current: Option<InstalledSkill>)
    ensures
        ({
            let update = update_of(
                skill@,
                match current {
                    Some(c) => Some(c@),
                    None => None,
                },
            );
            let u = update->Some_0;
            let placed = current matches Some(c) && c.installed_name@ == skill.installed_name@
                && c.mode == skill.mode && c.gitignore == skill.gitignore;
            let known = current matches Some(c) && c.digest is Some;
            &&& update is None <==> current is Some && agrees(current->Some_0, skill)
            &&& update is Some ==> {
                &&& u.key == skill.key@
                &&& u.available_digest == skill.digest@
                &&& u.installed_digest is Some <==> known
                &&& known ==> u.installed_digest->Some_0 == current->Some_0.digest->Some_0@
                &&& u.status == (if current is None {
                    "not-installed"@
                } else if !placed {
                    "reconcile"@
                } else if !known {
                    "version-untracked"@
                } else {
                    "updated"@
                })
            }
        }),
{
    if let Some(c) = current {
        if c.installed_name@ =~= skill.installed_name@ {
            assert(c@.installed_name == skill@.installed_name);
        }
        if c.digest is Some && c.digest->Some_0@ =~= skill.digest@ {
            assert(c@.digest->Some_0 == skill@.digest);
        }
    }
}

proof fn lemma_updates(rs: Seq<ResolvedView>, installed: Map<Text, InstalledSkillView>, n: int, u: UpdateView)
    requires
        0 <= n <= rs.len(),
    ensures
        updates_of(rs, installed, n).contains(u) == (exists|i: int|
            0 <= i < n && update_of(#[trigger] rs[i], record_at(installed, rs[i].key)) == Some(u)),
    decreases n,
{
    if n > 0 {
        lemma_updates(rs, installed, n - 1, u);
        let front = updates_of(rs, installed, n - 1);
        let whole = updates_of(rs, installed, n);
        let last = rs[n - 1];
        if front.contains(u) {
            let i = front.index_of(u);
            assert(whole[i] == u);
        }
        if let Some(one) = update_of(last, record_at(installed, last.key)) {
            assert(whole[whole.len() - 1] == one);
            if whole.contains(u) {
                let i = whole.index_of(u);
                if i < front.len() {
                    assert(front[i] == u);
                }
            }
        }
    }
}

/// The reported updates are those of the resolved skills, each against the record of its key.
pub proof fn law_every_update_is_reported(
    resolved: Seq<ResolvedSkill>,
    installed: InstalledState,
    u: UpdateView,
)
    ensures
        updates_of(resolved_views(resolved), installed@.skills, resolved.len() as int).contains(u)
            <==> exists|i: int|
            0 <= i < resolved.len() && update_of(
                (#[trigger] resolved[i])@,
                if installed.skills@.contains_key(resolved[i].key@) {
                    Some(installed.skills@[resolved[i].key@]@)
                } else {
                    None
                },
            ) == Some(u),
{
    let rs = resolved_views(resolved);
    lemma_updates(rs, installed@.skills, resolved.len() as int, u);
    assert forall|i: int| 0 <= i < resolved.len() implies #[trigger] rs[i] == resolved[i]@
        && record_at(installed@.skills, rs[i].key) == (if installed.skills@.contains_key(
        resolved[i].key@,
    ) {
        Some(installed.skills@[resolved[i].key@]@)
    } else {
        None
    }) by {}
    if exists|i: int|
        0 <= i < resolved.len() && update_of(
            (#[trigger] resolved[i])@,
            if installed.skills@.contains_key(resolved[i].key@) {
                Some(installed.skills@[resolved[i].key@]@)
            } else {
                None
            },
        ) == Some(u) {
        let i = choose|i: int|
            0 <= i < resolved.len() && update_of(
                (#[trigger] resolved[i])@,
                if installed.skills@.contains_key(resolved[i].key@) {
                    Some(installed.skills@[resolved[i].key@]@)
                } else {
                    None
                },
            ) == Some(u);
        assert(rs[i] == resolved[i]@);
    }
}

/// The catalog that a key names is written in a checkout.
pub open spec fn is_authored(key: Text, catalogs: Map<Text, CatalogRegistration>) -> bool {
    exists|alias: Text, name: Text|
        catalogs.contains_key(alias) && catalogs[alias].authoring_root is Some && !alias.contains(
            '/',
        ) && key == #[trigger] (alias + seq!['/'] + name)
}

proof fn lemma_authored(key: Text, catalogs: Map<Text, CatalogRegistration>)
    ensures
        (alias_of(key) is Some && has_checkout(catalogs, alias_of(key)->Some_0)) == is_authored(
            key,
            catalogs,
        ),
{
    let aliases = Set::new(
        |a: Text| catalogs.contains_key(a) && catalogs[a].authoring_root is Some,
    );
    lemma_held(key, aliases);
    assert(is_held(key, aliases) == (alias_of(key) is Some && has_checkout(
        catalogs,
        alias_of(key)->Some_0,
    )));
    if of_catalog(key, aliases) {
        let (alias, name) = choose|alias: Text, name: Text|
            aliases.contains(alias) && !alias.contains('/') && key == #[trigger] (alias + seq!['/']
                + name);
        assert(catalogs.contains_key(alias) && catalogs[alias].authoring_root is Some);
    }
    if is_authored(key, catalogs) {
        let (alias, name) = choose|alias: Text, name: Text|
            catalogs.contains_key(alias) && catalogs[alias].authoring_root is Some
                && !alias.contains('/') && key == #[trigger] (alias + seq!['/'] + name);
        assert(aliases.contains(alias));
    }
}

/// A skill of a checkout is a draft exactly where its catalog is written in a checkout and it is not
/// published with the same digest.
pub proof fn law_drafts_are_unpublished(
    skill: ResolvedSkill,
    published: Seq<ResolvedSkill>,
    catalogs: Map<Text, CatalogRegistration>,
)
    requires
        forall|a: int, b: int|
            0 <= a < b < published.len() ==> (#[trigger] published[a]).key@ != (
            #[trigger] published[b]).key@,
    ensures
        is_draft(skill@, resolved_views(published), catalogs) <==> is_authored(skill.key@, catalogs)
            && forall|i: int|
            0 <= i < published.len() && (#[trigger] published[i]).key@ == skill.key@
                ==> published[i].digest@ != skill.digest@,
{
    let rs = resolved_views(published);
    lemma_authored(skill.key@, catalogs);
    lemma_desired(published, skill.key@);
    assert(desired_at(rs, skill.key@) == (match last_with(rs, skill.key@) {
        Some(i) => Some(rs[i]),
        None => None,
    }));
}

proof fn lemma_drafts(
    rs: Seq<ResolvedView>,
    ps: Seq<ResolvedView>,
    catalogs: Map<Text, CatalogRegistration>,
    installed: Map<Text, InstalledSkillView>,
    n: int,
    u: UpdateView,
)
    requires
        0 <= n <= rs.len(),
    ensures
        drafts_of(rs, ps, catalogs, installed, n).contains(u) == (exists|i: int|
            0 <= i < n && is_draft(#[trigger] rs[i], ps, catalogs) && update_of(
                rs[i],
                record_at(installed, rs[i].key),
            ) is Some && u == (UpdateView {
                status: "local-draft"@,
                ..update_of(rs[i], record_at(installed, rs[i].key))->Some_0
            })),
    decreases n,
{
    if n > 0 {
        lemma_drafts(rs, ps, catalogs, installed, n - 1, u);
        let front = drafts_of(rs, ps, catalogs, installed, n - 1);
        let whole = drafts_of(rs, ps, catalogs, installed, n);
        let last = rs[n - 1];
        if front.contains(u) {
            let i = front.index_of(u);
            assert(whole[i] == u);
        }
        if whole.len() > front.len() {
            assert(whole[whole.len() - 1] == (UpdateView {
                status: "local-draft"@,
                ..update_of(last, record_at(installed, last.key))->Some_0
            }));
            if whole.contains(u) {
                let i = whole.index_of(u);
                if i < front.len() {
                    assert(front[i] == u);
                }
            }
        }
    }
}

/// The reported drafts are those skills of the checkouts that are drafts and differ from their
/// records.
pub proof fn law_every_draft_is_reported(
    authoring: Seq<ResolvedSkill>,
    published: Seq<ResolvedSkill>,
    catalogs: Map<Text, CatalogRegistration>,
    installed: InstalledState,
    u: UpdateView,
)
    ensures
        drafts_of(
            resolved_views(authoring),
            resolved_views(published),
            catalogs,
            installed@.skills,
            authoring.len() as int,
        ).contains(u) <==> exists|i: int|
            {
                let known = installed.skills@.contains_key((#[trigger] authoring[i]).key@);
                let record = installed.skills@[authoring[i].key@];
                &&& 0 <= i < authoring.len()
                &&& is_draft(authoring[i]@, resolved_views(published), catalogs)
                &&& !(known && agrees(record, authoring[i]))
                &&& u.key == authoring[i].key@
                &&& u.status == "local-draft"@
                &&& u.available_digest == authoring[i].digest@
                &&& u.installed_digest == (if known && record.digest is Some {
                    Some(record.digest->Some_0@)
                } else {
                    None
                })
            },
{
    let rs = resolved_views(authoring);
    let ps = resolved_views(published);
    lemma_drafts(rs, ps, catalogs, installed@.skills, authoring.len() as int, u);
    assert forall|i: int| 0 <= i < authoring.len() implies {
        let known = installed.skills@.contains_key((#[trigger] authoring[i]).key@);
        let record = installed.skills@[authoring[i].key@];
        let update = update_of(rs[i], record_at(installed@.skills, rs[i].key));
        &&& rs[i] == authoring[i]@
        &&& update is Some <==> !(known && agrees(record, authoring[i]))
        &&& update is Some ==> (u == (UpdateView {
            status: "local-draft"@,
            ..update->Some_0
        }) <==> u.key == authoring[i].key@ && u.status == "local-draft"@ && u.available_digest
            == authoring[i].digest@ && u.installed_digest == (if known && record.digest is Some {
            Some(record.digest->Some_0@)
        } else {
            None
        }))
    } by {
        let current = if installed.skills@.contains_key(authoring[i].key@) {
            Some(installed.skills@[authoring[i].key@])
        } else {
            None
        };
        law_updates_say_what_differs(authoring[i], current);
        let update = update_of(rs[i], record_at(installed@.skills, rs[i].key));
        assert(update == update_of(
            authoring[i]@,
            match current {
                Some(c) => Some(c@),
                None => None,
            },
        ));
    }
}

proof fn lemma_removals(
    rs: Seq<ResolvedView>,
    unavailable: Set<Text>,
    previous: Map<Text, InstalledSkillView>,
    keys: Seq<Text>,
    n: int,
    name: Text,
)
    requires
        0 <= n <= keys.len(),
    ensures
        removed_rows(rs, unavailable, previous, keys, n).contains(name) == (exists|i: int|
            0 <= i < n && goes(rs, unavailable, #[trigger] keys[i])
                && previous[keys[i]].installed_name == name),
    decreases n,
{
    if n > 0 {
        lemma_removals(rs, unavailable, previous, keys, n - 1, name);
        let front = removed_rows(rs, unavailable, previous, keys, n - 1);
        let whole = removed_rows(rs, unavailable, previous, keys, n);
        let last = keys[n - 1];
        if front.contains(name) {
            let i = front.index_of(name);
            assert(whole[i] == name);
        }
        if whole.len() > front.len() {
            assert(whole[whole.len() - 1] == previous[last].installed_name);
            if whole.contains(name) {
                let i = whole.index_of(name);
                if i < front.len() {
                    assert(front[i] == name);
                }
            }
        }
    }
}

/// A recorded skill goes when its catalog is at hand and no resolved skill has its key.
pub open spec fn is_dropped(resolved: Seq<ResolvedSkill>, unavailable: Set<Text>, key: Text) -> bool {
    !of_catalog(key, unavailable) && forall|i: int|
        0 <= i < resolved.len() ==> (#[trigger] resolved[i]).key@ != key
}

/// The plan removes exactly the names of the recorded skills that go.
pub proof fn law_removals_are_dropped_records(
    resolved: Seq<ResolvedSkill>,
    unavailable: Set<Text>,
    previous: InstalledState,
    name: Text,
)
    requires
        previous.skills@.dom().finite(),
        forall|a: int, b: int|
            0 <= a < b < resolved.len() ==> (#[trigger] resolved[a]).key@ != (
            #[trigger] resolved[b]).key@,
    ensures
        ({
            let keys = walk(previous.skills@.dom());
            removed_rows(
                resolved_views(resolved),
                unavailable,
                previous@.skills,
                keys,
                keys.len() as int,
            ).contains(name)
        }) <==> exists|key: Text| #[trigger]
            previous.skills@.contains_key(key) && previous.skills@[key].installed_name@ == name
                && is_dropped(resolved, unavailable, key),
{
    let rs = resolved_views(resolved);
    let keys = walk(previous.skills@.dom());
    lemma_walk_finite(previous.skills@.dom());
    lemma_removals(rs, unavailable, previous@.skills, keys, keys.len() as int, name);
    assert forall|i: int| 0 <= i < keys.len() implies previous.skills@.contains_key(
        #[trigger] keys[i],
    ) && previous@.skills[keys[i]].installed_name == previous.skills@[keys[i]].installed_name@
        && goes(rs, unavailable, keys[i]) == is_dropped(resolved, unavailable, keys[i]) by {
        assert(keys.to_set().contains(keys[i]));
        lemma_held(keys[i], unavailable);
        lemma_desired(resolved, keys[i]);
    }
    if exists|key: Text| #[trigger]
        previous.skills@.contains_key(key) && previous.skills@[key].installed_name@ == name
            && is_dropped(resolved, unavailable, key) {
        let key = choose|key: Text| #[trigger]
            previous.skills@.contains_key(key) && previous.skills@[key].installed_name@ == name
                && is_dropped(resolved, unavailable, key);
        assert(keys.to_set().contains(key));
        let i = keys.index_of(key);
        assert(keys[i] == key);
    }
}

proof fn lemma_forest_has(p: PlanInputs, keys: Seq<Text>, n: int, i: int)
    requires
        0 <= i < n <= keys.len(),
        last_with(p.resolved, keys[i]) is Some,
    ensures
        forest(p, keys, n).contains(row_at(p, keys[i], ""@)),
    decreases n,
{
    let front = forest(p, keys, n - 1);
    let whole = forest(p, keys, n);
    let want = row_at(p, keys[i], ""@);
    if i == n - 1 {
        assert(whole[front.len() as int] == want);
    } else {
        lemma_forest_has(p, keys, n - 1, i);
        let at = front.index_of(want);
        assert(whole[at] == want);
    }
}

/// Every selected skill that is resolved has a row of its own in the plan, without a branch before
/// it, with its installed name, the selected mode, and what installing it will do.
pub proof fn law_plan_shows_every_selection(
    manifest: ProjectConfig,
    catalogs: Map<Text, CatalogIndex>,
    resolved: Seq<ResolvedSkill>,
    previous: InstalledState,
    i: int,
)
    requires
        manifest.skills@.dom().finite(),
        0 <= i < resolved.len(),
        manifest.skills@.contains_key(resolved[i].key@),
        forall|a: int, b: int|
            0 <= a < b < resolved.len() ==> (#[trigger] resolved[a]).key@ != (
            #[trigger] resolved[b]).key@,
    ensures
        ({
            let keys = walk(manifest.skills@.dom());
            let rows = forest(
                inputs(manifest, catalogs, resolved, previous),
                keys,
                keys.len() as int,
            );
            let mode = match manifest.skills@[resolved[i].key@] {
                SkillSelection::Mode(mode) => mode,
                SkillSelection::Detailed { mode, .. } => mode,
            };
            exists|k: int|
                {
                    &&& 0 <= k < rows.len()
                    &&& (#[trigger] rows[k]).branch == ""@
                    &&& rows[k].name == resolved[i].installed_name@
                    &&& rows[k].state == InstallPlanState::Configured(mode)
                    &&& rows[k].change == change_of(previous@.skills, resolved[i]@)
                }
        }),
{
    let keys = walk(manifest.skills@.dom());
    let p = inputs(manifest, catalogs, resolved, previous);
    let key = resolved[i].key@;
    lemma_walk_finite(manifest.skills@.dom());
    assert(keys.to_set().contains(key));
    let at = keys.index_of(key);
    assert(keys[at] == key);
    lemma_desired(resolved, key);
    assert(last_with(p.resolved, key) is Some);
    lemma_forest_has(p, keys, keys.len() as int, at);
    let rows = forest(p, keys, keys.len() as int);
    let k = rows.index_of(row_at(p, key, ""@));
    assert(rows[k] == row_at(p, key, ""@));
}

} // verus!
