//! What outcomes hold.

use vstd::prelude::*;
use crate::authoring::{is_addition, AdditionRequest, SkillAddition};
use crate::catalog::{
    indexes, skills_of, skills_root, sync_faults, synced_skills, CatalogIndex, CatalogSkillView,
    CatalogSnapshot,
};
use crate::config::{is_config_path, LinkMode};
use crate::config_report::{
    is_canonical, prints_status, same_catalog, Checkout, PrintedCatalogStatus,
};
use crate::failure::Failure;
use crate::link::{folder_done_text, folder_lines, FolderAction, LinkSeen};
use crate::lock::lock_path;
use crate::model::{CatalogRegistration, GlobalConfig, InstalledState, ProjectConfig};
use crate::paths::{joined_path, same_path};
use crate::project_store::{
    equal_configs, is_state_plan, migration_order, migration_steps, step_views, LegacyItem, StateMigration,
    StepView,
};
use crate::status::{owned_count, report_of, CatalogStatus};
use crate::targets::added_text;
use crate::text::{decimal, opt_view, starts_with, views, Text};
use crate::transaction::vercel_base;
use crate::work::{work_names, WorkEntry};

verus! {

/// An addition declares the new skill, in the scope and for the use that were asked for, and leaves
/// every other declaration of the catalog as it was.
pub proof fn law_additions_declare_one_skill(
    addition: SkillAddition,
    q: AdditionRequest,
    skill: CatalogSkillView,
    other: Text,
)
    requires
        is_addition(addition, q, skill),
        other != skill.name,
    ensures
        ({
            let before = q.snapshot.metadata->Some_0@;
            let after = addition.metadata@;
            let root = q.snapshot.root@;
            &&& addition.skill@ == skill
            &&& after.version == before.version
            &&& after.scopes == before.scopes
            &&& after.renames == before.renames
            &&& after.skills.contains_key(skill.name)
            &&& after.skills[skill.name].scope is Some
            &&& after.skills[skill.name].scope->Some_0@ == q.scope@
            &&& after.skills[skill.name].global <==> q.eligibility is Global
            &&& after.skills.contains_key(other) <==> before.skills.contains_key(other)
            &&& before.skills.contains_key(other) ==> after.skills[other] == before.skills[other]
            &&& addition.destination@ == joined_path(skills_root(root), skill.name)
            &&& addition.staging@ == joined_path(
                root,
                ".skiller-add-"@ + decimal(q.process as nat) + "-"@ + skill.name,
            )
            &&& addition.report@ == "added "@ + skill.name + " as "@ + (if q.eligibility is Global {
                "global"@
            } else {
                "project"@
            }) + " skill in scope "@ + q.scope@
        }),
{
}

/// A catalog index is under its alias and source, at the root that was read, and holds the skills that
/// were read.
pub proof fn law_indexes_hold_what_was_read(
    index: CatalogIndex,
    alias: Text,
    registration: CatalogRegistration,
    snapshot: CatalogSnapshot,
)
    requires
        indexes(index, alias, registration, snapshot),
    ensures
        index.alias@ == alias,
        index.source@ == registration.source@,
        index.root@ == snapshot.root@,
        synced_skills(alias, snapshot) is Ok,
        synced_skills(alias, snapshot)->Ok_0 == skills_of(index.skills@),
        snapshot.metadata matches Some(m) ==> index.metadata@ == m@,
{
}

/// A catalog that was read stops a synchronization exactly where it is refused.
pub proof fn law_refused_catalogs_stop(config: GlobalConfig, snapshots: Seq<CatalogSnapshot>, i: int)
    ensures
        sync_faults(config, snapshots)(i) is None <==> synced_skills(
            config.catalogs.names()[i],
            snapshots[i],
        ) is Ok,
        synced_skills(config.catalogs.names()[i], snapshots[i]) matches Err(m) ==> sync_faults(
            config,
            snapshots,
        )(i) == Some(m),
{
}

/// A copy of an index is equal in everything that it holds.
pub proof fn law_copies_are_equal(a: CatalogIndex, b: CatalogIndex)
    ensures
        same_catalog(a, b) <==> a.alias@ == b.alias@ && a.source@ == b.source@ && a.root@ == b.root@
            && a.metadata@ == b.metadata@ && skills_of(a.skills@) == skills_of(b.skills@),
{
}

/// Two configurations are equal exactly where they have one version, the same selections and the same
/// agents in order.
pub proof fn law_configurations_are_compared_whole(a: ProjectConfig, b: ProjectConfig)
    ensures
        equal_configs(a, b) <==> a.version == b.version && a.skills@ == b.skills@ && a.agents@.len()
            == b.agents@.len() && forall|i: int|
            0 <= i < a.agents@.len() ==> (#[trigger] a.agents@[i])@ == b.agents@[i]@,
{
    let x = views(a.agents@);
    let y = views(b.agents@);
    if x == y {
        assert(x.len() == y.len());
        assert forall|i: int| 0 <= i < a.agents@.len() implies (#[trigger] a.agents@[i])@
            == b.agents@[i]@ by {
            assert(x[i] == y[i]);
        }
    }
    if a.agents@.len() == b.agents@.len() && (forall|i: int|
        0 <= i < a.agents@.len() ==> (#[trigger] a.agents@[i])@ == b.agents@[i]@) {
        assert(x =~= y);
    }
}

/// What is printed of a catalog: its report, its checkout where both are known, and whether the
/// checkout is the source itself.
pub proof fn law_printed_catalogs_are_reported(
    printed: PrintedCatalogStatus,
    status: CatalogStatus,
    manifest: ProjectConfig,
    state: InstalledState,
    registrations: Map<Text, CatalogRegistration>,
    checkouts: Map<Text, Checkout>,
)
    requires
        prints_status(printed, status, manifest, state, registrations, checkouts),
    ensures
        ({
            let alias = status.alias@;
            let known = registrations.contains_key(alias) && checkouts.contains_key(alias);
            &&& printed.report@ == report_of(
                status,
                owned_count(manifest.skills@.dom(), alias),
                owned_count(state.skills@.dom(), alias),
            )
            &&& !known ==> printed.authoring_path is None && !printed.authoring_is_canonical
            &&& known ==> opt_view(printed.authoring_path) == opt_view(checkouts[alias].path)
            &&& known ==> printed.authoring_is_canonical == is_canonical(
                registrations[alias],
                checkouts[alias],
            )
        }),
{
}

/// The old state directory is removed exactly where nothing stopped the plan and every entry of the
/// directory is taken.
pub proof fn law_old_state_goes_when_empty(
    plan: StateMigration,
    items: Seq<LegacyItem>,
    legacy_root: Text,
    state_root: Text,
)
    requires
        is_state_plan(plan, items, legacy_root, state_root),
    ensures
        ({
            let order = migration_order(items);
            let (steps, fault) = migration_steps(
                items,
                legacy_root,
                state_root,
                order,
                order.len() as int,
            );
            let taken = step_views(plan.steps@).filter(
                |s: StepView| s.action is RemoveSource || s.action is MoveFile || s.action is MoveTree,
            );
            &&& step_views(plan.steps@) == steps
            &&& plan.failure is None <==> fault is None
            &&& plan.failure matches Some(f) ==> fault == Some(f@)
            &&& plan.remove_root <==> plan.failure is None && taken.len() == items.len()
        }),
{
    let steps = step_views(plan.steps@);
    crate::store_laws::law_taken_steps_are_counted(steps, steps.len() as int);
    assert(steps.take(steps.len() as int) =~= steps);
}

/// The entries that are taken for work of a run are those whose names begin as such.
pub proof fn law_work_is_known_by_name(entries: Seq<WorkEntry>, name: Text)
    ensures
        work_names(entries).contains(name) <==> (starts_with(name, "staging-"@) || starts_with(
            name,
            "prepared-"@,
        )) && exists|i: int| 0 <= i < entries.len() && (#[trigger] entries[i]).name@ == name,
{
}

/// What linking a whole directory says beforehand: always that it cannot be undone; then that it is
/// linked already, or what stands in its way.
pub proof fn law_folder_links_warn_first(source: Text, target: Text, label: Text, seen: LinkSeen)
    ensures
        ({
            let out = folder_lines(source, target, label, seen);
            let said = |t: Text| label + " ["@ + "folder"@ + "]: "@ + t;
            &&& out[0] == "warning: "@ + label
                + " [folder] mode is not reversible — unlink only removes the symlink and will not restore any prior target contents"@
            &&& seen is Missing ==> out.len() == 1
            &&& seen matches LinkSeen::Symlink(dest) ==> out.len() == 2 && out[1] == said(
                if same_path(dest@, source) {
                    "already linked — skipping"@
                } else {
                    "conflict — symlink points to "@ + dest@
                },
            )
            &&& seen is Directory || seen is Other ==> out.len() == 2 && out[1] == said(
                "conflict — real directory at "@ + target,
            )
        }),
{
}

/// What linking a whole directory says afterwards.
pub proof fn law_folder_links_say_what_was_done(action: FolderAction, label: Text, source: Text)
    ensures
        folder_done_text(action, label, source) == label + " ["@ + "folder"@ + "]: "@ + (match action {
            FolderAction::Link => "linked → "@ + source,
            FolderAction::Relink => "relinked → "@ + source,
            FolderAction::Overwrite => "overwritten → "@ + source,
            FolderAction::Migrate => "migrated + linked → "@ + source,
            FolderAction::Skip => "skipped"@,
        }),
{
}

/// What is said of an added target, and where the files and the placement program are.
pub proof fn law_fixed_places(kind: Text, mode: LinkMode, path: Text, project_root: Text)
    ensures
        added_text(kind, mode, path) == "added target '"@ + kind + "' ["@ + (match mode {
            LinkMode::Folder => "folder"@,
            LinkMode::Granular => "granular"@,
        }) + "] → "@ + path,
        lock_path(project_root) == joined_path(project_root, "skills-lock.json"@),
        vercel_base() == seq!["--yes"@, "skills@1.5.23"@],
{
}

/// The path of the configuration of links is found exactly where there is a home directory.
pub proof fn law_home_gives_the_path(r: Result<String, Failure>, home: Option<Text>)
    requires
        is_config_path(r, home),
    ensures
        r is Ok <==> home is Some,
        home matches Some(h) ==> r is Ok && r->Ok_0@ == joined_path(
            joined_path(h, ".config/skiller"@),
            "config.json"@,
        ),
{
}

} // verus!
