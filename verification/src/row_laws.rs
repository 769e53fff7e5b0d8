//! What the rows of the configuration show.

use vstd::prelude::*;
use crate::catalog::{CatalogIndex, CatalogSkill};
use crate::config_ui::{
    catalog_row, catalog_rows, has_row, is_editable, law_rows_are_ordered, ordered_rows,
    ordered_texts, orphan_row, requiring, row_inputs, rows_of, skill_rows, text_place, with_orphans,
    with_status, ConfigRowView, RowInputs,
};
use crate::model::{InstalledSkill, InstalledState, ProjectConfig, SkillSelection};
use crate::name_map::{lemma_walk_finite, walk};
use crate::reconcile::ProjectionStatus;
use crate::text::{cut, views, Text};

verus! {

pub proof fn lemma_ordered_members(texts: Seq<Text>, t: Text)
    ensures
        ordered_texts(texts).contains(t) == texts.contains(t),
    decreases texts.len(),
{
    if texts.len() > 0 {
        let front = ordered_texts(texts.drop_last());
        let last = texts.last();
        let place = text_place(front, last);
        lemma_ordered_members(texts.drop_last(), t);
        lemma_place(front, last);
        let all = front.insert(place, last);
        assert(all[place] == last);
        if front.contains(t) {
            let i = front.index_of(t);
            assert(all[if i < place { i } else { i + 1 }] == t);
        }
        if all.contains(t) {
            let i = all.index_of(t);
            if i < place {
                assert(front[i] == t);
            } else if i > place {
                assert(front[i - 1] == t);
            }
        }
        if texts.contains(t) {
            let i = texts.index_of(t);
            if i < texts.len() - 1 {
                assert(texts.drop_last()[i] == t);
            }
        }
        if texts.drop_last().contains(t) {
            let i = texts.drop_last().index_of(t);
            assert(texts[i] == t);
        }
        assert(texts[texts.len() - 1] == last);
    }
}

proof fn lemma_place(texts: Seq<Text>, t: Text)
    ensures
        0 <= text_place(texts, t) <= texts.len(),
    decreases texts.len(),
{
    if texts.len() > 0 {
        lemma_place(texts.drop_last(), t);
    }
}

proof fn lemma_requiring(skills: Map<Text, CatalogSkill>, order: Seq<Text>, name: Text, n: int, t: Text)
    requires
        0 <= n <= order.len(),
    ensures
        requiring(skills, order, name, n).contains(t) == (exists|i: int|
            0 <= i < n && skills[#[trigger] order[i]].name@ == t && views(
                skills[order[i]].requires@,
            ).contains(name)),
    decreases n,
{
    if n > 0 {
        lemma_requiring(skills, order, name, n - 1, t);
        let front = requiring(skills, order, name, n - 1);
        let whole = requiring(skills, order, name, n);
        let last = order[n - 1];
        if front.contains(t) {
            let i = front.index_of(t);
            assert(whole[i] == t);
        }
        if whole.len() > front.len() {
            assert(whole[whole.len() - 1] == skills[last].name@);
            if whole.contains(t) {
                let i = whole.index_of(t);
                if i < front.len() {
                    assert(front[i] == t);
                }
            }
        }
    }
}

/// The row of a catalog skill shows the skill, what is selected under its key, whether it is installed
/// under its current name and how, and which skills of its catalog require it. It is read only exactly
/// where its catalog is stale.
pub proof fn law_rows_show_their_skills(
    catalog: CatalogIndex,
    skill: CatalogSkill,
    state: InstalledState,
    manifest: ProjectConfig,
    stale: Set<Text>,
    other: Text,
)
    requires
        catalog.skills@.dom().finite(),
    ensures
        ({
            let row = catalog_row(catalog, skill@, state@.skills, manifest.skills@, stale);
            let key = catalog.alias@ + "/"@ + skill.name@;
            let chosen = manifest.skills@.contains_key(key);
            let choice = manifest.skills@[key];
            let placed = state.skills@.contains_key(key) && state.skills@[key].installed_name@
                == skill.installed_name@;
            &&& row.key == key
            &&& row.catalog == catalog.alias@
            &&& row.name == skill.name@
            &&& row.installed_name == skill.installed_name@
            &&& row.description == skill.description@
            &&& row.scope == (match skill.scope {
                Some(s) => s@,
                None => "other"@,
            })
            &&& row.scope_order == (if catalog.metadata.scopes@.contains_key(row.scope) {
                catalog.metadata.scopes@[row.scope].order
            } else {
                i32::MAX
            })
            &&& row.selected is Some <==> chosen
            &&& chosen ==> row.selected == Some(
                match choice {
                    SkillSelection::Mode(mode) => mode,
                    SkillSelection::Detailed { mode, .. } => mode,
                },
            )
            &&& row.gitignore <==> chosen && (choice matches SkillSelection::Detailed {
                gitignore,
                ..
            } && gitignore)
            &&& row.installed <==> placed
            &&& row.installed_mode == (if placed {
                Some(state.skills@[key].mode)
            } else {
                None
            })
            &&& row.read_only <==> stale.contains(catalog.alias@)
            &&& row.status == (if stale.contains(catalog.alias@) {
                Some("stale"@)
            } else {
                None
            })
            &&& row.required_by.contains(other) <==> exists|n: Text| #[trigger]
                catalog.skills@.contains_key(n) && catalog.skills@[n].name@ == other && views(
                    catalog.skills@[n].requires@,
                ).contains(skill.name@)
        }),
{
    let order = walk(catalog.skills@.dom());
    lemma_walk_finite(catalog.skills@.dom());
    let n = order.len() as int;
    lemma_requiring(catalog.skills@, order, skill.name@, n, other);
    lemma_ordered_members(requiring(catalog.skills@, order, skill.name@, n), other);
    assert forall|i: int| 0 <= i < n implies catalog.skills@.contains_key(#[trigger] order[i]) by {
        assert(order.to_set().contains(order[i]));
    }
    if exists|m: Text| #[trigger]
        catalog.skills@.contains_key(m) && catalog.skills@[m].name@ == other && views(
            catalog.skills@[m].requires@,
        ).contains(skill.name@) {
        let m = choose|m: Text| #[trigger]
            catalog.skills@.contains_key(m) && catalog.skills@[m].name@ == other && views(
                catalog.skills@[m].requires@,
            ).contains(skill.name@);
        assert(order.to_set().contains(m));
        let i = order.index_of(m);
        assert(order[i] == m);
    }
    let key = catalog.alias@ + "/"@ + skill.name@;
    if state.skills@.contains_key(key) {
        assert(state@.skills[key] == state.skills@[key]@);
        assert(state.skills@[key].installed_name@ =~= skill.installed_name@
            ==> state@.skills[key].installed_name == skill@.installed_name);
    }
}

proof fn lemma_skill_rows(x: RowInputs, catalog: CatalogIndex, n: int, j: int)
    requires
        0 <= j < n <= walk(catalog.skills@.dom()).len(),
        catalog.skills@[walk(catalog.skills@.dom())[j]].global == x.global,
    ensures
        skill_rows(x, catalog, n).contains(
            catalog_row(
                catalog,
                catalog.skills@[walk(catalog.skills@.dom())[j]]@,
                x.state,
                x.chosen,
                x.stale,
            ),
        ),
    decreases n,
{
    let want = catalog_row(
        catalog,
        catalog.skills@[walk(catalog.skills@.dom())[j]]@,
        x.state,
        x.chosen,
        x.stale,
    );
    let front = skill_rows(x, catalog, n - 1);
    let whole = skill_rows(x, catalog, n);
    if j == n - 1 {
        assert(whole[front.len() as int] == want);
    } else {
        lemma_skill_rows(x, catalog, n - 1, j);
        let i = front.index_of(want);
        assert(whole[i] == want);
    }
}

proof fn lemma_catalog_rows(x: RowInputs, catalogs: Map<Text, CatalogIndex>, n: int, j: int, row: ConfigRowView)
    requires
        0 <= j < n <= walk(catalogs.dom()).len(),
        ({
            let catalog = catalogs[walk(catalogs.dom())[j]];
            skill_rows(x, catalog, walk(catalog.skills@.dom()).len() as int).contains(row)
        }),
    ensures
        catalog_rows(x, catalogs, n).contains(row),
    decreases n,
{
    let front = catalog_rows(x, catalogs, n - 1);
    let whole = catalog_rows(x, catalogs, n);
    if j == n - 1 {
        let catalog = catalogs[walk(catalogs.dom())[j]];
        let part = skill_rows(x, catalog, walk(catalog.skills@.dom()).len() as int);
        let i = part.index_of(row);
        assert(whole[front.len() + i] == row);
    } else {
        lemma_catalog_rows(x, catalogs, n - 1, j, row);
        let i = front.index_of(row);
        assert(whole[i] == row);
    }
}

proof fn lemma_orphans_keep(
    x: RowInputs,
    rows: Seq<ConfigRowView>,
    keys: Seq<Text>,
    statuses: Seq<ProjectionStatus>,
    n: int,
    row: ConfigRowView,
)
    requires
        rows.contains(row),
    ensures
        with_orphans(x, rows, keys, statuses, n).contains(row),
    decreases n,
{
    if n > 0 {
        lemma_orphans_keep(x, rows, keys, statuses, n - 1, row);
        let front = with_orphans(x, rows, keys, statuses, n - 1);
        let i = front.index_of(row);
        assert(with_orphans(x, rows, keys, statuses, n)[i] == row);
    }
}

proof fn lemma_rows_hold(all: Seq<ConfigRowView>, keys: Seq<Text>, statuses: Seq<ProjectionStatus>, row: ConfigRowView)
    requires
        all.contains(row),
    ensures
        ({
            let known = all.map_values(|r: ConfigRowView| with_status(r, keys, statuses));
            ordered_rows(known, known.len() as int).contains(with_status(row, keys, statuses))
        }),
{
    let known = all.map_values(|r: ConfigRowView| with_status(r, keys, statuses));
    let n = known.len() as int;
    law_rows_are_ordered(known, n);
    assert(known.take(n) =~= known);
    let i = all.index_of(row);
    assert(known[i] == with_status(row, keys, statuses));
    let out = ordered_rows(known, n);
    broadcast use vstd::seq_lib::group_to_multiset_ensures;

    assert(known.to_multiset().count(known[i]) > 0);
    assert(out.to_multiset().count(known[i]) > 0);
    assert(out.contains(known[i]));
}

/// Every skill of the scope in every catalog has a row, with the status of its projection where it is
/// recorded.
pub proof fn law_every_skill_has_a_row(
    catalogs: Map<Text, CatalogIndex>,
    state: InstalledState,
    manifest: ProjectConfig,
    stale: Set<Text>,
    global: bool,
    project: bool,
    orphans: Seq<ProjectionStatus>,
    statuses: Seq<ProjectionStatus>,
    alias: Text,
    name: Text,
)
    requires
        catalogs.dom().finite(),
        catalogs.contains_key(alias),
        catalogs[alias].skills@.dom().finite(),
        catalogs[alias].skills@.contains_key(name),
        catalogs[alias].skills@[name].global == global,
        state.skills@.dom().finite(),
    ensures
        ({
            let x = row_inputs(state, manifest, stale, global);
            let rows = rows_of(x, catalogs, project, orphans, statuses);
            let keys = walk(state.skills@.dom());
            let row = catalog_row(
                catalogs[alias],
                catalogs[alias].skills@[name]@,
                state@.skills,
                manifest.skills@,
                stale,
            );
            &&& !state.skills@.contains_key(row.key) ==> rows.contains(row)
            &&& forall|i: int|
                0 <= i < keys.len() && #[trigger] keys[i] == row.key ==> rows.contains(
                    ConfigRowView { sync: Some(statuses[i]), ..row },
                )
        }),
{
    let x = row_inputs(state, manifest, stale, global);
    let keys = walk(state.skills@.dom());
    assert(x.state.dom() =~= state.skills@.dom());
    lemma_walk_finite(state.skills@.dom());
    lemma_walk_finite(catalogs.dom());
    let catalog = catalogs[alias];
    lemma_walk_finite(catalog.skills@.dom());
    let aliases = walk(catalogs.dom());
    let names = walk(catalog.skills@.dom());
    assert(aliases.to_set().contains(alias));
    assert(names.to_set().contains(name));
    let a = aliases.index_of(alias);
    let b = names.index_of(name);
    assert(aliases[a] == alias && names[b] == name);
    let row = catalog_row(catalog, catalog.skills@[name]@, x.state, x.chosen, x.stale);
    lemma_skill_rows(x, catalog, names.len() as int, b);
    lemma_catalog_rows(x, catalogs, aliases.len() as int, a, row);
    let base = catalog_rows(x, catalogs, aliases.len() as int);
    lemma_orphans_keep(x, base, keys, orphans, keys.len() as int, row);
    let all = if project {
        with_orphans(x, base, keys, orphans, keys.len() as int)
    } else {
        base
    };
    lemma_rows_hold(all, keys, statuses, row);
    if !state.skills@.contains_key(row.key) {
        if keys.contains(row.key) {
            assert(keys.to_set().contains(row.key));
        }
    }
    assert forall|i: int| 0 <= i < keys.len() && #[trigger] keys[i] == row.key implies rows_of(
        x,
        catalogs,
        project,
        orphans,
        statuses,
    ).contains(ConfigRowView { sync: Some(statuses[i]), ..row }) by {
        assert(keys.contains(row.key));
        let j = keys.index_of(row.key);
        assert(keys[j] == keys[i]);
        assert(j == i);
    }
}

/// A recorded skill that keeps project changes and whose catalog entry is gone is shown in a project,
/// read only, as orphaned; the row can be told by its key.
pub proof fn law_orphans_are_shown(
    state: InstalledState,
    manifest: ProjectConfig,
    alias: Text,
    name: Text,
    installed: InstalledSkill,
)
    requires
        !alias.contains('/'),
    ensures
        ({
            let key = alias + seq!['/'] + name;
            let row = orphan_row(key, installed@, manifest.skills@);
            &&& row.key == key
            &&& row.catalog == alias
            &&& row.name == name
            &&& row.installed_name == installed.installed_name@
            &&& row.installed && row.installed_mode == Some(installed.mode)
            &&& row.read_only
            &&& row.status == Some("orphaned"@)
            &&& row.sync == Some(ProjectionStatus::OrphanedLocal)
            &&& row.selected is Some <==> manifest.skills@.contains_key(key)
            &&& !is_editable(row)
        }),
{
    let key = alias + seq!['/'] + name;
    let n = alias.len() as int;
    assert forall|j: int| 0 <= j < n implies key[j] != '/' by {
        assert(key[j] == alias[j]);
    }
    assert(key[n] == '/');
    crate::text::lemma_find_char(key, '/', n);
    assert(key.take(n) =~= alias);
    assert(key.skip(n + 1) =~= name);
}

proof fn lemma_orphan_rows(
    x: RowInputs,
    rows: Seq<ConfigRowView>,
    keys: Seq<Text>,
    statuses: Seq<ProjectionStatus>,
    n: int,
    key: Text,
)
    requires
        0 <= n <= keys.len(),
        keys.no_duplicates(),
    ensures
        has_row(with_orphans(x, rows, keys, statuses, n), key) == (has_row(rows, key) || exists|
            i: int,
        |
            0 <= i < n && #[trigger] keys[i] == key && key.contains('/') && (statuses[i] is KeepLocal
                || statuses[i] is Conflict || statuses[i] is Unknown)),
    decreases n,
{
    if n > 0 {
        lemma_orphan_rows(x, rows, keys, statuses, n - 1, key);
        let front = with_orphans(x, rows, keys, statuses, n - 1);
        let whole = with_orphans(x, rows, keys, statuses, n);
        let last = keys[n - 1];
        crate::text::lemma_find_char_bound(last, '/');
        lemma_has_slash(last);
        if has_row(front, key) {
            let i = choose|i: int| 0 <= i < front.len() && (#[trigger] front[i]).key == key;
            assert(whole[i].key == key);
        }
        if whole.len() > front.len() {
            assert(whole[front.len() as int].key == last);
        }
        if has_row(whole, key) {
            let i = choose|i: int| 0 <= i < whole.len() && (#[trigger] whole[i]).key == key;
            if i < front.len() {
                assert(front[i].key == key);
            }
        }
    }
}

proof fn lemma_has_slash(key: Text)
    ensures
        cut(key, '/') is Some <==> key.contains('/'),
{
    crate::text::lemma_find_char_bound(key, '/');
    if key.contains('/') {
        let i = key.index_of('/');
        if cut(key, '/') is None {
            assert(key[i] == '/');
        }
    }
}

/// A project shows a row for a recorded skill without a catalog entry exactly where it keeps changes
/// of its own.
pub proof fn law_changed_orphans_have_rows(
    x: RowInputs,
    rows: Seq<ConfigRowView>,
    statuses: Seq<ProjectionStatus>,
    key: Text,
)
    requires
        x.state.dom().finite(),
        !has_row(rows, key),
    ensures
        ({
            let keys = walk(x.state.dom());
            has_row(with_orphans(x, rows, keys, statuses, keys.len() as int), key) <==> exists|
                i: int,
            |
                0 <= i < keys.len() && #[trigger] keys[i] == key && key.contains('/') && (
                statuses[i] is KeepLocal || statuses[i] is Conflict || statuses[i] is Unknown)
        }),
{
    lemma_walk_finite(x.state.dom());
    let keys = walk(x.state.dom());
    lemma_orphan_rows(x, rows, keys, statuses, keys.len() as int, key);
}

/// A row can be changed exactly where it is not read only and its projection keeps nothing that a
/// change could lose.
pub proof fn law_kept_rows_are_not_edited(row: ConfigRowView)
    ensures
        is_editable(row) <==> !row.read_only && !(row.sync matches Some(status) && (
        status is KeepLocal || status is Conflict || status is OrphanedLocal || status is Unknown)),
{
}

} // verus!
