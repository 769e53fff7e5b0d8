//! What the configuration shows: compact records of its rows and catalogs, and how a run of it
//! goes on.

use vstd::prelude::*;
use crate::catalog::{skills_of, CatalogIndex};
use crate::config_ui::{config_views, ConfigRow, ConfigRowView};
use crate::failure::Failure;
use crate::model::{
    copy_opt, CatalogRegistration, EffectiveMode, GlobalConfig, InstalledState, ProjectConfig,
    SelectionMode, SkillSelection,
};
use crate::name_map::{lemma_walk, walk, NameMap};
use crate::outside::{expand_tilde, starts_at_home};
use crate::paths::{join_path, joined_path};
use crate::plan::{all_acyclic, plan_skill, skill_tree};
use crate::reconcile::ProjectionStatus;
use crate::resolve::{alias_of, all_closed, catalogs_of, key_alias};
use crate::status::{
    count_keys, owned_count, report_catalog, report_of, CatalogAvailability, CatalogReport,
    CatalogStatus,
};
use crate::text::{copy_list, ends_with, opt_view, same, views, Text};

verus! {

// Compact rows.

/// A row without what can be left out.
#[derive(Debug, PartialEq, Eq)]
pub struct PrintedSkill {
    pub key: String,
    pub scope: String,
    pub scope_order: i32,
    /// Only where it differs from the name.
    pub installed_name: Option<String>,
    /// Only where the skill is not settled.
    pub description: Option<String>,
    pub selected: Option<SelectionMode>,
    pub gitignore: bool,
    pub installed_mode: Option<EffectiveMode>,
    pub required_by: Vec<String>,
    pub read_only: bool,
    pub status: Option<String>,
    pub sync: Option<ProjectionStatus>,
    pub authoring: Option<String>,
    pub recommended_by: Vec<String>,
}

/// Whether a status need not be shown.
pub open spec fn is_quiet(sync: Option<ProjectionStatus>) -> bool {
    sync is None || sync == Some(ProjectionStatus::Synced)
}

pub fn sync_is_default(sync: Option<ProjectionStatus>) -> (r: bool)
    ensures
        r == is_quiet(sync),
{
    match sync {
        None => true,
        Some(ProjectionStatus::Synced) => true,
        _ => false,
    }
}

/// Whether a row asks for attention.
pub open spec fn wants_attention(row: ConfigRowView) -> bool {
    !is_quiet(row.sync) || row.status is Some
}

pub fn printed_skill(row: &ConfigRow) -> (r: PrintedSkill)
    ensures
        r.key@ == row.key@,
        r.scope@ == row.scope@,
        r.scope_order == row.scope_order,
        opt_view(r.installed_name) == (if row.installed_name@ != row.name@ {
            Some(row.installed_name@)
        } else {
            None
        }),
        opt_view(r.description) == (if !row.installed || row.selected is None || wants_attention(
            row@,
        ) {
            Some(row.description@)
        } else {
            None
        }),
        r.selected == row.selected,
        r.gitignore == row.gitignore,
        r.installed_mode == row.installed_mode,
        views(r.required_by@) == views(row.required_by@),
        r.read_only == row.read_only,
        opt_view(r.status) == opt_view(row.status),
        r.sync == row.sync,
        opt_view(r.authoring) == opt_view(row.authoring),
        views(r.recommended_by@) == views(row.recommended_by@),
{
    let attention = !sync_is_default(row.sync) || row.status.is_some();
    PrintedSkill {
        key: row.key.clone(),
        scope: row.scope.clone(),
        scope_order: row.scope_order,
        installed_name: if !same(row.installed_name.as_str(), row.name.as_str()) {
            Some(row.installed_name.clone())
        } else {
            None
        },
        description: if !row.installed || row.selected.is_none() || attention {
            Some(row.description.clone())
        } else {
            None
        },
        selected: row.selected,
        gitignore: row.gitignore,
        installed_mode: row.installed_mode,
        required_by: copy_list(&row.required_by),
        read_only: row.read_only,
        status: copy_opt(&row.status),
        sync: row.sync,
        authoring: copy_opt(&row.authoring),
        recommended_by: copy_list(&row.recommended_by),
    }
}

#[derive(Debug, Clone, Copy, PartialEq, Eq, Structural)]
pub struct ConfigSummary {
    pub selected: usize,
    pub installed: usize,
    pub attention: usize,
}

pub open spec fn count_installed(rows: Seq<ConfigRowView>, n: int) -> nat
    decreases n,
{
    if n <= 0 {
        0
    } else {
        count_installed(rows, n - 1) + if rows[n - 1].installed {
            1nat
        } else {
            0nat
        }
    }
}

pub open spec fn count_attention(rows: Seq<ConfigRowView>, n: int) -> nat
    decreases n,
{
    if n <= 0 {
        0
    } else {
        count_attention(rows, n - 1) + if wants_attention(rows[n - 1]) {
            1nat
        } else {
            0nat
        }
    }
}

pub fn summarize(manifest: &ProjectConfig, rows: &Vec<ConfigRow>) -> (r: ConfigSummary)
    ensures
        r.selected == manifest.skills@.dom().len(),
        r.installed == count_installed(config_views(rows@), rows@.len() as int),
        r.attention == count_attention(config_views(rows@), rows@.len() as int),
{
    let ghost all = config_views(rows@);
    let mut installed: usize = 0;
    let mut attention: usize = 0;
    let mut i: usize = 0;
    while i < rows.len()
        invariant
            i <= rows@.len(),
            all == config_views(rows@),
            installed <= i,
            attention <= i,
            installed == count_installed(all, i as int),
            attention == count_attention(all, i as int),
        decreases rows@.len() - i,
    {
        assert(all[i as int] == rows@[i as int]@);
        if rows[i].installed {
            installed = installed + 1;
        }
        if !sync_is_default(rows[i].sync) || rows[i].status.is_some() {
            attention = attention + 1;
        }
        i = i + 1;
    }
    let selected: usize = manifest.skills.len();
    proof {
        manifest.skills.names().unique_seq_to_set();
    }
    ConfigSummary { selected, installed, attention }
}

// Authoring checkouts.

/// The directory in which a registered catalog is edited, before `~` is expanded: the
/// declared one, or the source where no reference pins it.
pub open spec fn authoring_text(registration: CatalogRegistration) -> Option<Text> {
    match registration.authoring_root {
        Some(root) => Some(root@),
        None => match registration.reference {
            None => Some(registration.source@),
            Some(_) => None,
        },
    }
}

/// The directory in which a registered catalog is edited. Where it begins at the home
/// directory, which directory that is depends on the environment.
pub fn authoring_root_path(registration: &CatalogRegistration) -> (r: Option<String>)
    ensures
        match authoring_text(*registration) {
            None => r is None,
            Some(t) => r is Some && (!starts_at_home(t) ==> r->Some_0@ == t) && (starts_at_home(t)
                ==> r->Some_0@ == t || ends_with(r->Some_0@, t.skip(1))),
        },
{
    match &registration.authoring_root {
        Some(root) => Some(expand_tilde(root.as_str())),
        None => match &registration.reference {
            None => Some(expand_tilde(registration.source.as_str())),
            Some(_) => None,
        },
    }
}

/// The source of a registered catalog as a path. Where it begins at the home directory, which
/// directory that is depends on the environment.
pub fn source_path(registration: &CatalogRegistration) -> (r: String)
    ensures
        ({
            let t = registration.source@;
            (!starts_at_home(t) ==> r@ == t) && (starts_at_home(t) ==> r@ == t || ends_with(
                r@,
                t.skip(1),
            ))
        }),
{
    expand_tilde(registration.source.as_str())
}

/// Whether the row of a status shows where to edit its skill.
pub open spec fn shows_authoring(sync: Option<ProjectionStatus>) -> bool {
    sync == Some(ProjectionStatus::KeepLocal) || sync == Some(ProjectionStatus::Conflict) || sync
        == Some(ProjectionStatus::OrphanedLocal)
}

/// The skill of a row in the checkout of its catalog.
pub open spec fn authoring_path(row: ConfigRowView, roots: Map<Text, String>) -> Option<Text> {
    if shows_authoring(row.sync) {
        if roots.contains_key(row.catalog) {
            Some(joined_path(joined_path(roots[row.catalog]@, "skills"@), row.name))
        } else {
            None
        }
    } else {
        row.authoring
    }
}

/// Adds to the rows that keep changes where their skills are edited; `roots` holds the
/// checkouts that exist.
pub fn set_authoring(rows: Vec<ConfigRow>, roots: &NameMap<String>) -> (r: Vec<ConfigRow>)
    ensures
        config_views(r@) == config_views(rows@).map_values(
            |row: ConfigRowView| (ConfigRowView { authoring: authoring_path(row, roots@), ..row }),
        ),
{
    let ghost all = config_views(rows@);
    let ghost target = all.map_values(
        |row: ConfigRowView| (ConfigRowView { authoring: authoring_path(row, roots@), ..row }),
    );
    let ghost total = rows@.len();
    let mut rest = rows;
    let mut out: Vec<ConfigRow> = Vec::new();
    assert(all.skip(0) =~= all);
    while rest.len() > 0
        invariant
            out@.len() + rest@.len() == total,
            total == all.len() == target.len(),
            target == all.map_values(
                |row: ConfigRowView|
                    (ConfigRowView { authoring: authoring_path(row, roots@), ..row }),
            ),
            config_views(rest@) == all.skip(out@.len() as int),
            config_views(out@) == target.take(out@.len() as int),
        decreases rest@.len(),
    {
        let ghost left = rest@;
        let ghost done = out@.len() as int;
        let mut row = rest.remove(0);
        let ghost original = row@;
        proof {
            assert(config_views(left)[0] == all[done]);
            assert(config_views(rest@) =~= all.skip(done + 1)) by {
                assert forall|j: int| 0 <= j < rest@.len() implies config_views(rest@)[j] == all.skip(
                    done + 1,
                )[j] by {
                    assert(config_views(left)[j + 1] == all.skip(done)[j + 1]);
                }
            }
        }
        let shows = match row.sync {
            Some(ProjectionStatus::KeepLocal) => true,
            Some(ProjectionStatus::Conflict) => true,
            Some(ProjectionStatus::OrphanedLocal) => true,
            _ => false,
        };
        if shows {
            row.authoring = match roots.get(row.catalog.as_str()) {
                Some(root) => Some(
                    join_path(join_path(root.as_str(), "skills").as_str(), row.name.as_str()),
                ),
                None => None,
            };
        }
        assert(row@ == (ConfigRowView { authoring: authoring_path(original, roots@), ..original }));
        let ghost earlier = out@;
        out.push(row);
        proof {
            assert(config_views(out@) =~= config_views(earlier).push(row@));
            assert(target.take(done + 1) =~= target.take(done).push(target[done]));
        }
    }
    assert(target.take(out@.len() as int) =~= target);
    out
}

// Recommendations.

/// The reasons that are known for a row.
pub open spec fn reasons_at(row: ConfigRowView, reasons: Map<Text, Vec<String>>) -> Seq<Text> {
    if reasons.contains_key(row.key) {
        views(reasons[row.key]@)
    } else {
        Seq::empty()
    }
}

/// Adds to the rows why their skills are recommended, by key.
pub fn set_recommendations(rows: Vec<ConfigRow>, reasons: &NameMap<Vec<String>>) -> (r: Vec<ConfigRow>)
    ensures
        config_views(r@) == config_views(rows@).map_values(
            |row: ConfigRowView|
                (ConfigRowView { recommended_by: reasons_at(row, reasons@), ..row }),
        ),
{
    let ghost all = config_views(rows@);
    let ghost target = all.map_values(
        |row: ConfigRowView| (ConfigRowView { recommended_by: reasons_at(row, reasons@), ..row }),
    );
    let ghost total = rows@.len();
    let mut rest = rows;
    let mut out: Vec<ConfigRow> = Vec::new();
    assert(all.skip(0) =~= all);
    while rest.len() > 0
        invariant
            out@.len() + rest@.len() == total,
            total == all.len() == target.len(),
            target == all.map_values(
                |row: ConfigRowView|
                    (ConfigRowView { recommended_by: reasons_at(row, reasons@), ..row }),
            ),
            config_views(rest@) == all.skip(out@.len() as int),
            config_views(out@) == target.take(out@.len() as int),
        decreases rest@.len(),
    {
        let ghost left = rest@;
        let ghost done = out@.len() as int;
        let mut row = rest.remove(0);
        let ghost original = row@;
        proof {
            assert(config_views(left)[0] == all[done]);
            assert(config_views(rest@) =~= all.skip(done + 1)) by {
                assert forall|j: int| 0 <= j < rest@.len() implies config_views(rest@)[j] == all.skip(
                    done + 1,
                )[j] by {
                    assert(config_views(left)[j + 1] == all.skip(done)[j + 1]);
                }
            }
        }
        row.recommended_by = match reasons.get(row.key.as_str()) {
            Some(why) => copy_list(why),
            None => Vec::new(),
        };
        assert(views(row.recommended_by@) =~= reasons_at(original, reasons@));
        let ghost earlier = out@;
        out.push(row);
        proof {
            assert(config_views(out@) =~= config_views(earlier).push(row@));
            assert(target.take(done + 1) =~= target.take(done).push(target[done]));
        }
    }
    assert(target.take(out@.len() as int) =~= target);
    out
}

// Plans.

/// Adds to the rows what their skills bring along.
pub fn set_plans(rows: Vec<ConfigRow>, catalogs: &NameMap<CatalogIndex>, global: bool) -> (r: Vec<ConfigRow>)
    requires
        all_closed(catalogs_of(catalogs@)),
        all_acyclic(catalogs_of(catalogs@)),
    ensures
        config_views(r@) == config_views(rows@).map_values(
            |row: ConfigRowView|
                (ConfigRowView { plan: skill_tree(catalogs_of(catalogs@), row.key, global), ..row }),
        ),
{
    let ghost cats = catalogs_of(catalogs@);
    let ghost all = config_views(rows@);
    let ghost target = all.map_values(
        |row: ConfigRowView| (ConfigRowView { plan: skill_tree(cats, row.key, global), ..row }),
    );
    let ghost total = rows@.len();
    let mut rest = rows;
    let mut out: Vec<ConfigRow> = Vec::new();
    assert(all.skip(0) =~= all);
    while rest.len() > 0
        invariant
            out@.len() + rest@.len() == total,
            total == all.len() == target.len(),
            cats == catalogs_of(catalogs@),
            all_closed(cats),
            all_acyclic(cats),
            target == all.map_values(
                |row: ConfigRowView|
                    (ConfigRowView { plan: skill_tree(cats, row.key, global), ..row }),
            ),
            config_views(rest@) == all.skip(out@.len() as int),
            config_views(out@) == target.take(out@.len() as int),
        decreases rest@.len(),
    {
        let ghost left = rest@;
        let ghost done = out@.len() as int;
        let mut row = rest.remove(0);
        proof {
            assert(config_views(left)[0] == all[done]);
            assert(config_views(rest@) =~= all.skip(done + 1)) by {
                assert forall|j: int| 0 <= j < rest@.len() implies config_views(rest@)[j] == all.skip(
                    done + 1,
                )[j] by {
                    assert(config_views(left)[j + 1] == all.skip(done)[j + 1]);
                }
            }
        }
        row.plan = plan_skill(row.key.as_str(), catalogs, global);
        let ghost earlier = out@;
        out.push(row);
        proof {
            assert(config_views(out@) =~= config_views(earlier).push(row@));
            assert(target.take(done + 1) =~= target.take(done).push(target[done]));
        }
    }
    assert(target.take(out@.len() as int) =~= target);
    out
}

// Catalogs.

/// What was found of a catalog's checkout.
#[derive(Debug, PartialEq, Eq)]
pub struct Checkout {
    /// The directory, where it exists.
    pub path: Option<String>,
    /// The resolved paths of the source and of the checkout, where they resolve.
    pub source: Option<String>,
    pub authoring: Option<String>,
}

#[derive(Debug, PartialEq, Eq)]
pub struct PrintedCatalogStatus {
    pub report: CatalogReport,
    pub authoring_path: Option<String>,
    pub authoring_is_canonical: bool,
}

/// Whether a catalog is edited where it is installed from.
pub open spec fn is_canonical(registration: CatalogRegistration, checkout: Checkout) -> bool {
    registration.reference is None && checkout.source is Some && opt_view(checkout.source)
        == opt_view(checkout.authoring)
}

/// `printed` says what is known of a catalog.
pub open spec fn prints_status(
    printed: PrintedCatalogStatus,
    status: CatalogStatus,
    manifest: ProjectConfig,
    state: InstalledState,
    registrations: Map<Text, CatalogRegistration>,
    checkouts: Map<Text, Checkout>,
) -> bool {
    let alias = status.alias@;
    let known = registrations.contains_key(alias) && checkouts.contains_key(alias);
    &&& printed.report@ == report_of(
        status,
        owned_count(manifest.skills@.dom(), alias),
        owned_count(state.skills@.dom(), alias),
    )
    &&& opt_view(printed.authoring_path) == (if known {
        opt_view(checkouts[alias].path)
    } else {
        None
    })
    &&& printed.authoring_is_canonical == (known && is_canonical(
        registrations[alias],
        checkouts[alias],
    ))
}

/// The records of all catalogs in alias order.
pub fn printed_catalog_statuses(
    statuses: &NameMap<CatalogStatus>,
    manifest: &ProjectConfig,
    state: &InstalledState,
    registrations: &NameMap<CatalogRegistration>,
    checkouts: &NameMap<Checkout>,
) -> (r: Vec<PrintedCatalogStatus>)
    ensures
        r@.len() == walk(statuses@.dom()).len(),
        forall|i: int|
            0 <= i < r@.len() ==> prints_status(
                #[trigger] r@[i],
                statuses@[walk(statuses@.dom())[i]],
                *manifest,
                *state,
                registrations@,
                checkouts@,
            ),
{
    let mut out: Vec<PrintedCatalogStatus> = Vec::new();
    let n: usize = statuses.len();
    let ghost order = statuses.names();
    proof {
        lemma_walk(order);
    }
    let mut i: usize = 0;
    while i < n
        invariant
            i <= n == order.len(),
            order == statuses.names(),
            out@.len() == i,
            forall|j: int|
                0 <= j < i ==> prints_status(
                    #[trigger] out@[j],
                    statuses@[order[j]],
                    *manifest,
                    *state,
                    registrations@,
                    checkouts@,
                ),
        decreases n - i,
    {
        let status = statuses.value_at(i);
        let alias = status.alias.as_str();
        let mut authoring_path: Option<String> = None;
        let mut canonical = false;
        match (registrations.get(alias), checkouts.get(alias)) {
            (Some(registration), Some(checkout)) => {
                authoring_path = copy_opt(&checkout.path);
                canonical = match (&registration.reference, &checkout.source, &checkout.authoring) {
                    (None, Some(source), Some(authoring)) => same(
                        source.as_str(),
                        authoring.as_str(),
                    ),
                    _ => false,
                };
            },
            _ => {},
        }
        let report = report_catalog(
            status,
            count_keys(&manifest.skills, alias),
            count_keys(&state.skills, alias),
        );
        out.push(
            PrintedCatalogStatus { report, authoring_path, authoring_is_canonical: canonical },
        );
        i = i + 1;
    }
    out
}

/// Two indexes of the same content.
pub open spec fn same_catalog(a: CatalogIndex, b: CatalogIndex) -> bool {
    &&& a.alias@ == b.alias@
    &&& a.source@ == b.source@
    &&& a.root@ == b.root@
    &&& a.metadata@ == b.metadata@
    &&& skills_of(a.skills@) == skills_of(b.skills@)
}

/// Whether the last content of a catalog is shown though it is stale.
pub open spec fn shows_stale(statuses: Map<Text, CatalogStatus>, alias: Text) -> bool {
    statuses.contains_key(alias) && statuses[alias].availability == CatalogAvailability::Stale
        && statuses[alias].catalog is Some
}

/// The catalogs that are shown: those at hand, and the last content of stale ones.
pub fn display_catalogs(catalogs: &NameMap<CatalogIndex>, statuses: &NameMap<CatalogStatus>) -> (r: NameMap<
    CatalogIndex,
>)
    ensures
        forall|a: Text| #[trigger]
            r@.contains_key(a) <==> catalogs@.contains_key(a) || shows_stale(statuses@, a),
        forall|a: Text| #[trigger]
            r@.contains_key(a) ==> same_catalog(
                r@[a],
                if shows_stale(statuses@, a) {
                    statuses@[a].catalog->Some_0
                } else {
                    catalogs@[a]
                },
            ),
{
    let mut out = catalogs.clone();
    let n: usize = statuses.len();
    let ghost order = statuses.names();
    let mut i: usize = 0;
    while i < n
        invariant
            i <= n == order.len(),
            order == statuses.names(),
            statuses.ordered(),
            forall|a: Text| #[trigger]
                out@.contains_key(a) <==> catalogs@.contains_key(a) || (order.take(
                    i as int,
                ).contains(a) && shows_stale(statuses@, a)),
            forall|a: Text| #[trigger]
                out@.contains_key(a) ==> same_catalog(
                    out@[a],
                    if order.take(i as int).contains(a) && shows_stale(statuses@, a) {
                        statuses@[a].catalog->Some_0
                    } else {
                        catalogs@[a]
                    },
                ),
        decreases n - i,
    {
        let status = statuses.value_at(i);
        let alias = statuses.name_at(i);
        let ghost earlier = out@;
        proof {
            crate::model::lemma_take_set(order, i as int);
            assert forall|a: Text| #[trigger]
                order.take(i + 1).contains(a) == (order.take(i as int).contains(a) || a
                    == order[i as int]) by {
                assert(order.take(i + 1).to_set().contains(a) == order.take(
                    i as int,
                ).to_set().insert(order[i as int]).contains(a));
            }
        }
        match &status.catalog {
            Some(catalog) => {
                if status.availability == CatalogAvailability::Stale {
                    out.insert(alias.clone(), catalog.clone());
                }
            },
            None => {},
        }
        i = i + 1;
    }
    proof {
        crate::model::lemma_take_all(order);
        assert forall|a: Text| statuses@.contains_key(a) implies #[trigger] order.contains(a) by {
            assert(order.to_set().contains(a));
        }
    }
    out
}

/// The selections whose catalog is known.
pub open spec fn known_selections(skills: Map<Text, SkillSelection>, catalogs: Set<Text>) -> Map<Text, SkillSelection> {
    Map::new(
        |k: Text|
            skills.contains_key(k) && alias_of(k) is Some && catalogs.contains(
                alias_of(k)->Some_0,
            ),
        |k: Text| skills[k],
    )
}

/// The configuration with the selections whose catalog is known.
pub fn active_manifest(manifest: &ProjectConfig, catalogs: &NameMap<CatalogIndex>) -> (r: ProjectConfig)
    ensures
        r.version == manifest.version,
        r.agents@ == manifest.agents@,
        r.skills@ == known_selections(manifest.skills@, catalogs@.dom()),
{
    let mut out: NameMap<SkillSelection> = NameMap::new();
    let n: usize = manifest.skills.len();
    let ghost keys = manifest.skills.names();
    let ghost skills = manifest.skills@;
    let ghost target = known_selections(skills, catalogs@.dom());
    let mut i: usize = 0;
    while i < n
        invariant
            i <= n == keys.len(),
            keys == manifest.skills.names(),
            manifest.skills.ordered(),
            skills == manifest.skills@,
            target == known_selections(skills, catalogs@.dom()),
            forall|k: Text| #[trigger]
                out@.contains_key(k) ==> target.contains_key(k) && out@[k] == skills[k],
            forall|j: int|
                0 <= j < i && target.contains_key(keys[j]) ==> out@.contains_key(
                    #[trigger] keys[j],
                ),
        decreases n - i,
    {
        let key = manifest.skills.name_at(i);
        match key_alias(key.as_str()) {
            Some(alias) => {
                if catalogs.contains(alias.as_str()) {
                    out.insert(key.clone(), *manifest.skills.value_at(i));
                }
            },
            None => {},
        }
        i = i + 1;
    }
    proof {
        assert forall|k: Text| target.contains_key(k) implies out@.contains_key(k) by {
            assert(keys.to_set().contains(k));
            let j = keys.index_of(k);
            assert(out@.contains_key(keys[j]));
        }
        assert(out@ =~= target);
    }
    ProjectConfig {
        version: manifest.version,
        skills: out,
        agents: copy_list(&manifest.agents),
    }
}

// A run of the configuration.

/// What a run of the configuration does once the rows are there.
#[derive(Debug, Clone, Copy, PartialEq, Eq, Structural)]
pub enum ConfigureMode {
    /// Write the rows as data and change nothing.
    Print,
    /// Apply assignments and agents, save, and reconcile.
    Assign,
    /// Open the screen; what it saves is reconciled.
    Interactive,
}

pub fn configure_mode(machine: bool, assignments: &Vec<String>, agents: &Vec<String>) -> (r: ConfigureMode)
    ensures
        r == (if assignments@.len() > 0 || agents@.len() > 0 {
            ConfigureMode::Assign
        } else if machine {
            ConfigureMode::Print
        } else {
            ConfigureMode::Interactive
        }),
{
    if assignments.len() > 0 || agents.len() > 0 {
        ConfigureMode::Assign
    } else if machine {
        ConfigureMode::Print
    } else {
        ConfigureMode::Interactive
    }
}

/// Whether the installation follows: always where something was saved.
pub fn reconciles(mode: ConfigureMode, saved: bool) -> (r: bool)
    ensures
        r == (saved && mode != ConfigureMode::Print),
{
    saved && mode != ConfigureMode::Print
}

/// Checks that a catalog is registered.
pub fn require_catalogs(config: &GlobalConfig) -> (r: Result<(), Failure>)
    ensures
        crate::failure::refusal(r) == (if config.catalogs.names().len() == 0 {
            Some("no catalogs configured; run `skiller catalog configure <alias> <source>`"@)
        } else {
            None
        }),
{
    if config.catalogs.is_empty() {
        return Err(
            Failure::new(
                String::from_str(
                    "no catalogs configured; run `skiller catalog configure <alias> <source>`",
                ),
            ),
        );
    }
    Ok(())
}

/// The global configuration with the selections and agents of a saved manifest.
pub fn with_manifest(config: &GlobalConfig, manifest: &ProjectConfig) -> (r: GlobalConfig)
    ensures
        r.version == config.version,
        r.catalogs@ == config.catalogs@,
        r.skills@ == manifest.skills@,
        r.agents@ == manifest.agents@,
{
    let base = config.clone();
    let saved = manifest.clone();
    GlobalConfig {
        version: base.version,
        catalogs: base.catalogs,
        skills: saved.skills,
        agents: saved.agents,
    }
}

/// The manifest that a global configuration holds.
pub fn global_manifest(config: &GlobalConfig) -> (r: ProjectConfig)
    ensures
        r.version == config.version,
        r.skills@ == config.skills@,
        r.agents@ == config.agents@,
{
    let base = config.clone();
    ProjectConfig { version: base.version, skills: base.skills, agents: base.agents }
}

} // verus!
