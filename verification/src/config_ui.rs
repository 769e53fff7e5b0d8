//! The rows of the configuration, and changes to the selections.

use vstd::prelude::*;
use crate::catalog::{CatalogIndex, CatalogSkill, CatalogSkillView};
use crate::failure::Failure;
use crate::model::{
    selected_ignore, selected_mode, selection_of, EffectiveMode, InstalledSkill,
    InstalledSkillView, InstalledState, ProjectConfig, ScopeMetadata, SelectionMode,
    SkillSelection,
};
use crate::name_map::{lemma_walk, walk, NameMap, NameSet};
use crate::outside::{quoted, quoted_text};
use crate::reconcile::ProjectionStatus;
use crate::resolve::{key_of, selection_at};
use crate::text::{
    before, cat2, cat3, cat4, cut, lemma_text_lt_irreflexive, lemma_text_lt_total,
    lemma_text_lt_transitive, list_has, opt_view, same, split_once, text_lt, views, Text,
};

verus! {

/// One skill as the configuration shows it.
#[derive(Debug)]
pub struct ConfigRow {
    pub key: String,
    pub catalog: String,
    pub scope: String,
    pub scope_order: i32,
    pub name: String,
    pub installed_name: String,
    pub description: String,
    pub selected: Option<SelectionMode>,
    pub gitignore: bool,
    pub installed: bool,
    pub installed_mode: Option<EffectiveMode>,
    pub required_by: Vec<String>,
    pub read_only: bool,
    pub status: Option<String>,
    pub sync: Option<ProjectionStatus>,
    pub authoring: Option<String>,
    /// Why the skill is recommended to the project, if it is.
    pub recommended_by: Vec<String>,
    /// The tree of what the skill brings along.
    pub plan: Vec<String>,
}

/// A row in contracts.
pub struct ConfigRowView {
    pub key: Text,
    pub catalog: Text,
    pub scope: Text,
    pub scope_order: i32,
    pub name: Text,
    pub installed_name: Text,
    pub description: Text,
    pub selected: Option<SelectionMode>,
    pub gitignore: bool,
    pub installed: bool,
    pub installed_mode: Option<EffectiveMode>,
    pub required_by: Seq<Text>,
    pub read_only: bool,
    pub status: Option<Text>,
    pub sync: Option<ProjectionStatus>,
    pub authoring: Option<Text>,
    pub recommended_by: Seq<Text>,
    pub plan: Seq<Text>,
}

impl View for ConfigRow {
    type V = ConfigRowView;

    open spec fn view(&self) -> ConfigRowView {
        ConfigRowView {
            key: self.key@,
            catalog: self.catalog@,
            scope: self.scope@,
            scope_order: self.scope_order,
            name: self.name@,
            installed_name: self.installed_name@,
            description: self.description@,
            selected: self.selected,
            gitignore: self.gitignore,
            installed: self.installed,
            installed_mode: self.installed_mode,
            required_by: views(self.required_by@),
            read_only: self.read_only,
            status: opt_view(self.status),
            sync: self.sync,
            authoring: opt_view(self.authoring),
            recommended_by: views(self.recommended_by@),
            plan: views(self.plan@),
        }
    }
}

pub open spec fn config_views(v: Seq<ConfigRow>) -> Seq<ConfigRowView> {
    Seq::new(v.len(), |i: int| v[i]@)
}

// Order.

/// Whether one row stands strictly before another: by catalog, scope order, scope and name.
pub open spec fn row_lt(a: ConfigRowView, b: ConfigRowView) -> bool {
    if a.catalog != b.catalog {
        text_lt(a.catalog, b.catalog)
    } else if a.scope_order != b.scope_order {
        a.scope_order < b.scope_order
    } else if a.scope != b.scope {
        text_lt(a.scope, b.scope)
    } else {
        text_lt(a.name, b.name)
    }
}

fn row_before(a: &ConfigRow, b: &ConfigRow) -> (r: bool)
    ensures
        r == row_lt(a@, b@),
{
    if !same(a.catalog.as_str(), b.catalog.as_str()) {
        before(a.catalog.as_str(), b.catalog.as_str())
    } else if a.scope_order != b.scope_order {
        a.scope_order < b.scope_order
    } else if !same(a.scope.as_str(), b.scope.as_str()) {
        before(a.scope.as_str(), b.scope.as_str())
    } else {
        before(a.name.as_str(), b.name.as_str())
    }
}

/// Where a row goes among ordered rows: behind every row that it does not precede.
pub open spec fn row_place(rows: Seq<ConfigRowView>, row: ConfigRowView) -> int
    decreases rows.len(),
{
    if rows.len() == 0 || !row_lt(row, rows.last()) {
        rows.len() as int
    } else {
        row_place(rows.drop_last(), row)
    }
}

/// The first `n` rows in order; rows that do not precede each other keep their order.
pub open spec fn ordered_rows(rows: Seq<ConfigRowView>, n: int) -> Seq<ConfigRowView>
    decreases n,
{
    if n <= 0 {
        Seq::empty()
    } else {
        let front = ordered_rows(rows, n - 1);
        front.insert(row_place(front, rows[n - 1]), rows[n - 1])
    }
}

proof fn lemma_row_place(rows: Seq<ConfigRowView>, row: ConfigRowView)
    ensures
        0 <= row_place(rows, row) <= rows.len(),
    decreases rows.len(),
{
    if rows.len() > 0 && row_lt(row, rows.last()) {
        lemma_row_place(rows.drop_last(), row);
    }
}

fn sort_rows(rows: Vec<ConfigRow>) -> (r: Vec<ConfigRow>)
    ensures
        config_views(r@) == ordered_rows(config_views(rows@), rows@.len() as int),
{
    let ghost all = config_views(rows@);
    let ghost total = rows@.len();
    let mut rest = rows;
    let mut out: Vec<ConfigRow> = Vec::new();
    let ghost mut done: int = 0;
    assert(config_views(out@) =~= Seq::<ConfigRowView>::empty());
    assert(all.skip(0) =~= all);
    while rest.len() > 0
        invariant
            0 <= done <= total == all.len(),
            rest@.len() == total - done,
            config_views(rest@) == all.skip(done),
            config_views(out@) == ordered_rows(all, done),
        decreases rest@.len(),
    {
        let ghost left = rest@;
        let row = rest.remove(0);
        let ghost now = config_views(out@);
        proof {
            assert(config_views(left)[0] == all[done]);
            assert(config_views(rest@) =~= all.skip(done + 1)) by {
                assert forall|j: int| 0 <= j < rest@.len() implies config_views(rest@)[j] == all.skip(
                    done + 1,
                )[j] by {
                    assert(config_views(left)[j + 1] == all.skip(done)[j + 1]);
                }
            }
        }
        let mut at: usize = out.len();
        assert(now.take(at as int) =~= now);
        while at > 0 && row_before(&row, &out[at - 1])
            invariant
                at <= out@.len(),
                now == config_views(out@),
                row_place(now, row@) == row_place(now.take(at as int), row@),
            decreases at,
        {
            assert(now.take(at as int).last() == out@[at - 1]@);
            assert(now.take(at as int).drop_last() =~= now.take(at - 1));
            at = at - 1;
        }
        proof {
            if at > 0 {
                assert(now.take(at as int).last() == out@[at - 1]@);
            }
            assert(row_place(now, row@) == at);
        }
        let ghost before_insert = out@;
        out.insert(at, row);
        proof {
            assert(config_views(out@) =~= now.insert(at as int, row@));
            done = done + 1;
        }
    }
    out
}

proof fn lemma_row_lt_transitive(a: ConfigRowView, b: ConfigRowView, c: ConfigRowView)
    requires
        row_lt(a, b),
        row_lt(b, c),
    ensures
        row_lt(a, c),
{
    lemma_text_lt_irreflexive(a.catalog);
    lemma_text_lt_irreflexive(a.scope);
    lemma_text_lt_irreflexive(a.name);
    if text_lt(a.catalog, b.catalog) && text_lt(b.catalog, c.catalog) {
        lemma_text_lt_transitive(a.catalog, b.catalog, c.catalog);
    }
    if text_lt(a.scope, b.scope) && text_lt(b.scope, c.scope) {
        lemma_text_lt_transitive(a.scope, b.scope, c.scope);
    }
    if text_lt(a.name, b.name) && text_lt(b.name, c.name) {
        lemma_text_lt_transitive(a.name, b.name, c.name);
    }
}

proof fn lemma_row_not_lt_transitive(a: ConfigRowView, b: ConfigRowView, c: ConfigRowView)
    requires
        !row_lt(b, a),
        !row_lt(c, b),
    ensures
        !row_lt(c, a),
{
    lemma_text_lt_total(a.catalog, b.catalog);
    lemma_text_lt_total(b.catalog, c.catalog);
    lemma_text_lt_total(a.scope, b.scope);
    lemma_text_lt_total(b.scope, c.scope);
    lemma_text_lt_total(a.name, b.name);
    lemma_text_lt_total(b.name, c.name);
    if row_lt(c, a) {
        lemma_text_lt_irreflexive(a.catalog);
        lemma_text_lt_irreflexive(a.scope);
        lemma_text_lt_irreflexive(a.name);
        lemma_text_lt_irreflexive(c.catalog);
        lemma_text_lt_irreflexive(c.scope);
        lemma_text_lt_irreflexive(c.name);
        lemma_text_lt_irreflexive(b.catalog);
        lemma_text_lt_irreflexive(b.scope);
        lemma_text_lt_irreflexive(b.name);
        if row_lt(a, b) {
            lemma_row_lt_transitive(c, a, b);
        } else if row_lt(b, c) {
            lemma_row_lt_transitive(b, c, a);
        }
    }
}

/// Rows in order hold the same rows, and none stands before one that precedes it.
pub proof fn law_rows_are_ordered(rows: Seq<ConfigRowView>, n: int)
    requires
        0 <= n <= rows.len(),
    ensures
        ordered_rows(rows, n).to_multiset() == rows.take(n).to_multiset(),
        forall|i: int, j: int|
            0 <= i < j < ordered_rows(rows, n).len() ==> !row_lt(
                #[trigger] ordered_rows(rows, n)[j],
                #[trigger] ordered_rows(rows, n)[i],
            ),
    decreases n,
{
    if n > 0 {
        law_rows_are_ordered(rows, n - 1);
        let front = ordered_rows(rows, n - 1);
        let row = rows[n - 1];
        let at = row_place(front, row);
        lemma_row_place(front, row);
        lemma_place_splits(front, row);
        let out = front.insert(at, row);
        assert forall|i: int, j: int| 0 <= i < j < out.len() implies !row_lt(
            #[trigger] out[j],
            #[trigger] out[i],
        ) by {
            let oi = if i < at {
                i
            } else {
                i - 1
            };
            let oj = if j < at {
                j
            } else {
                j - 1
            };
            if i != at && j != at {
                assert(out[i] == front[oi] && out[j] == front[oj]);
            } else if i == at {
                assert(out[j] == front[oj]);
                assert(row_lt(row, front[oj]));
                if row_lt(front[oj], row) {
                    lemma_row_lt_transitive(row, front[oj], row);
                    lemma_text_lt_irreflexive(row.catalog);
                    lemma_text_lt_irreflexive(row.scope);
                    lemma_text_lt_irreflexive(row.name);
                }
            } else {
                assert(out[i] == front[oi]);
            }
        }
        vstd::seq_lib::to_multiset_insert(front, at, row);
        assert(rows.take(n) =~= rows.take(n - 1).push(row));
        rows.take(n - 1).to_multiset_ensures();
    } else {
        assert(rows.take(0) =~= Seq::<ConfigRowView>::empty());
    }
}

/// A row precedes what stands behind its place, and nothing before it.
proof fn lemma_place_splits(rows: Seq<ConfigRowView>, row: ConfigRowView)
    requires
        forall|i: int, j: int|
            0 <= i < j < rows.len() ==> !row_lt(#[trigger] rows[j], #[trigger] rows[i]),
    ensures
        forall|j: int| row_place(rows, row) <= j < rows.len() ==> row_lt(row, #[trigger] rows[j]),
        forall|i: int| 0 <= i < row_place(rows, row) ==> !row_lt(row, #[trigger] rows[i]),
    decreases rows.len(),
{
    if rows.len() > 0 {
        if row_lt(row, rows.last()) {
            let front = rows.drop_last();
            assert forall|i: int, j: int| 0 <= i < j < front.len() implies !row_lt(
                #[trigger] front[j],
                #[trigger] front[i],
            ) by {
                assert(front[j] == rows[j] && front[i] == rows[i]);
            }
            lemma_place_splits(front, row);
            lemma_row_place(front, row);
            assert forall|j: int| row_place(rows, row) <= j < rows.len() implies row_lt(
                row,
                #[trigger] rows[j],
            ) by {
                if j < front.len() {
                    assert(front[j] == rows[j]);
                }
            }
            assert forall|i: int| 0 <= i < row_place(rows, row) implies !row_lt(
                row,
                #[trigger] rows[i],
            ) by {
                assert(front[i] == rows[i]);
            }
        } else {
            let last = rows.len() - 1;
            assert forall|i: int| 0 <= i < rows.len() implies !row_lt(row, #[trigger] rows[i]) by {
                if i < last {
                    assert(!row_lt(rows[last], rows[i]));
                    lemma_row_not_lt_transitive(rows[i], rows[last], row);
                }
            }
        }
    }
}

// Rows.

/// Where a text goes among ordered texts: behind every text that it does not precede.
pub open spec fn text_place(texts: Seq<Text>, t: Text) -> int
    decreases texts.len(),
{
    if texts.len() == 0 || !text_lt(t, texts.last()) {
        texts.len() as int
    } else {
        text_place(texts.drop_last(), t)
    }
}

/// The texts in ascending order.
pub open spec fn ordered_texts(texts: Seq<Text>) -> Seq<Text>
    decreases texts.len(),
{
    if texts.len() == 0 {
        texts
    } else {
        let front = ordered_texts(texts.drop_last());
        front.insert(text_place(front, texts.last()), texts.last())
    }
}

pub fn insert_ordered(texts: &mut Vec<String>, t: String)
    ensures
        views(final(texts)@) == views(old(texts)@).insert(text_place(views(old(texts)@), t@), t@),
{
    let ghost now = views(texts@);
    let mut at: usize = texts.len();
    assert(now.take(at as int) =~= now);
    while at > 0 && before(t.as_str(), texts[at - 1].as_str())
        invariant
            at <= texts@.len(),
            now == views(texts@),
            text_place(now, t@) == text_place(now.take(at as int), t@),
        decreases at,
    {
        assert(now.take(at as int).last() == texts@[at - 1]@);
        assert(now.take(at as int).drop_last() =~= now.take(at - 1));
        at = at - 1;
    }
    proof {
        if at > 0 {
            assert(now.take(at as int).last() == texts@[at - 1]@);
        }
    }
    let ghost whole = t@;
    texts.insert(at, t);
    assert(views(texts@) =~= now.insert(at as int, whole));
}

/// The names of those of the first `n` skills that require a name.
pub open spec fn requiring(skills: Map<Text, CatalogSkill>, order: Seq<Text>, name: Text, n: int) -> Seq<Text>
    decreases n,
{
    if n <= 0 {
        Seq::empty()
    } else {
        let front = requiring(skills, order, name, n - 1);
        let candidate = skills[order[n - 1]];
        if views(candidate.requires@).contains(name) {
            front.push(candidate.name@)
        } else {
            front
        }
    }
}

fn required_by(skills: &NameMap<CatalogSkill>, name: &str) -> (r: Vec<String>)
    ensures
        views(r@) == ordered_texts(
            requiring(
                skills@,
                walk(skills@.dom()),
                name@,
                walk(skills@.dom()).len() as int,
            ),
        ),
{
    let mut out: Vec<String> = Vec::new();
    let n: usize = skills.len();
    let ghost order = skills.names();
    proof {
        lemma_walk(order);
        assert(views(out@) =~= Seq::<Text>::empty());
    }
    let mut i: usize = 0;
    while i < n
        invariant
            i <= n == order.len(),
            order == skills.names(),
            views(out@) == ordered_texts(requiring(skills@, order, name@, i as int)),
        decreases n - i,
    {
        let candidate = skills.value_at(i);
        let ghost front = requiring(skills@, order, name@, i as int);
        if list_has(&candidate.requires, name) {
            insert_ordered(&mut out, candidate.name.clone());
            assert(front.push(candidate.name@).drop_last() =~= front);
        }
        i = i + 1;
    }
    out
}

pub open spec fn scope_name(scope: Option<Text>) -> Text {
    match scope {
        Some(s) => s,
        None => "other"@,
    }
}

pub open spec fn order_of(scopes: Map<Text, ScopeMetadata>, scope: Text) -> i32 {
    if scopes.contains_key(scope) {
        scopes[scope].order
    } else {
        i32::MAX
    }
}

pub open spec fn chosen_mode(skills: Map<Text, SkillSelection>, key: Text) -> Option<SelectionMode> {
    match selection_at(skills, key) {
        Some(s) => Some(selected_mode(s)),
        None => None,
    }
}

pub open spec fn chosen_ignore(skills: Map<Text, SkillSelection>, key: Text) -> bool {
    skills.contains_key(key) && selected_ignore(skills[key])
}

/// The record of a key where it has the current name.
pub open spec fn current_record(state: Map<Text, InstalledSkillView>, key: Text, name: Text) -> Option<InstalledSkillView> {
    if state.contains_key(key) && state[key].installed_name == name {
        Some(state[key])
    } else {
        None
    }
}

pub fn installed_name_is_current(installed: &InstalledSkill, desired_name: &str) -> (r: bool)
    ensures
        r == (installed.installed_name@ == desired_name@),
{
    same(installed.installed_name.as_str(), desired_name)
}

/// The row of a catalog skill.
pub open spec fn catalog_row(
    catalog: CatalogIndex,
    skill: CatalogSkillView,
    state: Map<Text, InstalledSkillView>,
    chosen: Map<Text, SkillSelection>,
    stale: Set<Text>,
) -> ConfigRowView {
    let alias = catalog.alias@;
    let key = key_of(alias, skill.name);
    let scope = scope_name(skill.scope);
    let order = walk(catalog.skills@.dom());
    let record = current_record(state, key, skill.installed_name);
    ConfigRowView {
        key,
        catalog: alias,
        scope,
        scope_order: order_of(catalog.metadata@.scopes, scope),
        name: skill.name,
        installed_name: skill.installed_name,
        description: skill.description,
        selected: chosen_mode(chosen, key),
        gitignore: chosen_ignore(chosen, key),
        installed: record is Some,
        installed_mode: match record {
            Some(r) => Some(r.mode),
            None => None,
        },
        required_by: ordered_texts(
            requiring(catalog.skills@, order, skill.name, order.len() as int),
        ),
        read_only: stale.contains(alias),
        status: if stale.contains(alias) {
            Some("stale"@)
        } else {
            None
        },
        sync: None,
        authoring: None,
        recommended_by: Seq::empty(),
        plan: Seq::empty(),
    }
}

fn build_row(
    catalog: &CatalogIndex,
    skill: &CatalogSkill,
    state: &InstalledState,
    manifest: &ProjectConfig,
    stale: &NameSet,
) -> (r: ConfigRow)
    ensures
        r@ == catalog_row(*catalog, skill@, state@.skills, manifest.skills@, stale@),
{
    let alias = catalog.alias.as_str();
    let key = cat3(alias, "/", skill.name.as_str());
    let scope = match &skill.scope {
        Some(s) => s.clone(),
        None => String::from_str("other"),
    };
    let scope_order: i32 = match catalog.metadata.scopes.get(scope.as_str()) {
        Some(m) => m.order,
        None => i32::MAX,
    };
    let selection = manifest.skills.get(key.as_str());
    let selected = match selection {
        Some(s) => Some(s.mode()),
        None => None,
    };
    let gitignore = match selection {
        Some(s) => s.gitignore(),
        None => false,
    };
    let installed_mode = match state.skills.get(key.as_str()) {
        Some(record) => if installed_name_is_current(record, skill.installed_name.as_str()) {
            Some(record.mode)
        } else {
            None
        },
        None => None,
    };
    let is_stale = stale.contains(alias);
    let recommended_by: Vec<String> = Vec::new();
    let plan: Vec<String> = Vec::new();
    assert(views(recommended_by@) =~= Seq::<Text>::empty());
    assert(views(plan@) =~= Seq::<Text>::empty());
    ConfigRow {
        key,
        catalog: catalog.alias.clone(),
        scope,
        scope_order,
        name: skill.name.clone(),
        installed_name: skill.installed_name.clone(),
        description: skill.description.clone(),
        selected,
        gitignore,
        installed: installed_mode.is_some(),
        installed_mode,
        required_by: required_by(&catalog.skills, skill.name.as_str()),
        read_only: is_stale,
        status: if is_stale {
            Some(String::from_str("stale"))
        } else {
            None
        },
        sync: None,
        authoring: None,
        recommended_by,
        plan,
    }
}

/// What the rows are made from.
pub struct RowInputs {
    pub state: Map<Text, InstalledSkillView>,
    pub chosen: Map<Text, SkillSelection>,
    pub stale: Set<Text>,
    pub global: bool,
}

/// The rows of the first `n` skills of a catalog that belong to the scope.
pub open spec fn skill_rows(x: RowInputs, catalog: CatalogIndex, n: int) -> Seq<ConfigRowView>
    decreases n,
{
    if n <= 0 {
        Seq::empty()
    } else {
        let front = skill_rows(x, catalog, n - 1);
        let skill = catalog.skills@[walk(catalog.skills@.dom())[n - 1]];
        if skill.global == x.global {
            front.push(catalog_row(catalog, skill@, x.state, x.chosen, x.stale))
        } else {
            front
        }
    }
}

/// The rows of the first `n` catalogs.
pub open spec fn catalog_rows(x: RowInputs, catalogs: Map<Text, CatalogIndex>, n: int) -> Seq<ConfigRowView>
    decreases n,
{
    if n <= 0 {
        Seq::empty()
    } else {
        let catalog = catalogs[walk(catalogs.dom())[n - 1]];
        catalog_rows(x, catalogs, n - 1) + skill_rows(
            x,
            catalog,
            walk(catalog.skills@.dom()).len() as int,
        )
    }
}

pub open spec fn has_row(rows: Seq<ConfigRowView>, key: Text) -> bool {
    exists|i: int| 0 <= i < rows.len() && (#[trigger] rows[i]).key == key
}

fn row_exists(rows: &Vec<ConfigRow>, key: &str) -> (r: bool)
    ensures
        r == has_row(config_views(rows@), key@),
{
    let ghost all = config_views(rows@);
    let mut i: usize = 0;
    while i < rows.len()
        invariant
            i <= rows@.len(),
            all == config_views(rows@),
            forall|j: int| 0 <= j < i ==> (#[trigger] all[j]).key != key@,
        decreases rows@.len() - i,
    {
        assert(all[i as int] == rows@[i as int]@);
        if same(rows[i].key.as_str(), key) {
            return true;
        }
        i = i + 1;
    }
    false
}

/// The row of a recorded skill with project changes whose catalog entry is gone.
pub open spec fn orphan_row(key: Text, installed: InstalledSkillView, chosen: Map<Text, SkillSelection>) -> ConfigRowView {
    ConfigRowView {
        key,
        catalog: cut(key, '/')->Some_0.0,
        scope: "other"@,
        scope_order: i32::MAX,
        name: cut(key, '/')->Some_0.1,
        installed_name: installed.installed_name,
        description: "Project override whose catalog entry is unavailable."@,
        selected: chosen_mode(chosen, key),
        gitignore: chosen_ignore(chosen, key),
        installed: true,
        installed_mode: Some(installed.mode),
        required_by: Seq::empty(),
        read_only: true,
        status: Some("orphaned"@),
        sync: Some(ProjectionStatus::OrphanedLocal),
        authoring: None,
        recommended_by: Seq::empty(),
        plan: Seq::empty(),
    }
}

pub open spec fn keeps_changes(status: ProjectionStatus) -> bool {
    status == ProjectionStatus::KeepLocal || status == ProjectionStatus::Conflict || status
        == ProjectionStatus::Unknown
}

/// The rows with those of the first `n` records that are orphaned.
pub open spec fn with_orphans(
    x: RowInputs,
    rows: Seq<ConfigRowView>,
    keys: Seq<Text>,
    statuses: Seq<ProjectionStatus>,
    n: int,
) -> Seq<ConfigRowView>
    decreases n,
{
    if n <= 0 {
        rows
    } else {
        let front = with_orphans(x, rows, keys, statuses, n - 1);
        let key = keys[n - 1];
        if !has_row(front, key) && keeps_changes(statuses[n - 1]) && cut(key, '/') is Some {
            front.push(orphan_row(key, x.state[key], x.chosen))
        } else {
            front
        }
    }
}

/// A row with the status of its projection, where it is recorded.
pub open spec fn with_status(row: ConfigRowView, keys: Seq<Text>, statuses: Seq<ProjectionStatus>) -> ConfigRowView {
    if keys.contains(row.key) {
        ConfigRowView { sync: Some(statuses[keys.index_of(row.key)]), ..row }
    } else {
        row
    }
}

/// The rows of a configuration. `orphans` holds the status of each recorded projection taken
/// by itself, `statuses` that against what is desired, both in key order.
pub open spec fn rows_of(
    x: RowInputs,
    catalogs: Map<Text, CatalogIndex>,
    project: bool,
    orphans: Seq<ProjectionStatus>,
    statuses: Seq<ProjectionStatus>,
) -> Seq<ConfigRowView> {
    let keys = walk(x.state.dom());
    let base = catalog_rows(x, catalogs, walk(catalogs.dom()).len() as int);
    let all = if project {
        with_orphans(x, base, keys, orphans, keys.len() as int)
    } else {
        base
    };
    let known = all.map_values(|r: ConfigRowView| with_status(r, keys, statuses));
    ordered_rows(known, known.len() as int)
}

pub open spec fn row_inputs(state: InstalledState, manifest: ProjectConfig, stale: Set<Text>, global: bool) -> RowInputs {
    RowInputs { state: state@.skills, chosen: manifest.skills@, stale, global }
}

fn add_catalog_rows(
    rows: &mut Vec<ConfigRow>,
    catalog: &CatalogIndex,
    state: &InstalledState,
    manifest: &ProjectConfig,
    stale: &NameSet,
    global: bool,
)
    ensures
        config_views(final(rows)@) == config_views(old(rows)@) + skill_rows(
            row_inputs(*state, *manifest, stale@, global),
            *catalog,
            walk(catalog.skills@.dom()).len() as int,
        ),
{
    let ghost x = row_inputs(*state, *manifest, stale@, global);
    let ghost start = config_views(rows@);
    let n: usize = catalog.skills.len();
    let ghost order = catalog.skills.names();
    proof {
        lemma_walk(order);
        assert(start + Seq::<ConfigRowView>::empty() =~= start);
    }
    let mut i: usize = 0;
    while i < n
        invariant
            i <= n == order.len(),
            order == catalog.skills.names(),
            order == walk(catalog.skills@.dom()),
            x == row_inputs(*state, *manifest, stale@, global),
            config_views(rows@) == start + skill_rows(x, *catalog, i as int),
        decreases n - i,
    {
        let skill = catalog.skills.value_at(i);
        if skill.global == global {
            let ghost earlier = rows@;
            let row = build_row(catalog, skill, state, manifest, stale);
            rows.push(row);
            assert(config_views(rows@) =~= config_views(earlier).push(row@));
            assert(config_views(rows@) =~= start + skill_rows(x, *catalog, i + 1));
        }
        i = i + 1;
    }
}

fn add_orphan_rows(
    rows: &mut Vec<ConfigRow>,
    state: &InstalledState,
    manifest: &ProjectConfig,
    stale: &NameSet,
    global: bool,
    orphans: &Vec<ProjectionStatus>,
)
    requires
        orphans@.len() == state.skills.names().len(),
    ensures
        config_views(final(rows)@) == with_orphans(
            row_inputs(*state, *manifest, stale@, global),
            config_views(old(rows)@),
            walk(state@.skills.dom()),
            orphans@,
            walk(state@.skills.dom()).len() as int,
        ),
{
    let ghost x = row_inputs(*state, *manifest, stale@, global);
    let ghost base = config_views(rows@);
    let n: usize = state.skills.len();
    let ghost keys = state.skills.names();
    proof {
        assert(x.state.dom() =~= state.skills@.dom());
        lemma_walk(keys);
    }
    let mut i: usize = 0;
    while i < n
        invariant
            i <= n == keys.len(),
            keys == state.skills.names(),
            orphans@.len() == n,
            x == row_inputs(*state, *manifest, stale@, global),
            config_views(rows@) == with_orphans(x, base, keys, orphans@, i as int),
        decreases n - i,
    {
        let key = state.skills.name_at(i);
        let installed = state.skills.value_at(i);
        assert(x.state[key@] == installed@);
        let status = orphans[i];
        let keeps = status == ProjectionStatus::KeepLocal || status == ProjectionStatus::Conflict
            || status == ProjectionStatus::Unknown;
        if keeps && !row_exists(rows, key.as_str()) {
            match split_once(key.as_str(), '/') {
                None => {},
                Some((catalog, name)) => {
                    let selection = manifest.skills.get(key.as_str());
                    let row = ConfigRow {
                        key: key.clone(),
                        catalog,
                        scope: String::from_str("other"),
                        scope_order: i32::MAX,
                        name,
                        installed_name: installed.installed_name.clone(),
                        description: String::from_str(
                            "Project override whose catalog entry is unavailable.",
                        ),
                        selected: match selection {
                            Some(s) => Some(s.mode()),
                            None => None,
                        },
                        gitignore: match selection {
                            Some(s) => s.gitignore(),
                            None => false,
                        },
                        installed: true,
                        installed_mode: Some(installed.mode),
                        required_by: Vec::new(),
                        read_only: true,
                        status: Some(String::from_str("orphaned")),
                        sync: Some(ProjectionStatus::OrphanedLocal),
                        authoring: None,
                        recommended_by: Vec::new(),
                        plan: Vec::new(),
                    };
                    let ghost earlier = rows@;
                    proof {
                        assert(views(row.required_by@) =~= Seq::<Text>::empty());
                        assert(views(row.recommended_by@) =~= Seq::<Text>::empty());
                        assert(views(row.plan@) =~= Seq::<Text>::empty());
                        assert(row@ == orphan_row(key@, installed@, x.chosen));
                    }
                    rows.push(row);
                    assert(config_views(rows@) =~= config_views(earlier).push(row@));
                },
            }
        }
        i = i + 1;
    }
}

fn add_statuses(rows: Vec<ConfigRow>, state: &InstalledState, statuses: &Vec<ProjectionStatus>) -> (r: Vec<ConfigRow>)
    requires
        statuses@.len() == state.skills.names().len(),
    ensures
        config_views(r@) == config_views(rows@).map_values(
            |row: ConfigRowView| with_status(row, walk(state@.skills.dom()), statuses@),
        ),
{
    let ghost all = config_views(rows@);
    let ghost keys = state.skills.names();
    let ghost total = rows@.len();
    let count: usize = state.skills.len();
    proof {
        assert(state@.skills.dom() =~= state.skills@.dom());
        lemma_walk(keys);
    }
    let ghost target = all.map_values(
        |row: ConfigRowView| with_status(row, walk(state@.skills.dom()), statuses@),
    );
    let mut rest = rows;
    let mut out: Vec<ConfigRow> = Vec::new();
    assert(all.skip(0) =~= all);
    while rest.len() > 0
        invariant
            out@.len() + rest@.len() == total,
            total == all.len() == target.len(),
            count == keys.len(),
            keys == state.skills.names(),
            state.skills.ordered(),
            keys == walk(state@.skills.dom()),
            statuses@.len() == count,
            target == all.map_values(
                |row: ConfigRowView| with_status(row, walk(state@.skills.dom()), statuses@),
            ),
            config_views(rest@) == all.skip(out@.len() as int),
            config_views(out@) == target.take(out@.len() as int),
        decreases rest@.len(),
    {
        let ghost left = rest@;
        let ghost done = out@.len() as int;
        let mut row = rest.remove(0);
        let ghost original = row@;
        proof {
            assert(config_views(left)[0] == all[done]);
            assert(config_views(rest@) =~= all.skip(done + 1)) by {
                assert forall|j: int| 0 <= j < rest@.len() implies config_views(rest@)[j] == all.skip(
                    done + 1,
                )[j] by {
                    assert(config_views(left)[j + 1] == all.skip(done)[j + 1]);
                }
            }
        }
        match state.skills.index_of(row.key.as_str()) {
            Some(at) => {
                row.sync = Some(statuses[at]);
                assert(keys.index_of(original.key) == at);
            },
            None => {
                assert(!keys.contains(original.key)) by {
                    if keys.contains(original.key) {
                        assert(keys.to_set().contains(original.key));
                    }
                }
            },
        }
        assert(row@ == with_status(original, keys, statuses@));
        let ghost earlier = out@;
        out.push(row);
        proof {
            assert(config_views(out@) =~= config_views(earlier).push(row@));
            assert(target.take(done + 1) =~= target.take(done).push(target[done]));
        }
    }
    assert(target.take(out@.len() as int) =~= target);
    out
}

/// The rows of the configuration: the skills of the scope in every catalog, then in project
/// scope what is installed with changes of its own and has no catalog entry any more.
pub fn config_rows(
    catalogs: &NameMap<CatalogIndex>,
    state: &InstalledState,
    manifest: &ProjectConfig,
    global: bool,
    project: bool,
    orphans: &Vec<ProjectionStatus>,
    statuses: &Vec<ProjectionStatus>,
    stale: &NameSet,
) -> (r: Vec<ConfigRow>)
    requires
        orphans@.len() == state.skills.names().len(),
        statuses@.len() == state.skills.names().len(),
    ensures
        config_views(r@) == rows_of(
            row_inputs(*state, *manifest, stale@, global),
            catalogs@,
            project,
            orphans@,
            statuses@,
        ),
{
    let ghost x = row_inputs(*state, *manifest, stale@, global);
    let mut rows: Vec<ConfigRow> = Vec::new();
    let n: usize = catalogs.len();
    let ghost order = catalogs.names();
    proof {
        lemma_walk(order);
        assert(config_views(rows@) =~= Seq::<ConfigRowView>::empty());
    }
    let mut i: usize = 0;
    while i < n
        invariant
            i <= n == order.len(),
            order == catalogs.names(),
            order == walk(catalogs@.dom()),
            x == row_inputs(*state, *manifest, stale@, global),
            config_views(rows@) == catalog_rows(x, catalogs@, i as int),
        decreases n - i,
    {
        add_catalog_rows(&mut rows, catalogs.value_at(i), state, manifest, stale, global);
        i = i + 1;
    }
    if project {
        add_orphan_rows(&mut rows, state, manifest, stale, global, orphans);
    }
    let known = add_statuses(rows, state, statuses);
    sort_rows(known)
}

/// Rows of the global scope show global skills only, and rows of a project none of them.
pub proof fn law_rows_partition_scopes(x: RowInputs, catalog: CatalogIndex, n: int, i: int)
    requires
        0 <= n <= walk(catalog.skills@.dom()).len(),
        0 <= i < skill_rows(x, catalog, n).len(),
    ensures
        exists|j: int|
            0 <= j < n && catalog.skills@[#[trigger] walk(catalog.skills@.dom())[j]].global == x.global
                && skill_rows(x, catalog, n)[i] == catalog_row(
                catalog,
                catalog.skills@[walk(catalog.skills@.dom())[j]]@,
                x.state,
                x.chosen,
                x.stale,
            ),
    decreases n,
{
    if n > 0 {
        let front = skill_rows(x, catalog, n - 1);
        let order = walk(catalog.skills@.dom());
        if i < front.len() {
            law_rows_partition_scopes(x, catalog, n - 1, i);
            let j = choose|j: int|
                0 <= j < n - 1 && catalog.skills@[#[trigger] order[j]].global == x.global && front[i]
                    == catalog_row(
                    catalog,
                    catalog.skills@[order[j]]@,
                    x.state,
                    x.chosen,
                    x.stale,
                );
            assert(skill_rows(x, catalog, n)[i] == front[i]);
            assert(catalog.skills@[order[j]].global == x.global);
        } else {
            assert(catalog.skills@[order[n - 1]].global == x.global);
        }
    }
}

// Selections.

/// Whether a row may be changed.
pub open spec fn is_editable(row: ConfigRowView) -> bool {
    !row.read_only && row.sync != Some(ProjectionStatus::KeepLocal) && row.sync != Some(
        ProjectionStatus::Conflict,
    ) && row.sync != Some(ProjectionStatus::OrphanedLocal) && row.sync != Some(
        ProjectionStatus::Unknown,
    )
}

pub fn row_editable(row: &ConfigRow) -> (r: bool)
    ensures
        r == is_editable(row@),
{
    if row.read_only {
        return false;
    }
    match row.sync {
        Some(ProjectionStatus::KeepLocal) => false,
        Some(ProjectionStatus::Conflict) => false,
        Some(ProjectionStatus::OrphanedLocal) => false,
        Some(ProjectionStatus::Unknown) => false,
        _ => true,
    }
}

/// The selections after a key went on by one: off, enabled, manual, off.
pub open spec fn cycled(skills: Map<Text, SkillSelection>, key: Text) -> Map<Text, SkillSelection> {
    match selection_at(skills, key) {
        None => skills.insert(key, selection_of(SelectionMode::Enable, false)),
        Some(s) => match selected_mode(s) {
            SelectionMode::Enable => skills.insert(
                key,
                selection_of(SelectionMode::Manual, selected_ignore(s)),
            ),
            SelectionMode::Manual => skills.remove(key),
        },
    }
}

pub fn cycle_selection(manifest: &mut ProjectConfig, key: &str)
    ensures
        final(manifest).skills@ == cycled(old(manifest).skills@, key@),
        final(manifest).version == old(manifest).version,
        final(manifest).agents@ == old(manifest).agents@,
{
    let now = match manifest.skills.get(key) {
        Some(s) => Some(*s),
        None => None,
    };
    match now {
        None => {
            manifest.skills.insert(
                key.to_owned(),
                SkillSelection::from_parts(SelectionMode::Enable, false),
            );
        },
        Some(s) => match s.mode() {
            SelectionMode::Enable => {
                manifest.skills.insert(
                    key.to_owned(),
                    SkillSelection::from_parts(SelectionMode::Manual, s.gitignore()),
                );
            },
            SelectionMode::Manual => {
                let _ = manifest.skills.remove(key);
            },
        },
    }
}

/// Three steps lead back: what was off is off again and was never stored as off, and the
/// selections of other keys stay.
pub proof fn law_cycle_returns(skills: Map<Text, SkillSelection>, key: Text, other: Text)
    requires
        !skills.contains_key(key),
        other != key,
    ensures
        cycled(skills, key).contains_key(key),
        selected_mode(cycled(skills, key)[key]) == SelectionMode::Enable,
        selected_mode(cycled(cycled(skills, key), key)[key]) == SelectionMode::Manual,
        cycled(cycled(cycled(skills, key), key), key) == skills,
        selection_at(cycled(skills, key), other) == selection_at(skills, other),
{
    assert(cycled(cycled(cycled(skills, key), key), key) =~= skills);
}

/// The selections after the ignore flag of a key was turned over.
pub open spec fn toggled(skills: Map<Text, SkillSelection>, key: Text) -> Map<Text, SkillSelection> {
    match selection_at(skills, key) {
        None => skills,
        Some(s) => skills.insert(key, selection_of(selected_mode(s), !selected_ignore(s))),
    }
}

/// Turns the ignore flag of a selected key over. The result says whether the key is selected.
pub fn toggle_gitignore(manifest: &mut ProjectConfig, key: &str) -> (r: bool)
    ensures
        r == old(manifest).skills@.contains_key(key@),
        final(manifest).skills@ == toggled(old(manifest).skills@, key@),
        final(manifest).version == old(manifest).version,
        final(manifest).agents@ == old(manifest).agents@,
{
    let now = match manifest.skills.get(key) {
        Some(s) => Some(*s),
        None => None,
    };
    match now {
        None => false,
        Some(s) => {
            manifest.skills.insert(
                key.to_owned(),
                SkillSelection::from_parts(s.mode(), !s.gitignore()),
            );
            true
        },
    }
}

/// Turning the flag over twice keeps the mode and the flag.
pub proof fn law_toggle_twice(skills: Map<Text, SkillSelection>, key: Text)
    requires
        skills.contains_key(key),
    ensures
        selected_mode(toggled(toggled(skills, key), key)[key]) == selected_mode(skills[key]),
        selected_ignore(toggled(toggled(skills, key), key)[key]) == selected_ignore(skills[key]),
        selected_ignore(toggled(skills, key)[key]) == !selected_ignore(skills[key]),
        toggled(toggled(skills, key), key).remove(key) == skills.remove(key),
{
    assert(toggled(toggled(skills, key), key).remove(key) =~= skills.remove(key));
}

/// What a state word asks for.
pub enum Wish {
    Choose(SelectionMode, bool),
    Off,
    Unknown,
}

pub open spec fn wish_of(state: Text, global: bool) -> Wish {
    if state == "enable"@ {
        Wish::Choose(SelectionMode::Enable, false)
    } else if state == "manual"@ {
        Wish::Choose(SelectionMode::Manual, false)
    } else if state == "enable-ignored"@ && !global {
        Wish::Choose(SelectionMode::Enable, true)
    } else if state == "manual-ignored"@ && !global {
        Wish::Choose(SelectionMode::Manual, true)
    } else if state == "off"@ {
        Wish::Off
    } else {
        Wish::Unknown
    }
}

pub open spec fn has_editable(rows: Seq<ConfigRowView>, key: Text) -> bool {
    exists|i: int| 0 <= i < rows.len() && (#[trigger] rows[i]).key == key && is_editable(rows[i])
}

/// Whether an assignment may name a key: an editable row has it, or it turns off a selection
/// that no row shows any more.
pub open spec fn may_assign(rows: Seq<ConfigRowView>, skills: Map<Text, SkillSelection>, key: Text, state: Text) -> bool {
    has_editable(rows, key) || (state == "off"@ && skills.contains_key(key) && !has_row(rows, key))
}

/// Whether one of the first `n` assignments names a key.
pub open spec fn names_before(assignments: Seq<Text>, key: Text, n: int) -> bool {
    exists|j: int|
        0 <= j < n && cut(#[trigger] assignments[j], '=') is Some && cut(
            assignments[j],
            '=',
        )->Some_0.0 == key
}

/// The selections after assignment `i`, or why it is refused.
pub open spec fn assigned(
    rows: Seq<ConfigRowView>,
    skills: Map<Text, SkillSelection>,
    assignments: Seq<Text>,
    i: int,
    global: bool,
) -> Result<Map<Text, SkillSelection>, Text> {
    match cut(assignments[i], '=') {
        None => Err(
            "invalid selection "@ + quoted_text(assignments[i])
                + "; expected catalog/name=STATE"@,
        ),
        Some((key, state)) => if !may_assign(rows, skills, key, state) {
            Err("skill is unavailable in this configuration: "@ + key)
        } else if names_before(assignments, key, i) {
            Err("duplicate skill selection: "@ + key)
        } else {
            match wish_of(state, global) {
                Wish::Choose(mode, ignored) => Ok(skills.insert(key, selection_of(mode, ignored))),
                Wish::Off => Ok(skills.remove(key)),
                Wish::Unknown => Err(
                    "invalid state for "@ + key + ": "@ + state
                        + "; expected enable, manual, enable-ignored, manual-ignored, or off"@,
                ),
            }
        },
    }
}

/// The selections after the first `n` assignments, up to the first that is refused, and why
/// that one is.
pub open spec fn assign_all(
    rows: Seq<ConfigRowView>,
    skills: Map<Text, SkillSelection>,
    assignments: Seq<Text>,
    global: bool,
    n: int,
) -> (Map<Text, SkillSelection>, Option<Text>)
    decreases n,
{
    if n <= 0 {
        (skills, None)
    } else {
        let (now, why) = assign_all(rows, skills, assignments, global, n - 1);
        if why is Some {
            (now, why)
        } else {
            match assigned(rows, now, assignments, n - 1, global) {
                Ok(next) => (next, None),
                Err(e) => (now, Some(e)),
            }
        }
    }
}

proof fn lemma_assign_stops(
    rows: Seq<ConfigRowView>,
    skills: Map<Text, SkillSelection>,
    assignments: Seq<Text>,
    global: bool,
    k: int,
    n: int,
)
    requires
        0 <= k <= n,
        assign_all(rows, skills, assignments, global, k).1 is Some,
    ensures
        assign_all(rows, skills, assignments, global, n) == assign_all(
            rows,
            skills,
            assignments,
            global,
            k,
        ),
    decreases n - k,
{
    if k < n {
        lemma_assign_stops(rows, skills, assignments, global, k, n - 1);
    }
}

fn editable_exists(rows: &Vec<ConfigRow>, key: &str) -> (r: bool)
    ensures
        r == has_editable(config_views(rows@), key@),
{
    let ghost all = config_views(rows@);
    let mut i: usize = 0;
    while i < rows.len()
        invariant
            i <= rows@.len(),
            all == config_views(rows@),
            forall|j: int|
                0 <= j < i ==> !((#[trigger] all[j]).key == key@ && is_editable(all[j])),
        decreases rows@.len() - i,
    {
        assert(all[i as int] == rows@[i as int]@);
        if same(rows[i].key.as_str(), key) && row_editable(&rows[i]) {
            return true;
        }
        i = i + 1;
    }
    false
}

fn named_before(assignments: &Vec<String>, key: &str, n: usize) -> (r: bool)
    requires
        n <= assignments@.len(),
    ensures
        r == names_before(views(assignments@), key@, n as int),
{
    let ghost all = views(assignments@);
    let mut j: usize = 0;
    while j < n
        invariant
            j <= n <= assignments@.len(),
            all == views(assignments@),
            forall|k: int|
                0 <= k < j ==> !(cut(#[trigger] all[k], '=') is Some && cut(all[k], '=')->Some_0.0
                    == key@),
        decreases n - j,
    {
        assert(all[j as int] == assignments@[j as int]@);
        match split_once(assignments[j].as_str(), '=') {
            Some((other, _)) => {
                if same(other.as_str(), key) {
                    return true;
                }
            },
            None => {},
        }
        j = j + 1;
    }
    false
}

/// Applies assignments of the form `catalog/name=STATE` in order, up to the first that is
/// refused.
pub fn apply_assignments(
    manifest: &mut ProjectConfig,
    rows: &Vec<ConfigRow>,
    assignments: &Vec<String>,
    global: bool,
) -> (r: Result<(), Failure>)
    ensures
        ({
            let end = assign_all(
                config_views(rows@),
                old(manifest).skills@,
                views(assignments@),
                global,
                assignments@.len() as int,
            );
            &&& final(manifest).skills@ == end.0
            &&& crate::failure::refusal(r) == end.1
            &&& final(manifest).version == old(manifest).version
            &&& final(manifest).agents@ == old(manifest).agents@
        }),
{
    let ghost start = manifest.skills@;
    let ghost shown = config_views(rows@);
    let ghost all = views(assignments@);
    let ghost total = assignments@.len() as int;
    let ghost version = manifest.version;
    let ghost agents = manifest.agents@;
    let mut i: usize = 0;
    while i < assignments.len()
        invariant
            i <= assignments@.len() == total,
            all == views(assignments@),
            shown == config_views(rows@),
            start == old(manifest).skills@,
            manifest.version == old(manifest).version,
            manifest.agents@ == old(manifest).agents@,
            assign_all(shown, start, all, global, i as int) == (
                manifest.skills@,
                None::<Text>,
            ),
        decreases assignments@.len() - i,
    {
        let assignment = assignments[i].as_str();
        let ghost now = manifest.skills@;
        assert(all[i as int] == assignment@);
        let (key, state) = match split_once(assignment, '=') {
            Some(parts) => parts,
            None => {
                let message = cat3(
                    "invalid selection ",
                    quoted(assignment).as_str(),
                    "; expected catalog/name=STATE",
                );
                proof {
                    assert(assign_all(shown, start, all, global, i + 1) == (now, Some(message@)));
                    lemma_assign_stops(shown, start, all, global, i + 1, total);
                }
                return Err(Failure::new(message));
            },
        };
        let retires = same(state.as_str(), "off") && manifest.skills.contains(key.as_str())
            && !row_exists(rows, key.as_str());
        if !editable_exists(rows, key.as_str()) && !retires {
            let message = cat2("skill is unavailable in this configuration: ", key.as_str());
            proof {
                assert(assign_all(shown, start, all, global, i + 1) == (now, Some(message@)));
                lemma_assign_stops(shown, start, all, global, i + 1, total);
            }
            return Err(Failure::new(message));
        }
        if named_before(assignments, key.as_str(), i) {
            let message = cat2("duplicate skill selection: ", key.as_str());
            proof {
                assert(assign_all(shown, start, all, global, i + 1) == (now, Some(message@)));
                lemma_assign_stops(shown, start, all, global, i + 1, total);
            }
            return Err(Failure::new(message));
        }
        let s = state.as_str();
        if same(s, "enable") {
            manifest.skills.insert(
                key,
                SkillSelection::from_parts(SelectionMode::Enable, false),
            );
        } else if same(s, "manual") {
            manifest.skills.insert(
                key,
                SkillSelection::from_parts(SelectionMode::Manual, false),
            );
        } else if same(s, "enable-ignored") && !global {
            manifest.skills.insert(
                key,
                SkillSelection::from_parts(SelectionMode::Enable, true),
            );
        } else if same(s, "manual-ignored") && !global {
            manifest.skills.insert(
                key,
                SkillSelection::from_parts(SelectionMode::Manual, true),
            );
        } else if same(s, "off") {
            let _ = manifest.skills.remove(key.as_str());
        } else {
            let mut message = cat4("invalid state for ", key.as_str(), ": ", s);
            message.append("; expected enable, manual, enable-ignored, manual-ignored, or off");
            proof {
                assert(assign_all(shown, start, all, global, i + 1) == (now, Some(message@)));
                lemma_assign_stops(shown, start, all, global, i + 1, total);
            }
            return Err(Failure::new(message));
        }
        i = i + 1;
    }
    Ok(())
}

/// A row that may not be changed is never changed by an assignment.
pub proof fn law_read_only_rows_stay(
    rows: Seq<ConfigRowView>,
    skills: Map<Text, SkillSelection>,
    assignments: Seq<Text>,
    global: bool,
    n: int,
    key: Text,
)
    requires
        has_row(rows, key),
        !has_editable(rows, key),
    ensures
        selection_at(assign_all(rows, skills, assignments, global, n).0, key) == selection_at(
            skills,
            key,
        ),
    decreases n,
{
    if n > 0 {
        law_read_only_rows_stay(rows, skills, assignments, global, n - 1, key);
    }
}

/// The parts of `key=state` are its key and its state.
proof fn lemma_assignment(key: Text, state: Text)
    requires
        !key.contains('='),
    ensures
        cut(key + seq!['='] + state, '=') == Some((key, state)),
{
    let whole = key + seq!['='] + state;
    let n = key.len() as int;
    assert forall|j: int| 0 <= j < n implies whole[j] != '=' by {
        assert(whole[j] == key[j]);
    }
    assert(whole[n] == '=');
    crate::text::lemma_find_char(whole, '=', n);
    assert(whole.take(n) =~= key);
    assert(whole.skip(n + 1) =~= state);
}

/// The state words are different words.
proof fn lemma_words()
    ensures
        "enable"@ != "manual"@,
        "enable"@ != "enable-ignored"@,
        "enable"@ != "manual-ignored"@,
        "enable"@ != "off"@,
        "manual"@ != "enable-ignored"@,
        "manual"@ != "manual-ignored"@,
        "manual"@ != "off"@,
        "enable-ignored"@ != "manual-ignored"@,
        "enable-ignored"@ != "off"@,
        "manual-ignored"@ != "off"@,
{
    reveal_strlit("enable");
    reveal_strlit("manual");
    reveal_strlit("enable-ignored");
    reveal_strlit("manual-ignored");
    reveal_strlit("off");
    assert("enable"@.len() == 6 && "manual"@.len() == 6 && "off"@.len() == 3);
    assert("enable-ignored"@.len() == 14 && "manual-ignored"@.len() == 14);
    assert("enable"@[0] == 'e' && "manual"@[0] == 'm');
    assert("enable-ignored"@[0] == 'e' && "manual-ignored"@[0] == 'm');
}

/// An assignment that nothing after it repeats decides its key.
proof fn lemma_assignment_stays(
    rows: Seq<ConfigRowView>,
    skills: Map<Text, SkillSelection>,
    assignments: Seq<Text>,
    global: bool,
    i: int,
    n: int,
)
    requires
        0 <= i < n <= assignments.len(),
        assign_all(rows, skills, assignments, global, n).1 is None,
    ensures
        cut(assignments[i], '=') is Some,
        assigned(
            rows,
            assign_all(rows, skills, assignments, global, i).0,
            assignments,
            i,
            global,
        ) is Ok,
        ({
            let key = cut(assignments[i], '=')->Some_0.0;
            selection_at(assign_all(rows, skills, assignments, global, n).0, key) == selection_at(
                assigned(
                    rows,
                    assign_all(rows, skills, assignments, global, i).0,
                    assignments,
                    i,
                    global,
                )->Ok_0,
                key,
            )
        }),
    decreases n,
{
    if i < n - 1 {
        lemma_assignment_stays(rows, skills, assignments, global, i, n - 1);
        let key = cut(assignments[i], '=')->Some_0.0;
        let last = cut(assignments[n - 1], '=')->Some_0.0;
        if last == key {
            assert(names_before(assignments, last, n - 1));
        }
    }
}

proof fn lemma_unnamed_stays(
    rows: Seq<ConfigRowView>,
    skills: Map<Text, SkillSelection>,
    assignments: Seq<Text>,
    global: bool,
    n: int,
    key: Text,
)
    requires
        0 <= n <= assignments.len(),
        forall|i: int|
            0 <= i < n && cut(#[trigger] assignments[i], '=') is Some ==> cut(
                assignments[i],
                '=',
            )->Some_0.0 != key,
    ensures
        selection_at(assign_all(rows, skills, assignments, global, n).0, key) == selection_at(
            skills,
            key,
        ),
    decreases n,
{
    if n > 0 {
        lemma_unnamed_stays(rows, skills, assignments, global, n - 1, key);
        let last = assignments[n - 1];
        assert(cut(last, '=') is Some ==> cut(last, '=')->Some_0.0 != key);
    }
}

/// After accepted assignments each named skill is as its state says: it is open to agents for
/// `enable` and `enable-ignored`, for people only for `manual` and `manual-ignored`, ignored for
/// the two last of each kind, and not selected for `off`.
pub proof fn law_states_mean_what_they_say(
    rows: Seq<ConfigRowView>,
    skills: Map<Text, SkillSelection>,
    assignments: Seq<Text>,
    global: bool,
    i: int,
    key: Text,
    state: Text,
)
    requires
        assign_all(rows, skills, assignments, global, assignments.len() as int).1 is None,
        0 <= i < assignments.len(),
        !key.contains('='),
        assignments[i] == key + seq!['='] + state,
    ensures
        ({
            let next = assign_all(rows, skills, assignments, global, assignments.len() as int).0;
            let mode = |m: SelectionMode|
                next.contains_key(key) && (next[key] == SkillSelection::Mode(m) || (
                next[key] matches SkillSelection::Detailed { mode, .. } && mode == m));
            let ignored = next.contains_key(key) && (
            next[key] matches SkillSelection::Detailed { gitignore, .. } && gitignore);
            &&& mode(SelectionMode::Enable) <==> state == "enable"@ || state == "enable-ignored"@
            &&& mode(SelectionMode::Manual) <==> state == "manual"@ || state == "manual-ignored"@
            &&& ignored <==> state == "enable-ignored"@ || state == "manual-ignored"@
            &&& !next.contains_key(key) <==> state == "off"@
            &&& global ==> !ignored
        }),
{
    lemma_assignment(key, state);
    lemma_words();
    lemma_assignment_stays(rows, skills, assignments, global, i, assignments.len() as int);
}

/// Assignments change nothing but the skills that they name.
pub proof fn law_other_selections_stay(
    rows: Seq<ConfigRowView>,
    skills: Map<Text, SkillSelection>,
    assignments: Seq<Text>,
    global: bool,
    key: Text,
)
    requires
        forall|i: int, state: Text|
            0 <= i < assignments.len() ==> #[trigger] assignments[i] != #[trigger] (key + seq!['=']
                + state),
    ensures
        ({
            let next = assign_all(rows, skills, assignments, global, assignments.len() as int).0;
            next.contains_key(key) == skills.contains_key(key) && (skills.contains_key(key)
                ==> next[key] == skills[key])
        }),
{
    assert forall|i: int| 0 <= i < assignments.len() && cut(
        #[trigger] assignments[i],
        '=',
    ) is Some implies cut(assignments[i], '=')->Some_0.0 != key by {
        let whole = assignments[i];
        let (found, state) = cut(whole, '=')->Some_0;
        if found == key {
            crate::text::lemma_find_char_bound(whole, '=');
            assert(whole =~= key + seq!['='] + state);
        }
    }
    lemma_unnamed_stays(rows, skills, assignments, global, assignments.len() as int, key);
}

/// One assignment is accepted exactly where its skill has a row that may be changed, or it turns
/// off a selection that no row shows, and its state is one that the scope knows.
pub proof fn law_one_assignment_is_accepted(
    rows: Seq<ConfigRowView>,
    skills: Map<Text, SkillSelection>,
    global: bool,
    key: Text,
    state: Text,
)
    requires
        !key.contains('='),
    ensures
        ({
            let free = exists|i: int|
                0 <= i < rows.len() && (#[trigger] rows[i]).key == key && !rows[i].read_only
                    && rows[i].sync != Some(ProjectionStatus::KeepLocal) && rows[i].sync != Some(
                    ProjectionStatus::Conflict,
                ) && rows[i].sync != Some(ProjectionStatus::OrphanedLocal) && rows[i].sync != Some(
                    ProjectionStatus::Unknown,
                );
            let shown = exists|i: int| 0 <= i < rows.len() && (#[trigger] rows[i]).key == key;
            let known = state == "enable"@ || state == "manual"@ || state == "off"@ || (!global && (
            state == "enable-ignored"@ || state == "manual-ignored"@));
            assign_all(rows, skills, seq![key + seq!['='] + state], global, 1).1 is None <==> known
                && (free || (state == "off"@ && skills.contains_key(key) && !shown))
        }),
{
    lemma_assignment(key, state);
    lemma_words();
    let list = seq![key + seq!['='] + state];
    assert(!names_before(list, key, 0));
    let free = exists|i: int|
        0 <= i < rows.len() && (#[trigger] rows[i]).key == key && !rows[i].read_only && rows[i].sync
            != Some(ProjectionStatus::KeepLocal) && rows[i].sync != Some(ProjectionStatus::Conflict)
            && rows[i].sync != Some(ProjectionStatus::OrphanedLocal) && rows[i].sync != Some(
            ProjectionStatus::Unknown,
        );
    assert(has_editable(rows, key) == free) by {
        if free {
            let i = choose|i: int|
                0 <= i < rows.len() && (#[trigger] rows[i]).key == key && !rows[i].read_only
                    && rows[i].sync != Some(ProjectionStatus::KeepLocal) && rows[i].sync != Some(
                    ProjectionStatus::Conflict,
                ) && rows[i].sync != Some(ProjectionStatus::OrphanedLocal) && rows[i].sync != Some(
                    ProjectionStatus::Unknown,
                );
            assert(rows[i].key == key && is_editable(rows[i]));
        }
    }
    assert(assign_all(rows, skills, list, global, 0) == (skills, None::<Text>));
    assert(list[0] == key + seq!['='] + state);
}

/// A key that is named twice is refused.
pub proof fn law_repeated_assignments_are_refused(
    rows: Seq<ConfigRowView>,
    skills: Map<Text, SkillSelection>,
    assignments: Seq<Text>,
    global: bool,
    i: int,
    j: int,
    key: Text,
    first: Text,
    second: Text,
)
    requires
        0 <= i < j < assignments.len(),
        !key.contains('='),
        assignments[i] == key + seq!['='] + first,
        assignments[j] == key + seq!['='] + second,
    ensures
        assign_all(rows, skills, assignments, global, assignments.len() as int).1 is Some,
{
    lemma_assignment(key, first);
    lemma_assignment(key, second);
    let n = assignments.len() as int;
    if assign_all(rows, skills, assignments, global, n).1 is None {
        lemma_assignment_stays(rows, skills, assignments, global, j, n);
        assert(cut(assignments[i], '=') is Some);
        assert(names_before(assignments, key, j));
    }
}

/// Turning a skill on by keys and turning it ignored touch nothing else: the mode goes from off
/// to enabled to manual to off, and the ignore flag stays until it is turned over.
pub proof fn law_keys_step_through_the_modes(
    skills: Map<Text, SkillSelection>,
    key: Text,
    mode: SelectionMode,
    gitignore: bool,
)
    requires
        skills.contains_key(key),
        skills[key] == SkillSelection::Mode(mode) && !gitignore || skills[key]
            == (SkillSelection::Detailed { mode, gitignore }),
    ensures
        mode == SelectionMode::Enable ==> {
            let next = cycled(skills, key);
            &&& next.contains_key(key)
            &&& next[key] == SkillSelection::Mode(SelectionMode::Manual) && !gitignore || next[key]
                == (SkillSelection::Detailed { mode: SelectionMode::Manual, gitignore })
        },
        mode == SelectionMode::Manual ==> !cycled(skills, key).contains_key(key),
        cycled(skills, key).remove(key) == skills.remove(key),
        toggled(skills, key).contains_key(key),
        toggled(skills, key)[key] == SkillSelection::Mode(mode) && gitignore || toggled(
            skills,
            key,
        )[key] == (SkillSelection::Detailed { mode, gitignore: !gitignore }),
        toggled(skills, key).remove(key) == skills.remove(key),
{
    assert(cycled(skills, key).remove(key) =~= skills.remove(key));
    assert(toggled(skills, key).remove(key) =~= skills.remove(key));
}

} // verus!
