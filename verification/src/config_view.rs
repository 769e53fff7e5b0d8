//! The lines of the configuration screen.

use vstd::prelude::*;
use crate::columns::{fit, fit_text, pad, pad_text, wrap, wrap_text};
use crate::config_report::{is_quiet, shows_authoring, sync_is_default};
use crate::config_tui::{
    at_least, at_most, divider, group_len, groups_of, normalize_state, normalized, row_under,
    scope_groups, tiles, ConfigScreen, ConfigTuiState, ScopeGroup, THREE_COLUMN_MIN_WIDTH,
    WIDE_LAYOUT_MIN_WIDTH,
};
use crate::config_ui::{config_views, is_editable, row_editable, ConfigRow, ConfigRowView};
use crate::model::{
    selected_ignore, selected_mode, EffectiveMode, ProjectConfig, SelectionMode, SkillSelection,
};
use crate::outside::{columns_of, text_columns, upper_text, uppercase};
use crate::reconcile::{status_label, ProjectionStatus};
use crate::resolve::selection_at;
use crate::text::{
    cat2, cat3, cat4, cat5, copy_list, decimal, decimal_of, join, joined, plural, same, views, Text,
};

verus! {

/// The selections, in contracts.
pub type Chosen = Map<Text, SkillSelection>;

fn push_text(list: &mut Vec<String>, text: String)
    ensures
        views(final(list)@) == views(old(list)@).push(text@),
{
    let ghost earlier = list@;
    list.push(text);
    assert(views(list@) =~= views(earlier).push(text@));
}

fn push_all(list: &mut Vec<String>, more: Vec<String>)
    ensures
        views(final(list)@) == views(old(list)@) + views(more@),
{
    let ghost earlier = list@;
    let ghost tail = more@;
    let mut rest = more;
    list.append(&mut rest);
    assert(views(list@) =~= views(earlier) + views(tail));
}

// What a row says.

pub open spec fn mode_words(mode: Option<SelectionMode>) -> Text {
    match mode {
        Some(SelectionMode::Enable) => "● Agent + Human"@,
        Some(SelectionMode::Manual) => "◎ Human"@,
        None => "○ Off"@,
    }
}

/// The mode of a selection.
pub open spec fn mode_at(skills: Chosen, key: Text) -> Option<SelectionMode> {
    match selection_at(skills, key) {
        Some(s) => Some(selected_mode(s)),
        None => None,
    }
}

pub open spec fn configured_text(skills: Chosen, key: Text) -> Text {
    mode_words(mode_at(skills, key)) + if skills.contains_key(key) && selected_ignore(skills[key]) {
        " · ignored"@
    } else {
        ""@
    }
}

pub fn configured_state(row: &ConfigRow, manifest: &ProjectConfig) -> (r: String)
    ensures
        r@ == configured_text(manifest.skills@, row.key@),
{
    let selection = manifest.skills.get(row.key.as_str());
    let words = match selection {
        Some(s) => match s.mode() {
            SelectionMode::Enable => "● Agent + Human",
            SelectionMode::Manual => "◎ Human",
        },
        None => "○ Off",
    };
    let ignored = match selection {
        Some(s) => s.gitignore(),
        None => false,
    };
    cat2(words, if ignored { " · ignored" } else { "" })
}

pub open spec fn required_text(row: ConfigRowView) -> Text {
    if row.required_by.len() == 0 {
        "None"@
    } else {
        "By "@ + join(row.required_by, ", "@)
    }
}

pub fn required_state(row: &ConfigRow) -> (r: String)
    ensures
        r@ == required_text(row@),
{
    if row.required_by.len() == 0 {
        String::from_str("None")
    } else {
        cat2("By ", joined(&row.required_by, ", ").as_str())
    }
}

pub open spec fn effective_words(mode: Option<EffectiveMode>) -> Text {
    match mode {
        Some(EffectiveMode::Enable) => "Agent + Human"@,
        Some(EffectiveMode::Manual) => "Human"@,
        Some(EffectiveMode::Dependency) => "Agent dependency"@,
        None => "Not installed"@,
    }
}

/// What is said of a projection: its status where it is not in sync, else that it is only
/// shown.
pub open spec fn sync_words(row: ConfigRowView) -> Seq<Text> {
    if !is_quiet(row.sync) {
        seq![status_label(row.sync->Some_0)]
    } else if row.read_only {
        match row.status {
            Some(s) => seq![upper_text(s)],
            None => seq!["Read-only"@],
        }
    } else {
        Seq::empty()
    }
}

pub open spec fn authoring_words(row: ConfigRowView) -> Seq<Text> {
    if row.authoring is Some && shows_authoring(row.sync) {
        seq!["Promote via "@ + row.authoring->Some_0]
    } else {
        Seq::empty()
    }
}

pub open spec fn installed_text(row: ConfigRowView) -> Text {
    let first = if row.installed {
        effective_words(row.installed_mode) + " as "@ + row.installed_name
    } else {
        effective_words(row.installed_mode)
    };
    join(seq![first] + sync_words(row) + authoring_words(row), " · "@)
}

pub fn installed_state(row: &ConfigRow) -> (r: String)
    ensures
        r@ == installed_text(row@),
{
    let effective = match row.installed_mode {
        Some(EffectiveMode::Enable) => "Agent + Human",
        Some(EffectiveMode::Manual) => "Human",
        Some(EffectiveMode::Dependency) => "Agent dependency",
        None => "Not installed",
    };
    let mut parts: Vec<String> = Vec::new();
    assert(views(parts@) =~= Seq::<Text>::empty());
    push_text(
        &mut parts,
        if row.installed {
            cat3(effective, " as ", row.installed_name.as_str())
        } else {
            effective.to_owned()
        },
    );
    let ghost first = views(parts@);
    match row.sync {
        Some(status) => {
            if status != ProjectionStatus::Synced {
                push_text(&mut parts, status.label().to_owned());
            } else if row.read_only {
                match &row.status {
                    Some(s) => push_text(&mut parts, uppercase(s.as_str())),
                    None => push_text(&mut parts, String::from_str("Read-only")),
                }
            }
        },
        None => {
            if row.read_only {
                match &row.status {
                    Some(s) => push_text(&mut parts, uppercase(s.as_str())),
                    None => push_text(&mut parts, String::from_str("Read-only")),
                }
            }
        },
    }
    assert(views(parts@) =~= first + sync_words(row@));
    let ghost second = views(parts@);
    let shows = match row.sync {
        Some(ProjectionStatus::KeepLocal) => true,
        Some(ProjectionStatus::Conflict) => true,
        Some(ProjectionStatus::OrphanedLocal) => true,
        _ => false,
    };
    match &row.authoring {
        Some(path) => {
            if shows {
                push_text(&mut parts, cat2("Promote via ", path.as_str()));
            }
        },
        None => {},
    }
    assert(views(parts@) =~= second + authoring_words(row@));
    joined(&parts, " · ")
}

/// The reasons of a recommendation.
pub open spec fn reason_text(row: ConfigRowView) -> Text {
    "By "@ + join(row.recommended_by, ", "@)
}

fn reason_words(row: &ConfigRow) -> (r: String)
    ensures
        r@ == reason_text(row@),
{
    cat2("By ", joined(&row.recommended_by, ", ").as_str())
}

/// The tree of what a skill brings along, where it is known.
pub open spec fn plan_section(row: ConfigRowView) -> Seq<Text> {
    if row.plan.len() == 0 {
        Seq::empty()
    } else {
        seq![Seq::empty(), "Plan"@] + row.plan
    }
}

pub open spec fn detail_text(row: ConfigRowView, width: usize) -> Seq<Text> {
    let base = seq!["Description"@] + wrap_text(row.description, width, 2) + plan_section(row)
        + seq![Seq::empty(), "Required"@] + wrap_text(required_text(row), width, 2) + seq![Seq::empty(), "Installed"@] + wrap_text(
        installed_text(row),
        width,
        2,
    );
    if row.recommended_by.len() == 0 {
        base
    } else {
        base + seq![Seq::empty(), "Recommended"@] + wrap_text(reason_text(row), width, 2)
    }
}

fn detail_lines(row: &ConfigRow, width: usize) -> (r: Vec<String>)
    ensures
        views(r@) == detail_text(row@, width),
{
    let mut lines: Vec<String> = Vec::new();
    assert(views(lines@) =~= Seq::<Text>::empty());
    push_text(&mut lines, String::from_str("Description"));
    assert(views(lines@) =~= seq!["Description"@]);
    push_all(&mut lines, wrap(row.description.as_str(), width, 2));
    let ghost first = views(lines@);
    assert(row@.plan.len() == row.plan@.len());
    if row.plan.len() > 0 {
        push_text(&mut lines, String::new());
        push_text(&mut lines, String::from_str("Plan"));
        push_all(&mut lines, copy_list(&row.plan));
    }
    assert(views(lines@) =~= first + plan_section(row@));
    let ghost a = views(lines@);
    push_text(&mut lines, String::new());
    push_text(&mut lines, String::from_str("Required"));
    assert(views(lines@) =~= a + seq![Seq::<char>::empty(), "Required"@]);
    push_all(&mut lines, wrap(required_state(row).as_str(), width, 2));
    let ghost b = views(lines@);
    push_text(&mut lines, String::new());
    push_text(&mut lines, String::from_str("Installed"));
    assert(views(lines@) =~= b + seq![Seq::<char>::empty(), "Installed"@]);
    push_all(&mut lines, wrap(installed_state(row).as_str(), width, 2));
    assert(row@.recommended_by.len() == row.recommended_by@.len());
    if row.recommended_by.len() > 0 {
        let ghost c = views(lines@);
        push_text(&mut lines, String::new());
        push_text(&mut lines, String::from_str("Recommended"));
        assert(views(lines@) =~= c + seq![Seq::<char>::empty(), "Recommended"@]);
        push_all(&mut lines, wrap(reason_words(row).as_str(), width, 2));
    }
    lines
}

/// What the stacked details say, before it is wrapped.
pub open spec fn stacked_parts(row: ConfigRowView) -> Seq<Text> {
    let base = seq![
        "Description: "@ + row.description,
        "Required: "@ + required_text(row),
        "Installed: "@ + installed_text(row),
    ];
    if row.recommended_by.len() == 0 {
        base
    } else {
        base.push("Recommended: "@ + reason_text(row))
    }
}

/// The first `n` parts, each in at most two lines.
pub open spec fn wrapped_parts(parts: Seq<Text>, width: usize, n: int) -> Seq<Text>
    decreases n,
{
    if n <= 0 {
        Seq::empty()
    } else {
        wrapped_parts(parts, width, n - 1) + wrap_text(parts[n - 1], width, 2)
    }
}

pub open spec fn stacked_text(row: ConfigRowView, width: usize) -> Seq<Text> {
    wrapped_parts(stacked_parts(row), width, stacked_parts(row).len() as int)
}

fn stacked_detail_lines(row: &ConfigRow, width: usize) -> (r: Vec<String>)
    ensures
        views(r@) == stacked_text(row@, width),
{
    let mut parts: Vec<String> = Vec::new();
    parts.push(cat2("Description: ", row.description.as_str()));
    parts.push(cat2("Required: ", required_state(row).as_str()));
    parts.push(cat2("Installed: ", installed_state(row).as_str()));
    assert(row@.recommended_by.len() == row.recommended_by@.len());
    if row.recommended_by.len() > 0 {
        parts.push(cat2("Recommended: ", reason_words(row).as_str()));
    }
    let ghost all = stacked_parts(row@);
    assert(views(parts@) =~= all);
    let mut lines: Vec<String> = Vec::new();
    assert(views(lines@) =~= Seq::<Text>::empty());
    let mut i: usize = 0;
    while i < parts.len()
        invariant
            i <= parts@.len(),
            all == views(parts@),
            views(lines@) == wrapped_parts(all, width, i as int),
        decreases parts@.len() - i,
    {
        assert(all[i as int] == parts@[i as int]@);
        push_all(&mut lines, wrap(parts[i].as_str(), width, 2));
        i = i + 1;
    }
    lines
}

// Aligned rows.

/// A marker, a label and at the right end a value of `columns` columns.
pub open spec fn aligned(marker: Text, label: Text, value: Text, columns: usize, width: usize) -> Text {
    if 4 + columns >= width {
        fit_text(marker + " "@ + label + "  "@ + value, width)
    } else {
        marker + " "@ + pad_text(label, (width - 4 - columns) as usize) + "  "@ + value
    }
}

/// Aligns a row whose value takes `columns` columns.
pub fn aligned_measured(marker: &str, label: &str, value: &str, columns: usize, width: usize) -> (r: String)
    ensures
        r@ == aligned(marker@, label@, value@, columns, width),
{
    if width <= 4 || columns >= width - 4 {
        fit(cat5(marker, " ", label, "  ", value).as_str(), width)
    } else {
        cat5(marker, " ", pad(label, width - 4 - columns).as_str(), "  ", value)
    }
}

pub open spec fn aligned_text(marker: Text, label: Text, value: Text, width: usize) -> Text {
    aligned(marker, label, value, text_columns(value), width)
}

fn aligned_row(marker: &str, label: &str, value: &str, width: usize) -> (r: String)
    ensures
        r@ == aligned_text(marker@, label@, value@, width),
{
    aligned_measured(marker, label, value, columns_of(value), width)
}

/// The name of a skill, with a star where it is recommended.
pub open spec fn marked_name(row: ConfigRowView) -> Text {
    if row.recommended_by.len() == 0 {
        row.name
    } else {
        row.name + " ★"@
    }
}

pub open spec fn skill_text(row: ConfigRowView, skills: Chosen, marker: Text, width: usize) -> Text {
    aligned_text(marker, marked_name(row), configured_text(skills, row.key), width)
}

fn skill_row(row: &ConfigRow, manifest: &ProjectConfig, marker: &str, width: usize) -> (r: String)
    ensures
        r@ == skill_text(row@, manifest.skills@, marker@, width),
{
    assert(row@.recommended_by.len() == row.recommended_by@.len());
    let name = if row.recommended_by.len() == 0 {
        row.name.clone()
    } else {
        cat2(row.name.as_str(), " ★")
    };
    aligned_row(marker, name.as_str(), configured_state(row, manifest).as_str(), width)
}

/// The marker of a position: whether it is the chosen one, and whether its list has the
/// focus.
pub open spec fn marker_text(chosen: bool, focused: bool) -> Text {
    if !chosen {
        " "@
    } else if focused {
        "›"@
    } else {
        "•"@
    }
}

fn marker(chosen: bool, focused: bool) -> (r: &'static str)
    ensures
        r@ == marker_text(chosen, focused),
{
    if !chosen {
        " "
    } else if focused {
        "›"
    } else {
        "•"
    }
}

// Scopes.

pub open spec fn all_modes(rows: Seq<ConfigRowView>, g: ScopeGroup, skills: Chosen, mode: Option<SelectionMode>) -> bool {
    forall|i: int| g.start <= i < g.end ==> mode_at(skills, (#[trigger] rows[i]).key) == mode
}

/// The common mode of a scope's skills.
pub open spec fn scope_mark(rows: Seq<ConfigRowView>, g: ScopeGroup, skills: Chosen) -> Text {
    if all_modes(rows, g, skills, Some(SelectionMode::Enable)) {
        "●"@
    } else if all_modes(rows, g, skills, Some(SelectionMode::Manual)) {
        "◎"@
    } else if all_modes(rows, g, skills, None) {
        "○"@
    } else {
        "◐"@
    }
}

fn has_mode(rows: &Vec<ConfigRow>, g: ScopeGroup, manifest: &ProjectConfig, mode: Option<SelectionMode>) -> (r: bool)
    requires
        g.start <= g.end <= rows@.len(),
    ensures
        r == all_modes(config_views(rows@), g, manifest.skills@, mode),
{
    let ghost all = config_views(rows@);
    let mut i: usize = g.start;
    while i < g.end
        invariant
            g.start <= i <= g.end <= rows@.len(),
            all == config_views(rows@),
            forall|j: int|
                g.start <= j < i ==> mode_at(manifest.skills@, (#[trigger] all[j]).key) == mode,
        decreases g.end - i,
    {
        assert(all[i as int] == rows@[i as int]@);
        let here = match manifest.skills.get(rows[i].key.as_str()) {
            Some(s) => Some(s.mode()),
            None => None,
        };
        let equal = match (here, mode) {
            (Some(a), Some(b)) => a == b,
            (None, None) => true,
            _ => false,
        };
        if !equal {
            assert(mode_at(manifest.skills@, all[i as int].key) != mode);
            return false;
        }
        i = i + 1;
    }
    true
}

fn scope_state_marker(rows: &Vec<ConfigRow>, g: ScopeGroup, manifest: &ProjectConfig) -> (r: &'static str)
    requires
        g.start <= g.end <= rows@.len(),
    ensures
        r@ == scope_mark(config_views(rows@), g, manifest.skills@),
{
    if has_mode(rows, g, manifest, Some(SelectionMode::Enable)) {
        "●"
    } else if has_mode(rows, g, manifest, Some(SelectionMode::Manual)) {
        "◎"
    } else if has_mode(rows, g, manifest, None) {
        "○"
    } else {
        "◐"
    }
}

/// How many of the rows from `start` up to `end` are selected.
pub open spec fn count_chosen(rows: Seq<ConfigRowView>, skills: Chosen, start: int, end: int) -> nat
    decreases end - start,
{
    if end <= start {
        0
    } else {
        count_chosen(rows, skills, start, end - 1) + if skills.contains_key(rows[end - 1].key) {
            1nat
        } else {
            0nat
        }
    }
}

fn count_configured(rows: &Vec<ConfigRow>, g: ScopeGroup, manifest: &ProjectConfig) -> (r: usize)
    requires
        g.start <= g.end <= rows@.len(),
    ensures
        r == count_chosen(config_views(rows@), manifest.skills@, g.start as int, g.end as int),
{
    let ghost all = config_views(rows@);
    let mut count: usize = 0;
    let mut i: usize = g.start;
    while i < g.end
        invariant
            g.start <= i <= g.end <= rows@.len(),
            all == config_views(rows@),
            count <= i - g.start,
            count == count_chosen(all, manifest.skills@, g.start as int, i as int),
        decreases g.end - i,
    {
        assert(all[i as int] == rows@[i as int]@);
        if manifest.skills.contains(rows[i].key.as_str()) {
            count = count + 1;
        }
        i = i + 1;
    }
    count
}

/// Whether all groups belong to one catalog.
pub open spec fn one_catalog(rows: Seq<ConfigRowView>, groups: Seq<ScopeGroup>) -> bool {
    forall|i: int|
        0 <= i < groups.len() ==> rows[(#[trigger] groups[i]).start as int].catalog
            == rows[groups[0].start as int].catalog
}

fn single_catalog(rows: &Vec<ConfigRow>, groups: &Vec<ScopeGroup>) -> (r: bool)
    requires
        tiles(groups@, rows@.len() as int),
    ensures
        r == one_catalog(config_views(rows@), groups@),
{
    let ghost all = config_views(rows@);
    let mut i: usize = 0;
    while i < groups.len()
        invariant
            i <= groups@.len(),
            tiles(groups@, rows@.len() as int),
            all == config_views(rows@),
            forall|j: int|
                0 <= j < i ==> all[(#[trigger] groups@[j]).start as int].catalog
                    == all[groups@[0].start as int].catalog,
        decreases groups@.len() - i,
    {
        assert(groups@[0].start < groups@[0].end <= rows@.len());
        assert(groups@[i as int].start < groups@[i as int].end <= rows@.len());
        let first: usize = groups[0].start;
        let here: usize = groups[i].start;
        assert(all[first as int] == rows@[first as int]@);
        assert(all[here as int] == rows@[here as int]@);
        if !same(rows[here].catalog.as_str(), rows[first].catalog.as_str()) {
            assert(all[groups@[i as int].start as int].catalog
                != all[groups@[0].start as int].catalog);
            return false;
        }
        i = i + 1;
    }
    true
}

/// Whether a skill of a scope is recommended.
pub open spec fn any_recommended(rows: Seq<ConfigRowView>, g: ScopeGroup) -> bool {
    exists|i: int| g.start <= i < g.end && (#[trigger] rows[i]).recommended_by.len() > 0
}

fn has_recommended(rows: &Vec<ConfigRow>, g: ScopeGroup) -> (r: bool)
    requires
        g.start <= g.end <= rows@.len(),
    ensures
        r == any_recommended(config_views(rows@), g),
{
    let ghost all = config_views(rows@);
    let mut i: usize = g.start;
    while i < g.end
        invariant
            g.start <= i <= g.end <= rows@.len(),
            all == config_views(rows@),
            forall|j: int| g.start <= j < i ==> (#[trigger] all[j]).recommended_by.len() == 0,
        decreases g.end - i,
    {
        assert(all[i as int] == rows@[i as int]@);
        assert(all[i as int].recommended_by.len() == rows@[i as int].recommended_by@.len());
        if rows[i].recommended_by.len() > 0 {
            return true;
        }
        i = i + 1;
    }
    false
}

/// The name of a scope, with its catalog where there are several, and with a star where one of
/// its skills is recommended.
pub open spec fn scope_label(rows: Seq<ConfigRowView>, g: ScopeGroup, single: bool) -> Text {
    let row = rows[g.start as int];
    let name = if single {
        "$"@ + row.scope
    } else {
        row.catalog + " / $"@ + row.scope
    };
    if any_recommended(rows, g) {
        name + " ★"@
    } else {
        name
    }
}

fn label_of(rows: &Vec<ConfigRow>, g: ScopeGroup, single: bool) -> (r: String)
    requires
        g.start < g.end <= rows@.len(),
    ensures
        r@ == scope_label(config_views(rows@), g, single),
{
    assert(config_views(rows@)[g.start as int] == rows@[g.start as int]@);
    let row = &rows[g.start];
    let name = if single {
        cat2("$", row.scope.as_str())
    } else {
        cat3(row.catalog.as_str(), " / $", row.scope.as_str())
    };
    if has_recommended(rows, g) {
        cat2(name.as_str(), " ★")
    } else {
        name
    }
}

/// The first position of a window of `capacity` that ends with the chosen one.
pub open spec fn tail_start(selected: int, capacity: int) -> int {
    at_least(selected - at_least(capacity - 1, 0), 0)
}

/// What the scope list shows of a scope.
pub open spec fn scope_value(rows: Seq<ConfigRowView>, skills: Chosen, g: ScopeGroup) -> Text {
    let n = (g.end - g.start) as nat;
    decimal(n) + " skill"@ + plural(n) + " · "@ + decimal(
        count_chosen(rows, skills, g.start as int, g.end as int),
    ) + " configured"@
}

pub open spec fn scope_lines(
    rows: Seq<ConfigRowView>,
    groups: Seq<ScopeGroup>,
    skills: Chosen,
    selected: int,
    width: usize,
    height: int,
) -> Seq<Text> {
    if groups.len() == 0 {
        seq![fit_text("No catalog skills are available."@, width)]
    } else {
        let capacity = at_least(height, 1);
        let start = tail_start(selected, capacity);
        let end = at_most(start + capacity, groups.len() as int);
        Seq::new(
            (end - start) as nat,
            |i: int|
                aligned_text(
                    marker_text(start + i == selected, true),
                    scope_label(rows, groups[start + i], one_catalog(rows, groups)),
                    scope_value(rows, skills, groups[start + i]),
                    width,
                ),
        )
    }
}

fn scope_body(
    rows: &Vec<ConfigRow>,
    groups: &Vec<ScopeGroup>,
    manifest: &ProjectConfig,
    selected: usize,
    width: usize,
    height: usize,
) -> (r: Vec<String>)
    requires
        tiles(groups@, rows@.len() as int),
        groups@.len() > 0 ==> selected < groups@.len(),
    ensures
        views(r@) == scope_lines(
            config_views(rows@),
            groups@,
            manifest.skills@,
            selected as int,
            width,
            height as int,
        ),
{
    let ghost all = config_views(rows@);
    let mut out: Vec<String> = Vec::new();
    assert(views(out@) =~= Seq::<Text>::empty());
    if groups.len() == 0 {
        push_text(&mut out, fit("No catalog skills are available.", width));
        assert(views(out@) =~= seq![fit_text("No catalog skills are available."@, width)]);
        return out;
    }
    let capacity: usize = if height > 1 {
        height
    } else {
        1
    };
    let start: usize = if selected > capacity - 1 {
        selected - (capacity - 1)
    } else {
        0
    };
    let end: usize = if groups.len() - start > capacity {
        start + capacity
    } else {
        groups.len()
    };
    let single = single_catalog(rows, groups);
    let ghost target = scope_lines(
        all,
        groups@,
        manifest.skills@,
        selected as int,
        width,
        height as int,
    );
    assert(target.take(0) =~= Seq::<Text>::empty());
    let mut i: usize = start;
    while i < end
        invariant
            start <= i <= end <= groups@.len(),
            tiles(groups@, rows@.len() as int),
            all == config_views(rows@),
            single == one_catalog(all, groups@),
            target == scope_lines(
                all,
                groups@,
                manifest.skills@,
                selected as int,
                width,
                height as int,
            ),
            groups@.len() > 0,
            start == tail_start(selected as int, at_least(height as int, 1)),
            end == at_most(start + at_least(height as int, 1), groups@.len() as int),
            views(out@) == target.take(i - start),
        decreases end - i,
    {
        let g = groups[i];
        assert(groups@[i as int].start < groups@[i as int].end <= rows@.len());
        let n: usize = g.end - g.start;
        let configured: usize = count_configured(rows, g, manifest);
        let mut value = cat4(
            decimal_of(n as u64).as_str(),
            " skill",
            if n == 1 { "" } else { "s" },
            " · ",
        );
        value.append(decimal_of(configured as u64).as_str());
        value.append(" configured");
        let line = aligned_row(
            marker(i == selected, true),
            label_of(rows, g, single).as_str(),
            value.as_str(),
            width,
        );
        push_text(&mut out, line);
        i = i + 1;
        assert(target.take(i - start) =~= target.take(i - start - 1).push(target[i - start - 1]));
    }
    assert(target.take(end - start) =~= target);
    out
}

// Skills.

pub open spec fn range_text(start: int, end: int, n: int) -> Text {
    "Skills  "@ + decimal((start + 1) as nat) + "–"@ + decimal(end as nat) + " of "@ + decimal(
        n as nat,
    )
}

fn range_of(start: usize, end: usize, n: usize) -> (r: String)
    requires
        start < usize::MAX,
    ensures
        r@ == range_text(start as int, end as int, n as int),
{
    let mut out = cat4(
        "Skills  ",
        decimal_of((start + 1) as u64).as_str(),
        "–",
        decimal_of(end as u64).as_str(),
    );
    out.append(" of ");
    out.append(decimal_of(n as u64).as_str());
    out
}

/// The rows of the skills of a group from `start` up to `end`.
pub open spec fn skill_lines(
    rows: Seq<ConfigRowView>,
    g: ScopeGroup,
    skills: Chosen,
    selected: int,
    focused: bool,
    start: int,
    end: int,
    width: usize,
) -> Seq<Text> {
    Seq::new(
        (end - start) as nat,
        |i: int|
            skill_text(
                rows[g.start + start + i],
                skills,
                marker_text(start + i == selected, focused),
                width,
            ),
    )
}

fn add_skill_lines(
    out: &mut Vec<String>,
    rows: &Vec<ConfigRow>,
    g: ScopeGroup,
    manifest: &ProjectConfig,
    selected: usize,
    focused: bool,
    start: usize,
    end: usize,
    width: usize,
)
    requires
        g.start <= g.end <= rows@.len(),
        start <= end <= g.end - g.start,
    ensures
        views(final(out)@) == views(old(out)@) + skill_lines(
            config_views(rows@),
            g,
            manifest.skills@,
            selected as int,
            focused,
            start as int,
            end as int,
            width,
        ),
{
    let ghost all = config_views(rows@);
    let ghost head = views(out@);
    let ghost target = skill_lines(
        all,
        g,
        manifest.skills@,
        selected as int,
        focused,
        start as int,
        end as int,
        width,
    );
    assert(head + target.take(0) =~= head);
    let mut i: usize = start;
    while i < end
        invariant
            start <= i <= end <= g.end - g.start,
            g.start <= g.end <= rows@.len(),
            all == config_views(rows@),
            target == skill_lines(
                all,
                g,
                manifest.skills@,
                selected as int,
                focused,
                start as int,
                end as int,
                width,
            ),
            views(out@) == head + target.take(i - start),
        decreases end - i,
    {
        let at: usize = g.start + i;
        assert(all[at as int] == rows@[at as int]@);
        push_text(out, skill_row(&rows[at], manifest, marker(i == selected, focused), width));
        i = i + 1;
        proof {
            assert(target.take(i - start) =~= target.take(i - start - 1).push(
                target[i - start - 1],
            ));
            assert(views(out@) =~= head + target.take(i - start));
        }
    }
    assert(target.take(end - start) =~= target);
}

/// A line of a column, or nothing where the column has ended.
pub open spec fn line_at(lines: Seq<Text>, i: int) -> Text {
    if 0 <= i < lines.len() {
        lines[i]
    } else {
        Seq::empty()
    }
}

fn line_of(lines: &Vec<String>, i: usize) -> (r: String)
    ensures
        r@ == line_at(views(lines@), i as int),
{
    if i < lines.len() {
        lines[i].clone()
    } else {
        String::new()
    }
}

/// The widths of the two columns of the wide layout.
pub open spec fn left_width(width: usize) -> int {
    at_least(at_least(width - text_columns(divider()), 0) / 2, 24)
}

pub open spec fn right_width(width: usize) -> int {
    at_least(width - (left_width(width) + text_columns(divider())), 1)
}

pub open spec fn wide_left(
    rows: Seq<ConfigRowView>,
    g: ScopeGroup,
    skills: Chosen,
    selected: int,
    width: usize,
    height: int,
) -> Seq<Text> {
    let n = g.end - g.start;
    let capacity = at_least(height - 1, 1);
    let start = tail_start(selected, capacity);
    let end = at_most(start + capacity, n);
    seq![fit_text(range_text(start, end, n), left_width(width) as usize)] + skill_lines(
        rows,
        g,
        skills,
        selected,
        true,
        start,
        end,
        left_width(width) as usize,
    )
}

pub open spec fn wide_lines(
    rows: Seq<ConfigRowView>,
    g: ScopeGroup,
    skills: Chosen,
    selected: int,
    width: usize,
    height: int,
) -> Seq<Text> {
    let left = wide_left(rows, g, skills, selected, width, height);
    let right = seq!["Details"@] + detail_text(
        rows[g.start + selected],
        right_width(width) as usize,
    );
    Seq::new(
        height as nat,
        |i: int|
            pad_text(line_at(left, i), left_width(width) as usize) + divider() + fit_text(
                line_at(right, i),
                right_width(width) as usize,
            ),
    )
}

fn wide_skill_body(
    rows: &Vec<ConfigRow>,
    g: ScopeGroup,
    manifest: &ProjectConfig,
    selected: usize,
    width: usize,
    height: usize,
) -> (r: Vec<String>)
    requires
        g.start <= g.end <= rows@.len(),
        selected < g.end - g.start,
    ensures
        views(r@) == wide_lines(
            config_views(rows@),
            g,
            manifest.skills@,
            selected as int,
            width,
            height as int,
        ),
{
    let ghost all = config_views(rows@);
    let bar: usize = columns_of(" │ ");
    let free: usize = if width > bar {
        width - bar
    } else {
        0
    };
    let half: usize = free / 2;
    let left_columns: usize = if half > 24 {
        half
    } else {
        24
    };
    let right_columns: usize = if free > left_columns && free - left_columns > 1 {
        free - left_columns
    } else {
        1
    };
    assert(left_columns == left_width(width));
    assert(right_columns == right_width(width));
    let n: usize = g.end - g.start;
    let capacity: usize = if height > 2 {
        height - 1
    } else {
        1
    };
    let start: usize = if selected > capacity - 1 {
        selected - (capacity - 1)
    } else {
        0
    };
    let end: usize = if n - start > capacity {
        start + capacity
    } else {
        n
    };
    let mut left: Vec<String> = Vec::new();
    assert(views(left@) =~= Seq::<Text>::empty());
    push_text(&mut left, fit(range_of(start, end, n).as_str(), left_columns));
    assert(views(left@) =~= seq![
        fit_text(range_text(start as int, end as int, n as int), left_columns),
    ]);
    add_skill_lines(&mut left, rows, g, manifest, selected, true, start, end, left_columns);
    let ghost lefts = wide_left(
        all,
        g,
        manifest.skills@,
        selected as int,
        width,
        height as int,
    );
    assert(views(left@) == lefts);
    let at: usize = g.start + selected;
    assert(all[at as int] == rows@[at as int]@);
    let mut right: Vec<String> = Vec::new();
    assert(views(right@) =~= Seq::<Text>::empty());
    push_text(&mut right, String::from_str("Details"));
    assert(views(right@) =~= seq!["Details"@]);
    push_all(&mut right, detail_lines(&rows[at], right_columns));
    let ghost target = wide_lines(
        all,
        g,
        manifest.skills@,
        selected as int,
        width,
        height as int,
    );
    let mut out: Vec<String> = Vec::new();
    let mut i: usize = 0;
    assert(target.take(0) =~= views(out@));
    while i < height
        invariant
            i <= height == target.len(),
            views(left@) == lefts,
            lefts == wide_left(
                all,
                g,
                manifest.skills@,
                selected as int,
                width,
                height as int,
            ),
            views(right@) == seq!["Details"@] + detail_text(
                all[g.start + selected],
                right_columns,
            ),
            left_columns == left_width(width),
            right_columns == right_width(width),
            target == wide_lines(
                all,
                g,
                manifest.skills@,
                selected as int,
                width,
                height as int,
            ),
            views(out@) == target.take(i as int),
        decreases height - i,
    {
        let a = pad(line_of(&left, i).as_str(), left_columns);
        let b = fit(line_of(&right, i).as_str(), right_columns);
        push_text(&mut out, cat3(a.as_str(), " │ ", b.as_str()));
        i = i + 1;
        assert(target.take(i as int) =~= target.take(i - 1).push(target[i - 1]));
    }
    assert(target.take(i as int) =~= target);
    out
}

pub open spec fn stacked_whole(
    rows: Seq<ConfigRowView>,
    g: ScopeGroup,
    skills: Chosen,
    selected: int,
    width: usize,
    height: int,
) -> Seq<Text> {
    let n = g.end - g.start;
    let budget: int = if height >= 10 {
        7
    } else {
        0
    };
    let capacity = at_least(height - (budget + 1), 1);
    let start = tail_start(selected, capacity);
    let end = at_most(start + capacity, n);
    let list = seq![fit_text(range_text(start, end, n), width)] + skill_lines(
        rows,
        g,
        skills,
        selected,
        true,
        start,
        end,
        width,
    );
    if budget > 0 {
        list + seq![fit_text("Details"@, width)] + stacked_text(rows[g.start + selected], width)
    } else {
        list
    }
}

pub open spec fn first_lines(lines: Seq<Text>, n: int) -> Seq<Text> {
    lines.take(at_most(n, lines.len() as int))
}

fn keep_lines(lines: &mut Vec<String>, n: usize)
    ensures
        views(final(lines)@) == first_lines(views(old(lines)@), n as int),
{
    let ghost earlier = lines@;
    if n < lines.len() {
        lines.truncate(n);
    }
    assert(views(lines@) =~= first_lines(views(earlier), n as int));
}

fn stacked_skill_body(
    rows: &Vec<ConfigRow>,
    g: ScopeGroup,
    manifest: &ProjectConfig,
    selected: usize,
    width: usize,
    height: usize,
) -> (r: Vec<String>)
    requires
        g.start <= g.end <= rows@.len(),
        selected < g.end - g.start,
    ensures
        views(r@) == first_lines(
            stacked_whole(
                config_views(rows@),
                g,
                manifest.skills@,
                selected as int,
                width,
                height as int,
            ),
            height as int,
        ),
{
    let ghost all = config_views(rows@);
    let budget: usize = if height >= 10 {
        7
    } else {
        0
    };
    let capacity: usize = if height > budget + 2 {
        height - (budget + 1)
    } else {
        1
    };
    let n: usize = g.end - g.start;
    let start: usize = if selected > capacity - 1 {
        selected - (capacity - 1)
    } else {
        0
    };
    let end: usize = if n - start > capacity {
        start + capacity
    } else {
        n
    };
    let mut lines: Vec<String> = Vec::new();
    assert(views(lines@) =~= Seq::<Text>::empty());
    push_text(&mut lines, fit(range_of(start, end, n).as_str(), width));
    assert(views(lines@) =~= seq![
        fit_text(range_text(start as int, end as int, n as int), width),
    ]);
    add_skill_lines(&mut lines, rows, g, manifest, selected, true, start, end, width);
    if budget > 0 {
        let ghost list = views(lines@);
        push_text(&mut lines, fit("Details", width));
        assert(views(lines@) =~= list + seq![fit_text("Details"@, width)]);
        let at: usize = g.start + selected;
        assert(all[at as int] == rows@[at as int]@);
        push_all(&mut lines, stacked_detail_lines(&rows[at], width));
    }
    keep_lines(&mut lines, height);
    lines
}

/// The skills of a scope on a screen without room for three columns.
pub open spec fn skill_body_lines(
    rows: Seq<ConfigRowView>,
    g: ScopeGroup,
    skills: Chosen,
    selected: int,
    width: usize,
    height: int,
) -> Seq<Text> {
    if height <= 0 {
        Seq::empty()
    } else if width >= WIDE_LAYOUT_MIN_WIDTH {
        wide_lines(rows, g, skills, selected, width, height)
    } else {
        first_lines(stacked_whole(rows, g, skills, selected, width, height), height)
    }
}

fn skill_body(
    rows: &Vec<ConfigRow>,
    g: ScopeGroup,
    manifest: &ProjectConfig,
    selected: usize,
    width: usize,
    height: usize,
) -> (r: Vec<String>)
    requires
        g.start <= g.end <= rows@.len(),
        selected < g.end - g.start,
    ensures
        views(r@) == skill_body_lines(
            config_views(rows@),
            g,
            manifest.skills@,
            selected as int,
            width,
            height as int,
        ),
{
    if height == 0 {
        let none: Vec<String> = Vec::new();
        assert(views(none@) =~= Seq::<Text>::empty());
        return none;
    }
    if width >= WIDE_LAYOUT_MIN_WIDTH {
        wide_skill_body(rows, g, manifest, selected, width, height)
    } else {
        stacked_skill_body(rows, g, manifest, selected, width, height)
    }
}

// Three columns.

/// The first position of a window of `capacity` around the chosen one.
pub open spec fn window_start(total: int, selected: int, capacity: int) -> int {
    at_most(at_least(selected - capacity / 2, 0), at_least(total - capacity, 0))
}

fn window_from(total: usize, selected: usize, capacity: usize) -> (r: usize)
    ensures
        r == window_start(total as int, selected as int, capacity as int),
{
    let half: usize = capacity / 2;
    let a: usize = if selected > half {
        selected - half
    } else {
        0
    };
    let b: usize = if total > capacity {
        total - capacity
    } else {
        0
    };
    if a < b {
        a
    } else {
        b
    }
}

/// What the dividers leave of the width.
pub open spec fn usable_width(width: usize) -> int {
    at_least(width - 2 * text_columns(divider()), 0)
}

pub open spec fn scope_width(width: usize) -> int {
    at_least(usable_width(width) * 28 / 100, 24)
}

pub open spec fn skill_width(width: usize) -> int {
    at_least(usable_width(width) * 34 / 100, 28)
}

pub open spec fn detail_width(width: usize) -> int {
    at_least(usable_width(width) - (scope_width(width) + skill_width(width)), 1)
}

/// The scopes from `start` up to `end` with their marks and counts.
pub open spec fn scope_column(
    rows: Seq<ConfigRowView>,
    groups: Seq<ScopeGroup>,
    skills: Chosen,
    state: ConfigTuiState,
    start: int,
    end: int,
    width: usize,
) -> Seq<Text> {
    Seq::new(
        (end - start) as nat,
        |i: int|
            {
                let g = groups[start + i];
                aligned_text(
                    marker_text(start + i == state.scope, state.screen == ConfigScreen::Scopes),
                    scope_mark(rows, g, skills) + " "@ + scope_label(
                        rows,
                        g,
                        one_catalog(rows, groups),
                    ),
                    decimal(count_chosen(rows, skills, g.start as int, g.end as int)) + "/"@
                        + decimal((g.end - g.start) as nat),
                    width,
                )
            },
    )
}

fn scope_list(
    rows: &Vec<ConfigRow>,
    groups: &Vec<ScopeGroup>,
    manifest: &ProjectConfig,
    state: ConfigTuiState,
    start: usize,
    end: usize,
    width: usize,
) -> (r: Vec<String>)
    requires
        tiles(groups@, rows@.len() as int),
        start <= end <= groups@.len(),
    ensures
        views(r@) == seq!["Scopes"@] + scope_column(
            config_views(rows@),
            groups@,
            manifest.skills@,
            state,
            start as int,
            end as int,
            width,
        ),
{
    let ghost all = config_views(rows@);
    let single = single_catalog(rows, groups);
    let ghost target = scope_column(
        all,
        groups@,
        manifest.skills@,
        state,
        start as int,
        end as int,
        width,
    );
    let ghost head = seq!["Scopes"@];
    let mut out: Vec<String> = Vec::new();
    assert(views(out@) =~= Seq::<Text>::empty());
    push_text(&mut out, String::from_str("Scopes"));
    assert(views(out@) =~= head + target.take(0));
    let focused = state.screen == ConfigScreen::Scopes;
    let mut i: usize = start;
    while i < end
        invariant
            start <= i <= end <= groups@.len(),
            tiles(groups@, rows@.len() as int),
            all == config_views(rows@),
            single == one_catalog(all, groups@),
            focused == (state.screen == ConfigScreen::Scopes),
            target == scope_column(
                all,
                groups@,
                manifest.skills@,
                state,
                start as int,
                end as int,
                width,
            ),
            views(out@) == head + target.take(i - start),
        decreases end - i,
    {
        let g = groups[i];
        assert(groups@[i as int].start < groups@[i as int].end <= rows@.len());
        let configured: usize = count_configured(rows, g, manifest);
        let n: usize = g.end - g.start;
        let label = cat3(
            scope_state_marker(rows, g, manifest),
            " ",
            label_of(rows, g, single).as_str(),
        );
        let value = cat3(
            decimal_of(configured as u64).as_str(),
            "/",
            decimal_of(n as u64).as_str(),
        );
        push_text(
            &mut out,
            aligned_row(
                marker(i == state.scope, focused),
                label.as_str(),
                value.as_str(),
                width,
            ),
        );
        i = i + 1;
        proof {
            assert(target.take(i - start) =~= target.take(i - start - 1).push(
                target[i - start - 1],
            ));
            assert(views(out@) =~= head + target.take(i - start));
        }
    }
    assert(target.take(end - start) =~= target);
    out
}

/// The columns of the widest layout: scopes, skills of the chosen scope, details of the
/// chosen skill.
pub open spec fn three_columns(
    rows: Seq<ConfigRowView>,
    groups: Seq<ScopeGroup>,
    skills: Chosen,
    state: ConfigTuiState,
    width: usize,
    height: int,
) -> (Seq<Text>, Seq<Text>, Seq<Text>) {
    let capacity = at_least(height - 1, 1);
    let g = groups[state.scope as int];
    let n = g.end - g.start;
    let scope_start = window_start(groups.len() as int, state.scope as int, capacity);
    let scope_end = at_most(scope_start + capacity, groups.len() as int);
    let skill_start = window_start(n, state.skill as int, capacity);
    let skill_end = at_most(skill_start + capacity, n);
    (
        seq!["Scopes"@] + scope_column(
            rows,
            groups,
            skills,
            state,
            scope_start,
            scope_end,
            scope_width(width) as usize,
        ),
        seq!["Skills · $"@ + rows[g.start as int].scope] + skill_lines(
            rows,
            g,
            skills,
            state.skill as int,
            state.screen == ConfigScreen::Skills,
            skill_start,
            skill_end,
            skill_width(width) as usize,
        ),
        seq!["Details"@] + detail_text(
            rows[g.start + state.skill],
            detail_width(width) as usize,
        ),
    )
}

pub open spec fn three_lines(
    rows: Seq<ConfigRowView>,
    groups: Seq<ScopeGroup>,
    skills: Chosen,
    state: ConfigTuiState,
    width: usize,
    height: int,
) -> Seq<Text> {
    let (scopes, names, details) = three_columns(rows, groups, skills, state, width, height);
    Seq::new(
        height as nat,
        |i: int|
            pad_text(line_at(scopes, i), scope_width(width) as usize) + divider() + pad_text(
                line_at(names, i),
                skill_width(width) as usize,
            ) + divider() + fit_text(line_at(details, i), detail_width(width) as usize),
    )
}

/// The widths of the three columns.
fn column_widths(width: usize) -> (r: (usize, usize, usize))
    ensures
        r.0 == scope_width(width),
        r.1 == skill_width(width),
        r.2 == detail_width(width),
{
    let bar: usize = columns_of(" │ ");
    let once: usize = if width > bar {
        width - bar
    } else {
        0
    };
    let usable: usize = if once > bar {
        once - bar
    } else {
        0
    };
    assert(usable == usable_width(width));
    let scope_part: usize = (usable as u128 * 28 / 100) as usize;
    let skill_part: usize = (usable as u128 * 34 / 100) as usize;
    let scope_columns: usize = if scope_part > 24 {
        scope_part
    } else {
        24
    };
    let skill_columns: usize = if skill_part > 28 {
        skill_part
    } else {
        28
    };
    let taken: usize = scope_columns + skill_columns;
    let detail_columns: usize = if usable > taken && usable - taken > 1 {
        usable - taken
    } else {
        1
    };
    assert(scope_columns == scope_width(width));
    assert(skill_columns == skill_width(width));
    assert(detail_columns == detail_width(width));
    (scope_columns, skill_columns, detail_columns)
}

fn three_column_body(
    rows: &Vec<ConfigRow>,
    groups: &Vec<ScopeGroup>,
    manifest: &ProjectConfig,
    state: ConfigTuiState,
    width: usize,
    height: usize,
) -> (r: Vec<String>)
    requires
        tiles(groups@, rows@.len() as int),
        state.scope < groups@.len(),
        state.skill < group_len(groups@, state.scope as int),
    ensures
        views(r@) == three_lines(
            config_views(rows@),
            groups@,
            manifest.skills@,
            state,
            width,
            height as int,
        ),
{
    let ghost all = config_views(rows@);
    let (scope_columns, skill_columns, detail_columns) = column_widths(width);
    let capacity: usize = if height > 2 {
        height - 1
    } else {
        1
    };
    let g = groups[state.scope];
    assert(groups@[state.scope as int].start < groups@[state.scope as int].end <= rows@.len());
    let n: usize = g.end - g.start;
    let scope_start: usize = window_from(groups.len(), state.scope, capacity);
    let scope_end: usize = if groups.len() - scope_start > capacity {
        scope_start + capacity
    } else {
        groups.len()
    };
    let skill_start: usize = window_from(n, state.skill, capacity);
    let skill_end: usize = if n - skill_start > capacity {
        skill_start + capacity
    } else {
        n
    };
    let scopes = scope_list(
        rows,
        groups,
        manifest,
        state,
        scope_start,
        scope_end,
        scope_columns,
    );
    let mut names: Vec<String> = Vec::new();
    assert(views(names@) =~= Seq::<Text>::empty());
    assert(all[g.start as int] == rows@[g.start as int]@);
    push_text(&mut names, cat2("Skills · $", rows[g.start].scope.as_str()));
    assert(views(names@) =~= seq!["Skills · $"@ + all[g.start as int].scope]);
    add_skill_lines(
        &mut names,
        rows,
        g,
        manifest,
        state.skill,
        state.screen == ConfigScreen::Skills,
        skill_start,
        skill_end,
        skill_columns,
    );
    let at: usize = g.start + state.skill;
    assert(all[at as int] == rows@[at as int]@);
    let mut details: Vec<String> = Vec::new();
    assert(views(details@) =~= Seq::<Text>::empty());
    push_text(&mut details, String::from_str("Details"));
    assert(views(details@) =~= seq!["Details"@]);
    push_all(&mut details, detail_lines(&rows[at], detail_columns));
    let ghost columns = three_columns(
        all,
        groups@,
        manifest.skills@,
        state,
        width,
        height as int,
    );
    proof {
        assert(views(scopes@) == columns.0);
        assert(views(names@) == columns.1);
        assert(views(details@) == columns.2);
    }
    let ghost target = three_lines(
        all,
        groups@,
        manifest.skills@,
        state,
        width,
        height as int,
    );
    let mut out: Vec<String> = Vec::new();
    let mut i: usize = 0;
    assert(target.take(0) =~= views(out@));
    while i < height
        invariant
            i <= height == target.len(),
            views(scopes@) == columns.0,
            views(names@) == columns.1,
            views(details@) == columns.2,
            columns == three_columns(
                all,
                groups@,
                manifest.skills@,
                state,
                width,
                height as int,
            ),
            scope_columns == scope_width(width),
            skill_columns == skill_width(width),
            detail_columns == detail_width(width),
            target == three_lines(
                all,
                groups@,
                manifest.skills@,
                state,
                width,
                height as int,
            ),
            views(out@) == target.take(i as int),
        decreases height - i,
    {
        let a = pad(line_of(&scopes, i).as_str(), scope_columns);
        let b = pad(line_of(&names, i).as_str(), skill_columns);
        let c = fit(line_of(&details, i).as_str(), detail_columns);
        push_text(&mut out, cat5(a.as_str(), " │ ", b.as_str(), " │ ", c.as_str()));
        i = i + 1;
        assert(target.take(i as int) =~= target.take(i - 1).push(target[i - 1]));
    }
    assert(target.take(i as int) =~= target);
    out
}

// Hints.

/// The actions that every screen has, before the hints of the screen.
pub open spec fn with_actions(cancel: Text, hints: Seq<Text>) -> Seq<Text> {
    seq!["[S] Save"@, cancel] + hints
}

/// The longer hints where they fit, else the shorter ones, else those with narrow gaps. The
/// actions come first, so that they stay where the rest is cut.
pub open spec fn hint_text(full: Seq<Text>, compact: Seq<Text>, width: usize) -> Text {
    let long = join(with_actions("[Q] Cancel"@, full), "  "@);
    let short = join(with_actions("[Q] Cancel"@, compact), "  "@);
    let tight = join(with_actions("[Q] ×"@, compact), " "@);
    if text_columns(long) <= width {
        long
    } else if text_columns(short) <= width {
        short
    } else if text_columns(tight) <= width {
        tight
    } else {
        fit_text(tight, width)
    }
}

fn add_actions(cancel: &str, hints: &Vec<String>) -> (r: Vec<String>)
    ensures
        views(r@) == with_actions(cancel@, views(hints@)),
{
    let mut out: Vec<String> = Vec::new();
    out.push(String::from_str("[S] Save"));
    out.push(cancel.to_owned());
    let mut rest = copy_list(hints);
    let ghost first = out@;
    out.append(&mut rest);
    assert(out@ == first + hints@);
    assert(views(out@) =~= with_actions(cancel@, views(hints@)));
    out
}

fn fit_hint(full: &Vec<String>, compact: &Vec<String>, width: usize) -> (r: String)
    ensures
        r@ == hint_text(views(full@), views(compact@), width),
{
    let long = joined(&add_actions("[Q] Cancel", full), "  ");
    if columns_of(long.as_str()) <= width {
        return long;
    }
    let short = joined(&add_actions("[Q] Cancel", compact), "  ");
    if columns_of(short.as_str()) <= width {
        return short;
    }
    let tight = joined(&add_actions("[Q] ×", compact), " ");
    if columns_of(tight.as_str()) <= width {
        tight
    } else {
        fit(tight.as_str(), width)
    }
}

/// The hints of the scope list.
pub open spec fn scope_hints(any: bool) -> Seq<Text> {
    if any {
        seq!["[↑/↓] Navigate"@, "[Enter] Open"@]
    } else {
        Seq::empty()
    }
}

/// The hints of the skill list.
pub open spec fn skill_hints(editable: bool, ignorable: bool) -> Seq<Text> {
    let first = seq!["[↑/↓] Navigate"@];
    let second = if editable {
        first.push("[Space] Mode"@)
    } else {
        first
    };
    let third = if editable && ignorable {
        second.push("[I] Git-ignore"@)
    } else {
        second
    };
    third.push("[Esc] Scopes"@)
}

pub open spec fn compact_hints(editable: bool, ignorable: bool) -> Seq<Text> {
    let first = if editable {
        seq!["[Space] Mode"@]
    } else {
        Seq::empty()
    };
    let second = if editable && ignorable {
        first.push("[I] Ignore"@)
    } else {
        first
    };
    second.push("[Esc] Scopes"@)
}

pub open spec fn hint_line(
    rows: Seq<ConfigRowView>,
    groups: Seq<ScopeGroup>,
    skills: Chosen,
    global: bool,
    state: ConfigTuiState,
    width: usize,
) -> Text {
    match state.screen {
        ConfigScreen::Scopes => hint_text(
            scope_hints(groups.len() > 0),
            seq!["[Enter] Open"@],
            width,
        ),
        ConfigScreen::Skills => {
            let row = row_under(groups, state);
            let editable = row is Some && is_editable(rows[row->Some_0]);
            let ignorable = !global && row is Some && skills.contains_key(rows[row->Some_0].key);
            hint_text(
                skill_hints(editable, ignorable),
                compact_hints(editable, ignorable),
                width,
            )
        },
    }
}

/// The line of hints at the bottom of the screen.
pub fn key_hint(
    rows: &Vec<ConfigRow>,
    groups: &Vec<ScopeGroup>,
    manifest: &ProjectConfig,
    global: bool,
    state: ConfigTuiState,
    width: usize,
) -> (r: String)
    requires
        tiles(groups@, rows@.len() as int),
    ensures
        r@ == hint_line(config_views(rows@), groups@, manifest.skills@, global, state, width),
{
    let ghost all = config_views(rows@);
    let mut full: Vec<String> = Vec::new();
    let mut compact: Vec<String> = Vec::new();
    match state.screen {
        ConfigScreen::Scopes => {
            if groups.len() > 0 {
                full.push(String::from_str("[↑/↓] Navigate"));
                full.push(String::from_str("[Enter] Open"));
            }
            compact.push(String::from_str("[Enter] Open"));
            proof {
                assert(views(full@) =~= scope_hints(groups@.len() > 0));
                assert(views(compact@) =~= seq!["[Enter] Open"@]);
            }
        },
        ConfigScreen::Skills => {
            let row = if state.scope < groups.len() {
                assert(groups@[state.scope as int].start < groups@[state.scope as int].end
                    <= rows@.len());
                let g = groups[state.scope];
                if state.skill < g.end - g.start {
                    Some(g.start + state.skill)
                } else {
                    None
                }
            } else {
                None
            };
            let editable = match row {
                Some(i) => {
                    assert(all[i as int] == rows@[i as int]@);
                    row_editable(&rows[i])
                },
                None => false,
            };
            let ignorable = match row {
                Some(i) => {
                    assert(all[i as int] == rows@[i as int]@);
                    !global && manifest.skills.contains(rows[i].key.as_str())
                },
                None => false,
            };
            full.push(String::from_str("[↑/↓] Navigate"));
            if editable {
                full.push(String::from_str("[Space] Mode"));
                compact.push(String::from_str("[Space] Mode"));
                if ignorable {
                    full.push(String::from_str("[I] Git-ignore"));
                    compact.push(String::from_str("[I] Ignore"));
                }
            }
            full.push(String::from_str("[Esc] Scopes"));
            compact.push(String::from_str("[Esc] Scopes"));
            proof {
                assert(views(full@) =~= skill_hints(editable, ignorable));
                assert(views(compact@) =~= compact_hints(editable, ignorable));
            }
        },
    }
    fit_hint(&full, &compact, width)
}

// The screen.

pub open spec fn base_title(global: bool) -> Text {
    if global {
        "Skiller · Global Skills"@
    } else {
        "Skiller · Project Skills"@
    }
}

pub open spec fn title_text(rows: Seq<ConfigRowView>, groups: Seq<ScopeGroup>, global: bool, state: ConfigTuiState) -> Text {
    if state.screen == ConfigScreen::Skills && state.scope < groups.len() {
        base_title(global) + " · $"@ + rows[groups[state.scope as int].start as int].scope
    } else {
        base_title(global)
    }
}

pub open spec fn count_attention(rows: Seq<ConfigRowView>, n: int) -> nat
    decreases n,
{
    if n <= 0 {
        0
    } else {
        count_attention(rows, n - 1) + if is_quiet(rows[n - 1].sync) {
            0nat
        } else {
            1nat
        }
    }
}

pub open spec fn summary_text(rows: Seq<ConfigRowView>, groups: Seq<ScopeGroup>, skills: Chosen) -> Text {
    decimal(groups.len()) + " scopes · "@ + decimal(rows.len()) + " skills · "@ + decimal(
        skills.dom().len(),
    ) + " configured · "@ + decimal(count_attention(rows, rows.len() as int)) + " attention"@
}

fn summary_line(rows: &Vec<ConfigRow>, groups: &Vec<ScopeGroup>, manifest: &ProjectConfig) -> (r: String)
    ensures
        r@ == summary_text(config_views(rows@), groups@, manifest.skills@),
{
    let ghost all = config_views(rows@);
    let mut attention: usize = 0;
    let mut i: usize = 0;
    while i < rows.len()
        invariant
            i <= rows@.len(),
            all == config_views(rows@),
            attention <= i,
            attention == count_attention(all, i as int),
        decreases rows@.len() - i,
    {
        assert(all[i as int] == rows@[i as int]@);
        if !sync_is_default(rows[i].sync) {
            attention = attention + 1;
        }
        i = i + 1;
    }
    let chosen: usize = manifest.skills.len();
    proof {
        manifest.skills.names().unique_seq_to_set();
    }
    let mut out = cat4(
        decimal_of(groups.len() as u64).as_str(),
        " scopes · ",
        decimal_of(rows.len() as u64).as_str(),
        " skills · ",
    );
    out.append(decimal_of(chosen as u64).as_str());
    out.append(" configured · ");
    out.append(decimal_of(attention as u64).as_str());
    out.append(" attention");
    out
}

/// The lines between the header and the hints.
pub open spec fn body_lines(
    rows: Seq<ConfigRowView>,
    groups: Seq<ScopeGroup>,
    skills: Chosen,
    state: ConfigTuiState,
    width: usize,
    height: int,
) -> Seq<Text> {
    if width >= THREE_COLUMN_MIN_WIDTH && groups.len() > 0 {
        three_lines(rows, groups, skills, state, width, height)
    } else if state.screen == ConfigScreen::Scopes {
        scope_lines(rows, groups, skills, state.scope as int, width, height)
    } else {
        skill_body_lines(
            rows,
            groups[state.scope as int],
            skills,
            state.skill as int,
            width,
            height,
        )
    }
}

/// `n` empty lines.
pub open spec fn empty_lines(n: int) -> Seq<Text> {
    Seq::new(at_least(n, 0) as nat, |i: int| Seq::empty())
}

/// The lines of the header and of the hints on a screen of more than one line.
pub open spec fn header_height(height: int) -> int {
    if height >= 4 {
        2
    } else {
        1
    }
}

pub open spec fn footer_height(height: int) -> int {
    if height >= 3 {
        1
    } else {
        0
    }
}

/// The lines that are left for the body.
pub open spec fn body_height(height: int) -> int {
    height - header_height(height) - footer_height(height)
}

/// The parts of the screen in `height` lines.
pub open spec fn assembled(title: Text, summary: Text, body: Seq<Text>, hint: Text, height: int) -> Seq<Text> {
    if height == 1 {
        seq![title]
    } else {
        let head = if header_height(height) == 2 {
            seq![title, summary]
        } else {
            seq![title]
        };
        let shown = first_lines(body, body_height(height));
        let filled = head + shown + empty_lines(
            height - footer_height(height) - head.len() - shown.len(),
        );
        if footer_height(height) == 1 {
            filled.push(hint)
        } else {
            filled
        }
    }
}

/// The lines of a screen of at least one column and one line.
pub open spec fn screen_lines(
    rows: Seq<ConfigRowView>,
    skills: Chosen,
    global: bool,
    position: ConfigTuiState,
    width: usize,
    height: int,
) -> Seq<Text> {
    let groups = groups_of(rows, rows.len() as int);
    let state = normalized(groups, position);
    assembled(
        fit_text(title_text(rows, groups, global, state), width),
        fit_text(summary_text(rows, groups, skills), width),
        body_lines(rows, groups, skills, state, width, body_height(height)),
        fit_text(hint_line(rows, groups, skills, global, state, width), width),
        height,
    )
}

fn screen_body(
    rows: &Vec<ConfigRow>,
    groups: &Vec<ScopeGroup>,
    manifest: &ProjectConfig,
    state: ConfigTuiState,
    width: usize,
    height: usize,
) -> (r: Vec<String>)
    requires
        tiles(groups@, rows@.len() as int),
        groups@.len() > 0 ==> state.scope < groups@.len() && state.skill < group_len(
            groups@,
            state.scope as int,
        ),
        groups@.len() == 0 ==> state.screen == ConfigScreen::Scopes,
    ensures
        views(r@) == body_lines(
            config_views(rows@),
            groups@,
            manifest.skills@,
            state,
            width,
            height as int,
        ),
{
    if width >= THREE_COLUMN_MIN_WIDTH && groups.len() > 0 {
        three_column_body(rows, groups, manifest, state, width, height)
    } else {
        match state.screen {
            ConfigScreen::Scopes => scope_body(
                rows,
                groups,
                manifest,
                state.scope,
                width,
                height,
            ),
            ConfigScreen::Skills => {
                assert(groups@[state.scope as int].start < groups@[state.scope as int].end
                    <= rows@.len());
                skill_body(rows, groups[state.scope], manifest, state.skill, width, height)
            },
        }
    }
}

fn fill_lines(lines: &mut Vec<String>, n: usize)
    requires
        old(lines)@.len() <= n,
    ensures
        final(lines)@.len() == n,
        views(final(lines)@) == views(old(lines)@) + empty_lines(n - old(lines)@.len()),
{
    let ghost start = views(lines@);
    assert(start + empty_lines(0) =~= start);
    while lines.len() < n
        invariant
            start.len() <= lines@.len() <= n,
            views(lines@) == start + empty_lines(lines@.len() - start.len()),
        decreases n - lines@.len(),
    {
        let ghost k = lines@.len() - start.len();
        push_text(lines, String::new());
        assert(views(lines@).len() == lines@.len());
        assert(views(lines@) =~= start + empty_lines(k + 1)) by {
            assert(empty_lines(k + 1) =~= empty_lines(k).push(Seq::<char>::empty()));
        }
    }
}

fn title_of(rows: &Vec<ConfigRow>, groups: &Vec<ScopeGroup>, global: bool, state: ConfigTuiState) -> (r: String)
    requires
        tiles(groups@, rows@.len() as int),
    ensures
        r@ == title_text(config_views(rows@), groups@, global, state),
{
    let base = if global {
        "Skiller · Global Skills"
    } else {
        "Skiller · Project Skills"
    };
    if state.screen == ConfigScreen::Skills && state.scope < groups.len() {
        assert(groups@[state.scope as int].start < groups@[state.scope as int].end <= rows@.len());
        let first: usize = groups[state.scope].start;
        assert(config_views(rows@)[first as int] == rows@[first as int]@);
        cat3(base, " · $", rows[first].scope.as_str())
    } else {
        base.to_owned()
    }
}

fn assemble(title: String, summary: String, body: Vec<String>, hint: String, height: usize) -> (r: Vec<String>)
    requires
        height > 1,
    ensures
        views(r@) == assembled(title@, summary@, views(body@), hint@, height as int),
        r@.len() == height,
{
    let ghost first = title@;
    let ghost second = summary@;
    let mut lines: Vec<String> = Vec::new();
    assert(views(lines@) =~= Seq::<Text>::empty());
    push_text(&mut lines, title);
    assert(views(lines@) =~= seq![first]);
    let footer: usize = if height >= 3 {
        1
    } else {
        0
    };
    let header: usize = if height >= 4 {
        2
    } else {
        1
    };
    let room: usize = height - header - footer;
    if header == 2 {
        push_text(&mut lines, summary);
        assert(views(lines@) =~= seq![first, second]);
    }
    let ghost head = views(lines@);
    let mut body = body;
    keep_lines(&mut body, room);
    let ghost shown = views(body@);
    push_all(&mut lines, body);
    assert(views(lines@).len() == lines@.len());
    fill_lines(&mut lines, height - footer);
    if footer == 1 {
        push_text(&mut lines, hint);
    }
    assert(views(lines@).len() == lines@.len());
    lines
}

/// The lines of the screen.
pub fn view_lines(
    rows: &Vec<ConfigRow>,
    manifest: &ProjectConfig,
    global: bool,
    position: ConfigTuiState,
    width: usize,
    height: usize,
) -> (r: Vec<String>)
    ensures
        views(r@) == screen_lines(
            config_views(rows@),
            manifest.skills@,
            global,
            position,
            at_least(width as int, 1) as usize,
            at_least(height as int, 1),
        ),
        r@.len() == at_least(height as int, 1),
{
    let width: usize = if width > 1 {
        width
    } else {
        1
    };
    let height: usize = if height > 1 {
        height
    } else {
        1
    };
    let groups = scope_groups(rows);
    let state = normalize_state(&groups, position);
    let title = fit(title_of(rows, &groups, global, state).as_str(), width);
    if height == 1 {
        let mut lines: Vec<String> = Vec::new();
        lines.push(title);
        assert(views(lines@) =~= seq![title@]);
        return lines;
    }
    let footer: usize = if height >= 3 {
        1
    } else {
        0
    };
    let header: usize = if height >= 4 {
        2
    } else {
        1
    };
    let room: usize = height - header - footer;
    assert(room == body_height(height as int));
    let summary = fit(summary_line(rows, &groups, manifest).as_str(), width);
    let body = screen_body(rows, &groups, manifest, state, width, room);
    let hint = fit(key_hint(rows, &groups, manifest, global, state, width).as_str(), width);
    assemble(title, summary, body, hint, height)
}

} // verus!
