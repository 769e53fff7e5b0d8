//! What stands where on the configuration screen.

use vstd::prelude::*;
use crate::columns::{fill_line, fit_text, pad_text, wrap_text, wrap_words};
use crate::config_tui::{row_under, ConfigTuiState, ScopeGroup};
use crate::config_ui::{is_editable, ConfigRowView};
use crate::config_view::{
    aligned_text, assembled, body_lines, count_attention, detail_text, detail_width, first_lines,
    hint_line, installed_text, left_width, required_text, right_width, scope_label, scope_lines,
    scope_value, scope_width, skill_lines, skill_text, skill_width, stacked_parts, stacked_whole,
    summary_text, tail_start, three_columns, three_lines, title_text, wide_left, wide_lines,
    window_start, wrapped_parts, Chosen,
};
use crate::model::EffectiveMode;
use crate::outside::{text_columns, upper_text};
use crate::reconcile::status_label;
use crate::text::{decimal, join, plural, words, Text};

verus! {

// What is said of a row.

/// An installed skill is shown with its mode and name; then what keeps it from being in sync, or that
/// it is only shown; then, where its copy is kept, in conflict or left over, where to promote it.
pub proof fn law_installed_rows_say_how(row: ConfigRowView)
    ensures
        ({
            let mode = match row.installed_mode {
                Some(EffectiveMode::Enable) => "Agent + Human"@,
                Some(EffectiveMode::Manual) => "Human"@,
                Some(EffectiveMode::Dependency) => "Agent dependency"@,
                None => "Not installed"@,
            };
            let first = if row.installed {
                mode + " as "@ + row.installed_name
            } else {
                mode
            };
            let quiet = match row.sync {
                None => true,
                Some(s) => s is Synced,
            };
            let sync = if !quiet {
                seq![status_label(row.sync->Some_0)]
            } else if !row.read_only {
                Seq::empty()
            } else if row.status is Some {
                seq![upper_text(row.status->Some_0)]
            } else {
                seq!["Read-only"@]
            };
            let local = match row.sync {
                Some(s) => s is KeepLocal || s is Conflict || s is OrphanedLocal,
                None => false,
            };
            let promoted = if row.authoring is Some && local {
                seq!["Promote via "@ + row.authoring->Some_0]
            } else {
                Seq::empty()
            };
            installed_text(row) == join(seq![first] + sync + promoted, " · "@)
        }),
{
}

/// A skill that others need is shown with their names.
pub proof fn law_needed_rows_say_by_whom(row: ConfigRowView)
    ensures
        row.required_by.len() == 0 ==> required_text(row) == "None"@,
        row.required_by.len() > 0 ==> required_text(row) == "By "@ + join(row.required_by, ", "@),
{
}

/// The details of a skill say what it is, what it brings along, what needs it and how it is
/// installed; and why it is recommended, exactly where it is.
pub proof fn law_details_are_whole(row: ConfigRowView, width: usize)
    ensures
        ({
            let gap = Seq::<char>::empty();
            let plan = if row.plan.len() > 0 {
                seq![gap, "Plan"@] + row.plan
            } else {
                Seq::empty()
            };
            let why = if row.recommended_by.len() > 0 {
                seq![gap, "Recommended"@] + wrap_text(
                    "By "@ + join(row.recommended_by, ", "@),
                    width,
                    2,
                )
            } else {
                Seq::empty()
            };
            detail_text(row, width) == seq!["Description"@] + wrap_text(row.description, width, 2) + plan
                + seq![gap, "Required"@] + wrap_text(required_text(row), width, 2) + seq![
                gap,
                "Installed"@,
            ] + wrap_text(installed_text(row), width, 2) + why
        }),
        stacked_parts(row) == seq![
            "Description: "@ + row.description,
            "Required: "@ + required_text(row),
            "Installed: "@ + installed_text(row),
        ] + (if row.recommended_by.len() > 0 {
            seq!["Recommended: "@ + ("By "@ + join(row.recommended_by, ", "@))]
        } else {
            Seq::empty()
        }),
{
}

/// Every part of stacked details is wrapped in at most two lines, one part after another.
pub proof fn law_stacked_parts_follow(parts: Seq<Text>, width: usize, n: int)
    requires
        0 <= n < parts.len(),
    ensures
        wrapped_parts(parts, width, 0).len() == 0,
        wrapped_parts(parts, width, n + 1) == wrapped_parts(parts, width, n) + wrap_text(
            parts[n],
            width,
            2,
        ),
{
}

// Wrapping.

/// The first line of wrapped words is filled as far as it can be: it holds the first words, and with
/// one word more it would take too many columns.
pub proof fn law_lines_are_filled(current: Text, rest: Seq<Text>, width: usize)
    ensures
        ({
            let (line, n) = fill_line(current, rest, width);
            &&& 0 <= n <= rest.len()
            &&& line == join(seq![current] + rest.take(n), " "@)
            &&& n > 0 ==> text_columns(line) <= width
            &&& n < rest.len() ==> text_columns(line + " "@ + rest[n]) > width
        }),
    decreases rest.len(),
{
    if rest.len() == 0 {
        assert(seq![current] + rest.take(0) =~= seq![current]);
        assert(join(seq![current], " "@) == current);
    } else {
        let next = current + " "@ + rest[0];
        if text_columns(next) > width {
            assert(seq![current] + rest.take(0) =~= seq![current]);
            assert(join(seq![current], " "@) == current);
        } else {
            law_lines_are_filled(next, rest.skip(1), width);
            let (line, n) = fill_line(next, rest.skip(1), width);
            lemma_join_first(current, rest[0], rest.skip(1).take(n));
            assert(seq![current, rest[0]] + rest.skip(1).take(n) =~= seq![current] + rest.take(n + 1));
            if n == 0 {
                assert(seq![next] + rest.skip(1).take(0) =~= seq![next]);
                assert(join(seq![next], " "@) == next);
            }
            if n < rest.skip(1).len() {
                assert(rest.skip(1)[n] == rest[n + 1]);
            }
        }
    }
}

/// Words joined are the first two joined, then the rest.
proof fn lemma_join_first(a: Text, b: Text, rest: Seq<Text>)
    ensures
        join(seq![a, b] + rest, " "@) == join(seq![a + " "@ + b] + rest, " "@),
    decreases rest.len(),
{
    let long = seq![a, b] + rest;
    let short = seq![a + " "@ + b] + rest;
    if rest.len() == 0 {
        assert(long =~= seq![a, b]);
        assert(short =~= seq![a + " "@ + b]);
        assert(long.drop_last() =~= seq![a]);
        assert(join(seq![a], " "@) == a);
    } else {
        lemma_join_first(a, b, rest.drop_last());
        assert(long.drop_last() =~= seq![a, b] + rest.drop_last());
        assert(short.drop_last() =~= seq![a + " "@ + b] + rest.drop_last());
        assert(long.last() == rest.last() && short.last() == rest.last());
    }
}

/// A text is wrapped in at least one line and at most as many as there may be; the last of them takes
/// all the words that are left.
pub proof fn law_texts_are_wrapped(value: Text, width: usize)
    ensures
        ({
            let ws = words(value);
            let (line, n) = fill_line(ws[0], ws.skip(1), width);
            &&& ws.len() == 0 ==> wrap_text(value, width, 2) == seq![Seq::<char>::empty()]
            &&& ws.len() > 0 && n + 1 >= ws.len() ==> wrap_text(value, width, 2) == seq![
                fit_text(line, width),
            ]
            &&& ws.len() > 0 && n + 1 < ws.len() ==> wrap_text(value, width, 2) == seq![
                fit_text(line, width),
                fit_text(join(ws.skip(n + 1), " "@), width),
            ]
        }),
{
    reveal_with_fuel(wrap_words, 3);
    let ws = words(value);
    if ws.len() > 0 {
        let (line, n) = fill_line(ws[0], ws.skip(1), width);
        law_lines_are_filled(ws[0], ws.skip(1), width);
        if n + 1 < ws.len() {
            assert(seq![fit_text(line, width)] + seq![fit_text(join(ws.skip(n + 1), " "@), width)]
                =~= seq![fit_text(line, width), fit_text(join(ws.skip(n + 1), " "@), width)]);
        } else {
            assert(ws.skip(n + 1).len() == 0);
            assert(seq![fit_text(line, width)] + Seq::<Text>::empty() =~= seq![fit_text(line, width)]);
        }
    }
}

// Rows.

/// A row begins with its marker and, where there is room beside the value, ends with the value.
pub proof fn law_values_are_at_the_end(marker: Text, label: Text, value: Text, width: usize)
    ensures
        4 + text_columns(value) < width ==> aligned_text(marker, label, value, width) == marker + " "@
            + pad_text(label, (width - 4 - text_columns(value)) as usize) + "  "@ + value,
        4 + text_columns(value) >= width ==> aligned_text(marker, label, value, width) == fit_text(
            marker + " "@ + label + "  "@ + value,
            width,
        ),
{
}

/// A scope is named with its catalog where there are several, and marked where one of its skills is
/// recommended.
pub proof fn law_scopes_are_named(rows: Seq<ConfigRowView>, g: ScopeGroup, single: bool)
    ensures
        ({
            let first = rows[g.start as int];
            let recommended = exists|i: int|
                g.start <= i < g.end && (#[trigger] rows[i]).recommended_by.len() > 0;
            scope_label(rows, g, single) == (if single {
                "$"@ + first.scope
            } else {
                first.catalog + " / $"@ + first.scope
            }) + (if recommended {
                " ★"@
            } else {
                ""@
            })
        }),
{
    reveal_strlit("");
    let name = if single {
        "$"@ + rows[g.start as int].scope
    } else {
        rows[g.start as int].catalog + " / $"@ + rows[g.start as int].scope
    };
    assert(name + ""@ =~= name);
}

/// The scope list shows how many skills a scope has, and the chosen scope is always shown.
pub proof fn law_scope_lists_show_the_chosen(
    rows: Seq<ConfigRowView>,
    groups: Seq<ScopeGroup>,
    skills: Chosen,
    selected: int,
    width: usize,
    height: int,
)
    requires
        0 <= selected < groups.len(),
        height >= 1,
    ensures
        ({
            let out = scope_lines(rows, groups, skills, selected, width, height);
            let start: int = if selected < height {
                0
            } else {
                selected - height + 1
            };
            let single = forall|i: int|
                0 <= i < groups.len() ==> rows[(#[trigger] groups[i]).start as int].catalog
                    == rows[groups[0].start as int].catalog;
            &&& out.len() == (if groups.len() - start < height {
                groups.len() - start
            } else {
                height
            })
            &&& 0 <= selected - start < out.len()
            &&& forall|i: int|
                0 <= i < out.len() ==> #[trigger] out[i] == aligned_text(
                    if start + i == selected {
                        "›"@
                    } else {
                        " "@
                    },
                    scope_label(rows, groups[start + i], single),
                    scope_value(rows, skills, groups[start + i]),
                    width,
                )
        }),
{
}

/// A window onto a list holds the chosen position, begins inside the list, and leaves no line empty
/// while there are positions to show.
pub proof fn law_windows_hold_the_chosen(total: int, selected: int, capacity: int)
    requires
        0 <= selected < total,
        capacity >= 1,
    ensures
        0 <= window_start(total, selected, capacity) <= selected < window_start(
            total,
            selected,
            capacity,
        ) + capacity,
        total >= capacity ==> window_start(total, selected, capacity) + capacity <= total,
        total <= capacity ==> window_start(total, selected, capacity) == 0,
        capacity / 2 <= selected <= total - capacity + capacity / 2 ==> window_start(
            total,
            selected,
            capacity,
        ) == selected - capacity / 2,
        selected < capacity ==> tail_start(selected, capacity) == 0,
        selected >= capacity ==> tail_start(selected, capacity) + capacity == selected + 1,
{
}

/// A list of skills shows each with its marker: whether it is the chosen one, and whether the list has
/// the focus.
pub proof fn law_skills_are_listed_in_order(
    rows: Seq<ConfigRowView>,
    g: ScopeGroup,
    skills: Chosen,
    selected: int,
    focused: bool,
    start: int,
    end: int,
    width: usize,
    i: int,
)
    requires
        start <= end,
        0 <= i < end - start,
    ensures
        skill_lines(rows, g, skills, selected, focused, start, end, width).len() == end - start,
        skill_lines(rows, g, skills, selected, focused, start, end, width)[i] == skill_text(
            rows[g.start + start + i],
            skills,
            if start + i != selected {
                " "@
            } else if focused {
                "›"@
            } else {
                "•"@
            },
            width,
        ),
{
}

// Columns.

/// The columns of a wide screen take all of it together with their dividers.
pub proof fn law_columns_share_the_width(width: usize)
    requires
        text_columns(" │ "@) == 3,
    ensures
        width >= 51 ==> left_width(width) == (width - 3) / 2,
        width >= 51 ==> left_width(width) + 3 + right_width(width) == width,
        width >= 92 ==> scope_width(width) == (width - 6) * 28 / 100,
        width >= 92 ==> skill_width(width) == (width - 6) * 34 / 100,
        width >= 92 ==> scope_width(width) + skill_width(width) + detail_width(width) + 6 == width,
        left_width(width) >= 24 && scope_width(width) >= 24 && skill_width(width) >= 28,
        right_width(width) >= 1 && detail_width(width) >= 1,
{
}

/// A line of two columns is the line of the list, then the line of the details of the chosen skill.
pub proof fn law_two_columns_stand_side_by_side(
    rows: Seq<ConfigRowView>,
    g: ScopeGroup,
    skills: Chosen,
    selected: int,
    width: usize,
    height: int,
    i: int,
)
    requires
        0 <= i < height,
    ensures
        ({
            let left = wide_left(rows, g, skills, selected, width, height);
            let right = seq!["Details"@] + detail_text(
                rows[g.start + selected],
                right_width(width) as usize,
            );
            let a = if i < left.len() {
                left[i]
            } else {
                Seq::empty()
            };
            let b = if i < right.len() {
                right[i]
            } else {
                Seq::empty()
            };
            let out = wide_lines(rows, g, skills, selected, width, height);
            &&& out.len() == height
            &&& out[i] == pad_text(a, left_width(width) as usize) + " │ "@ + fit_text(
                b,
                right_width(width) as usize,
            )
        }),
{
}

/// The list of two columns begins with which skills it shows, and shows the chosen one.
pub proof fn law_two_columns_show_the_chosen(
    rows: Seq<ConfigRowView>,
    g: ScopeGroup,
    skills: Chosen,
    selected: int,
    width: usize,
    height: int,
)
    requires
        0 <= selected < g.end - g.start,
        height >= 2,
    ensures
        ({
            let n = g.end - g.start;
            let start: int = if selected < height - 1 {
                0
            } else {
                selected - (height - 2)
            };
            let end: int = if start + height - 1 < n {
                start + height - 1
            } else {
                n
            };
            let w = left_width(width) as usize;
            &&& start <= selected < end
            &&& wide_left(rows, g, skills, selected, width, height) == seq![
                fit_text(
                    "Skills  "@ + decimal((start + 1) as nat) + "–"@ + decimal(end as nat) + " of "@
                        + decimal(n as nat),
                    w,
                ),
            ] + skill_lines(rows, g, skills, selected, true, start, end, w)
        }),
{
}

/// A line of three columns is the line of the scopes, of the skills and of the details.
pub proof fn law_three_columns_stand_side_by_side(
    rows: Seq<ConfigRowView>,
    groups: Seq<ScopeGroup>,
    skills: Chosen,
    state: ConfigTuiState,
    width: usize,
    height: int,
    i: int,
)
    requires
        0 <= i < height,
        state.scope < groups.len(),
    ensures
        ({
            let (scopes, names, details) = three_columns(rows, groups, skills, state, width, height);
            let g = groups[state.scope as int];
            let a = if i < scopes.len() {
                scopes[i]
            } else {
                Seq::empty()
            };
            let b = if i < names.len() {
                names[i]
            } else {
                Seq::empty()
            };
            let c = if i < details.len() {
                details[i]
            } else {
                Seq::empty()
            };
            let out = three_lines(rows, groups, skills, state, width, height);
            &&& out.len() == height
            &&& out[i] == pad_text(a, scope_width(width) as usize) + " │ "@ + pad_text(
                b,
                skill_width(width) as usize,
            ) + " │ "@ + fit_text(c, detail_width(width) as usize)
            &&& scopes[0] == "Scopes"@
            &&& names[0] == "Skills · $"@ + rows[g.start as int].scope
            &&& details == seq!["Details"@] + detail_text(
                rows[g.start + state.skill],
                detail_width(width) as usize,
            )
        }),
{
}

/// The lists of three columns show the chosen scope and the chosen skill.
pub proof fn law_three_columns_show_the_chosen(
    rows: Seq<ConfigRowView>,
    groups: Seq<ScopeGroup>,
    skills: Chosen,
    state: ConfigTuiState,
    width: usize,
    height: int,
)
    requires
        height >= 2,
        state.scope < groups.len(),
        state.skill < groups[state.scope as int].end - groups[state.scope as int].start,
    ensures
        ({
            let (scopes, names, details) = three_columns(rows, groups, skills, state, width, height);
            let g = groups[state.scope as int];
            let first = window_start(groups.len() as int, state.scope as int, height - 1);
            let at = window_start(g.end - g.start, state.skill as int, height - 1);
            &&& names[1 + state.skill - at] == skill_text(
                rows[g.start + state.skill],
                skills,
                if state.screen is Skills {
                    "›"@
                } else {
                    "•"@
                },
                skill_width(width) as usize,
            )
            &&& 0 < 1 + state.skill - at < names.len() <= height
            &&& 0 < 1 + state.scope - first < scopes.len() <= height
        }),
{
    let g = groups[state.scope as int];
    law_windows_hold_the_chosen(groups.len() as int, state.scope as int, height - 1);
    law_windows_hold_the_chosen(g.end - g.start, state.skill as int, height - 1);
}

/// On a narrow screen the details come below the list, where there are ten lines or more.
pub proof fn law_details_need_ten_lines(
    rows: Seq<ConfigRowView>,
    g: ScopeGroup,
    skills: Chosen,
    selected: int,
    width: usize,
    height: int,
)
    requires
        0 <= selected < g.end - g.start,
        height >= 2,
    ensures
        ({
            let n = g.end - g.start;
            let capacity: int = if height >= 10 {
                height - 8
            } else {
                height - 1
            };
            let start: int = if selected < capacity {
                0
            } else {
                selected - capacity + 1
            };
            let end: int = if start + capacity < n {
                start + capacity
            } else {
                n
            };
            let list = seq![
                fit_text(
                    "Skills  "@ + decimal((start + 1) as nat) + "–"@ + decimal(end as nat) + " of "@
                        + decimal(n as nat),
                    width,
                ),
            ] + skill_lines(rows, g, skills, selected, true, start, end, width);
            let parts = stacked_parts(rows[g.start + selected]);
            stacked_whole(rows, g, skills, selected, width, height) == list + (if height >= 10 {
                seq![fit_text("Details"@, width)] + wrapped_parts(parts, width, parts.len() as int)
            } else {
                Seq::empty()
            })
        }),
{
}

/// The width decides how a list is shown: three columns from 96 on where there is
/// a scope; otherwise
/// the list of the screen that is open.
pub proof fn law_layout_follows_the_width(
    rows: Seq<ConfigRowView>,
    groups: Seq<ScopeGroup>,
    skills: Chosen,
    state: ConfigTuiState,
    width: usize,
    height: int,
)
    ensures
        ({
            let out = body_lines(rows, groups, skills, state, width, height);
            let g = groups[state.scope as int];
            let wide = width >= 96 && groups.len() > 0;
            &&& wide ==> out == three_lines(rows, groups, skills, state, width, height)
            &&& !wide && state.screen is Scopes ==> out == scope_lines(
                rows,
                groups,
                skills,
                state.scope as int,
                width,
                height,
            )
            &&& !wide && !(state.screen is Scopes) && height > 0 && width >= 72 ==> out == wide_lines(
                rows,
                g,
                skills,
                state.skill as int,
                width,
                height,
            )
            &&& !wide && !(state.screen is Scopes) && height > 0 && width < 72 ==> out == first_lines(
                stacked_whole(rows, g, skills, state.skill as int, width, height),
                height,
            )
        }),
{
}

// The screen.

/// A screen is filled: the title first, then the summary where there are four lines, the hints last
/// where there are three, and between them the body, as far as it goes.
pub proof fn law_screens_are_filled(
    title: Text,
    summary: Text,
    body: Seq<Text>,
    hint: Text,
    height: int,
    i: int,
)
    requires
        0 <= i < height,
    ensures
        ({
            let out = assembled(title, summary, body, hint, height);
            let head: int = if height >= 4 {
                2
            } else {
                1
            };
            let foot: int = if height >= 3 {
                1
            } else {
                0
            };
            &&& out.len() == height
            &&& i == 0 ==> out[i] == title
            &&& i == 1 && height >= 4 ==> out[i] == summary
            &&& i == height - 1 && height >= 3 ==> out[i] == hint
            &&& head <= i < height - foot ==> out[i] == (if i - head < body.len() {
                body[i - head]
            } else {
                Seq::empty()
            })
        }),
{
}

/// The title says whose skills are shown and, inside a scope, its name.
pub proof fn law_titles_say_whose(
    rows: Seq<ConfigRowView>,
    groups: Seq<ScopeGroup>,
    global: bool,
    state: ConfigTuiState,
)
    ensures
        ({
            let base = if global {
                "Skiller · Global Skills"@
            } else {
                "Skiller · Project Skills"@
            };
            title_text(rows, groups, global, state) == (if state.screen is Skills && state.scope
                < groups.len() {
                base + " · $"@ + rows[groups[state.scope as int].start as int].scope
            } else {
                base
            })
        }),
{
}

/// The summary counts the scopes, the skills, the selections, and the skills that are neither in sync
/// nor without a status.
pub proof fn law_summary_counts(rows: Seq<ConfigRowView>, groups: Seq<ScopeGroup>, skills: Chosen, n: int)
    requires
        0 <= n <= rows.len(),
    ensures
        summary_text(rows, groups, skills) == decimal(groups.len()) + " scopes · "@ + decimal(rows.len())
            + " skills · "@ + decimal(skills.dom().len()) + " configured · "@ + decimal(
            count_attention(rows, rows.len() as int),
        ) + " attention"@,
        count_attention(rows, n) == rows.take(n).filter(
            |r: ConfigRowView| r.sync is Some && !(r.sync->Some_0 is Synced),
        ).len(),
    decreases n,
{
    reveal(Seq::filter);
    if n > 0 {
        law_summary_counts(rows, groups, skills, n - 1);
        assert(rows.take(n).drop_last() =~= rows.take(n - 1));
        assert(rows.take(n).last() == rows[n - 1]);
    } else {
        assert(rows.take(0) =~= Seq::<ConfigRowView>::empty());
    }
}

/// What the hints offer: saving and leaving always; opening in the list of scopes; changing the mode
/// where the skill can be edited; and ignoring where it is selected for a project besides. The longest
/// form that fits is shown.
pub proof fn law_hints_offer_what_can_be_done(
    rows: Seq<ConfigRowView>,
    groups: Seq<ScopeGroup>,
    skills: Chosen,
    global: bool,
    state: ConfigTuiState,
    width: usize,
)
    ensures
        ({
            let row = row_under(groups, state);
            let editable = row is Some && is_editable(rows[row->Some_0]);
            let ignorable = editable && !global && skills.contains_key(rows[row->Some_0].key);
            let none = Seq::<Text>::empty();
            let full = if state.screen is Scopes {
                if groups.len() > 0 {
                    seq!["[↑/↓] Navigate"@, "[Enter] Open"@]
                } else {
                    none
                }
            } else {
                seq!["[↑/↓] Navigate"@] + (if editable {
                    seq!["[Space] Mode"@]
                } else {
                    none
                }) + (if ignorable {
                    seq!["[I] Git-ignore"@]
                } else {
                    none
                }) + seq!["[Esc] Scopes"@]
            };
            let compact = if state.screen is Scopes {
                seq!["[Enter] Open"@]
            } else {
                (if editable {
                    seq!["[Space] Mode"@]
                } else {
                    none
                }) + (if ignorable {
                    seq!["[I] Ignore"@]
                } else {
                    none
                }) + seq!["[Esc] Scopes"@]
            };
            let long = join(seq!["[S] Save"@, "[Q] Cancel"@] + full, "  "@);
            let short = join(seq!["[S] Save"@, "[Q] Cancel"@] + compact, "  "@);
            let tight = join(seq!["[S] Save"@, "[Q] ×"@] + compact, " "@);
            hint_line(rows, groups, skills, global, state, width) == (if text_columns(long) <= width {
                long
            } else if text_columns(short) <= width {
                short
            } else if text_columns(tight) <= width {
                tight
            } else {
                fit_text(tight, width)
            })
        }),
{
    let row = row_under(groups, state);
    let editable = row is Some && is_editable(rows[row->Some_0]);
    let ignorable = !global && row is Some && skills.contains_key(rows[row->Some_0].key);
    let none = Seq::<Text>::empty();
    let mode = if editable {
        seq!["[Space] Mode"@]
    } else {
        none
    };
    let ignore = if editable && ignorable {
        seq!["[I] Git-ignore"@]
    } else {
        none
    };
    let short = if editable && ignorable {
        seq!["[I] Ignore"@]
    } else {
        none
    };
    assert(crate::config_view::skill_hints(editable, ignorable) =~= seq!["[↑/↓] Navigate"@] + mode + ignore
        + seq!["[Esc] Scopes"@]);
    assert(crate::config_view::compact_hints(editable, ignorable) =~= mode + short + seq!["[Esc] Scopes"@]);
}

/// What the list of scopes says of one: how many skills it has and how many are selected.
pub proof fn law_scope_values_count(rows: Seq<ConfigRowView>, skills: Chosen, g: ScopeGroup)
    requires
        g.start <= g.end,
    ensures
        ({
            let n = (g.end - g.start) as nat;
            scope_value(rows, skills, g) == decimal(n) + " skill"@ + plural(n) + " · "@ + decimal(
                crate::config_view::count_chosen(rows, skills, g.start as int, g.end as int),
            ) + " configured"@
        }),
{
}

} // verus!
