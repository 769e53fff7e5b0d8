//! What the screen shows, and what its keys do.

use vstd::prelude::*;
use crate::columns::{fitted, room, total};
use crate::config_tui::{
    groups_of, moved_to, normalized, pressed, row_under, ConfigTuiState, Key, ScopeGroup,
};
use crate::config_ui::{is_editable, ConfigRowView};
use crate::config_view::{
    configured_text, count_chosen, marked_name, marker_text, mode_at, required_text, scope_mark,
    Chosen,
};
use crate::model::{SelectionMode, SkillSelection};
use crate::output::{is_written, LineView};
use crate::text::{join, Text};

verus! {

/// The mode of a selection.
pub open spec fn is_mode(choice: SkillSelection, mode: SelectionMode) -> bool {
    match choice {
        SkillSelection::Mode(m) => m == mode,
        SkillSelection::Detailed { mode: m, .. } => m == mode,
    }
}

/// A row says that it is off exactly where nothing is selected under its key; otherwise it says for
/// whom it is selected, and whether it is ignored.
pub proof fn law_rows_say_what_is_selected(skills: Chosen, key: Text)
    ensures
        ({
            let chosen = skills.contains_key(key);
            let ignored = chosen && (skills[key] matches SkillSelection::Detailed { gitignore, .. }
                && gitignore);
            let word = if !chosen {
                "○ Off"@
            } else if is_mode(skills[key], SelectionMode::Enable) {
                "● Agent + Human"@
            } else {
                "◎ Human"@
            };
            configured_text(skills, key) == word + (if ignored {
                " · ignored"@
            } else {
                ""@
            })
        }),
{
}

/// A scope is marked with the mode of its skills exactly where they all have the same.
pub proof fn law_scope_marks_are_common(rows: Seq<ConfigRowView>, g: ScopeGroup, skills: Chosen)
    requires
        g.start < g.end,
    ensures
        ({
            let all_on = forall|i: int|
                g.start <= i < g.end ==> skills.contains_key((#[trigger] rows[i]).key) && is_mode(
                    skills[rows[i].key],
                    SelectionMode::Enable,
                );
            let all_manual = forall|i: int|
                g.start <= i < g.end ==> skills.contains_key((#[trigger] rows[i]).key) && is_mode(
                    skills[rows[i].key],
                    SelectionMode::Manual,
                );
            let all_off = forall|i: int|
                g.start <= i < g.end ==> !skills.contains_key((#[trigger] rows[i]).key);
            scope_mark(rows, g, skills) == (if all_on {
                "●"@
            } else if all_manual {
                "◎"@
            } else if all_off {
                "○"@
            } else {
                "◐"@
            })
        }),
{
    assert forall|i: int| g.start <= i < g.end implies {
        let key = (#[trigger] rows[i]).key;
        &&& mode_at(skills, key) == Some(SelectionMode::Enable) <==> skills.contains_key(key)
            && is_mode(skills[key], SelectionMode::Enable)
        &&& mode_at(skills, key) == Some(SelectionMode::Manual) <==> skills.contains_key(key)
            && is_mode(skills[key], SelectionMode::Manual)
        &&& mode_at(skills, key) is None <==> !skills.contains_key(key)
    } by {}
}

/// A scope counts exactly those of its skills that are selected.
pub proof fn law_selected_skills_are_counted(rows: Seq<ConfigRowView>, skills: Chosen, start: int, end: int)
    requires
        0 <= start <= end <= rows.len(),
    ensures
        count_chosen(rows, skills, start, end) == rows.subrange(start, end).filter(
            |r: ConfigRowView| skills.contains_key(r.key),
        ).len(),
    decreases end - start,
{
    reveal(Seq::filter);
    if end > start {
        law_selected_skills_are_counted(rows, skills, start, end - 1);
        assert(rows.subrange(start, end).drop_last() =~= rows.subrange(start, end - 1));
        assert(rows.subrange(start, end).last() == rows[end - 1]);
    } else {
        assert(rows.subrange(start, end) =~= Seq::<ConfigRowView>::empty());
    }
}

/// A name has a star exactly where it is recommended, and a position a mark exactly where it is chosen.
pub proof fn law_marks_are_shown(row: ConfigRowView, chosen: bool, focused: bool)
    ensures
        marked_name(row) == (if row.recommended_by.len() > 0 {
            row.name + " ★"@
        } else {
            row.name
        }),
        marker_text(chosen, focused) == (if chosen && focused {
            "›"@
        } else if chosen {
            "•"@
        } else {
            " "@
        }),
        required_text(row) == (if row.required_by.len() > 0 {
            "By "@ + join(row.required_by, ", "@)
        } else {
            "None"@
        }),
{
}

/// The screen closes exactly with `s`, which saves, and with `q`, or Escape where the scopes have the
/// focus, which do not.
pub proof fn law_keys_close_the_screen(
    rows: Seq<ConfigRowView>,
    skills: Map<Text, SkillSelection>,
    global: bool,
    before: ConfigTuiState,
    key: Key,
)
    ensures
        ({
            let (now, state, result) = pressed(rows, skills, global, before, key);
            let on_scopes = before.screen is Scopes || groups_of(rows, rows.len() as int).len() == 0;
            &&& result is Save <==> key == Key::Char('s')
            &&& result is Cancel <==> key == Key::Char('q') || (key == Key::Esc && on_scopes)
            &&& result is Save || result is Cancel ==> now == skills
        }),
{
}

/// A selection changes exactly with the space bar and `i`, on an editable row that has the focus; `i`
/// only in a project. The space bar takes a skill from off to enabled, from enabled to manual with its
/// ignore flag, and from manual to off; `i` turns the ignore flag of a selected skill over.
pub proof fn law_keys_change_selections(
    rows: Seq<ConfigRowView>,
    skills: Map<Text, SkillSelection>,
    global: bool,
    before: ConfigTuiState,
    key: Key,
)
    ensures
        ({
            let groups = groups_of(rows, rows.len() as int);
            let state = normalized(groups, before);
            let row = row_under(groups, state);
            let name = rows[row->Some_0].key;
            let open = state.screen is Skills && row is Some && is_editable(rows[row->Some_0]);
            let now = pressed(rows, skills, global, before, key).0;
            let ignored = skills[name] matches SkillSelection::Detailed { gitignore, .. }
                && gitignore;
            let now_ignored = now[name] matches SkillSelection::Detailed { gitignore, .. }
                && gitignore;
            &&& !(open && (key == Key::Char(' ') || (key == Key::Char('i') && !global))) ==> now
                == skills
            &&& open && key == Key::Char(' ') ==> {
                &&& !skills.contains_key(name) ==> now.contains_key(name) && is_mode(
                    now[name],
                    SelectionMode::Enable,
                ) && !now_ignored
                &&& skills.contains_key(name) && is_mode(skills[name], SelectionMode::Enable)
                    ==> now.contains_key(name) && is_mode(now[name], SelectionMode::Manual)
                    && now_ignored == ignored
                &&& skills.contains_key(name) && is_mode(skills[name], SelectionMode::Manual)
                    ==> !now.contains_key(name)
            }
            &&& open && key == Key::Char('i') && !global ==> {
                &&& now.contains_key(name) == skills.contains_key(name)
                &&& skills.contains_key(name) ==> now_ignored == !ignored && (is_mode(
                    now[name],
                    SelectionMode::Enable,
                ) <==> is_mode(skills[name], SelectionMode::Enable))
            }
        }),
{
}

/// Moving keys move by one, by ten or to an end, and never beyond the ends.
pub proof fn law_moves_stay_inside(key: Key, at: int, n: int)
    requires
        0 <= at,
        at < n || (n == 0 && at == 0),
    ensures
        moved_to(key, at, n) matches Some(to) ==> 0 <= to && (to < n || n == 0),
        key == Key::Down || key == Key::Char('j') ==> moved_to(key, at, n) == Some(
            if at + 1 < n {
                at + 1
            } else {
                at
            },
        ),
        key == Key::Up || key == Key::Char('k') ==> moved_to(key, at, n) == Some(
            if at > 0 {
                at - 1
            } else {
                at
            },
        ),
        key == Key::Home ==> moved_to(key, at, n) == Some(0int),
        key == Key::End && n > 0 ==> moved_to(key, at, n) == Some(n - 1),
        key == Key::PageDown && at + 10 < n ==> moved_to(key, at, n) == Some(at + 10),
        key == Key::PageUp && at >= 10 ==> moved_to(key, at, n) == Some(at - 10),
{
}

/// Enter opens the scope that has the focus, and Escape leads back to it.
pub proof fn law_scopes_open_and_close(
    rows: Seq<ConfigRowView>,
    skills: Map<Text, SkillSelection>,
    global: bool,
    before: ConfigTuiState,
)
    requires
        groups_of(rows, rows.len() as int).len() > 0,
    ensures
        ({
            let at = normalized(groups_of(rows, rows.len() as int), before);
            let opened = pressed(rows, skills, global, before, Key::Enter).1;
            let closed = pressed(rows, skills, global, before, Key::Esc).1;
            &&& before.screen is Scopes ==> opened.screen is Skills && opened.scope == at.scope
                && opened.skill == 0
            &&& before.screen is Skills ==> closed.screen is Scopes && closed.scope == at.scope
        }),
{
}

/// A line is written plainly behind a word that says what it is, where it warns, fails or is an item;
/// any other line is written as it is.
pub proof fn law_plain_lines_say_what_they_are(out: Text, line: LineView)
    requires
        is_written(out, line, false),
    ensures
        match line {
            LineView::Warning(s) => out == "warning:"@ + " "@ + s,
            LineView::Error(s) => out == "error:"@ + " "@ + s,
            LineView::Item(s) => out == "-"@ + " "@ + s,
            LineView::Heading(s) => out == s,
            LineView::Success(s) => out == s,
            LineView::Info(s) => out == s,
            LineView::Muted(s) => out == s,
            LineView::Plain(s) => out == s,
        },
{
}

proof fn lemma_room(widths: Seq<usize>, budget: int)
    requires
        0 <= budget,
    ensures
        0 <= room(widths, budget) <= widths.len(),
        total(widths.take(room(widths, budget))) <= budget,
        room(widths, budget) < widths.len() ==> total(widths.take(room(widths, budget) + 1)) > budget,
    decreases widths.len(),
{
    if widths.len() > 0 && widths[0] <= budget {
        let rest = widths.skip(1);
        lemma_room(rest, budget - widths[0]);
        let k = room(rest, budget - widths[0]);
        lemma_total_first(widths, k + 1);
        assert(widths.take(k + 1).skip(1) =~= rest.take(k));
        if k < rest.len() {
            lemma_total_first(widths, k + 2);
            assert(widths.take(k + 2).skip(1) =~= rest.take(k + 1));
        }
    } else {
        assert(widths.take(0) =~= Seq::<usize>::empty());
        if widths.len() > 0 {
            lemma_total_first(widths, 1);
            assert(widths.take(1).skip(1) =~= Seq::<usize>::empty());
        }
    }
}

proof fn lemma_total_first(widths: Seq<usize>, n: int)
    requires
        0 < n <= widths.len(),
    ensures
        total(widths.take(n)) == widths[0] + total(widths.take(n).skip(1)),
    decreases n,
{
    let part = widths.take(n);
    let rest = part.skip(1);
    assert(part.drop_last() =~= widths.take(n - 1));
    if n == 1 {
        assert(rest =~= Seq::<usize>::empty());
        assert(part.drop_last() =~= Seq::<usize>::empty());
    } else {
        lemma_total_first(widths, n - 1);
        assert(rest.drop_last() =~= widths.take(n - 1).skip(1));
        assert(rest.last() == part.last());
    }
}

/// A text that fits is shown whole. One that does not is cut, with an ellipsis behind it, and no
/// character is cut that had room before the ellipsis.
pub proof fn law_texts_are_cut_as_late_as_possible(s: Text, widths: Seq<usize>, width: usize)
    requires
        widths.len() == s.len(),
        width > 0,
    ensures
        total(widths) <= width ==> fitted(s, widths, width) == s,
        total(widths) > width && width > 1 ==> exists|k: int|
            {
                &&& 0 <= k < s.len()
                &&& fitted(s, widths, width) == (#[trigger] s.take(k)).push('…')
                &&& total(widths.take(k)) <= width - 1
                &&& total(widths.take(k + 1)) > width - 1
            },
{
    if total(widths) > width && width > 1 {
        lemma_room(widths, width - 1);
        let k = room(widths, width - 1);
        if k == widths.len() {
            assert(widths.take(k) =~= widths);
        }
        assert(fitted(s, widths, width) == s.take(k).push('…'));
    }
}

} // verus!
