//! The configuration screen: its position, its keys and its lines.

use vstd::prelude::*;
use crate::config_ui::{
    config_views, cycle_selection, cycled, is_editable, row_editable, toggle_gitignore, toggled,
    ConfigRow, ConfigRowView,
};
use crate::model::{ProjectConfig, SkillSelection};
use crate::resolve::selection_at;
use crate::text::{same, Text};

verus! {

pub const WIDE_LAYOUT_MIN_WIDTH: usize = 72;

pub const THREE_COLUMN_MIN_WIDTH: usize = 96;

/// What stands between columns.
pub open spec fn divider() -> Text {
    " │ "@
}

#[derive(Debug, Clone, Copy, PartialEq, Eq, Structural)]
pub enum ConfigScreen {
    Scopes,
    Skills,
}

/// Where the screen stands.
#[derive(Debug, Clone, Copy, PartialEq, Eq, Structural)]
pub struct ConfigTuiState {
    pub screen: ConfigScreen,
    pub scope: usize,
    pub skill: usize,
}

impl Default for ConfigTuiState {
    fn default() -> (r: ConfigTuiState)
        ensures
            r == (ConfigTuiState { screen: ConfigScreen::Scopes, scope: 0, skill: 0 }),
    {
        ConfigTuiState { screen: ConfigScreen::Scopes, scope: 0, skill: 0 }
    }
}

#[derive(Debug, Clone, Copy, PartialEq, Eq, Structural)]
pub enum InputResult {
    Continue,
    Save,
    Cancel,
}

/// A key of the keyboard.
#[derive(Debug, Clone, Copy, PartialEq, Eq, Structural)]
pub enum Key {
    Up,
    Down,
    PageUp,
    PageDown,
    Home,
    End,
    Enter,
    Esc,
    Char(char),
    Other,
}

// Groups.

/// Neighbouring rows of one catalog and scope: from `start` up to `end`.
#[derive(Debug, Clone, Copy, PartialEq, Eq, Structural)]
pub struct ScopeGroup {
    pub start: usize,
    pub end: usize,
}

pub open spec fn same_scope(a: ConfigRowView, b: ConfigRowView) -> bool {
    a.catalog == b.catalog && a.scope == b.scope
}

/// The groups of the first `n` rows.
pub open spec fn groups_of(rows: Seq<ConfigRowView>, n: int) -> Seq<ScopeGroup>
    decreases n,
{
    if n <= 0 {
        Seq::empty()
    } else {
        let front = groups_of(rows, n - 1);
        if front.len() > 0 && same_scope(rows[front.last().start as int], rows[n - 1]) {
            front.drop_last().push(ScopeGroup { start: front.last().start, end: n as usize })
        } else {
            front.push(ScopeGroup { start: (n - 1) as usize, end: n as usize })
        }
    }
}

/// The groups follow each other without gaps and none is empty.
pub open spec fn tiles(groups: Seq<ScopeGroup>, n: int) -> bool {
    &&& groups.len() == 0 <==> n == 0
    &&& forall|i: int|
        0 <= i < groups.len() ==> (#[trigger] groups[i]).start < groups[i].end <= n
    &&& groups.len() > 0 ==> groups[0].start == 0 && groups.last().end == n
    &&& forall|i: int|
        0 <= i < groups.len() - 1 ==> (#[trigger] groups[i]).end == groups[i + 1].start
}

pub proof fn lemma_groups_tile(rows: Seq<ConfigRowView>, n: int)
    requires
        0 <= n <= rows.len(),
        rows.len() <= usize::MAX,
    ensures
        tiles(groups_of(rows, n), n),
        groups_of(rows, n).len() <= n,
    decreases n,
{
    if n > 0 {
        lemma_groups_tile(rows, n - 1);
        let front = groups_of(rows, n - 1);
        let all = groups_of(rows, n);
        assert forall|i: int| 0 <= i < all.len() implies (#[trigger] all[i]).start < all[i].end <= n by {
            if i < front.len() {
                assert(front[i].start < front[i].end <= n - 1);
            }
        }
        assert forall|i: int| 0 <= i < all.len() - 1 implies (#[trigger] all[i]).end
            == all[i + 1].start by {
            assert(all[i] == front[i]);
            if i + 1 < front.len() {
                assert(front[i].end == front[i + 1].start);
            }
        }
        if front.len() > 0 {
            assert(all[0].start == front[0].start);
        }
    }
}

pub fn scope_groups(rows: &Vec<ConfigRow>) -> (r: Vec<ScopeGroup>)
    ensures
        r@ == groups_of(config_views(rows@), rows@.len() as int),
        tiles(r@, rows@.len() as int),
{
    let ghost all = config_views(rows@);
    let mut groups: Vec<ScopeGroup> = Vec::new();
    let mut i: usize = 0;
    while i < rows.len()
        invariant
            i <= rows@.len(),
            all == config_views(rows@),
            groups@ == groups_of(all, i as int),
        decreases rows@.len() - i,
    {
        proof {
            lemma_groups_tile(all, i as int);
        }
        let n: usize = groups.len();
        assert(all[i as int] == rows@[i as int]@);
        let joins = if n > 0 {
            assert(groups@[n - 1].start < groups@[n - 1].end <= i);
            let start: usize = groups[n - 1].start;
            assert(all[start as int] == rows@[start as int]@);
            same(rows[start].catalog.as_str(), rows[i].catalog.as_str()) && same(
                rows[start].scope.as_str(),
                rows[i].scope.as_str(),
            )
        } else {
            false
        };
        if joins {
            let start: usize = groups[n - 1].start;
            let _ = groups.pop();
            groups.push(ScopeGroup { start, end: i + 1 });
        } else {
            groups.push(ScopeGroup { start: i, end: i + 1 });
        }
        i = i + 1;
    }
    proof {
        lemma_groups_tile(all, rows@.len() as int);
    }
    groups
}

/// All rows of a group belong to one catalog and scope.
pub proof fn law_groups_are_uniform(rows: Seq<ConfigRowView>, n: int, g: int, i: int)
    requires
        0 <= n <= rows.len(),
        rows.len() <= usize::MAX,
        0 <= g < groups_of(rows, n).len(),
        groups_of(rows, n)[g].start <= i < groups_of(rows, n)[g].end,
    ensures
        same_scope(rows[groups_of(rows, n)[g].start as int], rows[i]),
    decreases n,
{
    lemma_groups_tile(rows, n);
    if n > 0 {
        lemma_groups_tile(rows, n - 1);
        let front = groups_of(rows, n - 1);
        let all = groups_of(rows, n);
        if g < front.len() && i < front[g].end {
            assert(all[g].start == front[g].start);
            law_groups_are_uniform(rows, n - 1, g, i);
        } else {
            assert(all[g].end <= n);
            if g < all.len() - 1 {
                assert(all[g] == front[g]);
            }
        }
    }
}

pub open spec fn group_len(groups: Seq<ScopeGroup>, i: int) -> int {
    if 0 <= i < groups.len() {
        groups[i].end - groups[i].start
    } else {
        0
    }
}

pub open spec fn at_most(a: int, b: int) -> int {
    if a < b {
        a
    } else {
        b
    }
}

pub open spec fn at_least(a: int, b: int) -> int {
    if a > b {
        a
    } else {
        b
    }
}

/// The last position of a list of `n`, 0 for an empty one.
pub open spec fn last_of(n: int) -> int {
    at_least(n - 1, 0)
}

/// The position moved into what there is.
pub open spec fn normalized(groups: Seq<ScopeGroup>, state: ConfigTuiState) -> ConfigTuiState {
    let scope = at_most(state.scope as int, last_of(groups.len() as int));
    ConfigTuiState {
        screen: if groups.len() == 0 {
            ConfigScreen::Scopes
        } else {
            state.screen
        },
        scope: scope as usize,
        skill: at_most(state.skill as int, last_of(group_len(groups, scope))) as usize,
    }
}

pub fn normalize_state(groups: &Vec<ScopeGroup>, state: ConfigTuiState) -> (r: ConfigTuiState)
    requires
        forall|i: int| 0 <= i < groups@.len() ==> (#[trigger] groups@[i]).start < groups@[i].end,
    ensures
        r == normalized(groups@, state),
        groups@.len() > 0 ==> r.scope < groups@.len() && r.skill < group_len(
            groups@,
            r.scope as int,
        ),
        groups@.len() == 0 ==> r.scope == 0 && r.skill == 0 && r.screen == ConfigScreen::Scopes,
{
    let n: usize = groups.len();
    if n == 0 {
        return ConfigTuiState { screen: ConfigScreen::Scopes, scope: 0, skill: 0 };
    }
    let scope: usize = if state.scope > n - 1 {
        n - 1
    } else {
        state.scope
    };
    assert(groups@[scope as int].start < groups@[scope as int].end);
    let count: usize = groups[scope].end - groups[scope].start;
    let skill: usize = if state.skill > count - 1 {
        count - 1
    } else {
        state.skill
    };
    ConfigTuiState { screen: state.screen, scope, skill }
}

/// The row that a position stands on.
pub open spec fn row_under(groups: Seq<ScopeGroup>, state: ConfigTuiState) -> Option<int> {
    if 0 <= state.skill < group_len(groups, state.scope as int) {
        Some(groups[state.scope as int].start + state.skill)
    } else {
        None
    }
}

fn selected_skill(groups: &Vec<ScopeGroup>, state: ConfigTuiState) -> (r: Option<usize>)
    requires
        forall|i: int| 0 <= i < groups@.len() ==> (#[trigger] groups@[i]).start < groups@[i].end,
    ensures
        match r {
            Some(i) => row_under(groups@, state) == Some(i as int),
            None => row_under(groups@, state) is None,
        },
{
    if state.scope >= groups.len() {
        return None;
    }
    assert(groups@[state.scope as int].start < groups@[state.scope as int].end);
    let g = groups[state.scope];
    if state.skill < g.end - g.start {
        Some(g.start + state.skill)
    } else {
        None
    }
}

// Keys.

/// Where a key moves a position among `n`; none for keys that move nothing.
pub open spec fn moved_to(key: Key, at: int, n: int) -> Option<int> {
    match key {
        Key::Up => Some(at_least(at - 1, 0)),
        Key::Char('k') => Some(at_least(at - 1, 0)),
        Key::Down => Some(at_most(at + 1, last_of(n))),
        Key::Char('j') => Some(at_most(at + 1, last_of(n))),
        Key::PageUp => Some(at_least(at - 10, 0)),
        Key::PageDown => Some(at_most(at + 10, last_of(n))),
        Key::Home => Some(0),
        Key::End => Some(last_of(n)),
        _ => None,
    }
}

/// The position once its list moved to `at`; a change of scope begins at its first skill.
pub open spec fn placed_at(state: ConfigTuiState, at: int) -> ConfigTuiState {
    match state.screen {
        ConfigScreen::Scopes => ConfigTuiState {
            scope: at as usize,
            skill: if at != state.scope {
                0
            } else {
                state.skill
            },
            ..state
        },
        ConfigScreen::Skills => ConfigTuiState { skill: at as usize, ..state },
    }
}

/// What a key does: the selections, the position and whether the screen closes.
pub open spec fn pressed(
    rows: Seq<ConfigRowView>,
    skills: Map<Text, SkillSelection>,
    global: bool,
    before: ConfigTuiState,
    key: Key,
) -> (Map<Text, SkillSelection>, ConfigTuiState, InputResult) {
    let groups = groups_of(rows, rows.len() as int);
    let state = normalized(groups, before);
    let on_skills = state.screen == ConfigScreen::Skills;
    let n = if on_skills {
        group_len(groups, state.scope as int)
    } else {
        groups.len() as int
    };
    let at = if on_skills {
        state.skill as int
    } else {
        state.scope as int
    };
    let row = row_under(groups, state);
    let editable = row is Some && is_editable(rows[row->Some_0]);
    match moved_to(key, at, n) {
        Some(to) => (skills, placed_at(state, to), InputResult::Continue),
        None => if key == Key::Enter && !on_skills && n > 0 {
            (
                skills,
                ConfigTuiState { screen: ConfigScreen::Skills, skill: 0, ..state },
                InputResult::Continue,
            )
        } else if key == Key::Char(' ') && on_skills && editable {
            (cycled(skills, rows[row->Some_0].key), state, InputResult::Continue)
        } else if key == Key::Char('i') && on_skills && !global && editable {
            (toggled(skills, rows[row->Some_0].key), state, InputResult::Continue)
        } else if key == Key::Char('s') {
            (skills, state, InputResult::Save)
        } else if key == Key::Char('q') {
            (skills, state, InputResult::Cancel)
        } else if key == Key::Esc {
            if on_skills {
                (
                    skills,
                    ConfigTuiState { screen: ConfigScreen::Scopes, ..state },
                    InputResult::Continue,
                )
            } else {
                (skills, state, InputResult::Cancel)
            }
        } else {
            (skills, state, InputResult::Continue)
        },
    }
}

fn move_within(key: Key, at: usize, n: usize) -> (r: Option<usize>)
    requires
        at <= last_of(n as int),
    ensures
        match r {
            Some(to) => moved_to(key, at as int, n as int) == Some(to as int),
            None => moved_to(key, at as int, n as int) is None,
        },
{
    let last: usize = if n > 0 {
        n - 1
    } else {
        0
    };
    match key {
        Key::Up => Some(if at > 0 { at - 1 } else { 0 }),
        Key::Char('k') => Some(if at > 0 { at - 1 } else { 0 }),
        Key::Down => Some(if at < last { at + 1 } else { last }),
        Key::Char('j') => Some(if at < last { at + 1 } else { last }),
        Key::PageUp => Some(if at > 10 { at - 10 } else { 0 }),
        Key::PageDown => Some(if last - at > 10 { at + 10 } else { last }),
        Key::Home => Some(0),
        Key::End => Some(last),
        _ => None,
    }
}

/// Handles a key: moves the position, changes the selections, or closes the screen.
pub fn handle_key(
    rows: &Vec<ConfigRow>,
    manifest: &mut ProjectConfig,
    global: bool,
    state: &mut ConfigTuiState,
    key: Key,
) -> (r: InputResult)
    ensures
        pressed(config_views(rows@), old(manifest).skills@, global, *old(state), key) == (
            final(manifest).skills@,
            *final(state),
            r,
        ),
        final(manifest).version == old(manifest).version,
        final(manifest).agents@ == old(manifest).agents@,
{
    let ghost all = config_views(rows@);
    let groups = scope_groups(rows);
    let now = normalize_state(&groups, *state);
    *state = now;
    let on_skills = now.screen == ConfigScreen::Skills;
    let n: usize = if on_skills {
        assert(groups@[now.scope as int].start < groups@[now.scope as int].end);
        groups[now.scope].end - groups[now.scope].start
    } else {
        groups.len()
    };
    let at: usize = if on_skills {
        now.skill
    } else {
        now.scope
    };
    match move_within(key, at, n) {
        Some(to) => {
            if on_skills {
                *state = ConfigTuiState { skill: to, ..now };
            } else {
                *state = ConfigTuiState {
                    scope: to,
                    skill: if to != now.scope {
                        0
                    } else {
                        now.skill
                    },
                    ..now
                };
            }
            return InputResult::Continue;
        },
        None => {},
    }
    let row = selected_skill(&groups, now);
    let editable = match row {
        Some(i) => {
            assert(groups@[now.scope as int].end <= rows@.len());
            assert(all[i as int] == rows@[i as int]@);
            row_editable(&rows[i])
        },
        None => false,
    };
    match key {
        Key::Enter => {
            if !on_skills && n > 0 {
                *state = ConfigTuiState { screen: ConfigScreen::Skills, skill: 0, ..now };
            }
            InputResult::Continue
        },
        Key::Char(' ') => {
            if on_skills && editable {
                match row {
                    Some(i) => {
                        cycle_selection(manifest, rows[i].key.as_str());
                    },
                    None => {},
                }
            }
            InputResult::Continue
        },
        Key::Char('i') => {
            if on_skills && !global && editable {
                match row {
                    Some(i) => {
                        let _ = toggle_gitignore(manifest, rows[i].key.as_str());
                    },
                    None => {},
                }
            }
            InputResult::Continue
        },
        Key::Char('s') => InputResult::Save,
        Key::Char('q') => InputResult::Cancel,
        Key::Esc => {
            if on_skills {
                *state = ConfigTuiState { screen: ConfigScreen::Scopes, ..now };
                InputResult::Continue
            } else {
                InputResult::Cancel
            }
        },
        _ => InputResult::Continue,
    }
}

/// Only a key on an editable row changes a selection, and only that of the row.
pub proof fn law_keys_change_only_the_row(
    rows: Seq<ConfigRowView>,
    skills: Map<Text, SkillSelection>,
    global: bool,
    before: ConfigTuiState,
    key: Key,
    other: Text,
)
    requires
        ({
            let groups = groups_of(rows, rows.len() as int);
            let row = row_under(groups, normalized(groups, before));
            row is Some ==> rows[row->Some_0].key != other || !is_editable(rows[row->Some_0])
        }),
    ensures
        selection_at(pressed(rows, skills, global, before, key).0, other) == selection_at(
            skills,
            other,
        ),
{
}

// Choosing a scope.

/// What a key does while the user chooses between the project and the global scope.
#[derive(Debug, Clone, Copy, PartialEq, Eq, Structural)]
pub enum ScopeInput {
    /// Go on, with the global scope marked or not.
    Mark(bool),
    /// Configure the global scope, or the project.
    Open(bool),
    Cancel,
}

/// Handles a key of the scope choice; `global` says which scope is marked.
pub fn choose_scope(global: bool, key: Key) -> (r: ScopeInput)
    ensures
        r == (match key {
            Key::Up => ScopeInput::Mark(false),
            Key::Down => ScopeInput::Mark(true),
            Key::Enter => ScopeInput::Open(global),
            Key::Esc => ScopeInput::Cancel,
            Key::Char(c) => if c == 'k' {
                ScopeInput::Mark(false)
            } else if c == 'j' {
                ScopeInput::Mark(true)
            } else if c == 'q' {
                ScopeInput::Cancel
            } else {
                ScopeInput::Mark(global)
            },
            _ => ScopeInput::Mark(global),
        }),
{
    match key {
        Key::Up => ScopeInput::Mark(false),
        Key::Down => ScopeInput::Mark(true),
        Key::Enter => ScopeInput::Open(global),
        Key::Esc => ScopeInput::Cancel,
        Key::Char(c) => if c == 'k' {
            ScopeInput::Mark(false)
        } else if c == 'j' {
            ScopeInput::Mark(true)
        } else if c == 'q' {
            ScopeInput::Cancel
        } else {
            ScopeInput::Mark(global)
        },
        _ => ScopeInput::Mark(global),
    }
}

} // verus!
