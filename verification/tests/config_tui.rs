use skiller::agents::HostAgent;
use skiller::config_frame::{is_heading, scope_color, segment_color, spans_of, write_frame};
use skiller::config_tui::{
    choose_scope, handle_key, normalize_state, scope_groups, ConfigScreen, ConfigTuiState,
    InputResult, Key, ScopeGroup, ScopeInput,
};
use skiller::config_ui::{cycle_selection, ConfigRow};
use skiller::config_view::{configured_state, installed_state, key_hint, required_state, view_lines};
use skiller::model::{default_agents, EffectiveMode, ProjectConfig, SelectionMode, SCHEMA_VERSION};
use skiller::name_map::NameMap;
use skiller::output::Tone;
use skiller::reconcile::ProjectionStatus;
use unicode_width::UnicodeWidthStr;

fn host() -> HostAgent {
    HostAgent {
        kind: "studio".to_owned(),
        name: "studio-agent".to_owned(),
        label: "Studio".to_owned(),
    }
}

fn row(name: &str, scope: &str, installed: bool) -> ConfigRow {
    ConfigRow {
        key: format!("pyg/{name}"),
        catalog: "pyg".to_owned(),
        scope: scope.to_owned(),
        scope_order: 0,
        name: name.to_owned(),
        installed_name: name.to_owned(),
        description: format!("Configure {name}"),
        selected: None,
        gitignore: false,
        installed,
        installed_mode: if installed { Some(EffectiveMode::Enable) } else { None },
        required_by: Vec::new(),
        read_only: false,
        status: None,
        sync: None,
        authoring: None,
        recommended_by: Vec::new(),
        plan: Vec::new(),
    }
}

fn state(screen: ConfigScreen, scope: usize, skill: usize) -> ConfigTuiState {
    ConfigTuiState { screen, scope, skill }
}

#[test]
fn scope_view_groups_skills_before_showing_skill_rows() {
    let rows = vec![
        row("develop", "engineering", true),
        row("simplify", "engineering", true),
        row("memo", "knowledge", false),
    ];
    let mut manifest = ProjectConfig::new(&host());
    cycle_selection(&mut manifest, "pyg/develop");
    let rendered =
        view_lines(&rows, &manifest, true, state(ConfigScreen::Scopes, 0, 0), 80, 14).join("\n");
    assert!(rendered.contains("› $engineering"));
    assert!(rendered.contains("2 skills · 1 configured"));
    assert!(rendered.contains("$knowledge"));
    assert!(!rendered.contains("develop"));
    assert!(rendered.contains("[Enter] Open"));
}

#[test]
fn wide_view_keeps_scopes_skills_and_details_visible_in_order() {
    let rows = vec![
        row("develop", "engineering", true),
        row("simplify", "engineering", false),
        row("memo", "knowledge", false),
    ];
    let lines = view_lines(
        &rows,
        &ProjectConfig::new(&host()),
        true,
        state(ConfigScreen::Scopes, 0, 0),
        140,
        18,
    );
    let header = lines.iter().find(|line| line.contains("Scopes")).unwrap();
    let scopes = header.find("Scopes").unwrap();
    let skills = header.find("Skills · $engineering").unwrap();
    let details = header.find("Details").unwrap();
    assert!(scopes < skills && skills < details);
    let rendered = lines.join("\n");
    assert!(rendered.contains("› ○ $engineering"));
    assert!(rendered.contains("• develop"));
    assert!(rendered.contains("Configure develop"));
    assert!(lines.iter().all(|line| line.width() <= 140));
}

#[test]
fn semantic_colors_are_stable_by_scope_identity_and_state_role() {
    assert_eq!(scope_color("› ○ $engineering 0/2"), scope_color("$engineering"));
    assert_eq!(
        segment_color("develop  ● Agent + Human", state(ConfigScreen::Skills, 0, 0)),
        Some(Tone::Success)
    );
    assert_eq!(
        segment_color("Required by release", state(ConfigScreen::Skills, 0, 0)),
        Some(Tone::Warning)
    );
    assert_eq!(
        segment_color("CONFLICT", state(ConfigScreen::Skills, 0, 0)),
        Some(Tone::Error)
    );
    assert_eq!(
        segment_color("develop  ○ Off", state(ConfigScreen::Skills, 0, 0)),
        Some(Tone::Muted)
    );
}

#[test]
fn changing_scope_resets_the_previewed_skill() {
    let rows = vec![
        row("develop", "engineering", true),
        row("simplify", "engineering", false),
        row("memo", "knowledge", false),
    ];
    let mut manifest = ProjectConfig::new(&host());
    let mut position = state(ConfigScreen::Scopes, 0, 1);
    handle_key(&rows, &mut manifest, true, &mut position, Key::Down);
    assert_eq!((position.scope, position.skill), (1, 0));
}

#[test]
fn scope_enter_and_escape_form_a_two_level_navigation_stack() {
    let rows = vec![row("develop", "engineering", true)];
    let mut manifest = ProjectConfig::new(&host());
    let mut position = ConfigTuiState::default();
    assert_eq!(
        handle_key(&rows, &mut manifest, true, &mut position, Key::Enter),
        InputResult::Continue
    );
    assert_eq!(position.screen, ConfigScreen::Skills);
    assert_eq!(
        handle_key(&rows, &mut manifest, true, &mut position, Key::Esc),
        InputResult::Continue
    );
    assert_eq!(position.screen, ConfigScreen::Scopes);
    assert_eq!(
        handle_key(&rows, &mut manifest, true, &mut position, Key::Esc),
        InputResult::Cancel
    );
}

#[test]
fn q_cancels_and_s_saves_from_any_screen() {
    let rows = vec![row("develop", "engineering", true)];
    let mut manifest = ProjectConfig::new(&host());
    for screen in [ConfigScreen::Scopes, ConfigScreen::Skills] {
        let mut position = state(screen, 0, 0);
        assert_eq!(
            handle_key(&rows, &mut manifest, true, &mut position, Key::Char('q')),
            InputResult::Cancel
        );
        let mut position = state(screen, 0, 0);
        assert_eq!(
            handle_key(&rows, &mut manifest, true, &mut position, Key::Char('s')),
            InputResult::Save
        );
    }
}

#[test]
fn skill_view_uses_one_line_rows_and_keeps_details_on_the_right() {
    let mut rows = vec![
        row("develop", "engineering", true),
        row("simplify", "engineering", false),
    ];
    rows[0].required_by = vec!["release".to_owned(), "skiller".to_owned()];
    let mut manifest = ProjectConfig {
        version: SCHEMA_VERSION,
        skills: NameMap::new(),
        agents: default_agents(&host()),
    };
    cycle_selection(&mut manifest, "pyg/develop");
    let lines = view_lines(&rows, &manifest, true, state(ConfigScreen::Skills, 0, 0), 100, 18);
    let rendered = lines.join("\n");
    let selected = lines.iter().find(|line| line.contains("› develop")).unwrap();
    assert!(selected.contains("● Agent + Human"));
    assert!(!rendered.contains("Config  "));
    assert!(rendered.contains("│ Details"));
    assert!(rendered.contains("Description"));
    assert!(rendered.contains("By release, skiller"));
    assert!(rendered.contains("Agent + Human as develop"));
    assert!(lines.iter().all(|line| line.width() <= 100));
}

#[test]
fn space_changes_only_the_selected_skill_inside_a_scope() {
    let rows = vec![row("develop", "engineering", false)];
    let mut manifest = ProjectConfig::new(&host());
    let mut scope_position = ConfigTuiState::default();
    handle_key(&rows, &mut manifest, true, &mut scope_position, Key::Char(' '));
    assert!(manifest.skills.is_empty());
    scope_position.screen = ConfigScreen::Skills;
    handle_key(&rows, &mut manifest, true, &mut scope_position, Key::Char(' '));
    assert_eq!(manifest.skills.get("pyg/develop").unwrap().mode(), SelectionMode::Enable);
}

#[test]
fn narrow_skill_view_keeps_rows_single_line_and_stacks_selected_details() {
    let rows = vec![row("develop", "engineering", true)];
    let lines = view_lines(
        &rows,
        &ProjectConfig::new(&host()),
        true,
        state(ConfigScreen::Skills, 0, 0),
        52,
        16,
    );
    let rendered = lines.join("\n");
    assert!(!rendered.contains(" │ "));
    assert!(lines
        .iter()
        .any(|line| line.starts_with("› develop") && line.contains("○ Off")));
    assert!(rendered.contains("Description: Configure develop"));
    assert!(rendered.contains("Required: None"));
    assert!(rendered.contains("Installed: Agent + Human as develop"));
    assert!(lines.iter().all(|line| line.width() <= 52));
}

#[test]
fn divergent_project_rows_show_status_and_no_mutation_hint() {
    let mut divergent = row("develop", "engineering", true);
    divergent.sync = Some(ProjectionStatus::KeepLocal);
    divergent.authoring = Some("/catalog/skills/develop".to_owned());
    let lines = view_lines(
        &vec![divergent],
        &ProjectConfig::new(&host()),
        false,
        state(ConfigScreen::Skills, 0, 0),
        100,
        18,
    );
    let rendered = lines.join("\n");
    assert!(rendered.contains("KEEP LOCAL"));
    assert!(rendered.contains("/catalog/skills/develop"));
    assert!(!rendered.contains("[Space] Mode"));
    assert!(!rendered.contains("[I] Git-ignore"));
    assert!(rendered.contains("[S] Save"));
    assert!(rendered.contains("[Esc] Scopes"));
}

#[test]
fn orphaned_local_detail_prefers_sync_state_over_generic_read_only_state() {
    let mut orphaned = row("retired", "other", true);
    orphaned.read_only = true;
    orphaned.status = Some("orphaned".to_owned());
    orphaned.sync = Some(ProjectionStatus::OrphanedLocal);
    let installed = installed_state(&orphaned);
    assert!(installed.contains("ORPHANED"));
    assert!(!installed.contains("STALE"));
}

#[test]
fn project_gitignore_hint_requires_an_editable_configured_skill() {
    let skill = row("develop", "engineering", false);
    let rows = vec![skill];
    let groups = scope_groups(&rows);
    let position = state(ConfigScreen::Skills, 0, 0);
    let mut manifest = ProjectConfig::new(&host());
    assert!(!key_hint(&rows, &groups, &manifest, false, position, 100).contains("Git-ignore"));
    cycle_selection(&mut manifest, "pyg/develop");
    assert!(key_hint(&rows, &groups, &manifest, false, position, 100).contains("[I] Git-ignore"));
    assert!(!key_hint(&rows, &groups, &manifest, true, position, 100).contains("Git-ignore"));
    let narrow = key_hint(&rows, &groups, &manifest, false, position, 52);
    assert!(narrow.contains("[Space] Mode"));
    assert!(narrow.contains("[I] Ignore"));
    assert!(narrow.contains("[S] Save"));
    assert!(narrow.contains("[Esc] Scopes"));
}

#[test]
fn redraw_is_one_synchronized_frame_without_a_full_screen_blank() {
    let frame = write_frame(
        &vec!["Skiller".to_owned(), "Scopes".to_owned()],
        ConfigTuiState::default(),
        false,
    );
    assert!(frame.starts_with("\u{1b}[?2026h"));
    assert!(frame.ends_with("\u{1b}[?2026l"));
    assert!(frame.contains("\u{1b}[2K"));
    assert!(!frame.contains("\u{1b}[2J"));
}

#[test]
fn a_colored_frame_sets_and_resets_its_colors() {
    let lines = vec![
        "Skiller".to_owned(),
        "› $engineering".to_owned(),
        "CONFLICT".to_owned(),
    ];
    let plain = write_frame(&lines, ConfigTuiState::default(), false);
    let colored = write_frame(&lines, ConfigTuiState::default(), true);
    assert!(colored.len() > plain.len());
    assert!(colored.contains("\u{1b}[38;2;"));
    assert!(colored.contains("\u{1b}[0m") || colored.contains("\u{1b}[39"));
    assert!(colored.contains("\u{1b}[1;1H"));
    assert!(colored.contains("\u{1b}[J"));
    assert!(is_heading("Details"));
    assert!(!is_heading("develop"));
    let spans = spans_of("Skiller", 0, 3, ConfigTuiState::default());
    let text: String = spans.iter().map(|span| span.text.as_str()).collect();
    assert_eq!(text, "Skiller");
}

#[test]
fn view_is_safe_when_empty_or_tiny() {
    assert_eq!(
        view_lines(
            &vec![],
            &ProjectConfig::new(&host()),
            true,
            ConfigTuiState::default(),
            1,
            1,
        ),
        vec!["…"]
    );
    let lines = view_lines(
        &vec![row("develop", "engineering", true)],
        &ProjectConfig::new(&host()),
        false,
        ConfigTuiState::default(),
        8,
        4,
    );
    assert_eq!(lines.len(), 4);
    assert!(lines.iter().all(|line| line.width() <= 8));
}

#[test]
fn groups_follow_the_scopes_of_the_rows() {
    let rows = vec![
        row("develop", "engineering", true),
        row("simplify", "engineering", false),
        row("memo", "knowledge", false),
    ];
    assert_eq!(
        scope_groups(&rows),
        vec![ScopeGroup { start: 0, end: 2 }, ScopeGroup { start: 2, end: 3 }]
    );
    let groups = scope_groups(&rows);
    assert_eq!(
        normalize_state(&groups, state(ConfigScreen::Skills, 9, 9)),
        state(ConfigScreen::Skills, 1, 0)
    );
}

#[test]
fn read_only_rows_are_left_alone_by_the_keys() {
    let mut fixed = row("develop", "engineering", false);
    fixed.read_only = true;
    let rows = vec![fixed];
    let mut manifest = ProjectConfig::new(&host());
    let mut position = state(ConfigScreen::Skills, 0, 0);
    handle_key(&rows, &mut manifest, false, &mut position, Key::Char(' '));
    handle_key(&rows, &mut manifest, false, &mut position, Key::Char('i'));
    assert!(manifest.skills.is_empty());
}

#[test]
fn states_of_a_row_are_told_in_words() {
    let mut manifest = ProjectConfig::new(&host());
    let develop = row("develop", "engineering", true);
    assert!(configured_state(&develop, &manifest).contains("Off"));
    cycle_selection(&mut manifest, "pyg/develop");
    assert!(configured_state(&develop, &manifest).contains("Agent + Human"));
    assert_eq!(required_state(&develop), "None");
    assert_eq!(installed_state(&develop), "Agent + Human as develop");
}

#[test]
fn save_and_cancel_stand_before_the_other_hints() {
    let rows = vec![row("develop", "engineering", true), row("memo", "knowledge", false)];
    let groups = scope_groups(&rows);
    let manifest = ProjectConfig::new(&host());
    for screen in [ConfigScreen::Scopes, ConfigScreen::Skills] {
        let hint = key_hint(&rows, &groups, &manifest, false, state(screen, 0, 0), 100);
        assert!(hint.starts_with("[S] Save  [Q] Cancel  "));
        assert!(hint.contains("[Enter] Open") || hint.contains("[Esc] Scopes"));
        let narrow = key_hint(&rows, &groups, &manifest, false, state(screen, 0, 0), 24);
        assert!(narrow.starts_with("[S] Save"));
        assert!(narrow.contains("[Q]"));
        assert!(narrow.width() <= 24);
    }
}

#[test]
fn recommended_skills_and_scopes_are_marked_but_not_selected() {
    let mut starred = row("develop", "engineering", false);
    starred.recommended_by = vec!["Cargo.toml".to_owned(), "release".to_owned()];
    let rows = vec![starred, row("memo", "knowledge", false)];
    let manifest = ProjectConfig::new(&host());
    let wide =
        view_lines(&rows, &manifest, false, state(ConfigScreen::Skills, 0, 0), 140, 24).join("\n");
    assert!(wide.contains("$engineering ★"));
    assert!(wide.contains("develop ★"));
    assert!(!wide.contains("memo ★"));
    assert!(!wide.contains("$knowledge ★"));
    assert!(wide.contains("Recommended"));
    assert!(wide.contains("By Cargo.toml, release"));
    let narrow = view_lines(&rows, &manifest, false, state(ConfigScreen::Skills, 0, 0), 52, 20);
    assert!(narrow.iter().any(|line| line.starts_with("› develop ★") && line.contains("○ Off")));
    assert!(narrow.iter().any(|line| line.contains("Recommended: By Cargo.toml, release")));
    assert!(narrow.iter().all(|line| line.width() <= 52));
    assert!(manifest.skills.is_empty());
    assert_eq!(segment_color("develop ★", ConfigTuiState::default()), Some(Tone::Accent));
    assert!(is_heading("Recommended"));
}

#[test]
fn wide_details_show_the_plan_of_a_skill() {
    let mut planned = row("develop", "engineering", false);
    planned.plan = vec!["develop".to_owned(), "└─ note".to_owned()];
    let lines = view_lines(
        &vec![planned],
        &ProjectConfig::new(&host()),
        false,
        state(ConfigScreen::Skills, 0, 0),
        140,
        24,
    );
    let heading = lines.iter().position(|line| line.trim_end().ends_with("│ Plan")).unwrap();
    assert!(lines[heading + 1].contains("│ develop"));
    assert!(lines[heading + 2].contains("│ └─ note"));
    assert!(is_heading("Plan"));
}

#[test]
fn lines_stay_within_the_screen() {
    let mut long = row("develop", "engineering", true);
    long.description = "Describe a long and careful way of working on one small change".to_owned();
    long.recommended_by = vec!["pyproject.toml".to_owned()];
    let rows = vec![long, row("memo", "knowledge", false)];
    for screen in [ConfigScreen::Scopes, ConfigScreen::Skills] {
        for width in [1, 7, 20, 51, 80, 100, 139, 200] {
            for height in [1, 2, 3, 4, 9, 24] {
                let lines = view_lines(
                    &rows,
                    &ProjectConfig::new(&host()),
                    false,
                    state(screen, 0, 0),
                    width,
                    height,
                );
                assert_eq!(lines.len(), height);
                assert!(lines.iter().all(|line| line.width() <= width));
            }
        }
    }
}

#[test]
fn a_scope_is_chosen_by_keys() {
    assert_eq!(choose_scope(true, Key::Up), ScopeInput::Mark(false));
    assert_eq!(choose_scope(false, Key::Char('j')), ScopeInput::Mark(true));
    assert_eq!(choose_scope(true, Key::Char('k')), ScopeInput::Mark(false));
    assert_eq!(choose_scope(true, Key::Home), ScopeInput::Mark(true));
    assert_eq!(choose_scope(true, Key::Enter), ScopeInput::Open(true));
    assert_eq!(choose_scope(false, Key::Enter), ScopeInput::Open(false));
    assert_eq!(choose_scope(false, Key::Esc), ScopeInput::Cancel);
    assert_eq!(choose_scope(true, Key::Char('q')), ScopeInput::Cancel);
}
