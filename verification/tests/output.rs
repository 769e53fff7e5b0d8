use skiller::columns::{fit, fit_measured, pad, pad_measured, spaces, wrap};
use skiller::output::{color_enabled, HumanOutput, Line, Tone};

#[test]
fn plain_output_preserves_script_friendly_prefixes() {
    let output = HumanOutput::plain();
    assert_eq!(output.success("done"), "done");
    assert_eq!(output.info("working"), "working");
    assert_eq!(output.warning("careful"), "warning: careful");
    assert_eq!(output.error("blocked"), "error: blocked");
    assert_eq!(output.item("skill"), "- skill");
}

#[test]
fn styled_output_uses_semantic_icons_and_ansi_roles() {
    let output = HumanOutput::styled();
    assert!(output.success("done").contains('✓'));
    assert!(output.success("done").contains("done"));
    assert!(output.warning("careful").contains('!'));
    assert!(output.warning("careful").contains("careful"));
    assert!(output.error("blocked").contains('×'));
    assert!(output.error("blocked").contains("blocked"));
    assert!(output.heading("Updates").contains("Updates"));
    assert!(output.success("done").contains("\u{1b}["));
}

#[test]
fn tones_color_styled_output_only() {
    assert_eq!(HumanOutput::plain().tone("row", Tone::Muted), "row");
    let styled = HumanOutput::styled().tone("row", Tone::Success);
    assert!(styled.contains("row"));
    assert!(styled.starts_with("\u{1b}["));
    let color = Tone::Success.color();
    assert!(styled.contains(&format!("38;2;{};{};{}", color.r, color.g, color.b)));
}

#[test]
fn lines_are_written_by_what_they_are() {
    let plain = HumanOutput::plain();
    assert_eq!(plain.write(&Line::Heading("Plan".to_owned())), "Plan");
    assert_eq!(plain.write(&Line::Warning("careful".to_owned())), "warning: careful");
    assert_eq!(plain.write(&Line::Item("a".to_owned())), "- a");
    assert_eq!(plain.write(&Line::Plain("a".to_owned())), "a");
    assert_eq!(plain.write(&Line::Muted("a".to_owned())), "a");
    let styled = HumanOutput::styled();
    assert_eq!(
        styled.write(&Line::Error("a".to_owned())),
        styled.error("a")
    );
}

#[test]
fn color_needs_a_terminal_that_wants_it() {
    assert!(color_enabled(true, false, None));
    assert!(color_enabled(true, false, Some("xterm")));
    assert!(!color_enabled(true, false, Some("dumb")));
    assert!(!color_enabled(true, true, None));
    assert!(!color_enabled(false, false, None));
}

#[test]
fn values_fit_their_columns() {
    assert_eq!(fit("develop", 7), "develop");
    assert_eq!(fit("develop", 4), "dev…");
    assert_eq!(fit("develop", 1), "…");
    assert_eq!(fit("develop", 0), "");
    assert_eq!(fit("表示幅", 4), "表…");
    assert_eq!(fit_measured("ab", &vec![1, 1], 1), "…");
    assert_eq!(pad("ab", 4), "ab  ");
    assert_eq!(pad("表", 4), "表  ");
    assert_eq!(pad("abcde", 4), "abc…");
    assert_eq!(pad_measured("ab", 2, 3), "ab ");
    assert_eq!(spaces(3), "   ");
}

#[test]
fn words_wrap_within_their_columns() {
    assert_eq!(wrap("load project context", 12, 4), vec!["load project", "context"]);
    let short = wrap("load project context before planning", 12, 2);
    assert_eq!(short.len(), 2);
    assert!(short[1].ends_with('…'));
    assert!(wrap("", 12, 2).len() <= 1);
}
