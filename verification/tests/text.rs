use skiller::agents::HostAgent;
use skiller::config_ui::{apply_assignments, ConfigRow};
use skiller::config_view::installed_state;
use skiller::model::ProjectConfig;
use skiller::paths::{is_within, join_path, leaf, paths_match};
use skiller::text::{
    before, begins, contains, decimal_of, ends, hex_of, joined, lines_of, lowered, number,
    same_texts, split, split_once, split_text, trimmed, trimmed_start, unquoted, without_eol,
    words_of,
};

fn host() -> HostAgent {
    HostAgent {
        kind: "studio".to_owned(),
        name: "studio-agent".to_owned(),
        label: "Studio".to_owned(),
    }
}

#[test]
fn texts_are_cut_and_joined() {
    assert_eq!(split("a,b,,c", ','), vec!["a", "b", "", "c"]);
    assert_eq!(split("", ','), vec![""]);
    assert_eq!(split_once("a/b/c", '/'), Some(("a".to_owned(), "b/c".to_owned())));
    assert_eq!(split_once("abc", '/'), None);
    assert_eq!(split_text("a │ b │ c", " │ "), vec!["a", "b", "c"]);
    assert_eq!(joined(&vec!["a".to_owned(), "b".to_owned()], " -> "), "a -> b");
    assert_eq!(lines_of("a\r\nb\n\nc"), vec!["a", "b", "", "c"]);
    assert!(lines_of("").is_empty());
    assert_eq!(words_of("  load\tproject \n context"), vec!["load", "project", "context"]);
}

#[test]
fn texts_are_trimmed() {
    assert_eq!(trimmed("\u{a0} x\t\n"), "x");
    assert_eq!(trimmed_start("  x "), "x ");
    assert_eq!(unquoted("\"x'\""), "x");
    assert_eq!(without_eol("x\r\n"), "x");
    assert_eq!(lowered("Ab Ü"), "ab Ü");
}

#[test]
fn texts_are_compared() {
    assert!(before("a", "ab"));
    assert!(before("Z", "a"));
    assert!(!before("b", "a"));
    assert!(begins("prepared-1", "prepared-"));
    assert!(ends("SKILL.md", ".md"));
    assert!(contains("abcabd", "abd"));
    assert!(!contains("ab", "abc"));
    assert!(same_texts(&vec!["a".to_owned()], &vec!["a".to_owned()]));
    assert!(!same_texts(&vec!["a".to_owned()], &vec![]));
}

#[test]
fn numbers_are_written_and_read() {
    assert_eq!(decimal_of(0), "0");
    assert_eq!(decimal_of(u64::MAX), "18446744073709551615");
    assert_eq!(hex_of(255, 16), "00000000000000ff");
    assert_eq!(number("+42"), Some(42));
    assert_eq!(number("4x"), None);
    assert_eq!(number(""), None);
    assert_eq!(number("18446744073709551616"), None);
}

#[test]
fn paths_are_joined_and_matched() {
    assert_eq!(join_path("/a", "b"), "/a/b");
    assert_eq!(join_path("/a/", "b"), "/a/b");
    assert_eq!(join_path("/a", "/b"), "/b");
    assert_eq!(join_path("", "b"), "b");
    assert!(is_within("/a/b", "/a"));
    assert!(is_within("/a", "/a"));
    assert!(!is_within("/ab", "/a"));
    assert!(paths_match("/a//b/./c/", "/a/b/c"));
    assert!(!paths_match("a/b", "/a/b"));
    assert!(!paths_match("./a", "a"));
    assert_eq!(leaf("/a/b/").as_deref(), Some("b"));
    assert_eq!(leaf("/"), None);
    assert_eq!(leaf("a/.."), None);
}

fn row() -> ConfigRow {
    ConfigRow {
        key: "pyg/develop".to_owned(),
        catalog: "pyg".to_owned(),
        scope: "engineering".to_owned(),
        scope_order: 0,
        name: "develop".to_owned(),
        installed_name: "develop".to_owned(),
        description: "Develop".to_owned(),
        selected: None,
        gitignore: false,
        installed: false,
        installed_mode: None,
        required_by: Vec::new(),
        read_only: true,
        status: Some("stale".to_owned()),
        sync: None,
        authoring: None,
        recommended_by: Vec::new(),
        plan: Vec::new(),
    }
}

#[test]
fn a_status_is_shown_in_capitals() {
    assert!(installed_state(&row()).contains("STALE"));
    assert!(!installed_state(&row()).contains("stale"));
}

#[test]
fn a_wrong_assignment_is_quoted() {
    let mut manifest = ProjectConfig::new(&host());
    let error =
        apply_assignments(&mut manifest, &vec![row()], &vec!["pyg\t".to_owned()], false)
            .unwrap_err()
            .message();
    assert!(error.contains("\"pyg\\t\""));
}
