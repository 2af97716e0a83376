use cmdstat::opts::{DisplayMode, DisplayOpts, HistoryFlavor, HistoryPath, OptsError, ShellOpts};
use cmdstat::text::{compare_text, text_contains};
use cmdstat::trie::Node;

fn display(fuzzy: bool, exact: bool, heat: bool) -> DisplayOpts {
    DisplayOpts { fuzzy, exact, heat }
}

#[test]
fn display_defaults_to_fuzzy() {
    assert_eq!(display(false, false, false).validate(), Ok(DisplayMode::Fuzzy));
    assert_eq!(display(true, false, false).validate(), Ok(DisplayMode::Fuzzy));
}

#[test]
fn display_single_choices() {
    assert_eq!(display(false, true, false).validate(), Ok(DisplayMode::Exact));
    assert_eq!(display(false, false, true).validate(), Ok(DisplayMode::Heat));
}

#[test]
fn display_multiple_choices_fail() {
    assert_eq!(display(true, true, false).validate(), Err(OptsError::MultipleDisplayModes));
    assert_eq!(display(false, true, true).validate(), Err(OptsError::MultipleDisplayModes));
    assert_eq!(display(true, false, true).validate(), Err(OptsError::MultipleDisplayModes));
}

#[test]
fn shell_selection() {
    let s = |zsh, bash| ShellOpts { zsh, bash };
    assert_eq!(s(true, false).validate(None), Ok(HistoryFlavor::Zsh));
    assert_eq!(s(false, true).validate(Some("/bin/zsh")), Ok(HistoryFlavor::Bash));
    assert_eq!(s(true, true).validate(Some("/bin/zsh")), Err(OptsError::MultipleShells));
    assert_eq!(s(false, false).validate(Some("/usr/bin/zsh")), Ok(HistoryFlavor::Zsh));
    assert_eq!(s(false, false).validate(Some("/bin/bash")), Ok(HistoryFlavor::Bash));
    assert_eq!(s(false, false).validate(Some("/bin/fish")), Err(OptsError::ShellNotDetected));
    assert_eq!(s(false, false).validate(None), Err(OptsError::ShellNotDetected));
}

#[test]
fn detect_shell_prefers_zsh() {
    assert_eq!(ShellOpts::detect_shell(Some("/opt/bash/zsh")), Some(HistoryFlavor::Zsh));
    assert_eq!(ShellOpts::detect_shell(Some("/bin/sh")), None);
    assert_eq!(ShellOpts::detect_shell(None), None);
}

#[test]
fn error_messages() {
    assert_eq!(
        OptsError::MultipleShells.message(),
        "Multiple shell modes selected, please select one or none"
    );
    assert_eq!(
        OptsError::ShellNotDetected.message(),
        "Unable to detect shell, please manually select a shell flavor"
    );
    assert_eq!(
        OptsError::MultipleDisplayModes.message(),
        "Multiple display modes selected, please select one or none"
    );
}

#[test]
fn history_file_names() {
    assert_eq!(HistoryFlavor::Zsh.history_file_name(), ".zsh_history");
    assert_eq!(HistoryFlavor::Bash.history_file_name(), ".bash_history");
}

#[test]
fn text_order_and_search() {
    assert_eq!(compare_text("git", "ls"), -1);
    assert_eq!(compare_text("ls", "git"), 1);
    assert_eq!(compare_text("git", "git"), 0);
    assert_eq!(compare_text("git", "gitk"), -1);
    assert!(text_contains("/usr/bin/zsh", "zsh"));
    assert!(text_contains("zsh", "zsh"));
    assert!(!text_contains("zs", "zsh"));
    assert!(text_contains("abc", ""));
}

#[test]
fn zsh_lines_lose_timestamp_and_sudo() {
    let (re, idx) = HistoryFlavor::Zsh.regex_and_capture_idx().unwrap();
    assert_eq!(idx, 2);
    let mut t = Node::new();
    t.ingest_line(&re, idx, ": 1600000000:0;sudo git  status");
    t.ingest_line(&re, idx, ": 1600000001:0;git status");
    t.ingest_line(&re, idx, "no separator here");
    assert_eq!(t.count_inclusive, 2);
    let top = t.top_exclusive(1, "");
    assert_eq!(top[0].full_text, "git status");
    assert_eq!(top[0].count, 2);
}

#[test]
fn bash_lines_lose_sudo() {
    let (re, idx) = HistoryFlavor::Bash.regex_and_capture_idx().unwrap();
    let mut t = Node::new();
    t.ingest_line(&re, idx, "sudo ls -la");
    t.ingest_line(&re, idx, "ls   -la ");
    let top = t.top_exclusive(1, "");
    assert_eq!(top[0].full_text, "ls -la");
    assert_eq!(top[0].count, 2);
}

#[test]
fn ingest_command_splits_words() {
    let mut t = Node::new();
    t.ingest_command(Some("  cargo   build "));
    t.ingest_command(None);
    assert_eq!(t.count_inclusive, 1);
    assert_eq!(t.children.len(), 1);
    assert_eq!(t.children[0].0, "cargo");
    assert_eq!(t.children[0].1.children[0].0, "build");
}

#[test]
fn history_path_prefers_histfile() {
    assert_eq!(
        HistoryFlavor::Zsh.history_path(Some("/tmp/h".to_string())),
        HistoryPath::Given("/tmp/h".to_string())
    );
    assert_eq!(HistoryFlavor::Zsh.history_path(None), HistoryPath::InHome(".zsh_history"));
    assert_eq!(HistoryFlavor::Bash.history_path(None), HistoryPath::InHome(".bash_history"));
}

#[test]
fn patterns_compile() {
    assert!(HistoryFlavor::Zsh.regex_and_capture_idx().is_some());
    assert!(HistoryFlavor::Bash.regex_and_capture_idx().is_some());
    assert_eq!(HistoryFlavor::Bash.history_pattern(), "^(sudo )?(.*)$");
}
