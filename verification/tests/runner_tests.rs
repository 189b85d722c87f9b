use xuzzel::model::{Entry, EntrySource, SearchData};
use xuzzel::runner::{
    activate, sanitize_argv, sanitize_exec, sanitize_token, shell_command_plan,
    terminal_wrap_command, Activation, LaunchError,
};

#[test]
fn strips_desktop_exec_placeholders() {
    let argv = sanitize_exec("env BAMF_DESKTOP_FILE_HINT=%k firefox %u --new-window").unwrap();
    assert_eq!(argv, vec!["env", "BAMF_DESKTOP_FILE_HINT=", "firefox", "--new-window"]);
}

#[test]
fn preserves_quoted_arguments() {
    let argv = sanitize_exec("sh -c 'printf hello world'").unwrap();
    assert_eq!(argv, vec!["sh", "-c", "printf hello world"]);
}

#[test]
fn terminal_command_replaces_placeholder() {
    let command = terminal_wrap_command(
        "foot -a {cmd} -T {cmd} {cmd}",
        &vec!["htop".to_string()],
    )
    .unwrap();
    let debug = format!("{command:?}");
    assert!(debug.contains("foot"));
    assert!(debug.contains("htop"));
}

#[test]
fn terminal_command_exact_argv() {
    let argv = vec!["htop".to_string(), "-d".to_string(), "5".to_string()];
    assert_eq!(
        terminal_wrap_command("foot -T {cmd}", &argv).unwrap(),
        vec!["foot", "-T", "htop -d 5"]
    );
    assert_eq!(
        terminal_wrap_command("kitty -e", &argv).unwrap(),
        vec!["kitty", "-e", "htop", "-d", "5"]
    );
    assert_eq!(terminal_wrap_command("", &argv).unwrap(), vec!["xterm", "-e", "htop -d 5"]);
    assert_eq!(terminal_wrap_command("'unclosed", &argv), Err(LaunchError::UnparsableCommand));
}

#[test]
fn sanitize_token_cases() {
    assert_eq!(sanitize_token("%u"), None);
    assert_eq!(sanitize_token("a%%b"), Some("ab".to_string()));
    assert_eq!(sanitize_token("x%"), Some("x".to_string()));
    assert_eq!(sanitize_token("plain"), Some("plain".to_string()));
    assert_eq!(sanitize_exec("\"unterminated"), Err(LaunchError::UnparsableCommand));
}

fn desktop_entry(exec: Option<&str>, terminal: bool) -> Entry {
    Entry {
        id: "app".to_string(),
        index: 0,
        label: "App".to_string(),
        raw_text: String::new(),
        icon_name: None,
        icon: None,
        exec_line: exec.map(|e| e.to_string()),
        path: None,
        terminal,
        working_dir: Some("/tmp".to_string()),
        search: SearchData::default(),
        source: EntrySource::Desktop,
    }
}

#[test]
fn activation_plans() {
    match activate(&desktop_entry(Some("app %F --flag"), false), "xterm -e {cmd}").unwrap() {
        Activation::Launch(plan) => {
            assert_eq!(plan.argv, vec!["app", "--flag"]);
            assert_eq!(plan.working_dir.as_deref(), Some("/tmp"));
        }
        Activation::Print(_) => panic!("expected a launch"),
    }
    match activate(&desktop_entry(Some("top"), true), "xterm -e {cmd}").unwrap() {
        Activation::Launch(plan) => assert_eq!(plan.argv, vec!["xterm", "-e", "top"]),
        Activation::Print(_) => panic!("expected a launch"),
    }
    assert_eq!(
        activate(&desktop_entry(Some("%u"), false), "xterm").err(),
        Some(LaunchError::EmptyCommand)
    );
    assert_eq!(activate(&desktop_entry(None, false), "xterm").err(), Some(LaunchError::EmptyCommand));
    let mut dmenu = desktop_entry(None, false);
    dmenu.source = EntrySource::Dmenu;
    match activate(&dmenu, "xterm").unwrap() {
        Activation::Print(text) => assert_eq!(text, "App"),
        Activation::Launch(_) => panic!("expected a print"),
    }
    assert_eq!(LaunchError::EmptyCommand.message(), "desktop entry command resolved to an empty argv");
}

#[test]
fn sanitizing_twice_changes_nothing() {
    let words: Vec<String> = ["a%%b", "%u", "x%", "%", "plain", "%%%c", "q%fz"].iter().map(|w| w.to_string()).collect();
    let once = sanitize_argv(&words);
    assert_eq!(once, vec!["ab", "x", "plain", "qz"]);
    for word in &once {
        assert!(!word.is_empty() && !word.contains('%'));
    }
    assert_eq!(sanitize_argv(&once), once);
}

#[test]
fn typed_commands_run_through_the_shell() {
    let plan = shell_command_plan("ls -la | wc -l");
    assert_eq!(plan.argv, vec!["/bin/sh", "-c", "ls -la | wc -l"]);
    assert!(plan.working_dir.is_none());
}
