use xuzzel::desktop::{
    application_dirs, apply_nth_transform, binary_in_path, build_search_data, desktop_entry_from,
    desktop_id, load_desktop_entries, load_dmenu_entries, parse_desktop_file, parse_list,
    desktop_hidden, program_lookup, DesktopFile, DmenuOptions, ProgramLookup,
};
use xuzzel::model::EntrySource;

#[test]
fn search_text_includes_metadata() {
    let keywords = vec!["browser".to_string(), "web".to_string()];
    let categories = vec!["Network".to_string()];
    let text = build_search_data(
        "firefox",
        "Firefox",
        Some("Web Browser"),
        "firefox %u",
        &keywords,
        &categories,
        Some("Browse the web"),
        Some("/usr/share/applications/firefox.desktop"),
    );

    assert!(text.combined.contains("firefox"));
    assert!(text.generic.contains("web browser"));
    assert!(text.comment.contains("browse the web"));
    assert!(text.keywords.contains("browser web"));
    assert!(text.categories.contains("network"));
    assert!(text.combined.contains("firefox.desktop"));
}

#[test]
fn search_data_combined_text_exact() {
    let text = build_search_data("app", "App", None, "RUN", &[], &["A".to_string(), "B".to_string()], None, None);
    assert_eq!(text.combined, "app app run a b");
    assert_eq!(text.generic, "");
    assert_eq!(text.keywords, "");
}

#[test]
fn path_lookup_handles_missing_binary() {
    assert!(!binary_in_path("definitely-not-a-real-binary-for-xuzzel"));
}

#[test]
fn path_lookup_rejects_empty_name() {
    assert!(!binary_in_path(""));
    assert!(!binary_in_path("/definitely/not/here/xuzzel"));
}

#[test]
fn nth_transform_supports_single_column_and_ranges() {
    assert_eq!(
        apply_nth_transform("1\tTwo\tThree", Some("2"), '\t').as_deref(),
        Some("Two")
    );
    assert_eq!(
        apply_nth_transform("1\tTwo\tThree", Some("{2} / {1..2}"), '\t').as_deref(),
        Some("Two / 1 Two")
    );
}

#[test]
fn nth_transform_edge_cases() {
    assert_eq!(apply_nth_transform("a b", None, ' '), None);
    assert_eq!(apply_nth_transform("a b", Some("  "), ' '), None);
    assert_eq!(apply_nth_transform("a b", Some("0"), ' '), None);
    assert_eq!(apply_nth_transform("a b", Some("00"), ' '), None);
    assert_eq!(apply_nth_transform("a b", Some("3"), ' '), None);
    assert_eq!(apply_nth_transform("a b c", Some("{2..}"), ' ').as_deref(), Some("b c"));
    assert_eq!(apply_nth_transform("a b c", Some("{..2}"), ' ').as_deref(), Some("a b"));
    assert_eq!(apply_nth_transform("a b c", Some("{0}-{9}"), ' ').as_deref(), Some("a-"));
    assert_eq!(apply_nth_transform("a b c", Some("x{y}z"), ' ').as_deref(), Some("x{y}z"));
    assert_eq!(apply_nth_transform("a b c", Some("<{3"), ' ').as_deref(), Some("<c"));
    assert_eq!(apply_nth_transform("a b c", Some("{1}{"), ' ').as_deref(), Some("a{}"));
}

#[test]
fn parse_list_trims_and_drops_empty_items() {
    assert_eq!(parse_list(" a ;b;; c;"), vec!["a", "b", "c"]);
    assert_eq!(parse_list(""), Vec::<String>::new());
}

#[test]
fn desktop_id_is_file_stem() {
    assert_eq!(desktop_id("/usr/share/applications/firefox.desktop"), "firefox");
    assert_eq!(desktop_id("/usr/share/applications/org.gnome.Nautilus.desktop"), "org.gnome.Nautilus");
    assert_eq!(desktop_id("/"), "/");
}

const FIREFOX: &str = "[Desktop Entry]\nName=Firefox\nName=Other\nGenericName=Web Browser\nExec=firefox %u\nIcon=firefox\nKeywords=browser;web;\nCategories=Network;\nTerminal=false\n\n[Desktop Action new]\nName=New Window\nExec=firefox --new-window\n";

#[test]
fn desktop_file_fields_are_read() {
    let entry = parse_desktop_file(FIREFOX, "/usr/share/applications/firefox.desktop", false).unwrap();
    assert_eq!(entry.id, "firefox");
    assert_eq!(entry.label, "Firefox");
    assert_eq!(entry.exec_line.as_deref(), Some("firefox %u"));
    assert_eq!(entry.icon_name.as_deref(), Some("firefox"));
    assert_eq!(entry.path.as_deref(), Some("/usr/share/applications/firefox.desktop"));
    assert!(!entry.terminal);
    assert_eq!(entry.source, EntrySource::Desktop);
    assert_eq!(entry.search.keywords, "browser web");
    assert_eq!(entry.search.combined, "firefox firefox web browser firefox %u browser web network");
}

#[test]
fn desktop_file_hidden_or_incomplete_entries_are_skipped() {
    let hidden = "[Desktop Entry]\nName=A\nExec=a\nNoDisplay=true\n";
    assert!(parse_desktop_file(hidden, "/x/a.desktop", false).is_none());
    let no_exec = "[Desktop Entry]\nName=A\n";
    assert!(parse_desktop_file(no_exec, "/x/a.desktop", false).is_none());
    let outside = "[Other]\nName=A\nExec=a\n";
    assert!(parse_desktop_file(outside, "/x/a.desktop", false).is_none());
    let crlf = "# comment\r\n[Desktop Entry]\r\nName = Tool \r\nExec=tool\r\nTerminal=1\r\n";
    let entry = parse_desktop_file(crlf, "/x/tool.desktop", true).unwrap();
    assert_eq!(entry.label, "Tool");
    assert!(entry.terminal);
    assert!(entry.search.combined.ends_with("/x/tool.desktop"));
}

#[test]
fn desktop_file_try_exec_decides_with_lookup_result() {
    let text = "[Desktop Entry]\nName=A\nExec=a\nTryExec=definitely-not-a-real-binary-for-xuzzel\n";
    assert!(desktop_entry_from(text, "/x/a.desktop", false, false).is_none());
    assert!(desktop_entry_from(text, "/x/a.desktop", false, true).is_some());
    assert!(parse_desktop_file(text, "/x/a.desktop", false).is_none());
}

#[test]
fn desktop_entries_deduplicate_by_id_and_sort_by_label() {
    let files = vec![
        DesktopFile { path: "/a/zed.desktop".to_string(), contents: "[Desktop Entry]\nName=zed\nExec=zed\n".to_string() },
        DesktopFile { path: "/a/alpha.desktop".to_string(), contents: "[Desktop Entry]\nName=Alpha\nExec=alpha\n".to_string() },
        DesktopFile { path: "/b/zed.desktop".to_string(), contents: "[Desktop Entry]\nName=Zed Two\nExec=zed2\n".to_string() },
        DesktopFile { path: "/b/beta.desktop".to_string(), contents: "[Desktop Entry]\nName=beta\nExec=beta\n".to_string() },
    ];
    let entries = load_desktop_entries(&files, false);
    let labels: Vec<&str> = entries.iter().map(|e| e.label.as_str()).collect();
    assert_eq!(labels, vec!["Alpha", "beta", "zed"]);
}

#[test]
fn application_dirs_follow_xdg_variables() {
    assert_eq!(
        application_dirs(Some("/home/u"), None, None),
        vec![
            "/home/u/.local/share/applications",
            "/usr/local/share/applications",
            "/usr/share/applications"
        ]
    );
    assert_eq!(
        application_dirs(None, Some("/data/"), Some("/opt/share::/usr/share")),
        vec!["/data/applications", "/opt/share/applications", "/usr/share/applications"]
    );
    assert_eq!(application_dirs(None, None, Some("")), Vec::<String>::new());
}

fn options(delimiter: char) -> DmenuOptions {
    DmenuOptions { delimiter, show_paths: false, with_nth: None, match_nth: None, nth_delimiter: '\t' }
}

#[test]
fn dmenu_entries_skip_empty_lines_and_keep_positions() {
    let entries = load_dmenu_entries("one\r\n\ntwo\nThree", &options('\n'));
    let labels: Vec<&str> = entries.iter().map(|e| e.label.as_str()).collect();
    assert_eq!(labels, vec!["one", "two", "Three"]);
    assert_eq!(entries[1].id, "stdin:2");
    assert_eq!(entries[1].index, 2);
    assert_eq!(entries[2].search.name, "three");
    assert_eq!(entries[2].source, EntrySource::Dmenu);
}

#[test]
fn dmenu_entries_split_on_nul_and_apply_columns() {
    let mut opts = options('\0');
    opts.with_nth = Some("2".to_string());
    opts.show_paths = true;
    let entries = load_dmenu_entries("1\tAlpha\n\u{0}2\tBeta", &opts);
    assert_eq!(entries.len(), 2);
    assert_eq!(entries[0].label, "Alpha");
    assert_eq!(entries[0].raw_text, "1\tAlpha");
    assert_eq!(entries[0].search.combined, "alpha stdin");
    assert_eq!(entries[1].id, "stdin:1");
}

#[test]
fn program_lookup_kinds() {
    assert_eq!(program_lookup(""), ProgramLookup::Never);
    assert_eq!(program_lookup("/usr/bin/env"), ProgramLookup::AsPath);
    assert_eq!(program_lookup("bin/tool"), ProgramLookup::AsPath);
    assert_eq!(program_lookup("firefox"), ProgramLookup::OnSearchPath);
}

#[test]
fn hidden_files_mask_later_files_with_their_id() {
    let files = vec![
        DesktopFile { path: "/home/u/foo.desktop".to_string(), contents: "[Desktop Entry]\nName=Foo\nExec=foo\nHidden=true\n".to_string() },
        DesktopFile { path: "/usr/foo.desktop".to_string(), contents: "[Desktop Entry]\nName=Foo\nExec=foo\n".to_string() },
        DesktopFile { path: "/usr/bar.desktop".to_string(), contents: "[Desktop Entry]\nName=Bar\nExec=bar\n".to_string() },
        DesktopFile { path: "/usr/nodisp.desktop".to_string(), contents: "[Desktop Entry]\nName=N\nExec=n\nNoDisplay=true\n".to_string() },
        DesktopFile { path: "/opt/nodisp.desktop".to_string(), contents: "[Desktop Entry]\nName=N2\nExec=n\n".to_string() },
    ];
    assert!(desktop_hidden(&files[0].contents));
    assert!(!desktop_hidden(&files[1].contents));
    let entries = load_desktop_entries(&files, false);
    let ids: Vec<&str> = entries.iter().map(|e| e.id.as_str()).collect();
    assert_eq!(ids, vec!["bar", "nodisp"]);
}

#[test]
fn empty_try_exec_never_yields_an_entry() {
    let text = "[Desktop Entry]\nName=App\nExec=app\nTryExec=\n";
    assert!(parse_desktop_file(text, "/x/app.desktop", false).is_none());
}
