use xuzzel::cli::{apply_cli_overrides, Cli};
use xuzzel::config::Config;
use xuzzel::model::{Entry, EntrySource, MatchResult, SearchData};
use xuzzel::paint::rgb;
use xuzzel::session::{
    apply_action, auto_select_fires, clamp_view, dmenu_output, next_action, event_in_range,
    initial_rows,
    local_selection, nth_delimiter_char, row_index_from_y, select_position, show_list, shown_input,
    submit_choice, submit_typed, visible_bounds, Submit, UiAction, UiEvent, XK_BACKSPACE, XK_DOWN, XK_END,
    XK_ESCAPE, XK_PAGE_DOWN, XK_PAGE_UP, XK_RETURN, XK_TAB, XK_UP, XK_HOME,
};

fn cli() -> Cli {
    Cli {
        dmenu: true,
        dmenu0: false,
        check_config: false,
        config: None,
        cache: None,
        show_paths: false,
        prompt: None,
        prompt_only: None,
        hide_prompt: false,
        placeholder: None,
        message: None,
        search: None,
        auto_select: false,
        select: None,
        select_index: None,
        lines: None,
        terminal: None,
        match_counter: false,
        hide_before_typing: false,
        index: false,
        password: None,
        minimal_lines: false,
        no_run_if_empty: false,
        only_match: false,
        with_nth: None,
        accept_nth: None,
        match_nth: None,
        nth_delimiter: "\t".to_string(),
    }
}

fn item(label: &str, raw: &str, index: usize) -> MatchResult {
    MatchResult {
        entry: Entry {
            id: format!("stdin:{index}"),
            index,
            label: label.to_string(),
            raw_text: raw.to_string(),
            icon_name: None,
            icon: None,
            exec_line: None,
            path: None,
            terminal: false,
            working_dir: None,
            search: SearchData::default(),
            source: EntrySource::Dmenu,
        },
        score: 0,
        matched_indices: vec![],
    }
}

#[test]
fn clamp_keeps_selection_visible() {
    assert_eq!(clamp_view(0, 0, 0, 5), (0, 0));
    assert_eq!(clamp_view(20, 0, 10, 5), (9, 5));
    assert_eq!(clamp_view(2, 7, 10, 5), (2, 2));
    assert_eq!(clamp_view(3, 1, 10, 5), (3, 1));
    assert_eq!(clamp_view(3, 8, 4, 5), (3, 0));
}

#[test]
fn actions_move_the_selection() {
    assert_eq!(apply_action(3, &UiAction::JumpToEdge(true), 10, 5), 0);
    assert_eq!(apply_action(3, &UiAction::JumpToEdge(false), 10, 5), 9);
    assert_eq!(apply_action(3, &UiAction::MoveSelection(-5), 10, 5), 0);
    assert_eq!(apply_action(3, &UiAction::MoveSelection(2), 10, 5), 5);
    assert_eq!(apply_action(8, &UiAction::MoveSelection(isize::MAX), 10, 5), 9);
    assert_eq!(apply_action(8, &UiAction::MoveSelection(isize::MIN), 10, 5), 0);
    assert_eq!(apply_action(8, &UiAction::Page(1), 10, 5), 9);
    assert_eq!(apply_action(8, &UiAction::Page(-1), 10, 5), 3);
    assert_eq!(apply_action(3, &UiAction::Continue, 10, 5), 3);
    assert_eq!(apply_action(3, &UiAction::MoveSelection(1), 0, 5), 3);
}

#[test]
fn visible_window_bounds() {
    assert_eq!(visible_bounds(10, 5, 3), (5, 8));
    assert_eq!(visible_bounds(10, 8, 5), (8, 10));
    assert_eq!(visible_bounds(3, 5, 5), (3, 3));
}

#[test]
fn dmenu_output_variants() {
    let mut c = cli();
    let chosen = item("Two", "2\tTwo", 4);
    assert_eq!(dmenu_output(&c, &chosen), "2\tTwo");
    c.accept_nth = Some("1".to_string());
    assert_eq!(dmenu_output(&c, &chosen), "2");
    c.accept_nth = Some("7".to_string());
    assert_eq!(dmenu_output(&c, &chosen), "2\tTwo");
    c.index = true;
    assert_eq!(dmenu_output(&c, &chosen), "4");
}

#[test]
fn select_finds_label_case_insensitively() {
    let visible = vec![item("Alpha", "", 0), item("Beta", "", 1), item("alphabet", "", 2)];
    assert_eq!(select_position(&visible, "BET"), Some(1));
    assert_eq!(select_position(&visible, "alp"), Some(0));
    assert_eq!(select_position(&visible, "zeta"), None);
}

#[test]
fn password_input_is_masked() {
    assert_eq!(shown_input("héllo", Some("*")), "*****");
    assert_eq!(shown_input("abc", Some("<>")), "<><><>");
    assert_eq!(shown_input("abc", None), "abc");
}

#[test]
fn small_helpers() {
    assert_eq!(nth_delimiter_char(""), '\t');
    assert_eq!(nth_delimiter_char(",;"), ',');
    assert_eq!(rgb(0xff112233), 0x112233);
    let mut config = Config::default();
    config.hide_before_typing = true;
    assert!(!show_list(&config, "  "));
    assert!(show_list(&config, " a "));
    assert_eq!(initial_rows(&cli(), &config, 3), 15);
    config.minimal_lines = true;
    assert_eq!(initial_rows(&cli(), &config, 3), 3);
}

#[test]
fn pointer_rows() {
    let mut config = Config::default();
    // List starts at 8 (padding) + 22 (prompt row).
    assert_eq!(row_index_from_y(&config, 10, 22), usize::MAX);
    assert_eq!(row_index_from_y(&config, 30, 22), 0);
    assert_eq!(row_index_from_y(&config, 75, 22), 2);
    config.message = "one\ntwo".to_string();
    config.inner_pad = 2;
    // 8 + 3 rows of 22 + 2 each = 80, where the list is drawn.
    assert_eq!(row_index_from_y(&config, 79, 22), usize::MAX);
    assert_eq!(row_index_from_y(&config, 80, 22), 0);
    assert_eq!(row_index_from_y(&config, 101, 22), 0);
    assert_eq!(row_index_from_y(&config, 102, 22), 1);
    let mut padded = Config::default();
    padded.inner_pad = 4;
    // 8 + 1 row of 22 + 4 = 34: a click at 30 is on no row.
    assert_eq!(row_index_from_y(&padded, 30, 22), usize::MAX);
    assert_eq!(row_index_from_y(&padded, 34, 22), 0);
}

#[test]
fn cli_overrides_settings() {
    let mut config = Config::default();
    let mut c = cli();
    c.prompt = Some("run: ".to_string());
    c.prompt_only = Some("only: ".to_string());
    c.lines = Some(4);
    c.auto_select = true;
    c.password = Some("#".to_string());
    apply_cli_overrides(&mut config, &c);
    assert_eq!(config.prompt, "only: ");
    assert_eq!(config.lines, 4);
    assert!(config.auto_select);
    assert_eq!(config.password_character, "#");
    assert_eq!(config.terminal_command, "xterm -e {cmd}");
}

#[test]
fn clamping_twice_changes_nothing_and_shows_the_selection() {
    for &(sel, scroll, total, page) in &[(20usize, 0usize, 10usize, 5usize), (2, 7, 10, 5), (3, 8, 4, 5), (0, 3, 1, 1)] {
        let (s1, o1) = clamp_view(sel, scroll, total, page);
        assert_eq!(clamp_view(s1, o1, total, page), (s1, o1));
        let (start, end) = visible_bounds(total, o1, page);
        assert!(start <= s1 && s1 < end);
    }
}

#[test]
fn movements_stay_among_the_matches() {
    let actions = [
        UiAction::JumpToEdge(true),
        UiAction::JumpToEdge(false),
        UiAction::MoveSelection(-3),
        UiAction::MoveSelection(7),
        UiAction::Page(-1),
        UiAction::Page(1),
        UiAction::Continue,
        UiAction::Cancel,
    ];
    for action in &actions {
        for sel in 0..6 {
            assert!(apply_action(sel, action, 6, 4) < 6);
        }
    }
}

fn key(keysym: u64, text: &str) -> UiEvent {
    UiEvent::KeyPress { keysym, state: 0, text: text.to_string() }
}

#[test]
fn keys_and_buttons_decide_the_action() {
    let config = Config::default();
    let mut input = "ab".to_string();
    assert!(matches!(next_action(&config, &key(XK_ESCAPE, ""), 0, 3, 300, 400, 22, &mut input), UiAction::Cancel));
    assert!(matches!(next_action(&config, &key(XK_RETURN, "\r"), 0, 3, 300, 400, 22, &mut input), UiAction::SubmitSelected));
    assert!(matches!(next_action(&config, &key(XK_HOME, ""), 0, 3, 300, 400, 22, &mut input), UiAction::JumpToEdge(true)));
    assert!(matches!(next_action(&config, &key(XK_END, ""), 0, 3, 300, 400, 22, &mut input), UiAction::JumpToEdge(false)));
    assert!(matches!(next_action(&config, &key(XK_UP, ""), 0, 3, 300, 400, 22, &mut input), UiAction::MoveSelection(-1)));
    assert!(matches!(next_action(&config, &key(XK_DOWN, ""), 0, 3, 300, 400, 22, &mut input), UiAction::MoveSelection(1)));
    assert!(matches!(next_action(&config, &key(XK_TAB, "\t"), 0, 3, 300, 400, 22, &mut input), UiAction::MoveSelection(1)));
    assert!(matches!(next_action(&config, &key(XK_PAGE_UP, ""), 0, 3, 300, 400, 22, &mut input), UiAction::Page(-1)));
    assert!(matches!(next_action(&config, &key(XK_PAGE_DOWN, ""), 0, 3, 300, 400, 22, &mut input), UiAction::Page(1)));
    assert_eq!(input, "ab");
    assert!(matches!(next_action(&config, &UiEvent::Expose, 0, 3, 300, 400, 22, &mut input), UiAction::Continue));
    assert!(matches!(next_action(&config, &UiEvent::DestroyNotify, 0, 3, 300, 400, 22, &mut input), UiAction::Cancel));
    assert!(matches!(next_action(&config, &UiEvent::Other, 0, 3, 300, 400, 22, &mut input), UiAction::Continue));
    // The list starts at 30: a click at 55 is on row 1; at 200 below the rows.
    let click = |y: i32| UiEvent::ButtonPress { button: 1, x: 50, y };
    assert!(matches!(next_action(&config, &click(55), 0, 3, 300, 400, 22, &mut input), UiAction::SubmitAt(1)));
    assert!(matches!(next_action(&config, &click(200), 5, 3, 300, 400, 22, &mut input), UiAction::SubmitAt(2)));
    assert!(matches!(next_action(&config, &click(10), 1, 3, 300, 400, 22, &mut input), UiAction::SubmitAt(1)));
    let wheel = |button: u32| UiEvent::ButtonPress { button, x: 0, y: 0 };
    assert!(matches!(next_action(&config, &wheel(4), 0, 3, 300, 400, 22, &mut input), UiAction::MoveSelection(-1)));
    assert!(matches!(next_action(&config, &wheel(5), 0, 3, 300, 400, 22, &mut input), UiAction::MoveSelection(1)));
    assert!(matches!(next_action(&config, &wheel(6), 0, 3, 300, 400, 22, &mut input), UiAction::Page(-1)));
    assert!(matches!(next_action(&config, &wheel(7), 0, 3, 300, 400, 22, &mut input), UiAction::Page(1)));
    assert!(matches!(next_action(&config, &wheel(2), 0, 3, 300, 400, 22, &mut input), UiAction::Continue));
}

#[test]
fn typing_edits_the_input() {
    let config = Config::default();
    let mut input = String::new();
    assert!(matches!(next_action(&config, &key(0x61, "a"), 0, 0, 300, 400, 22, &mut input), UiAction::Continue));
    next_action(&config, &key(0xe9, "\u{e9}"), 0, 0, 300, 400, 22, &mut input);
    assert_eq!(input, "a\u{e9}");
    // Control characters are not typed.
    next_action(&config, &key(0x71, "\u{11}"), 0, 0, 300, 400, 22, &mut input);
    next_action(&config, &key(0x72, "\u{85}"), 0, 0, 300, 400, 22, &mut input);
    assert_eq!(input, "a\u{e9}");
    next_action(&config, &key(XK_BACKSPACE, "\u{8}"), 0, 0, 300, 400, 22, &mut input);
    assert_eq!(input, "a");
    next_action(&config, &key(XK_BACKSPACE, ""), 0, 0, 300, 400, 22, &mut input);
    next_action(&config, &key(XK_BACKSPACE, ""), 0, 0, 300, 400, 22, &mut input);
    assert_eq!(input, "");
}

#[test]
fn submitting_a_row() {
    assert!(matches!(submit_choice(false, false, 3, 1, "x"), Submit::Choose(1)));
    assert!(matches!(submit_choice(true, false, 0, 0, "  typed  "), Submit::PrintInput(ref t) if t == "typed"));
    assert!(matches!(submit_choice(true, true, 0, 0, "typed"), Submit::Stay));
    assert!(matches!(submit_choice(true, false, 0, 0, "   "), Submit::Stay));
    assert!(matches!(submit_choice(false, false, 2, 2, " ls -la "), Submit::RunCommand(ref t) if t == "ls -la"));
    assert!(matches!(submit_choice(false, false, 2, 2, "  "), Submit::Stay));
    assert!(matches!(submit_typed(false, true, " poweroff"), Submit::RunCommand(ref t) if t == "poweroff"));
    assert!(matches!(submit_typed(true, false, "x "), Submit::PrintInput(ref t) if t == "x"));
    assert!(matches!(submit_typed(true, true, "x"), Submit::Stay));
}

#[test]
fn auto_select_and_local_selection() {
    let mut config = Config::default();
    assert!(!auto_select_fires(&config, 1, "fire"));
    config.auto_select = true;
    assert!(auto_select_fires(&config, 1, "fire"));
    assert!(!auto_select_fires(&config, 2, "fire"));
    assert!(!auto_select_fires(&config, 1, "  "));
    assert_eq!(local_selection(7, 5, 3), 2);
    assert_eq!(local_selection(3, 5, 3), 0);
    assert_eq!(local_selection(7, 5, 0), 0);
}

#[test]
fn event_range_checks() {
    let config = Config::default();
    let press = |button: u32, x: i32, y: i32| UiEvent::ButtonPress { button, x, y };
    assert!(event_in_range(&config, &press(1, 5, 40), 300, 400, 22));
    assert!(!event_in_range(&config, &press(1, 5, 40), 300, 400, 0));
    assert!(event_in_range(&config, &press(1, -5, 40), 300, 400, 0));
    assert!(event_in_range(&config, &press(4, 5, 40), 300, 400, 0));
    assert!(event_in_range(&config, &UiEvent::Expose, 300, 400, 0));
    let mut tall = Config::default();
    tall.vertical_pad = i32::MAX as u32;
    assert!(!event_in_range(&tall, &press(1, 5, 40), 300, 400, 22));
}

#[test]
fn shift_return_submits_the_input() {
    let config = Config::default();
    let mut input = "ls".to_string();
    let shifted = UiEvent::KeyPress { keysym: XK_RETURN, state: 1, text: "\r".to_string() };
    assert!(matches!(next_action(&config, &shifted, 0, 3, 300, 400, 22, &mut input), UiAction::SubmitInput));
    let plain = UiEvent::KeyPress { keysym: XK_RETURN, state: 4, text: "\r".to_string() };
    assert!(matches!(next_action(&config, &plain, 0, 3, 300, 400, 22, &mut input), UiAction::SubmitSelected));
    assert_eq!(input, "ls");
}

#[test]
fn presses_outside_the_window_cancel() {
    let config = Config::default();
    let mut input = String::new();
    for &(button, x, y) in &[(1u32, -1i32, 40i32), (1, 10, -3), (3, 300, 10), (4, 10, 400)] {
        let event = UiEvent::ButtonPress { button, x, y };
        assert!(matches!(next_action(&config, &event, 0, 3, 300, 400, 22, &mut input), UiAction::Cancel));
    }
    let inside = UiEvent::ButtonPress { button: 1, x: 299, y: 399 };
    assert!(matches!(next_action(&config, &inside, 0, 3, 300, 400, 22, &mut input), UiAction::SubmitAt(0)));
}
