//! Command-line options and how they override the settings.
use crate::config::Config;
use crate::text::opt_string;
use vstd::prelude::*;

verus! {

/// The command-line options.  Paths are held as text.
#[derive(Debug)]
pub struct Cli {
    pub dmenu: bool,
    pub dmenu0: bool,
    pub check_config: bool,
    pub config: Option<String>,
    pub cache: Option<String>,
    pub show_paths: bool,
    pub prompt: Option<String>,
    pub prompt_only: Option<String>,
    pub hide_prompt: bool,
    pub placeholder: Option<String>,
    pub message: Option<String>,
    pub search: Option<String>,
    pub auto_select: bool,
    pub select: Option<String>,
    pub select_index: Option<usize>,
    pub lines: Option<usize>,
    pub terminal: Option<String>,
    pub match_counter: bool,
    pub hide_before_typing: bool,
    pub index: bool,
    pub password: Option<String>,
    pub minimal_lines: bool,
    pub no_run_if_empty: bool,
    pub only_match: bool,
    pub with_nth: Option<String>,
    pub accept_nth: Option<String>,
    pub match_nth: Option<String>,
    pub nth_delimiter: String,
}

/// `o`'s text if it is set, `d` otherwise.
pub open spec fn or_text(o: Option<String>, d: Seq<char>) -> Seq<char> {
    match opt_string(o) {
        Some(t) => t,
        None => d,
    }
}

/// The settings that the options leave alone are unchanged.
pub open spec fn untouched_by_cli(a: Config, b: Config) -> bool {
    &&& a.minimal_lines == b.minimal_lines
    &&& a.width == b.width
    &&& a.window_x == b.window_x
    &&& a.window_y == b.window_y
    &&& a.font@ == b.font@
    &&& a.icon_theme@ == b.icon_theme@
    &&& a.icons_enabled == b.icons_enabled
    &&& a.horizontal_pad == b.horizontal_pad
    &&& a.vertical_pad == b.vertical_pad
    &&& a.inner_pad == b.inner_pad
    &&& a.line_height == b.line_height
    &&& a.show_paths == b.show_paths
    &&& a.fields@ == b.fields@
    &&& a.match_mode == b.match_mode
    &&& a.colors == b.colors
    &&& a.border == b.border
}

fn set_if_some(slot: &mut String, v: &Option<String>)
    ensures
        final(slot)@ == or_text(*v, old(slot)@),
{
    match v {
        Some(t) => {
            *slot = t.clone();
        },
        None => {},
    }
}

/// Lets the command line override the settings: `--prompt-only` over
/// `--prompt` over the file for the prompt; given values replace the
/// placeholder, message, line count, terminal and password character;
/// flags switch on `hide-prompt`, `auto-select`, `match-counter` and
/// `hide-before-typing`.
pub fn apply_cli_overrides(config: &mut Config, cli: &Cli)
    ensures
        final(config).prompt@ == or_text(cli.prompt_only, or_text(cli.prompt, old(config).prompt@)),
        final(config).hide_prompt == (old(config).hide_prompt || cli.hide_prompt),
        final(config).placeholder@ == or_text(cli.placeholder, old(config).placeholder@),
        final(config).message@ == or_text(cli.message, old(config).message@),
        final(config).lines == match cli.lines {
            Some(n) => n,
            None => old(config).lines,
        },
        final(config).terminal_command@ == or_text(cli.terminal, old(config).terminal_command@),
        final(config).auto_select == (old(config).auto_select || cli.auto_select),
        final(config).match_counter == (old(config).match_counter || cli.match_counter),
        final(config).hide_before_typing == (old(config).hide_before_typing
            || cli.hide_before_typing),
        final(config).password_character@ == or_text(
            cli.password,
            old(config).password_character@,
        ),
        untouched_by_cli(*old(config), *final(config)),
{
    set_if_some(&mut config.prompt, &cli.prompt);
    set_if_some(&mut config.prompt, &cli.prompt_only);
    if cli.hide_prompt {
        config.hide_prompt = true;
    }
    set_if_some(&mut config.placeholder, &cli.placeholder);
    set_if_some(&mut config.message, &cli.message);
    match cli.lines {
        Some(n) => {
            config.lines = n;
        },
        None => {},
    }
    set_if_some(&mut config.terminal_command, &cli.terminal);
    if cli.auto_select {
        config.auto_select = true;
    }
    if cli.match_counter {
        config.match_counter = true;
    }
    if cli.hide_before_typing {
        config.hide_before_typing = true;
    }
    set_if_some(&mut config.password_character, &cli.password);
}

} // verus!
