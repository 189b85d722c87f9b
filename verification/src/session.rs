//! The decisions of the interactive loop: selection, scrolling, what is
//! shown, and what dmenu mode prints.
use crate::cli::Cli;
use crate::config::Config;
use crate::desktop::{apply_nth_transform, spec_apply_nth};
use crate::model::MatchResult;
use crate::paint::{i32_fits, message_count};
use crate::text::{
    chars_of, contains, decimal, find, find_chars, lemma_find_from_some, lines, lines_chars,
    occurs_at, opt_string, opt_text, push_chars, push_decimal, push_str, slice_vec,
    spec_to_lowercase, string_of, to_lowercase, trim, trim_str,
};
use vstd::prelude::*;

verus! {

/// What the window asks the loop to do after an event.
#[derive(Debug)]
pub enum UiAction {
    SubmitSelected,
    /// Submit the typed input itself, whatever is selected.
    SubmitInput,
    SubmitAt(usize),
    MoveSelection(isize),
    Page(isize),
    JumpToEdge(bool),
    Cancel,
    Continue,
}


// ---------------------------------------------------------------------------
// Selection and scrolling
// ---------------------------------------------------------------------------

/// The selection and scroll offset after fitting them to `total` matches
/// and pages of `page` rows: the selection is clamped to the last match,
/// and the window scrolled just enough to show it, but not past the end.
pub open spec fn spec_clamp_view(selected: nat, scroll: nat, total: nat, page: nat) -> (nat, nat) {
    if total == 0 {
        (0, 0)
    } else {
        let sel = if selected < total - 1 {
            selected
        } else {
            (total - 1) as nat
        };
        let s1 = if sel < scroll {
            sel
        } else {
            scroll
        };
        let s2 = if sel >= s1 + page {
            (sel + 1 - page) as nat
        } else {
            s1
        };
        let max_scroll: nat = if total >= page {
            (total - page) as nat
        } else {
            0
        };
        (sel, if s2 < max_scroll {
            s2
        } else {
            max_scroll
        })
    }
}

/// The fitting is free of overflow: the scroll offset plus a page fits in
/// `usize`.
pub open spec fn clamp_view_fits(selected: nat, scroll: nat, total: nat, page: nat) -> bool {
    total > 0 ==> {
        let sel = if selected < total - 1 {
            selected
        } else {
            (total - 1) as nat
        };
        let s1 = if sel < scroll {
            sel
        } else {
            scroll
        };
        s1 + page <= usize::MAX
    }
}

/// Fits the selection and scroll offset to the matches and the page size.
pub fn clamp_view(selected: usize, scroll_offset: usize, total: usize, page_size: usize) -> (r: (usize, usize))
    requires
        page_size >= 1,
        clamp_view_fits(selected as nat, scroll_offset as nat, total as nat, page_size as nat),
    ensures
        (r.0 as nat, r.1 as nat) == spec_clamp_view(
            selected as nat,
            scroll_offset as nat,
            total as nat,
            page_size as nat,
        ),
        total > 0 ==> r.0 < total && r.1 <= r.0 && r.0 < r.1 + page_size,
        total == 0 ==> r.0 == 0 && r.1 == 0,
{
    if total == 0 {
        return (0, 0);
    }
    let mut sel = selected;
    if sel > total - 1 {
        sel = total - 1;
    }
    let mut scroll = scroll_offset;
    if sel < scroll {
        scroll = sel;
    }
    if sel >= scroll + page_size {
        scroll = sel + 1 - page_size;
    }
    let max_scroll = if total >= page_size {
        total - page_size
    } else {
        0
    };
    if scroll > max_scroll {
        scroll = max_scroll;
    }
    (sel, scroll)
}

/// The selection after a movement, for `total` matches and pages of
/// `page` rows: jumps go to the first or last match, moves and pages stop
/// at either end; other actions, or no matches, leave it.
pub open spec fn spec_apply_action(selected: nat, action: UiAction, total: nat, page: nat) -> nat {
    if total == 0 {
        selected
    } else {
        match action {
            UiAction::JumpToEdge(to_start) => if to_start {
                0
            } else {
                (total - 1) as nat
            },
            UiAction::MoveSelection(delta) => if delta < 0 {
                if selected >= -delta {
                    (selected + delta) as nat
                } else {
                    0
                }
            } else {
                let t = selected + delta;
                if t < total - 1 {
                    t as nat
                } else {
                    (total - 1) as nat
                }
            },
            UiAction::Page(delta) => if delta < 0 {
                if selected >= page {
                    (selected - page) as nat
                } else {
                    0
                }
            } else {
                let t = selected + page;
                if t < total - 1 {
                    t as nat
                } else {
                    (total - 1) as nat
                }
            },
            _ => selected,
        }
    }
}

/// The movement is free of overflow.
pub open spec fn apply_action_fits(selected: nat, action: UiAction, total: nat, page: nat) -> bool {
    total > 0 ==> match action {
        UiAction::MoveSelection(delta) => delta >= 0 ==> selected + delta <= usize::MAX,
        UiAction::Page(delta) => delta >= 0 ==> selected + page <= usize::MAX,
        _ => true,
    }
}

/// Applies a movement to the selection.
pub fn apply_action(selected: usize, action: &UiAction, total: usize, page_size: usize) -> (r: usize)
    requires
        apply_action_fits(selected as nat, *action, total as nat, page_size as nat),
    ensures
        r as nat == spec_apply_action(selected as nat, *action, total as nat, page_size as nat),
{
    if total == 0 {
        return selected;
    }
    match action {
        UiAction::JumpToEdge(to_start) => {
            if *to_start {
                0
            } else {
                total - 1
            }
        },
        UiAction::MoveSelection(delta) => {
            let d = *delta;
            if d < 0 {
                let back: usize = if d == isize::MIN {
                    (isize::MAX as usize) + 1
                } else {
                    (-d) as usize
                };
                if selected >= back {
                    selected - back
                } else {
                    0
                }
            } else {
                let t = selected + (d as usize);
                if t < total - 1 {
                    t
                } else {
                    total - 1
                }
            }
        },
        UiAction::Page(delta) => {
            if *delta < 0 {
                if selected >= page_size {
                    selected - page_size
                } else {
                    0
                }
            } else {
                let t = selected + page_size;
                if t < total - 1 {
                    t
                } else {
                    total - 1
                }
            }
        },
        _ => selected,
    }
}

/// The window of matches shown: up to `page` matches from `scroll` on.
pub open spec fn visible_range(total: nat, scroll: nat, page: nat) -> (nat, nat) {
    let start = if scroll < total {
        scroll
    } else {
        total
    };
    let end = if start + page < total {
        start + page
    } else {
        total
    };
    (start, end)
}

/// Fitting the view a second time changes nothing.
pub proof fn clamp_view_is_idempotent(selected: nat, scroll: nat, total: nat, page: nat)
    requires
        page >= 1,
    ensures
        ({
            let r = spec_clamp_view(selected, scroll, total, page);
            spec_clamp_view(r.0, r.1, total, page) == r
        }),
{
}

/// After fitting the view, the selected match lies in the window shown.
pub proof fn selection_is_visible(selected: nat, scroll: nat, total: nat, page: nat)
    requires
        page >= 1,
        total > 0,
    ensures
        ({
            let r = spec_clamp_view(selected, scroll, total, page);
            let w = visible_range(total, r.1, page);
            w.0 <= r.0 < w.1
        }),
{
}

/// A movement of a selection that lies among the matches keeps it among
/// them.
pub proof fn movement_stays_in_matches(selected: nat, action: UiAction, total: nat, page: nat)
    requires
        selected < total,
    ensures
        spec_apply_action(selected, action, total, page) < total,
{
}

/// Whether the list is shown: not while `hide-before-typing` is set and
/// the input is blank.
pub open spec fn spec_show_list(config: Config, input: Seq<char>) -> bool {
    !(config.hide_before_typing && trim(input).len() == 0)
}

/// Whether the list is shown for this input.
pub fn show_list(config: &Config, input: &str) -> (r: bool)
    ensures
        r == spec_show_list(*config, input@),
{
    let t = trim_str(input);
    let blank = chars_of(t.as_str()).len() == 0;
    !(config.hide_before_typing && blank)
}

/// The position of the first shown match whose lowercased label contains
/// the lowercased `--select` text.
pub open spec fn spec_select_position(labels: Seq<Seq<char>>, select: Seq<char>) -> Option<int>
    decreases labels.len(),
{
    if labels.len() == 0 {
        None
    } else {
        match spec_select_position(labels.drop_last(), select) {
            Some(p) => Some(p),
            None => if contains(spec_to_lowercase(labels.last()), spec_to_lowercase(select)) {
                Some(labels.len() - 1)
            } else {
                None
            },
        }
    }
}

/// Whether `n` occurs somewhere in `h`.
pub open spec fn occurs_in(h: Seq<char>, n: Seq<char>) -> bool {
    exists|k: int| occurs_at(h, n, k)
}

/// `--select` picks the first shown match whose lowercased label holds the
/// lowercased select text anywhere, and nothing when no label holds it.
pub proof fn select_picks_first_label_holding_text(labels: Seq<Seq<char>>, select: Seq<char>)
    ensures
        match spec_select_position(labels, select) {
            Some(p) => 0 <= p < labels.len() && occurs_in(
                spec_to_lowercase(labels[p]),
                spec_to_lowercase(select),
            ) && forall|q: int|
                0 <= q < p ==> !occurs_in(
                    spec_to_lowercase(#[trigger] labels[q]),
                    spec_to_lowercase(select),
                ),
            None => forall|q: int|
                0 <= q < labels.len() ==> !occurs_in(
                    spec_to_lowercase(#[trigger] labels[q]),
                    spec_to_lowercase(select),
                ),
        },
    decreases labels.len(),
{
    if labels.len() > 0 {
        let front = labels.drop_last();
        select_picks_first_label_holding_text(front, select);
        let last = labels.len() - 1;
        let h = spec_to_lowercase(labels[last]);
        let n = spec_to_lowercase(select);
        lemma_find_from_some(h, n, 0);
        assert(labels.last() == labels[last]);
        assert forall|q: int| 0 <= q < front.len() implies front[q] == labels[q] by {}
        if occurs_in(h, n) {
            let k = choose|k: int| occurs_at(h, n, k);
            assert(contains(h, n));
        }
        if contains(h, n) {
            let k = find(h, n)->0;
            assert(occurs_at(h, n, k));
        }
    }
}

/// The labels of the shown matches.
pub open spec fn match_labels(v: Seq<MatchResult>) -> Seq<Seq<char>> {
    v.map_values(|m: MatchResult| m.entry.label@)
}

/// Finds the shown match that `--select` names.
pub fn select_position(visible: &[MatchResult], select: &str) -> (r: Option<usize>)
    ensures
        match r {
            Some(p) => spec_select_position(match_labels(visible@), select@) == Some(p as int),
            None => spec_select_position(match_labels(visible@), select@) is None,
        },
{
    let want = to_lowercase(select);
    let wc = chars_of(want.as_str());
    let ghost labels = match_labels(visible@);
    let mut i: usize = 0;
    while i < visible.len()
        invariant
            i <= visible@.len(),
            labels == match_labels(visible@),
            wc@ == spec_to_lowercase(select@),
            spec_select_position(labels.take(i as int), select@) is None,
        decreases visible@.len() - i,
    {
        assert(labels.take(i + 1).drop_last() == labels.take(i as int));
        assert(labels.take(i + 1).last() == visible@[i as int].entry.label@);
        let low = to_lowercase(visible[i].entry.label.as_str());
        let lc = chars_of(low.as_str());
        if find_chars(&lc, &wc).is_some() {
            proof {
                lemma_select_stable(labels, select@, i + 1);
            }
            return Some(i);
        }
        i = i + 1;
    }
    assert(labels.take(visible@.len() as int) == labels);
    None
}

proof fn lemma_select_stable(labels: Seq<Seq<char>>, select: Seq<char>, i: int)
    requires
        0 <= i <= labels.len(),
        spec_select_position(labels.take(i), select) is Some,
    ensures
        spec_select_position(labels, select) == spec_select_position(labels.take(i), select),
    decreases labels.len() - i,
{
    if i == labels.len() {
        assert(labels.take(i) == labels);
    } else {
        assert(labels.drop_last().take(i) == labels.take(i));
        lemma_select_stable(labels.drop_last(), select, i);
    }
}

// ---------------------------------------------------------------------------
// Texts shown and printed
// ---------------------------------------------------------------------------

/// `t` repeated `n` times.
pub open spec fn repeat(t: Seq<char>, n: nat) -> Seq<char>
    decreases n,
{
    if n == 0 {
        Seq::empty()
    } else {
        repeat(t, (n - 1) as nat) + t
    }
}

/// The input as shown: with a password mask, the mask once per input
/// character.
pub open spec fn spec_shown_input(input: Seq<char>, mask: Option<Seq<char>>) -> Seq<char> {
    match mask {
        Some(m) => repeat(m, input.len()),
        None => input,
    }
}

/// The input as shown in the prompt line.
pub fn shown_input(input: &str, mask: Option<&str>) -> (r: String)
    ensures
        r@ == spec_shown_input(input@, opt_text(mask)),
{
    match mask {
        None => crate::text::owned(input),
        Some(m) => {
            let n = chars_of(input).len();
            let mut r = String::new();
            let mut i: usize = 0;
            while i < n
                invariant
                    i <= n,
                    n == input@.len(),
                    r@ == repeat(m@, i as nat),
                decreases n - i,
            {
                push_str(&mut r, m);
                i = i + 1;
            }
            r
        },
    }
}

/// The column delimiter named by `--nth-delimiter`: its first character,
/// or a tab.
pub open spec fn spec_nth_delimiter(s: Seq<char>) -> char {
    if s.len() > 0 {
        s[0]
    } else {
        '\t'
    }
}

/// The column delimiter named by `--nth-delimiter`.
pub fn nth_delimiter_char(s: &str) -> (c: char)
    ensures
        c == spec_nth_delimiter(s@),
{
    let cs = chars_of(s);
    if cs.len() > 0 {
        cs[0]
    } else {
        '\t'
    }
}

/// What dmenu mode prints for a chosen match: its index with `--index`,
/// else the `--accept-nth` columns when they select something, else the
/// raw input line.
pub open spec fn spec_dmenu_output(cli: Cli, item: MatchResult) -> Seq<char> {
    if cli.index {
        decimal(item.entry.index as nat)
    } else {
        match opt_string(cli.accept_nth) {
            Some(spec) => match spec_apply_nth(
                item.entry.raw_text@,
                Some(spec),
                spec_nth_delimiter(cli.nth_delimiter@),
            ) {
                Some(out) => out,
                None => item.entry.raw_text@,
            },
            None => item.entry.raw_text@,
        }
    }
}

/// The line dmenu mode prints for a chosen match.
pub fn dmenu_output(cli: &Cli, item: &MatchResult) -> (r: String)
    ensures
        r@ == spec_dmenu_output(*cli, *item),
{
    if cli.index {
        let mut r = String::new();
        push_decimal(&mut r, item.entry.index as u64);
        assert(Seq::<char>::empty() + decimal(item.entry.index as nat) == decimal(
            item.entry.index as nat,
        ));
        return r;
    }
    match &cli.accept_nth {
        Some(spec) => {
            let d = nth_delimiter_char(cli.nth_delimiter.as_str());
            match apply_nth_transform(item.entry.raw_text.as_str(), Some(spec.as_str()), d) {
                Some(out) => out,
                None => item.entry.raw_text.clone(),
            }
        },
        None => item.entry.raw_text.clone(),
    }
}

/// The number of list rows the window is opened with: none for
/// `--prompt-only`, at most the number of entries with minimal lines in
/// dmenu mode, the configured count otherwise.
pub open spec fn spec_initial_rows(cli: Cli, config: Config, n_entries: nat) -> nat {
    if cli.dmenu && cli.prompt_only is Some {
        0
    } else if cli.dmenu && (cli.minimal_lines || config.minimal_lines) {
        if config.lines < n_entries {
            config.lines as nat
        } else {
            n_entries
        }
    } else {
        config.lines as nat
    }
}

/// The number of list rows the window is opened with.
pub fn initial_rows(cli: &Cli, config: &Config, n_entries: usize) -> (r: usize)
    ensures
        r as nat == spec_initial_rows(*cli, *config, n_entries as nat),
{
    if cli.dmenu && cli.prompt_only.is_some() {
        0
    } else if cli.dmenu && (cli.minimal_lines || config.minimal_lines) {
        if config.lines < n_entries {
            config.lines
        } else {
            n_entries
        }
    } else {
        config.lines
    }
}


// ---------------------------------------------------------------------------
// Pointer position to row
// ---------------------------------------------------------------------------

/// The number of message rows: the lines of the message, as a `u32`.
pub open spec fn message_rows(config: Config) -> u32 {
    if config.message@.len() == 0 {
        0
    } else {
        lines(config.message@).len() as u32
    }
}

/// The number of prompt rows: one unless the prompt is hidden.
pub open spec fn prompt_rows(config: Config) -> u32 {
    if config.hide_prompt {
        0
    } else {
        1
    }
}

/// Where the list starts: below the padding and the message and prompt
/// rows, each of them a row high plus the inner padding, as the frame is
/// drawn.
pub open spec fn list_start(config: Config, row_height: u32) -> int {
    (config.vertical_pad as i32) as int + (message_count(config) + prompt_rows(config)) * (
    (row_height as i32) as int + (config.inner_pad as i32) as int)
}

/// The arithmetic of `row_index_from_y` stays in range: rows have a height
/// and the list starts at an `i32`, as where the frame draws it.
pub open spec fn row_index_fits(config: Config, y: i32, row_height: u32) -> bool {
    row_height > 0 && i32_fits(list_start(config, row_height))
}

/// The list row under the pointer at height `y`, or `usize::MAX` above the
/// list.
pub open spec fn spec_row_index(config: Config, y: i32, row_height: u32) -> usize {
    let start = list_start(config, row_height);
    if y < start {
        usize::MAX
    } else {
        ((y - start) / (row_height as int)) as usize
    }
}

/// The list row under the pointer.
pub fn row_index_from_y(config: &Config, y: i32, row_height: u32) -> (r: usize)
    requires
        row_index_fits(*config, y, row_height),
    ensures
        r == spec_row_index(*config, y, row_height),
{
    let start = list_start_exec(config, row_height);
    if (y as i128) < start {
        return usize::MAX;
    }
    let d = y as i128 - start;
    assert(d <= 0xffff_ffff);
    (d / (row_height as i128)) as usize
}

fn list_start_exec(config: &Config, row_height: u32) -> (r: i128)
    ensures
        r == list_start(*config, row_height),
{
    let mc = chars_of(config.message.as_str());
    let m: usize = if mc.len() == 0 {
        0
    } else {
        lines_chars(&mc).len()
    };
    let p: i128 = if config.hide_prompt {
        0
    } else {
        1
    };
    let step = (row_height as i32) as i128 + (config.inner_pad as i32) as i128;
    let rows = m as i128 + p;
    assert(rows * step <= 0x1_0000_0000_0000_0001 * 0x1_0000_0000 && rows * step >= -(
    0x1_0000_0000_0000_0001 * 0x1_0000_0000)) by (nonlinear_arith)
        requires
            0 <= rows <= 0x1_0000_0000_0000_0001,
            -0x1_0000_0000 <= step <= 0x1_0000_0000,
    ;
    (config.vertical_pad as i32) as i128 + rows * step
}

/// The range of matches shown: up to a page from the scroll offset.
pub fn visible_bounds(total: usize, scroll_offset: usize, page_size: usize) -> (r: (usize, usize))
    ensures
        (r.0 as nat, r.1 as nat) == visible_range(total as nat, scroll_offset as nat, page_size as nat),
        r.0 <= r.1 <= total,
{
    let start = if scroll_offset < total {
        scroll_offset
    } else {
        total
    };
    let end = if page_size < total - start {
        start + page_size
    } else {
        total
    };
    (start, end)
}

// ---------------------------------------------------------------------------
// Input events
// ---------------------------------------------------------------------------

/// An input event of the window, as the loop hands it over.
#[derive(Debug)]
pub enum UiEvent {
    /// Part of the window must be redrawn.
    Expose,
    /// The window was destroyed.
    DestroyNotify,
    /// A pointer button was pressed at `x`, `y` relative to the window's
    /// top-left corner (the window grabs the pointer, so presses outside it
    /// arrive too).
    ButtonPress { button: u32, x: i32, y: i32 },
    /// A key was pressed: its keysym, the modifier state, and the text it
    /// types (one character per byte of the lookup, Latin-1).
    KeyPress { keysym: u64, state: u32, text: String },
    /// Any other event.
    Other,
}

/// The keysym of Backspace.
pub const XK_BACKSPACE: u64 = 0xff08;
/// The keysym of Tab.
pub const XK_TAB: u64 = 0xff09;
/// The keysym of Return.
pub const XK_RETURN: u64 = 0xff0d;
/// The keysym of Escape.
pub const XK_ESCAPE: u64 = 0xff1b;
/// The keysym of Home.
pub const XK_HOME: u64 = 0xff50;
/// The keysym of Up.
pub const XK_UP: u64 = 0xff52;
/// The keysym of Down.
pub const XK_DOWN: u64 = 0xff54;
/// The keysym of Page Up.
pub const XK_PAGE_UP: u64 = 0xff55;
/// The keysym of Page Down.
pub const XK_PAGE_DOWN: u64 = 0xff56;
/// The keysym of End.
pub const XK_END: u64 = 0xff57;

/// The Shift bit of a key event's modifier state.
pub const SHIFT_MASK: u32 = 1;

/// `char::is_control`: the general category `Cc`, which is U+0000 to
/// U+001F and U+007F to U+009F.
pub open spec fn is_control(c: char) -> bool {
    (c as u32) < 0x20 || (0x7f <= (c as u32) && (c as u32) <= 0x9f)
}

/// Whether a text holds no control character.
pub open spec fn no_controls(t: Seq<char>) -> bool {
    forall|i: int| 0 <= i < t.len() ==> !is_control(#[trigger] t[i])
}

/// Whether the Shift bit is set in a modifier state.
pub open spec fn shift_held(state: u32) -> bool {
    state % 2 == 1
}

/// What a key does: the navigation keys move, Return submits the selected
/// match (the typed input with Shift held), Escape cancels; any other key,
/// Backspace included, continues.
pub open spec fn spec_key_action(keysym: u64, shift: bool) -> UiAction {
    if keysym == XK_ESCAPE {
        UiAction::Cancel
    } else if keysym == XK_RETURN {
        if shift {
            UiAction::SubmitInput
        } else {
            UiAction::SubmitSelected
        }
    } else if keysym == XK_HOME {
        UiAction::JumpToEdge(true)
    } else if keysym == XK_END {
        UiAction::JumpToEdge(false)
    } else if keysym == XK_UP {
        UiAction::MoveSelection(-1isize)
    } else if keysym == XK_DOWN || keysym == XK_TAB {
        UiAction::MoveSelection(1isize)
    } else if keysym == XK_PAGE_UP {
        UiAction::Page(-1isize)
    } else if keysym == XK_PAGE_DOWN {
        UiAction::Page(1isize)
    } else {
        UiAction::Continue
    }
}

/// Whether a point lies outside a window `width` by `height`.
pub open spec fn outside_window(x: i32, y: i32, width: u32, height: u32) -> bool {
    x < 0 || y < 0 || x >= width || y >= height
}

/// What a button press does: a press outside the window cancels; inside,
/// the left button submits the row under the pointer, or the selection
/// (clamped to the rows) when no row is there; the wheel moves the
/// selection by one, the side buttons by a page.
pub open spec fn spec_button_action(
    config: Config,
    button: u32,
    x: i32,
    y: i32,
    width: u32,
    height: u32,
    row_height: u32,
    selected: usize,
    len: usize,
) -> UiAction {
    if outside_window(x, y, width, height) {
        UiAction::Cancel
    } else if button == 1 {
        let index = spec_row_index(config, y, row_height);
        if index < len {
            UiAction::SubmitAt(index)
        } else {
            let last: usize = if len >= 1 { (len - 1) as usize } else { 0 };
            UiAction::SubmitAt(if selected < last { selected } else { last })
        }
    } else if button == 4 {
        UiAction::MoveSelection(-1isize)
    } else if button == 5 {
        UiAction::MoveSelection(1isize)
    } else if button == 6 {
        UiAction::Page(-1isize)
    } else if button == 7 {
        UiAction::Page(1isize)
    } else {
        UiAction::Continue
    }
}

/// The action for an event in a window `width` by `height`, with
/// `selected` the selected row among the `len` rows shown.
pub open spec fn spec_next_action(
    config: Config,
    event: UiEvent,
    selected: usize,
    len: usize,
    width: u32,
    height: u32,
    row_height: u32,
) -> UiAction {
    match event {
        UiEvent::Expose => UiAction::Continue,
        UiEvent::DestroyNotify => UiAction::Cancel,
        UiEvent::ButtonPress { button, x, y } => spec_button_action(
            config,
            button,
            x,
            y,
            width,
            height,
            row_height,
            selected,
            len,
        ),
        UiEvent::KeyPress { keysym, state, text } => spec_key_action(keysym, shift_held(state)),
        UiEvent::Other => UiAction::Continue,
    }
}

/// The typed input after an event: Backspace removes the last character;
/// a key that is not one of the named keys appends its text unless that
/// holds a control character.
pub open spec fn spec_event_input(event: UiEvent, input: Seq<char>) -> Seq<char> {
    match event {
        UiEvent::KeyPress { keysym, state, text } => if keysym == XK_BACKSPACE {
            if input.len() > 0 {
                input.drop_last()
            } else {
                input
            }
        } else if spec_key_action(keysym, shift_held(state)) is Continue && no_controls(text@) {
            input + text@
        } else {
            input
        },
        _ => input,
    }
}

/// The arithmetic of an event is in range: a left click inside the window
/// needs the row under the pointer computed.
pub open spec fn event_fits(config: Config, event: UiEvent, width: u32, height: u32, row_height: u32) -> bool {
    match event {
        UiEvent::ButtonPress { button, x, y } => button == 1 && !outside_window(x, y, width, height)
            ==> row_index_fits(config, y, row_height),
        _ => true,
    }
}

/// Whether the arithmetic of `next_action` stays in range for an event.
pub fn event_in_range(config: &Config, event: &UiEvent, width: u32, height: u32, row_height: u32) -> (r: bool)
    ensures
        r == event_fits(*config, *event, width, height, row_height),
{
    match event {
        UiEvent::ButtonPress { button, x, y } => {
            if *button != 1 || is_outside(*x, *y, width, height) {
                return true;
            }
            if row_height == 0 {
                return false;
            }
            let start = list_start_exec(config, row_height);
            i32::MIN as i128 <= start && start <= i32::MAX as i128
        },
        _ => true,
    }
}

fn is_outside(x: i32, y: i32, width: u32, height: u32) -> (r: bool)
    ensures
        r == outside_window(x, y, width, height),
{
    x < 0 || y < 0 || x as i64 >= width as i64 || y as i64 >= height as i64
}

fn char_is_control(c: char) -> (r: bool)
    ensures
        r == is_control(c),
{
    let u = c as u32;
    u < 0x20 || (0x7f <= u && u <= 0x9f)
}

fn key_action(keysym: u64, state: u32) -> (r: UiAction)
    ensures
        r == spec_key_action(keysym, shift_held(state)),
{
    assert(state & 1 == 1 <==> state % 2 == 1) by (bit_vector);
    let shift = state & SHIFT_MASK == SHIFT_MASK;
    if keysym == XK_ESCAPE {
        UiAction::Cancel
    } else if keysym == XK_RETURN {
        if shift {
            UiAction::SubmitInput
        } else {
            UiAction::SubmitSelected
        }
    } else if keysym == XK_HOME {
        UiAction::JumpToEdge(true)
    } else if keysym == XK_END {
        UiAction::JumpToEdge(false)
    } else if keysym == XK_UP {
        UiAction::MoveSelection(-1)
    } else if keysym == XK_DOWN || keysym == XK_TAB {
        UiAction::MoveSelection(1)
    } else if keysym == XK_PAGE_UP {
        UiAction::Page(-1)
    } else if keysym == XK_PAGE_DOWN {
        UiAction::Page(1)
    } else {
        UiAction::Continue
    }
}

/// Decides what an event does, and edits the typed input for a key press.
pub fn next_action(
    config: &Config,
    event: &UiEvent,
    selected: usize,
    len: usize,
    width: u32,
    height: u32,
    row_height: u32,
    input: &mut String,
) -> (r: UiAction)
    requires
        event_fits(*config, *event, width, height, row_height),
    ensures
        r == spec_next_action(*config, *event, selected, len, width, height, row_height),
        final(input)@ == spec_event_input(*event, old(input)@),
{
    match event {
        UiEvent::Expose => UiAction::Continue,
        UiEvent::DestroyNotify => UiAction::Cancel,
        UiEvent::ButtonPress { button, x, y } => {
            if is_outside(*x, *y, width, height) {
                UiAction::Cancel
            } else if *button == 1 {
                let index = row_index_from_y(config, *y, row_height);
                if index < len {
                    UiAction::SubmitAt(index)
                } else {
                    let last: usize = if len >= 1 { len - 1 } else { 0 };
                    UiAction::SubmitAt(if selected < last { selected } else { last })
                }
            } else if *button == 4 {
                UiAction::MoveSelection(-1)
            } else if *button == 5 {
                UiAction::MoveSelection(1)
            } else if *button == 6 {
                UiAction::Page(-1)
            } else if *button == 7 {
                UiAction::Page(1)
            } else {
                UiAction::Continue
            }
        },
        UiEvent::KeyPress { keysym, state, text } => {
            if *keysym == XK_BACKSPACE {
                let cs = chars_of(input.as_str());
                if cs.len() > 0 {
                    let kept = slice_vec(&cs, 0, cs.len() - 1);
                    *input = string_of(&kept);
                }
                return UiAction::Continue;
            }
            let action = key_action(*keysym, *state);
            if matches!(action, UiAction::Continue) {
                let tc = chars_of(text.as_str());
                let mut clean = true;
                let mut i: usize = 0;
                while i < tc.len()
                    invariant
                        i <= tc@.len(),
                        clean == forall|k: int| 0 <= k < i ==> !is_control(#[trigger] tc@[k]),
                    decreases tc@.len() - i,
                {
                    if char_is_control(tc[i]) {
                        clean = false;
                    }
                    i = i + 1;
                }
                if clean {
                    push_chars(input, &tc);
                }
            }
            action
        },
        UiEvent::Other => UiAction::Continue,
    }
}

// ---------------------------------------------------------------------------
// Submitting
// ---------------------------------------------------------------------------

/// What submitting does.
#[derive(Debug)]
pub enum Submit {
    /// Take the shown match at this row: activate it, or print it in dmenu
    /// mode.
    Choose(usize),
    /// Print the typed input, trimmed (dmenu mode).
    PrintInput(String),
    /// Run the typed input, trimmed, as a shell command (launcher mode).
    RunCommand(String),
    /// Nothing; the loop goes on.
    Stay,
}

/// Whether submitting in dmenu mode with no match at the row prints the
/// input: only matches are not required, and the input is not blank.
pub open spec fn prints_input(dmenu: bool, only_match: bool, input: Seq<char>) -> bool {
    dmenu && !only_match && trim(input).len() > 0
}

/// Whether submitting in launcher mode with no match at the row runs the
/// input as a command: the input is not blank.
pub open spec fn runs_input(dmenu: bool, input: Seq<char>) -> bool {
    !dmenu && trim(input).len() > 0
}

/// `r` is what submitting the typed input itself does.
pub open spec fn is_typed_submit(r: Submit, dmenu: bool, only_match: bool, input: Seq<char>) -> bool {
    match r {
        Submit::Choose(i) => false,
        Submit::PrintInput(t) => prints_input(dmenu, only_match, input) && t@ == trim(input),
        Submit::RunCommand(t) => runs_input(dmenu, input) && t@ == trim(input),
        Submit::Stay => !prints_input(dmenu, only_match, input) && !runs_input(dmenu, input),
    }
}

/// Decides what submitting the typed input does: in dmenu mode it is
/// printed unless only matches may be chosen; in launcher mode it runs as a
/// shell command; a blank input does nothing.
pub fn submit_typed(dmenu: bool, only_match: bool, input: &str) -> (r: Submit)
    ensures
        is_typed_submit(r, dmenu, only_match, input@),
{
    let t = trim_str(input);
    if chars_of(t.as_str()).len() == 0 {
        Submit::Stay
    } else if dmenu {
        if only_match {
            Submit::Stay
        } else {
            Submit::PrintInput(t)
        }
    } else {
        Submit::RunCommand(t)
    }
}

/// Decides what submitting row `index` of `shown` rows does: the match
/// there if there is one; else what submitting the typed input does.
pub fn submit_choice(dmenu: bool, only_match: bool, shown: usize, index: usize, input: &str) -> (r:
    Submit)
    ensures
        index < shown ==> r == Submit::Choose(index),
        index >= shown ==> is_typed_submit(r, dmenu, only_match, input@),
{
    if index < shown {
        return Submit::Choose(index);
    }
    submit_typed(dmenu, only_match, input)
}

/// Whether the only shown match is taken at once: auto-select is on, one
/// match is shown, and the input is not blank.
pub open spec fn spec_auto_select(config: Config, shown: usize, input: Seq<char>) -> bool {
    config.auto_select && shown == 1 && trim(input).len() > 0
}

/// Decides whether the only shown match is taken at once.
pub fn auto_select_fires(config: &Config, shown: usize, input: &str) -> (r: bool)
    ensures
        r == spec_auto_select(*config, shown, input@),
{
    if !config.auto_select || shown != 1 {
        return false;
    }
    let t = trim_str(input);
    chars_of(t.as_str()).len() > 0
}

/// The selected row among the shown ones: the selection less the scroll
/// offset, 0 when nothing is shown.
pub open spec fn spec_local_selection(selected: usize, scroll: usize, shown: usize) -> usize {
    if shown == 0 {
        0
    } else if selected >= scroll {
        (selected - scroll) as usize
    } else {
        0
    }
}

/// Computes the selected row among the shown ones.
pub fn local_selection(selected: usize, scroll: usize, shown: usize) -> (r: usize)
    ensures
        r == spec_local_selection(selected, scroll, shown),
{
    if shown == 0 {
        0
    } else {
        selected.saturating_sub(scroll)
    }
}

} // verus!
