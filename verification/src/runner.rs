//! Turning a chosen entry into what to do: print it, or the program to start.
use crate::desktop::views;
use crate::model::{Entry, EntrySource};
use crate::text::{
    chars_of, contains, find_chars, join, join_strings, opt_string, owned, replace_all,
    replace_chars, string_of,
};
use vstd::prelude::*;

verus! {

/// Why an entry could not be launched.
#[derive(Clone, Copy, Debug, PartialEq, Eq, Structural)]
pub enum LaunchError {
    /// The command line has unbalanced quotes or a trailing escape.
    UnparsableCommand,
    /// Nothing is left of the command once field codes are removed.
    EmptyCommand,
}

impl LaunchError {
    /// The message shown for the error.
    pub fn message(&self) -> (r: String)
        ensures
            r@ == match self {
                LaunchError::UnparsableCommand => "failed to parse command line"@,
                LaunchError::EmptyCommand => "desktop entry command resolved to an empty argv"@,
            },
    {
        match self {
            LaunchError::UnparsableCommand => owned("failed to parse command line"),
            LaunchError::EmptyCommand => owned("desktop entry command resolved to an empty argv"),
        }
    }
}

/// A program to start: its argument vector, program first, and the
/// directory to start it in.
#[derive(Debug)]
pub struct LaunchPlan {
    pub argv: Vec<String>,
    pub working_dir: Option<String>,
}

/// What choosing an entry does.
#[derive(Debug)]
pub enum Activation {
    /// Print this line on standard output.
    Print(String),
    /// Start this program.
    Launch(LaunchPlan),
}

// ---------------------------------------------------------------------------
// Specification
// ---------------------------------------------------------------------------

/// The words of a command line as `shlex::split` reads it, POSIX-shell
/// style, or `None` for an ill-formed line.
pub uninterp spec fn spec_shlex_split(s: Seq<char>) -> Option<Seq<Seq<char>>>;

/// A word with each `%` and the character after it removed.
pub open spec fn strip_field_codes(t: Seq<char>) -> Seq<char>
    decreases t.len(),
{
    if t.len() == 0 {
        Seq::empty()
    } else if t[0] == '%' {
        if t.len() >= 2 {
            strip_field_codes(t.skip(2))
        } else {
            Seq::empty()
        }
    } else {
        seq![t[0]] + strip_field_codes(t.drop_first())
    }
}

/// A desktop `Exec` word without its field codes: a word starting with `%`
/// is dropped, as is one with nothing left.
pub open spec fn spec_sanitize_token(t: Seq<char>) -> Option<Seq<char>> {
    if t.len() > 0 && t[0] == '%' {
        None
    } else {
        let c = strip_field_codes(t);
        if c.len() == 0 {
            None
        } else {
            Some(c)
        }
    }
}

/// The sanitized words, in order.
pub open spec fn spec_sanitize_argv(ws: Seq<Seq<char>>) -> Seq<Seq<char>>
    decreases ws.len(),
{
    if ws.len() == 0 {
        Seq::empty()
    } else {
        let prev = spec_sanitize_argv(ws.drop_last());
        match spec_sanitize_token(ws.last()) {
            Some(c) => prev.push(c),
            None => prev,
        }
    }
}

/// A command line split into words, without field codes.
pub open spec fn spec_sanitize_exec(exec: Seq<char>) -> Result<Seq<Seq<char>>, LaunchError> {
    match spec_shlex_split(exec) {
        None => Err(LaunchError::UnparsableCommand),
        Some(ws) => Ok(spec_sanitize_argv(ws)),
    }
}

/// The placeholder a terminal command puts the program's command line in.
pub open spec fn cmd_placeholder() -> Seq<char> {
    "{cmd}"@
}

/// Each word with the placeholder replaced by the command line.
pub open spec fn expand_placeholders(ws: Seq<Seq<char>>, line: Seq<char>) -> Seq<Seq<char>> {
    ws.map_values(|w: Seq<char>| replace_all(w, cmd_placeholder(), line))
}

/// Whether some word holds the placeholder.
pub open spec fn has_placeholder(ws: Seq<Seq<char>>) -> bool {
    exists|k: int| 0 <= k < ws.len() && contains(#[trigger] ws[k], cmd_placeholder())
}

/// The argument vector that runs `argv` in a terminal: the terminal
/// command's words with `{cmd}` replaced by `argv` joined by spaces, then
/// `argv` itself if no word held `{cmd}`; `xterm -e` when the terminal
/// command has no words.
pub open spec fn spec_terminal_wrap(terminal: Seq<char>, argv: Seq<Seq<char>>) -> Result<Seq<Seq<char>>, LaunchError> {
    let line = join(argv, seq![' ']);
    match spec_sanitize_exec(terminal) {
        Err(e) => Err(e),
        Ok(tw) => if tw.len() == 0 {
            Ok(seq!["xterm"@, "-e"@, line])
        } else if has_placeholder(tw) {
            Ok(expand_placeholders(tw, line))
        } else {
            Ok(tw + argv)
        },
    }
}

/// How a desktop entry is launched: its command split and sanitized, run
/// directly or inside the terminal command, in its working directory.
pub open spec fn spec_launch_plan(e: Entry, terminal: Seq<char>) -> Result<(Seq<Seq<char>>, Option<Seq<char>>), LaunchError> {
    let exec = match opt_string(e.exec_line) {
        Some(x) => x,
        None => Seq::empty(),
    };
    match spec_sanitize_exec(exec) {
        Err(err) => Err(err),
        Ok(argv) => if argv.len() == 0 {
            Err(LaunchError::EmptyCommand)
        } else if e.terminal {
            match spec_terminal_wrap(terminal, argv) {
                Err(err) => Err(err),
                Ok(full) => Ok((full, opt_string(e.working_dir))),
            }
        } else {
            Ok((argv, opt_string(e.working_dir)))
        },
    }
}

/// `a` is the activation for entry `e`: a dmenu entry prints its label, a
/// desktop entry is launched.
pub open spec fn is_activation(r: Result<Activation, LaunchError>, e: Entry, terminal: Seq<char>) -> bool {
    match e.source {
        EntrySource::Dmenu => r matches Ok(Activation::Print(t)) && t@ == e.label@,
        EntrySource::Desktop => match (r, spec_launch_plan(e, terminal)) {
            (Ok(Activation::Launch(p)), Ok(q)) => views(p.argv@) == q.0 && opt_string(p.working_dir)
                == q.1,
            (Err(x), Err(y)) => x == y,
            _ => false,
        },
    }
}

// ---------------------------------------------------------------------------
// Laws
// ---------------------------------------------------------------------------

/// Removing field codes leaves no `%`, and changes nothing in a word
/// without one.
proof fn lemma_strip_field_codes(t: Seq<char>)
    ensures
        !strip_field_codes(t).contains('%'),
        !t.contains('%') ==> strip_field_codes(t) == t,
    decreases t.len(),
{
    if t.len() > 0 {
        if t[0] == '%' {
            if t.len() >= 2 {
                lemma_strip_field_codes(t.skip(2));
            }
        } else {
            let rest = t.drop_first();
            lemma_strip_field_codes(rest);
            let r = seq![t[0]] + strip_field_codes(rest);
            assert forall|i: int| 0 <= i < r.len() implies r[i] != '%' by {
                if i > 0 {
                    assert(r[i] == strip_field_codes(rest)[i - 1]);
                }
            }
            if !t.contains('%') {
                assert(rest.contains('%') ==> t.contains('%')) by {
                    if rest.contains('%') {
                        let k = choose|k: int| 0 <= k < rest.len() && rest[k] == '%';
                        assert(t[k + 1] == '%');
                    }
                }
                assert(seq![t[0]] + rest == t);
            }
        }
    }
}

/// Every word left after sanitizing is non-empty and free of field codes.
pub proof fn sanitized_words_are_clean(ws: Seq<Seq<char>>)
    ensures
        forall|i: int|
            0 <= i < spec_sanitize_argv(ws).len() ==> (#[trigger] spec_sanitize_argv(ws)[i]).len()
                > 0 && !spec_sanitize_argv(ws)[i].contains('%'),
    decreases ws.len(),
{
    if ws.len() > 0 {
        let prev = spec_sanitize_argv(ws.drop_last());
        sanitized_words_are_clean(ws.drop_last());
        lemma_strip_field_codes(ws.last());
        let all = spec_sanitize_argv(ws);
        assert forall|i: int| 0 <= i < all.len() implies (#[trigger] all[i]).len() > 0
            && !all[i].contains('%') by {
            if i < prev.len() {
                assert(all[i] == prev[i]);
            }
        }
    }
}

/// Sanitizing sanitized words changes nothing.
pub proof fn sanitize_is_idempotent(ws: Seq<Seq<char>>)
    ensures
        spec_sanitize_argv(spec_sanitize_argv(ws)) == spec_sanitize_argv(ws),
    decreases ws.len(),
{
    if ws.len() > 0 {
        let prev = spec_sanitize_argv(ws.drop_last());
        sanitize_is_idempotent(ws.drop_last());
        match spec_sanitize_token(ws.last()) {
            Some(c) => {
                lemma_strip_field_codes(ws.last());
                lemma_strip_field_codes(c);
                assert(prev.push(c).drop_last() == prev);
                if c.len() > 0 && c[0] == '%' {
                    assert(c.contains('%'));
                }
                assert(spec_sanitize_token(c) == Some(c));
            },
            None => {},
        }
    }
}

// ---------------------------------------------------------------------------
// Implementation
// ---------------------------------------------------------------------------

/// `shlex::split`: the words of a POSIX-shell style command line, or `None`
/// when quotes are unbalanced or an escape is left open.  The result is
/// named by `spec_shlex_split`.
#[verifier::external_body]
fn shlex_split(s: &str) -> (r: Option<Vec<String>>)
    ensures
        match r {
            Some(v) => spec_shlex_split(s@) == Some(views(v@)),
            None => spec_shlex_split(s@) is None,
        },
{
    shlex::split(s)
}

proof fn lemma_strip_skip(t: Seq<char>, i: int)
    requires
        0 <= i < t.len(),
        t[i] != '%',
    ensures
        strip_field_codes(t.skip(i)) == seq![t[i]] + strip_field_codes(t.skip(i + 1)),
{
    assert(t.skip(i)[0] == t[i]);
    assert(t.skip(i).drop_first() == t.skip(i + 1));
}

/// Removes the field codes (`%u`, `%f`, ...) from one word of an `Exec`
/// command line.
pub fn sanitize_token(token: &str) -> (r: Option<String>)
    ensures
        opt_string(r) == spec_sanitize_token(token@),
{
    let t = chars_of(token);
    if t.len() > 0 && t[0] == '%' {
        return None;
    }
    let mut cleaned: Vec<char> = Vec::new();
    let mut i: usize = 0;
    assert(t@.skip(0) == t@);
    while i < t.len()
        invariant
            i <= t@.len(),
            cleaned@ + strip_field_codes(t@.skip(i as int)) == strip_field_codes(t@),
        decreases t@.len() - i,
    {
        if t[i] == '%' {
            if i + 1 < t.len() {
                assert(t@.skip(i as int).skip(2) == t@.skip(i + 2));
                i = i + 2;
            } else {
                assert(t@.skip(i + 1) == Seq::<char>::empty());
                i = i + 1;
            }
        } else {
            proof {
                lemma_strip_skip(t@, i as int);
            }
            cleaned.push(t[i]);
            i = i + 1;
        }
    }
    assert(t@.skip(t@.len() as int) == Seq::<char>::empty());
    if cleaned.len() == 0 {
        None
    } else {
        Some(string_of(&cleaned))
    }
}

/// The words of a command line with their field codes removed, dropping
/// the words that leaves empty.
pub fn sanitize_argv(words: &Vec<String>) -> (r: Vec<String>)
    ensures
        views(r@) == spec_sanitize_argv(views(words@)),
{
    let ghost wv = views(words@);
    let mut r: Vec<String> = Vec::new();
    let mut i: usize = 0;
    while i < words.len()
        invariant
            i <= words@.len(),
            wv == views(words@),
            views(r@) == spec_sanitize_argv(wv.take(i as int)),
        decreases words@.len() - i,
    {
        assert(wv.take(i + 1).drop_last() == wv.take(i as int));
        assert(wv.take(i + 1).last() == words@[i as int]@);
        match sanitize_token(words[i].as_str()) {
            Some(c) => {
                let ghost before = r@;
                r.push(c);
                assert(views(r@) =~= views(before).push(c@));
            },
            None => {},
        }
        i = i + 1;
    }
    assert(wv.take(words@.len() as int) == wv);
    r
}

/// Splits an `Exec` command line into words and removes field codes.
pub fn sanitize_exec(exec: &str) -> (r: Result<Vec<String>, LaunchError>)
    ensures
        match (r, spec_sanitize_exec(exec@)) {
            (Ok(a), Ok(b)) => views(a@) == b,
            (Err(a), Err(b)) => a == b,
            _ => false,
        },
{
    match shlex_split(exec) {
        None => Err(LaunchError::UnparsableCommand),
        Some(words) => Ok(sanitize_argv(&words)),
    }
}

/// The argument vector that runs `argv` inside the terminal command.
pub fn terminal_wrap_command(terminal_command: &str, argv: &Vec<String>) -> (r: Result<Vec<String>, LaunchError>)
    ensures
        match (r, spec_terminal_wrap(terminal_command@, views(argv@))) {
            (Ok(a), Ok(b)) => views(a@) == b,
            (Err(a), Err(b)) => a == b,
            _ => false,
        },
{
    let command_line = join_strings(argv, " ");
    proof {
        reveal_strlit(" ");
        assert(" "@ =~= seq![' ']);
        assert(argv@.map_values(|p: String| p@) =~= views(argv@));
    }
    let terminal_argv = match sanitize_exec(terminal_command) {
        Err(e) => {
            return Err(e);
        },
        Ok(v) => v,
    };
    if terminal_argv.len() == 0 {
        let mut v: Vec<String> = Vec::new();
        v.push(owned("xterm"));
        v.push(owned("-e"));
        v.push(command_line);
        assert(views(v@) =~= seq!["xterm"@, "-e"@, join(views(argv@), seq![' '])]);
        return Ok(v);
    }
    let ghost tw = views(terminal_argv@);
    let ghost line = join(views(argv@), seq![' ']);
    let pat = chars_of("{cmd}");
    let line_chars = chars_of(command_line.as_str());
    proof {
        reveal_strlit("{cmd}");
        assert(pat@.len() == 5);
    }
    let mut expanded: Vec<String> = Vec::new();
    let mut replaced = false;
    let mut i: usize = 0;
    while i < terminal_argv.len()
        invariant
            i <= terminal_argv@.len(),
            tw == views(terminal_argv@),
            pat@ == cmd_placeholder(),
            pat@.len() > 0,
            line_chars@ == line,
            views(expanded@) == expand_placeholders(tw.take(i as int), line),
            replaced == has_placeholder(tw.take(i as int)),
        decreases terminal_argv@.len() - i,
    {
        let w = chars_of(terminal_argv[i].as_str());
        let ghost before = expanded@;
        let ghost tk = tw.take(i + 1);
        assert(tk.take(i as int) == tw.take(i as int));
        assert(tk[i as int] == w@);
        if find_chars(&w, &pat).is_some() {
            replaced = true;
            let out = replace_chars(&w, &pat, &line_chars);
            expanded.push(string_of(&out));
            proof {
                assert(contains(tk[i as int], cmd_placeholder()));
                assert(has_placeholder(tk));
            }
        } else {
            expanded.push(string_of(&w));
            proof {
                assert(replace_all(w@, pat@, line) == w@);
                if has_placeholder(tk) {
                    let k = choose|k: int| 0 <= k < tk.len() && contains(#[trigger] tk[k], cmd_placeholder());
                    if k < i {
                        assert(tw.take(i as int)[k] == tk[k]);
                    }
                }
                if has_placeholder(tw.take(i as int)) {
                    let k = choose|k: int|
                        0 <= k < i && contains(#[trigger] tw.take(i as int)[k], cmd_placeholder());
                    assert(tk[k] == tw.take(i as int)[k]);
                }
            }
        }
        proof {
            assert(pat@ == cmd_placeholder());
            assert(expand_placeholders(tw.take(i as int), line).len() == i);
            assert(views(before).len() == i);
            assert(expanded@.len() == before.len() + 1);
            assert(views(expanded@).len() == i + 1);
            assert forall|k: int| 0 <= k < i + 1 implies views(expanded@)[k]
                == expand_placeholders(tk, line)[k] by {
                if k < i {
                    assert(views(expanded@)[k] == views(before)[k]);
                    assert(views(before)[k] == expand_placeholders(tw.take(i as int), line)[k]);
                    assert(tw.take(i as int)[k] == tk[k]);
                } else {
                    assert(views(expanded@)[k] == expanded@[k]@);
                }
            }
            assert(views(expanded@) =~= expand_placeholders(tk, line));
        }
        i = i + 1;
    }
    assert(tw.take(terminal_argv@.len() as int) == tw);
    if !replaced {
        let mut k: usize = 0;
        let ghost base = expanded@;
        assert(views(expanded@) == tw);
        while k < argv.len()
            invariant
                k <= argv@.len(),
                views(expanded@) == tw + views(argv@).take(k as int),
            decreases argv@.len() - k,
        {
            let ghost before = expanded@;
            let a = argv[k].clone();
            expanded.push(a);
            assert(views(argv@).take(k + 1) == views(argv@).take(k as int).push(argv@[k as int]@));
            assert(views(expanded@) =~= views(before).push(a@));
            assert(views(expanded@) =~= tw + views(argv@).take(k + 1));
            k = k + 1;
        }
        assert(views(argv@).take(argv@.len() as int) == views(argv@));
    }
    Ok(expanded)
}

/// How to start a desktop entry's program.
pub fn launch_desktop(entry: &Entry, terminal_command: &str) -> (r: Result<LaunchPlan, LaunchError>)
    ensures
        match (r, spec_launch_plan(*entry, terminal_command@)) {
            (Ok(p), Ok(q)) => views(p.argv@) == q.0 && opt_string(p.working_dir) == q.1,
            (Err(a), Err(b)) => a == b,
            _ => false,
        },
{
    let exec = match &entry.exec_line {
        Some(e) => e.as_str(),
        None => "",
    };
    proof {
        reveal_strlit("");
        assert(""@ =~= Seq::<char>::empty());
    }
    let argv = match sanitize_exec(exec) {
        Err(e) => {
            return Err(e);
        },
        Ok(v) => v,
    };
    if argv.len() == 0 {
        return Err(LaunchError::EmptyCommand);
    }
    let working_dir = crate::model::clone_opt_string(&entry.working_dir);
    if entry.terminal {
        match terminal_wrap_command(terminal_command, &argv) {
            Err(e) => Err(e),
            Ok(full) => Ok(LaunchPlan { argv: full, working_dir }),
        }
    } else {
        Ok(LaunchPlan { argv, working_dir })
    }
}

/// What choosing `entry` does: a dmenu entry prints its label; a desktop
/// entry starts its program.
pub fn activate(entry: &Entry, terminal_command: &str) -> (r: Result<Activation, LaunchError>)
    ensures
        is_activation(r, *entry, terminal_command@),
{
    match entry.source {
        EntrySource::Dmenu => Ok(Activation::Print(entry.label.clone())),
        EntrySource::Desktop => match launch_desktop(entry, terminal_command) {
            Ok(plan) => Ok(Activation::Launch(plan)),
            Err(e) => Err(e),
        },
    }
}

/// The program that runs a typed command line: `/bin/sh -c` with the
/// command, in the launcher's own directory.
pub fn shell_command_plan(command: &str) -> (r: LaunchPlan)
    ensures
        views(r.argv@) == seq!["/bin/sh"@, "-c"@, command@],
        r.working_dir is None,
{
    let mut argv: Vec<String> = Vec::new();
    argv.push(owned("/bin/sh"));
    argv.push(owned("-c"));
    argv.push(owned(command));
    assert(views(argv@) =~= seq!["/bin/sh"@, "-c"@, command@]);
    LaunchPlan { argv, working_dir: None }
}

} // verus!
