//! Desktop entries and dmenu input: parsing them into entries.
use crate::model::{Entry, EntrySource, SearchData};
use crate::sort::{goes_before, is_stable_order, key_view, lemma_text_lt_irreflexive, stable_order, SortKey};
use crate::text::{
    byte_len, chars_eq, chars_eq_str, chars_of, contains, decimal, find, find_chars, is_ws, join,
    join_strings, lemma_find_from_some, lemma_split_once_at, lemma_trim_unchanged,
    lemma_utf8_len_ge_len, lines, lines_chars, occurs_at, opt_string, opt_text, owned,
    parse_unsigned, parse_unsigned_chars, push_char, push_chars, push_decimal, push_str, slice_vec,
    spec_to_lowercase, split_chars, split_on, split_once, split_once_chars, string_of,
    to_lowercase, trim, trim_chars, trim_end_char, trim_end_char_chars,
};
use vstd::prelude::*;

verus! {

// ---------------------------------------------------------------------------
// Column selection (`--with-nth`, `--match-nth`, `--accept-nth`)
// ---------------------------------------------------------------------------

/// A column number as `usize` parses it.
pub open spec fn parse_index(t: Seq<char>) -> Option<nat> {
    parse_unsigned(t, 10, usize::MAX as nat)
}

/// The columns numbered `start..=end` (from 1), joined by spaces.
pub open spec fn column_range(cols: Seq<Seq<char>>, start: nat, end: nat) -> Seq<char> {
    let lo: int = if start >= 1 {
        start - 1
    } else {
        0
    };
    let hi: int = if end < cols.len() {
        end as int
    } else {
        cols.len() as int
    };
    if lo < hi {
        join(cols.subrange(lo, hi), seq![' '])
    } else {
        Seq::empty()
    }
}

/// What one `{...}` placeholder expands to: `{a..b}` the columns `a` to `b`
/// joined by spaces (`a` defaults to 1, `b` to the last column), `{n}`
/// column `n` (`{0}` column 1) or nothing if there is no such column, and
/// anything else itself, braces included.
pub open spec fn expand_token(token: Seq<char>, cols: Seq<Seq<char>>) -> Seq<char> {
    match find(token, seq!['.', '.']) {
        Some(rp) => {
            let start = match parse_index(trim(token.take(rp))) {
                Some(v) => v,
                None => 1,
            };
            let end_raw = trim(token.skip(rp + 2));
            let end = if end_raw.len() == 0 {
                cols.len()
            } else {
                match parse_index(end_raw) {
                    Some(v) => v,
                    None => cols.len(),
                }
            };
            column_range(cols, start, end)
        },
        None => match parse_index(trim(token)) {
            Some(ix) => {
                let k: int = if ix == 0 {
                    0
                } else {
                    ix - 1
                };
                if k < cols.len() {
                    cols[k]
                } else {
                    Seq::empty()
                }
            },
            None => seq!['{'] + token + seq!['}'],
        },
    }
}

/// A column format: text outside braces is copied, each `{...}` is expanded
/// (a `{` never closed takes the rest of the format).
pub open spec fn expand_format(s: Seq<char>, cols: Seq<Seq<char>>) -> Seq<char>
    decreases s.len(),
{
    if s.len() == 0 {
        Seq::empty()
    } else if s[0] != '{' {
        seq![s[0]] + expand_format(s.drop_first(), cols)
    } else {
        let body = s.drop_first();
        match find(body, seq!['}']) {
            Some(p) => {
                proof {
                    lemma_find_from_some(body, seq!['}'], 0);
                }
                expand_token(body.take(p), cols) + expand_format(body.skip(p + 1), cols)
            },
            None => expand_token(body, cols),
        }
    }
}

/// `--with-nth` and friends: no spec, an empty one or `0` selects nothing;
/// a plain number `n >= 1` selects column `n` if it exists; anything else is
/// a column format.
pub open spec fn spec_apply_nth(input: Seq<char>, spec: Option<Seq<char>>, d: char) -> Option<Seq<char>> {
    match spec {
        None => None,
        Some(raw) => {
            let s = trim(raw);
            let cols = split_on(input, d);
            if s.len() == 0 || s == seq!['0'] {
                None
            } else {
                match parse_index(s) {
                    Some(ix) => if ix == 0 {
                        None
                    } else if ix - 1 < cols.len() {
                        Some(cols[ix - 1])
                    } else {
                        None
                    },
                    None => Some(expand_format(s, cols)),
                }
            }
        },
    }
}

fn parse_index_chars(t: &[char]) -> (r: Option<usize>)
    ensures
        r matches Some(v) ==> parse_index(t@) == Some(v as nat),
        r is None ==> parse_index(t@) is None,
{
    match parse_unsigned_chars(t, 10, usize::MAX as u64) {
        Some(v) => Some(v as usize),
        None => None,
    }
}

fn push_column_range(out: &mut Vec<char>, cols: &Vec<Vec<char>>, start: usize, end: usize)
    ensures
        final(out)@ == old(out)@ + column_range(cols@.map_values(|c: Vec<char>| c@), start as nat, end as nat),
{
    let ghost cv = cols@.map_values(|c: Vec<char>| c@);
    let lo: usize = if start >= 1 {
        start - 1
    } else {
        0
    };
    let hi: usize = if end < cols.len() {
        end
    } else {
        cols.len()
    };
    if lo < hi {
        let ghost parts = cv.subrange(lo as int, hi as int);
        let ghost out0 = out@;
        let mut i: usize = lo;
        while i < hi
            invariant
                lo <= i <= hi <= cols@.len(),
                lo < hi,
                cv == cols@.map_values(|c: Vec<char>| c@),
                parts == cv.subrange(lo as int, hi as int),
                out@ == out0 + join(parts.take(i - lo), seq![' ']),
            decreases hi - i,
        {
            assert(parts.take(i - lo + 1).drop_last() == parts.take(i - lo));
            assert(parts.take(i - lo + 1).last() == cols@[i as int]@);
            if i > lo {
                out.push(' ');
            }
            let ghost mid = out@;
            let col = &cols[i];
            let mut k: usize = 0;
            while k < col.len()
                invariant
                    k <= col@.len(),
                    out@ == mid + col@.take(k as int),
                decreases col@.len() - k,
            {
                out.push(col[k]);
                k = k + 1;
                assert(out@ == mid + col@.take(k as int));
            }
            assert(col@.take(col@.len() as int) == col@);
            proof {
                if i == lo {
                    assert(join(parts.take(1), seq![' ']) == parts[0]);
                    assert(join(parts.take(0), seq![' ']) == Seq::<char>::empty());
                }
            }
            i = i + 1;
        }
        assert(parts.take(hi - lo) == parts);
    } else {
        assert(out@ == old(out)@ + Seq::<char>::empty());
    }
}

fn push_token_expansion(out: &mut Vec<char>, token: &Vec<char>, cols: &Vec<Vec<char>>)
    ensures
        final(out)@ == old(out)@ + expand_token(token@, cols@.map_values(|c: Vec<char>| c@)),
{
    let ghost cv = cols@.map_values(|c: Vec<char>| c@);
    let dots = vec!['.', '.'];
    assert(dots@ == seq!['.', '.']);
    match find_chars(token, &dots) {
        Some(rp) => {
            proof {
                lemma_find_from_some(token@, seq!['.', '.'], 0);
                assert(occurs_at(token@, seq!['.', '.'], rp as int));
            }
            let two: usize = 2;
            assert(rp + two <= token.len());
            let before = slice_vec(token, 0, rp);
            let after = slice_vec(token, rp + two, token.len());
            assert(before@ == token@.take(rp as int));
            assert(after@ == token@.skip(rp + 2));
            let start = match parse_index_chars(&trim_chars(&before)) {
                Some(v) => v,
                None => 1,
            };
            let end_raw = trim_chars(&after);
            let end = if end_raw.len() == 0 {
                cols.len()
            } else {
                match parse_index_chars(&end_raw) {
                    Some(v) => v,
                    None => cols.len(),
                }
            };
            push_column_range(out, cols, start, end);
        },
        None => {
            match parse_index_chars(&trim_chars(token)) {
                Some(ix) => {
                    let k: usize = if ix == 0 {
                        0
                    } else {
                        ix - 1
                    };
                    if k < cols.len() {
                        let ghost out0 = out@;
                        let col = &cols[k];
                        let mut j: usize = 0;
                        while j < col.len()
                            invariant
                                j <= col@.len(),
                                out@ == out0 + col@.take(j as int),
                            decreases col@.len() - j,
                        {
                            out.push(col[j]);
                            j = j + 1;
                            assert(out@ == out0 + col@.take(j as int));
                        }
                        assert(col@.take(col@.len() as int) == col@);
                    } else {
                        assert(out@ == old(out)@ + Seq::<char>::empty());
                    }
                },
                None => {
                    let ghost out0 = out@;
                    out.push('{');
                    let mut j: usize = 0;
                    while j < token.len()
                        invariant
                            j <= token@.len(),
                            out@ == out0 + seq!['{'] + token@.take(j as int),
                        decreases token@.len() - j,
                    {
                        out.push(token[j]);
                        j = j + 1;
                        assert(out@ == out0 + seq!['{'] + token@.take(j as int));
                    }
                    out.push('}');
                    assert(token@.take(token@.len() as int) == token@);
                    assert(out@ == out0 + (seq!['{'] + token@ + seq!['}']));
                },
            }
        },
    }
}

/// Expands a column format over the given columns.
pub fn expand_column_format(spec: &str, columns: &Vec<String>) -> (r: String)
    ensures
        r@ == expand_format(spec@, columns@.map_values(|c: String| c@)),
{
    let mut cols: Vec<Vec<char>> = Vec::new();
    let mut c: usize = 0;
    while c < columns.len()
        invariant
            c <= columns@.len(),
            cols@.len() == c,
            forall|k: int| 0 <= k < c ==> #[trigger] cols@[k]@ == columns@[k]@,
        decreases columns@.len() - c,
    {
        cols.push(chars_of(columns[c].as_str()));
        c = c + 1;
    }
    let ghost cv = cols@.map_values(|c: Vec<char>| c@);
    assert(cv =~= columns@.map_values(|c: String| c@));
    let s = chars_of(spec);
    let mut out: Vec<char> = Vec::new();
    let mut i: usize = 0;
    assert(s@.skip(0) == s@);
    while i < s.len()
        invariant
            i <= s@.len(),
            cv == cols@.map_values(|c: Vec<char>| c@),
            out@ + expand_format(s@.skip(i as int), cv) == expand_format(s@, cv),
        decreases s@.len() - i,
    {
        let ghost rest = s@.skip(i as int);
        if s[i] != '{' {
            assert(rest.drop_first() == s@.skip(i + 1));
            out.push(s[i]);
            i = i + 1;
        } else {
            let body = slice_vec(&s, i + 1, s.len());
            assert(body@ == rest.drop_first());
            let close = vec!['}'];
            assert(close@ == seq!['}']);
            match find_chars(&body, &close) {
                Some(p) => {
                    proof {
                        lemma_find_from_some(body@, seq!['}'], 0);
                        assert(occurs_at(body@, seq!['}'], p as int));
                    }
                    let token = slice_vec(&body, 0, p);
                    assert(token@ == body@.take(p as int));
                    push_token_expansion(&mut out, &token, &cols);
                    assert(body@.skip(p + 1) == s@.skip(i + 1 + p + 1));
                    i = i + 1 + p + 1;
                },
                None => {
                    push_token_expansion(&mut out, &body, &cols);
                    assert(s@.skip(s@.len() as int) == Seq::<char>::empty());
                    i = s.len();
                },
            }
        }
    }
    string_of(&out)
}

/// `--with-nth`-style column selection on one input line.
pub fn apply_nth_transform(input: &str, spec: Option<&str>, delimiter: char) -> (r: Option<String>)
    ensures
        r matches Some(t) ==> spec_apply_nth(input@, opt_text(spec), delimiter) == Some(t@),
        r is None ==> spec_apply_nth(input@, opt_text(spec), delimiter) is None,
{
    let raw = match spec {
        Some(raw) => raw,
        None => {
            return None;
        },
    };
    let rc = chars_of(raw);
    let s = trim_chars(&rc);
    if s.len() == 0 || chars_eq_str(&s, "0") {
        proof {
            if s.len() > 0 {
                reveal_strlit("0");
                assert("0"@ =~= seq!['0']);
                assert(s@ == seq!['0']);
            }
        }
        return None;
    }
    proof {
        reveal_strlit("0");
        assert("0"@ =~= seq!['0']);
        assert(s@ != seq!['0']);
    }
    let ic = chars_of(input);
    let cols = split_chars(&ic, delimiter);
    let ghost cv = cols@.map_values(|c: Vec<char>| c@);
    assert(cv =~= split_on(input@, delimiter));
    match parse_index_chars(&s) {
        Some(ix) => {
            if ix == 0 {
                None
            } else if ix - 1 < cols.len() {
                Some(string_of(&cols[ix - 1]))
            } else {
                None
            }
        },
        None => {
            let mut columns: Vec<String> = Vec::new();
            let mut k: usize = 0;
            while k < cols.len()
                invariant
                    k <= cols@.len(),
                    columns@.len() == k,
                    forall|j: int| 0 <= j < k ==> #[trigger] columns@[j]@ == cols@[j]@,
                decreases cols@.len() - k,
            {
                columns.push(string_of(&cols[k]));
                k = k + 1;
            }
            assert(columns@.map_values(|c: String| c@) =~= cv);
            let spec_text = string_of(&s);
            Some(expand_column_format(spec_text.as_str(), &columns))
        },
    }
}


// ---------------------------------------------------------------------------
// Desktop entry files
// ---------------------------------------------------------------------------

/// The trimmed, non-empty items of a list, in order.
pub open spec fn nonempty_trimmed(ps: Seq<Seq<char>>) -> Seq<Seq<char>>
    decreases ps.len(),
{
    if ps.len() == 0 {
        Seq::empty()
    } else {
        let prev = nonempty_trimmed(ps.drop_last());
        let t = trim(ps.last());
        if t.len() > 0 {
            prev.push(t)
        } else {
            prev
        }
    }
}

/// A `;`-separated desktop-entry list value: its trimmed, non-empty items.
pub open spec fn spec_parse_list(v: Seq<char>) -> Seq<Seq<char>> {
    nonempty_trimmed(split_on(v, ';'))
}

/// Views of a list of strings.
pub open spec fn views(v: Seq<String>) -> Seq<Seq<char>> {
    v.map_values(|s: String| s@)
}

/// Splits a `;`-separated list value into its trimmed, non-empty items.
pub fn parse_list(value: &str) -> (r: Vec<String>)
    ensures
        views(r@) == spec_parse_list(value@),
{
    let vc = chars_of(value);
    let ps = split_chars(&vc, ';');
    let ghost sp = split_on(value@, ';');
    let mut r: Vec<String> = Vec::new();
    let mut i: usize = 0;
    while i < ps.len()
        invariant
            i <= ps@.len(),
            sp == split_on(value@, ';'),
            ps@.len() == sp.len(),
            forall|k: int| 0 <= k < ps@.len() ==> #[trigger] ps@[k]@ == sp[k],
            views(r@) == nonempty_trimmed(sp.take(i as int)),
        decreases ps@.len() - i,
    {
        assert(sp.take(i + 1).drop_last() == sp.take(i as int));
        assert(sp.take(i + 1).last() == ps@[i as int]@);
        let t = trim_chars(&ps[i]);
        if t.len() > 0 {
            let ts = string_of(&t);
            let ghost before = r@;
            r.push(ts);
            assert(views(r@) =~= views(before).push(t@));
        }
        i = i + 1;
    }
    assert(sp.take(ps@.len() as int) == sp);
    r
}


// ---------------------------------------------------------------------------
// Search data
// ---------------------------------------------------------------------------

/// `ps` with `t` appended when `t` is not empty.
pub open spec fn push_if(ps: Seq<Seq<char>>, t: Seq<char>) -> Seq<Seq<char>> {
    if t.len() > 0 {
        ps.push(t)
    } else {
        ps
    }
}

/// The parts of the combined search text: the name, then each non-empty
/// field, then the path if one is given.
pub open spec fn combined_parts(
    name: Seq<char>,
    filename: Seq<char>,
    generic: Seq<char>,
    exec: Seq<char>,
    keywords: Seq<char>,
    categories: Seq<char>,
    comment: Seq<char>,
    path: Option<Seq<char>>,
) -> Seq<Seq<char>> {
    let ps = push_if(
        push_if(
            push_if(push_if(push_if(push_if(seq![name], filename), generic), exec), keywords),
            categories,
        ),
        comment,
    );
    match path {
        Some(p) => ps.push(p),
        None => ps,
    }
}

/// Each text lowercased.
pub open spec fn lowered(v: Seq<Seq<char>>) -> Seq<Seq<char>> {
    v.map_values(|x: Seq<char>| spec_to_lowercase(x))
}

/// `sd` holds the lowercased search texts of a desktop entry: each field
/// lowercased, keywords and categories lowercased and joined by spaces, and
/// the combined text of all of them.
pub open spec fn is_search_data(
    sd: SearchData,
    filename: Seq<char>,
    label: Seq<char>,
    generic: Option<Seq<char>>,
    exec: Seq<char>,
    keywords: Seq<Seq<char>>,
    categories: Seq<Seq<char>>,
    comment: Option<Seq<char>>,
    path: Option<Seq<char>>,
) -> bool {
    let f = spec_to_lowercase(filename);
    let n = spec_to_lowercase(label);
    let g = spec_to_lowercase(
        match generic {
            Some(x) => x,
            None => Seq::empty(),
        },
    );
    let e = spec_to_lowercase(exec);
    let k = join(lowered(keywords), seq![' ']);
    let c = join(lowered(categories), seq![' ']);
    let cm = spec_to_lowercase(
        match comment {
            Some(x) => x,
            None => Seq::empty(),
        },
    );
    let p = match path {
        Some(x) => Some(spec_to_lowercase(x)),
        None => None,
    };
    &&& sd.filename@ == f
    &&& sd.name@ == n
    &&& sd.generic@ == g
    &&& sd.exec_line@ == e
    &&& sd.keywords@ == k
    &&& sd.categories@ == c
    &&& sd.comment@ == cm
    &&& sd.combined@ == join(combined_parts(n, f, g, e, k, c, cm, p), seq![' '])
}

fn lower_join(items: &[String]) -> (r: String)
    ensures
        r@ == join(lowered(views(items@)), seq![' ']),
{
    let mut low: Vec<String> = Vec::new();
    let mut i: usize = 0;
    while i < items.len()
        invariant
            i <= items@.len(),
            low@.len() == i,
            forall|k: int| 0 <= k < i ==> #[trigger] low@[k]@ == spec_to_lowercase(items@[k]@),
        decreases items@.len() - i,
    {
        low.push(to_lowercase(items[i].as_str()));
        i = i + 1;
    }
    let r = join_strings(&low, " ");
    proof {
        reveal_strlit(" ");
        assert(" "@ =~= seq![' ']);
        assert(low@.map_values(|p: String| p@) =~= lowered(views(items@)));
    }
    r
}

fn push_if_nonempty(parts: &mut Vec<String>, t: &String)
    ensures
        views(final(parts)@) == push_if(views(old(parts)@), t@),
{
    if byte_len(t.as_str()) > 0 {
        let ghost before = parts@;
        parts.push(t.clone());
        assert(views(parts@) =~= views(before).push(t@));
    } else {
        proof {
            lemma_utf8_len_ge_len(t@);
        }
    }
}

/// The lowercased search texts of a desktop entry.
pub fn build_search_data(
    filename: &str,
    label: &str,
    generic_name: Option<&str>,
    exec: &str,
    keywords: &[String],
    categories: &[String],
    comment: Option<&str>,
    path: Option<&str>,
) -> (r: SearchData)
    ensures
        is_search_data(
            r,
            filename@,
            label@,
            opt_text(generic_name),
            exec@,
            views(keywords@),
            views(categories@),
            opt_text(comment),
            opt_text(path),
        ),
{
    let filename = to_lowercase(filename);
    let name = to_lowercase(label);
    let generic = to_lowercase(
        match generic_name {
            Some(g) => g,
            None => "",
        },
    );
    let exec = to_lowercase(exec);
    let keywords = lower_join(keywords);
    let categories = lower_join(categories);
    let comment = to_lowercase(
        match comment {
            Some(c) => c,
            None => "",
        },
    );
    proof {
        reveal_strlit("");
        assert(""@ =~= Seq::<char>::empty());
    }
    let mut parts: Vec<String> = Vec::new();
    parts.push(name.clone());
    assert(views(parts@) =~= seq![name@]);
    push_if_nonempty(&mut parts, &filename);
    push_if_nonempty(&mut parts, &generic);
    push_if_nonempty(&mut parts, &exec);
    push_if_nonempty(&mut parts, &keywords);
    push_if_nonempty(&mut parts, &categories);
    push_if_nonempty(&mut parts, &comment);
    match path {
        Some(p) => {
            let ghost before = parts@;
            parts.push(to_lowercase(p));
            assert(views(parts@) =~= views(before).push(spec_to_lowercase(p@)));
        },
        None => {},
    }
    let combined = join_strings(&parts, " ");
    proof {
        reveal_strlit(" ");
        assert(" "@ =~= seq![' ']);
        assert(parts@.map_values(|p: String| p@) =~= views(parts@));
    }
    SearchData {
        filename,
        name,
        generic,
        exec_line: exec,
        keywords,
        categories,
        comment,
        combined,
    }
}


// ---------------------------------------------------------------------------
// Scanning a desktop entry file
// ---------------------------------------------------------------------------

/// What a scan of a desktop entry file has gathered so far.
pub struct DesktopFields {
    pub in_entry: bool,
    pub name: Option<Seq<char>>,
    pub generic_name: Option<Seq<char>>,
    pub comment: Option<Seq<char>>,
    pub icon_name: Option<Seq<char>>,
    pub exec_line: Option<Seq<char>>,
    pub try_exec: Option<Seq<char>>,
    pub working_dir: Option<Seq<char>>,
    pub hidden: bool,
    pub no_display: bool,
    pub terminal: bool,
    pub keywords: Seq<Seq<char>>,
    pub categories: Seq<Seq<char>>,
}

/// The state before the first line.
pub open spec fn fields_start() -> DesktopFields {
    DesktopFields {
        in_entry: false,
        name: None,
        generic_name: None,
        comment: None,
        icon_name: None,
        exec_line: None,
        try_exec: None,
        working_dir: None,
        hidden: false,
        no_display: false,
        terminal: false,
        keywords: Seq::empty(),
        categories: Seq::empty(),
    }
}

/// A boolean value of a desktop entry: `true` or `1`.
pub open spec fn is_true_value(v: Seq<char>) -> bool {
    trim(v) == "true"@ || trim(v) == "1"@
}

/// `o`, or `Some(v)` if `o` is still unset.
pub open spec fn first_of(o: Option<Seq<char>>, v: Seq<char>) -> Option<Seq<char>> {
    match o {
        Some(x) => Some(x),
        None => Some(v),
    }
}

/// The effect of a `key=value` line inside `[Desktop Entry]`: the first
/// `Name`, `GenericName`, `Comment`, `Icon`, `Exec`, `TryExec` and `Path`
/// count, the last `NoDisplay`, `Hidden` and `Terminal` count, and
/// `Keywords` and `Categories` count while no item has been read for them.
pub open spec fn apply_key(st: DesktopFields, key: Seq<char>, v: Seq<char>) -> DesktopFields {
    if key == "Name"@ {
        DesktopFields { name: first_of(st.name, trim(v)), ..st }
    } else if key == "GenericName"@ {
        DesktopFields { generic_name: first_of(st.generic_name, trim(v)), ..st }
    } else if key == "Comment"@ {
        DesktopFields { comment: first_of(st.comment, trim(v)), ..st }
    } else if key == "Icon"@ {
        DesktopFields { icon_name: first_of(st.icon_name, trim(v)), ..st }
    } else if key == "Exec"@ {
        DesktopFields { exec_line: first_of(st.exec_line, trim(v)), ..st }
    } else if key == "TryExec"@ {
        DesktopFields { try_exec: first_of(st.try_exec, trim(v)), ..st }
    } else if key == "Path"@ {
        DesktopFields { working_dir: first_of(st.working_dir, trim(v)), ..st }
    } else if key == "NoDisplay"@ {
        DesktopFields { no_display: is_true_value(v), ..st }
    } else if key == "Hidden"@ {
        DesktopFields { hidden: is_true_value(v), ..st }
    } else if key == "Terminal"@ {
        DesktopFields { terminal: is_true_value(v), ..st }
    } else if key == "Keywords"@ {
        if st.keywords.len() == 0 {
            DesktopFields { keywords: spec_parse_list(v), ..st }
        } else {
            st
        }
    } else if key == "Categories"@ {
        if st.categories.len() == 0 {
            DesktopFields { categories: spec_parse_list(v), ..st }
        } else {
            st
        }
    } else {
        st
    }
}

/// The effect of one line: blank lines and `#` comments are skipped, a
/// `[...]` header enters or leaves `[Desktop Entry]`, and inside it a line
/// with `=` is a key and a value.
pub open spec fn scan_line(st: DesktopFields, raw: Seq<char>) -> DesktopFields {
    let line = trim(raw);
    if line.len() == 0 || line[0] == '#' {
        st
    } else if line[0] == '[' && line.last() == ']' {
        DesktopFields { in_entry: line == "[Desktop Entry]"@, ..st }
    } else if !st.in_entry {
        st
    } else {
        match split_once(line, '=') {
            None => st,
            Some(kv) => apply_key(st, trim(kv.0), kv.1),
        }
    }
}

/// A `key=value` line for one of the boolean keys, read inside
/// `[Desktop Entry]`, applies that key's value.
proof fn lemma_boolean_key_line(ls: Seq<Seq<char>>, key: Seq<char>, v: Seq<char>)
    requires
        key == "Terminal"@ || key == "Hidden"@ || key == "NoDisplay"@,
        scan_lines(ls).in_entry,
        v.len() > 0 ==> !is_ws(v.last()),
    ensures
        scan_lines(ls.push(key + seq!['='] + v)) == apply_key(scan_lines(ls), key, v),
{
    reveal_strlit("Terminal");
    reveal_strlit("Hidden");
    reveal_strlit("NoDisplay");
    let line = key + seq!['='] + v;
    let ext = ls.push(line);
    assert(ext.drop_last() == ls);
    assert(ext.last() == line);
    assert(line[0] == key[0]);
    if v.len() > 0 {
        assert(line.last() == v.last());
    } else {
        assert(line.last() == '=');
    }
    lemma_trim_unchanged(line);
    lemma_trim_unchanged(key);
    assert(!key.contains('=')) by {
        if key.contains('=') {
            let k = choose|k: int| 0 <= k < key.len() && key[k] == '=';
            assert(false);
        }
    }
    lemma_split_once_at(key, '=', v);
    assert(split_once(line, '=') == Some((key, v)));
}

/// Inside `[Desktop Entry]`, a `Terminal=` line sets whether the program
/// runs in a terminal: yes when its value, trimmed, is `true` or `1`, no
/// for any other; the last such line decides, and the other fields stay.
pub proof fn terminal_line_decides(ls: Seq<Seq<char>>, v: Seq<char>)
    requires
        scan_lines(ls).in_entry,
        v.len() > 0 ==> !is_ws(v.last()),
    ensures
        scan_lines(ls.push("Terminal="@ + v)).terminal == (trim(v) == "true"@ || trim(v)
            == "1"@),
        scan_lines(ls.push("Terminal="@ + v)) == (DesktopFields {
            terminal: scan_lines(ls.push("Terminal="@ + v)).terminal,
            ..scan_lines(ls)
        }),
{
    reveal_strlit("Terminal=");
    reveal_strlit("Terminal");
    reveal_strlit("Name");
    reveal_strlit("GenericName");
    reveal_strlit("Comment");
    reveal_strlit("Icon");
    reveal_strlit("Exec");
    reveal_strlit("TryExec");
    reveal_strlit("Path");
    reveal_strlit("NoDisplay");
    reveal_strlit("Hidden");
    assert("Terminal="@ + v == "Terminal"@ + seq!['='] + v);
    lemma_boolean_key_line(ls, "Terminal"@, v);
}

/// Inside `[Desktop Entry]`, `Hidden=` and `NoDisplay=` lines are read as
/// `Terminal=` is: yes when the value, trimmed, is `true` or `1`, no for any
/// other; the last line of each key decides, and the other fields stay.
pub proof fn hidden_and_no_display_lines_decide(ls: Seq<Seq<char>>, v: Seq<char>)
    requires
        scan_lines(ls).in_entry,
        v.len() > 0 ==> !is_ws(v.last()),
    ensures
        scan_lines(ls.push("Hidden="@ + v)).hidden == (trim(v) == "true"@ || trim(v) == "1"@),
        scan_lines(ls.push("Hidden="@ + v)) == (DesktopFields {
            hidden: scan_lines(ls.push("Hidden="@ + v)).hidden,
            ..scan_lines(ls)
        }),
        scan_lines(ls.push("NoDisplay="@ + v)).no_display == (trim(v) == "true"@ || trim(v)
            == "1"@),
        scan_lines(ls.push("NoDisplay="@ + v)) == (DesktopFields {
            no_display: scan_lines(ls.push("NoDisplay="@ + v)).no_display,
            ..scan_lines(ls)
        }),
{
    reveal_strlit("Hidden=");
    reveal_strlit("NoDisplay=");
    reveal_strlit("Terminal");
    reveal_strlit("Name");
    reveal_strlit("GenericName");
    reveal_strlit("Comment");
    reveal_strlit("Icon");
    reveal_strlit("Exec");
    reveal_strlit("TryExec");
    reveal_strlit("Path");
    reveal_strlit("NoDisplay");
    reveal_strlit("Hidden");
    assert("Hidden="@ + v == "Hidden"@ + seq!['='] + v);
    assert("NoDisplay="@ + v == "NoDisplay"@ + seq!['='] + v);
    lemma_boolean_key_line(ls, "Hidden"@, v);
    lemma_boolean_key_line(ls, "NoDisplay"@, v);
}

/// The state after the given lines.
pub open spec fn scan_lines(ls: Seq<Seq<char>>) -> DesktopFields
    decreases ls.len(),
{
    if ls.len() == 0 {
        fields_start()
    } else {
        scan_line(scan_lines(ls.drop_last()), ls.last())
    }
}

/// What a desktop entry file holds.
pub open spec fn spec_desktop_scan(contents: Seq<char>) -> DesktopFields {
    scan_lines(lines(contents))
}

/// The gathered fields, held as strings.
struct DesktopScan {
    in_entry: bool,
    name: Option<String>,
    generic_name: Option<String>,
    comment: Option<String>,
    icon_name: Option<String>,
    exec_line: Option<String>,
    try_exec: Option<String>,
    working_dir: Option<String>,
    hidden: bool,
    no_display: bool,
    terminal: bool,
    keywords: Vec<String>,
    categories: Vec<String>,
}

impl DesktopScan {
    spec fn fields(&self) -> DesktopFields {
        DesktopFields {
            in_entry: self.in_entry,
            name: opt_string(self.name),
            generic_name: opt_string(self.generic_name),
            comment: opt_string(self.comment),
            icon_name: opt_string(self.icon_name),
            exec_line: opt_string(self.exec_line),
            try_exec: opt_string(self.try_exec),
            working_dir: opt_string(self.working_dir),
            hidden: self.hidden,
            no_display: self.no_display,
            terminal: self.terminal,
            keywords: views(self.keywords@),
            categories: views(self.categories@),
        }
    }
}

fn set_first(slot: &mut Option<String>, v: &Vec<char>)
    ensures
        opt_string(*final(slot)) == first_of(opt_string(*old(slot)), trim(v@)),
{
    if slot.is_none() {
        let t = trim_chars(v);
        *slot = Some(string_of(&t));
    }
}

fn true_value(v: &Vec<char>) -> (b: bool)
    ensures
        b == is_true_value(v@),
{
    let t = trim_chars(v);
    chars_eq_str(&t, "true") || chars_eq_str(&t, "1")
}

fn apply_key_exec(st: &mut DesktopScan, key: &Vec<char>, v: &Vec<char>)
    ensures
        final(st).fields() == apply_key(old(st).fields(), key@, v@),
{
    if chars_eq_str(key, "Name") {
        set_first(&mut st.name, v);
    } else if chars_eq_str(key, "GenericName") {
        set_first(&mut st.generic_name, v);
    } else if chars_eq_str(key, "Comment") {
        set_first(&mut st.comment, v);
    } else if chars_eq_str(key, "Icon") {
        set_first(&mut st.icon_name, v);
    } else if chars_eq_str(key, "Exec") {
        set_first(&mut st.exec_line, v);
    } else if chars_eq_str(key, "TryExec") {
        set_first(&mut st.try_exec, v);
    } else if chars_eq_str(key, "Path") {
        set_first(&mut st.working_dir, v);
    } else if chars_eq_str(key, "NoDisplay") {
        st.no_display = true_value(v);
    } else if chars_eq_str(key, "Hidden") {
        st.hidden = true_value(v);
    } else if chars_eq_str(key, "Terminal") {
        st.terminal = true_value(v);
    } else if chars_eq_str(key, "Keywords") {
        if st.keywords.len() == 0 {
            let value = string_of(v);
            st.keywords = parse_list(value.as_str());
        }
    } else if chars_eq_str(key, "Categories") {
        if st.categories.len() == 0 {
            let value = string_of(v);
            st.categories = parse_list(value.as_str());
        }
    }
}

fn scan_line_exec(st: &mut DesktopScan, raw: &Vec<char>)
    ensures
        final(st).fields() == scan_line(old(st).fields(), raw@),
{
    let line = trim_chars(raw);
    let n = line.len();
    if n == 0 || line[0] == '#' {
        return;
    }
    if line[0] == '[' && line[n - 1] == ']' {
        st.in_entry = chars_eq_str(&line, "[Desktop Entry]");
        return;
    }
    if !st.in_entry {
        return;
    }
    match split_once_chars(&line, '=') {
        None => {},
        Some((k, v)) => {
            let key = trim_chars(&k);
            apply_key_exec(st, &key, &v);
        },
    }
}

fn scan_desktop(contents: &str) -> (st: DesktopScan)
    ensures
        st.fields() == spec_desktop_scan(contents@),
{
    let cs = chars_of(contents);
    let ls = lines_chars(&cs);
    let ghost lv = lines(contents@);
    let mut st = DesktopScan {
        in_entry: false,
        name: None,
        generic_name: None,
        comment: None,
        icon_name: None,
        exec_line: None,
        try_exec: None,
        working_dir: None,
        hidden: false,
        no_display: false,
        terminal: false,
        keywords: Vec::new(),
        categories: Vec::new(),
    };
    assert(views(st.keywords@) =~= Seq::<Seq<char>>::empty());
    assert(views(st.categories@) =~= Seq::<Seq<char>>::empty());
    let mut i: usize = 0;
    while i < ls.len()
        invariant
            i <= ls@.len(),
            lv == lines(contents@),
            ls@.len() == lv.len(),
            forall|k: int| 0 <= k < ls@.len() ==> #[trigger] ls@[k]@ == lv[k],
            st.fields() == scan_lines(lv.take(i as int)),
        decreases ls@.len() - i,
    {
        assert(lv.take(i + 1).drop_last() == lv.take(i as int));
        assert(lv.take(i + 1).last() == ls@[i as int]@);
        scan_line_exec(&mut st, &ls[i]);
        i = i + 1;
    }
    assert(lv.take(ls@.len() as int) == lv);
    st
}


// ---------------------------------------------------------------------------
// Desktop entries
// ---------------------------------------------------------------------------

/// The result of `Path::file_stem` on a path written as text: the final
/// component without its extension, if there is a final component.
pub uninterp spec fn spec_file_stem(path: Seq<char>) -> Option<Seq<char>>;

/// `Path::file_stem`, on a path given as UTF-8 text (whose components are
/// then UTF-8 too).  The result is named by `spec_file_stem`.
#[verifier::external_body]
fn file_stem(path: &str) -> (r: Option<String>)
    ensures
        opt_string(r) == spec_file_stem(path@),
{
    let stem = std::path::Path::new(path).file_stem()?;
    Some(stem.to_string_lossy().into_owned())
}

/// The id of a desktop file: its file stem, or the whole path without one.
pub open spec fn spec_desktop_id(path: Seq<char>) -> Seq<char> {
    match spec_file_stem(path) {
        Some(stem) => stem,
        None => path,
    }
}

/// The id of a desktop file: its file stem, or the whole path without one.
pub fn desktop_id(path: &str) -> (r: String)
    ensures
        r@ == spec_desktop_id(path@),
{
    match file_stem(path) {
        Some(stem) => stem,
        None => owned(path),
    }
}

/// `Path::exists`: whether something is at `path` on disk.  The answer
/// depends on the file system, so nothing is claimed of it.
#[verifier::external_body]
fn path_exists(path: &str) -> (r: bool) {
    std::path::Path::new(path).exists()
}

/// `which::which`: whether an executable named `program` is found on
/// `$PATH`.  The answer depends on the environment and the file system, so
/// nothing is claimed of it.
#[verifier::external_body]
fn found_on_path(program: &str) -> (r: bool) {
    which::which(program).is_ok()
}

/// How a `TryExec` program is looked for.
#[derive(Clone, Copy, Debug, PartialEq, Eq, Structural)]
pub enum ProgramLookup {
    /// An empty name is never available.
    Never,
    /// A name holding a `/` is a path, checked on disk.
    AsPath,
    /// Any other name is searched for on `$PATH`.
    OnSearchPath,
}

/// How the program `p` is looked for.
pub open spec fn spec_program_lookup(p: Seq<char>) -> ProgramLookup {
    if p.len() == 0 {
        ProgramLookup::Never
    } else if contains(p, seq!['/']) {
        ProgramLookup::AsPath
    } else {
        ProgramLookup::OnSearchPath
    }
}

/// Decides how the program `program` is looked for.
pub fn program_lookup(program: &str) -> (r: ProgramLookup)
    ensures
        r == spec_program_lookup(program@),
{
    let pc = chars_of(program);
    if pc.len() == 0 {
        return ProgramLookup::Never;
    }
    let slash = vec!['/'];
    assert(slash@ == seq!['/']);
    if find_chars(&pc, &slash).is_some() {
        ProgramLookup::AsPath
    } else {
        ProgramLookup::OnSearchPath
    }
}

/// Whether a `TryExec` program is available: an empty name never is; a name
/// with a `/` is looked up as a path, any other on `$PATH` (see
/// `program_lookup`).  What the disk and `$PATH` hold decides the rest.
pub fn binary_in_path(program: &str) -> (r: bool)
    ensures
        spec_program_lookup(program@) == ProgramLookup::Never ==> !r,
{
    match program_lookup(program) {
        ProgramLookup::Never => false,
        ProgramLookup::AsPath => path_exists(program),
        ProgramLookup::OnSearchPath => found_on_path(program),
    }
}

/// Whether the fields make an entry: not hidden, with a name and a command,
/// and a `TryExec` program, if any, available.
pub open spec fn desktop_fields_accepted(f: DesktopFields, try_exec_found: bool) -> bool {
    &&& !f.hidden
    &&& !f.no_display
    &&& f.name is Some
    &&& f.exec_line is Some
    &&& (f.try_exec is Some ==> try_exec_found)
}

/// `e` is the desktop entry for the fields read from the file at `path`.
pub open spec fn is_desktop_entry(e: Entry, f: DesktopFields, path: Seq<char>, show_paths: bool) -> bool {
    let id = spec_desktop_id(path);
    &&& e.id@ == id
    &&& e.index == 0
    &&& e.label@ == f.name->0
    &&& e.raw_text@ == Seq::<char>::empty()
    &&& opt_string(e.icon_name) == f.icon_name
    &&& e.icon is None
    &&& opt_string(e.exec_line) == f.exec_line
    &&& opt_string(e.path) == Some(path)
    &&& e.terminal == f.terminal
    &&& opt_string(e.working_dir) == f.working_dir
    &&& is_search_data(
        e.search,
        id,
        f.name->0,
        f.generic_name,
        f.exec_line->0,
        f.keywords,
        f.categories,
        f.comment,
        if show_paths {
            Some(path)
        } else {
            None
        },
    )
    &&& e.source == EntrySource::Desktop
}

/// The entry the file yields, given whether its `TryExec` program was found.
pub open spec fn desktop_result_is(
    r: Option<Entry>,
    f: DesktopFields,
    path: Seq<char>,
    show_paths: bool,
    try_exec_found: bool,
) -> bool {
    if desktop_fields_accepted(f, try_exec_found) {
        r matches Some(e) && is_desktop_entry(e, f, path, show_paths)
    } else {
        r is None
    }
}

fn entry_from_scan(st: DesktopScan, path: &str, show_paths: bool, try_exec_found: bool) -> (r: Option<Entry>)
    ensures
        desktop_result_is(r, st.fields(), path@, show_paths, try_exec_found),
{
    if st.hidden || st.no_display {
        return None;
    }
    let label = match st.name {
        Some(n) => n,
        None => {
            return None;
        },
    };
    let exec = match st.exec_line {
        Some(e) => e,
        None => {
            return None;
        },
    };
    if st.try_exec.is_some() && !try_exec_found {
        return None;
    }
    let id = desktop_id(path);
    let search = build_search_data(
        id.as_str(),
        label.as_str(),
        match &st.generic_name {
            Some(g) => Some(g.as_str()),
            None => None,
        },
        exec.as_str(),
        &st.keywords,
        &st.categories,
        match &st.comment {
            Some(c) => Some(c.as_str()),
            None => None,
        },
        if show_paths {
            Some(path)
        } else {
            None
        },
    );
    Some(
        Entry {
            id,
            index: 0,
            label,
            raw_text: String::new(),
            icon_name: st.icon_name,
            icon: None,
            exec_line: Some(exec),
            path: Some(owned(path)),
            terminal: st.terminal,
            working_dir: st.working_dir,
            search,
            source: EntrySource::Desktop,
        },
    )
}

/// The entry a desktop file yields, given whether its `TryExec` program,
/// if it names one, was found.
pub fn desktop_entry_from(contents: &str, path: &str, show_paths: bool, try_exec_found: bool) -> (r: Option<Entry>)
    ensures
        desktop_result_is(r, spec_desktop_scan(contents@), path@, show_paths, try_exec_found),
{
    let st = scan_desktop(contents);
    entry_from_scan(st, path, show_paths, try_exec_found)
}

/// The answer of a `TryExec` lookup fits the program's name: an empty name
/// is never found.
pub open spec fn lookup_consistent(f: DesktopFields, found: bool) -> bool {
    f.try_exec matches Some(p) && spec_program_lookup(p) == ProgramLookup::Never ==> !found
}

/// Reads the `[Desktop Entry]` group of a desktop file found at `path`:
/// hidden entries and those without `Name` or `Exec` yield nothing, nor do
/// those whose `TryExec` program is not available (an empty `TryExec` never
/// is).
pub fn parse_desktop_file(contents: &str, path: &str, show_paths: bool) -> (r: Option<Entry>)
    ensures
        exists|found: bool|
            lookup_consistent(spec_desktop_scan(contents@), found) && desktop_result_is(
                r,
                spec_desktop_scan(contents@),
                path@,
                show_paths,
                found,
            ),
        spec_desktop_scan(contents@).try_exec is None ==> desktop_result_is(
            r,
            spec_desktop_scan(contents@),
            path@,
            show_paths,
            true,
        ),
        spec_desktop_scan(contents@).try_exec matches Some(p) && spec_program_lookup(p)
            == ProgramLookup::Never ==> r is None,
{
    let st = scan_desktop(contents);
    let found = match &st.try_exec {
        Some(program) => if st.hidden || st.no_display || st.name.is_none() || st.exec_line.is_none() {
            false
        } else {
            binary_in_path(program.as_str())
        },
        None => true,
    };
    assert(lookup_consistent(spec_desktop_scan(contents@), found));
    entry_from_scan(st, path, show_paths, found)
}

/// Whether the `[Desktop Entry]` group of a desktop file says `Hidden`.
pub fn desktop_hidden(contents: &str) -> (r: bool)
    ensures
        r == spec_desktop_scan(contents@).hidden,
{
    let st = scan_desktop(contents);
    st.hidden
}


// ---------------------------------------------------------------------------
// Collecting desktop entries
// ---------------------------------------------------------------------------

/// Whether some entry of `es` has the id `id`.
pub open spec fn has_id(es: Seq<Entry>, id: Seq<char>) -> bool {
    exists|k: int| 0 <= k < es.len() && (#[trigger] es[k]).id@ == id
}

/// Whether file `f`, which yields `r`, claims its desktop id: it yields an
/// entry, or it is hidden, which masks the id for the files after it.
pub open spec fn claims_id(f: DesktopFile, r: Option<Entry>) -> bool {
    r is Some || spec_desktop_scan(f.contents@).hidden
}

/// Whether one of the first `n` files claims the id `id`.
pub open spec fn claimed_before(
    files: Seq<DesktopFile>,
    parsed: Seq<Option<Entry>>,
    n: int,
    id: Seq<char>,
) -> bool {
    exists|k: int|
        0 <= k < n && claims_id(files[k], #[trigger] parsed[k]) && spec_desktop_id(files[k].path@)
            == id
}

/// The entries in file order, keeping an entry only when no earlier file
/// claims its id.
pub open spec fn first_by_id(files: Seq<DesktopFile>, parsed: Seq<Option<Entry>>) -> Seq<Entry>
    decreases parsed.len(),
{
    if parsed.len() == 0 {
        Seq::empty()
    } else {
        let prev = first_by_id(files, parsed.drop_last());
        match parsed.last() {
            Some(e) => if claimed_before(files, parsed, parsed.len() - 1, e.id@) {
                prev
            } else {
                prev.push(e)
            },
            None => prev,
        }
    }
}

proof fn lemma_claimed_prefix(
    files: Seq<DesktopFile>,
    p: Seq<Option<Entry>>,
    q: Seq<Option<Entry>>,
    n: int,
    id: Seq<char>,
)
    requires
        0 <= n <= p.len(),
        n <= q.len(),
        forall|k: int| 0 <= k < n ==> p[k] == q[k],
    ensures
        claimed_before(files, p, n, id) == claimed_before(files, q, n, id),
{
    if claimed_before(files, p, n, id) {
        let k = choose|k: int|
            0 <= k < n && claims_id(files[k], #[trigger] p[k]) && spec_desktop_id(files[k].path@)
                == id;
        assert(q[k] == p[k]);
    }
    if claimed_before(files, q, n, id) {
        let k = choose|k: int|
            0 <= k < n && claims_id(files[k], #[trigger] q[k]) && spec_desktop_id(files[k].path@)
                == id;
        assert(q[k] == p[k]);
    }
}

/// Each file's entry, if any, has the file's desktop id.
pub open spec fn ids_from_paths(files: Seq<DesktopFile>, parsed: Seq<Option<Entry>>) -> bool {
    &&& parsed.len() <= files.len()
    &&& forall|k: int|
        0 <= k < parsed.len() ==> (#[trigger] parsed[k] matches Some(e) ==> e.id@
            == spec_desktop_id(files[k].path@))
}

/// Of the parsed entries only those whose id no earlier file claims are
/// kept: the kept entries have distinct ids; each is the entry of a file
/// before which nothing claims its id; and every such entry is kept.
pub proof fn first_by_id_keeps_one_per_id(files: Seq<DesktopFile>, parsed: Seq<Option<Entry>>)
    requires
        ids_from_paths(files, parsed),
    ensures
        forall|i: int, j: int|
            0 <= i < j < first_by_id(files, parsed).len() ==> (#[trigger] first_by_id(
                files,
                parsed,
            )[i]).id@ != (#[trigger] first_by_id(files, parsed)[j]).id@,
        forall|i: int|
            0 <= i < first_by_id(files, parsed).len() ==> exists|j: int|
                0 <= j < parsed.len() && parsed[j] == Some(#[trigger] first_by_id(files, parsed)[i])
                    && !claimed_before(files, parsed, j, first_by_id(files, parsed)[i].id@),
        forall|k: int|
            0 <= k < parsed.len() && (#[trigger] parsed[k]) is Some && !claimed_before(
                files,
                parsed,
                k,
                parsed[k]->0.id@,
            ) ==> has_id(first_by_id(files, parsed), parsed[k]->0.id@),
    decreases parsed.len(),
{
    if parsed.len() > 0 {
        let n = parsed.len() - 1;
        let front = parsed.drop_last();
        let prev = first_by_id(files, front);
        let all = first_by_id(files, parsed);
        assert forall|k: int| 0 <= k < front.len() implies (#[trigger] front[k] matches Some(e)
            ==> e.id@ == spec_desktop_id(files[k].path@)) by {
            assert(front[k] == parsed[k]);
        }
        first_by_id_keeps_one_per_id(files, front);
        assert forall|j: int, id: Seq<char>|
            #![trigger claimed_before(files, parsed, j, id)]
            0 <= j <= n implies claimed_before(files, front, j, id) == claimed_before(
                files,
                parsed,
                j,
                id,
            ) by {
            lemma_claimed_prefix(files, front, parsed, j, id);
        }
        // Where each kept entry comes from.
        assert forall|i: int| 0 <= i < all.len() implies exists|j: int|
            0 <= j < parsed.len() && parsed[j] == Some(#[trigger] all[i]) && !claimed_before(
                files,
                parsed,
                j,
                all[i].id@,
            ) by {
            if i < prev.len() {
                assert(all[i] == prev[i]);
                let j = choose|j: int|
                    0 <= j < front.len() && front[j] == Some(prev[i]) && !claimed_before(
                        files,
                        front,
                        j,
                        prev[i].id@,
                    );
                assert(parsed[j] == front[j]);
                assert(claimed_before(files, front, j, prev[i].id@) == claimed_before(
                    files,
                    parsed,
                    j,
                    prev[i].id@,
                ));
            } else {
                assert(parsed[n] == Some(all[i]));
            }
        }
        // Distinct ids.
        assert forall|i: int, j: int| 0 <= i < j < all.len() implies (#[trigger] all[i]).id@
            != (#[trigger] all[j]).id@ by {
            if j < prev.len() {
                assert(all[i] == prev[i] && all[j] == prev[j]);
            } else {
                assert(all[i] == prev[i]);
                let e = parsed[n]->0;
                assert(all[j] == e);
                assert(!claimed_before(files, parsed, n, e.id@));
                let k = choose|k: int|
                    0 <= k < front.len() && front[k] == Some(prev[i]) && !claimed_before(
                        files,
                        front,
                        k,
                        prev[i].id@,
                    );
                assert(parsed[k] == front[k]);
                assert(claims_id(files[k], parsed[k]));
                assert(spec_desktop_id(files[k].path@) == prev[i].id@);
                if prev[i].id@ == e.id@ {
                    assert(claimed_before(files, parsed, n, e.id@));
                }
            }
        }
        // Every unclaimed entry is kept.
        assert forall|k: int|
            0 <= k < parsed.len() && (#[trigger] parsed[k]) is Some && !claimed_before(
                files,
                parsed,
                k,
                parsed[k]->0.id@,
            ) implies has_id(all, parsed[k]->0.id@) by {
            if k < n {
                assert(front[k] == parsed[k]);
                assert(claimed_before(files, front, k, parsed[k]->0.id@) == claimed_before(
                    files,
                    parsed,
                    k,
                    parsed[k]->0.id@,
                ));
                let m = choose|m: int| 0 <= m < prev.len() && (#[trigger] prev[m]).id@ == parsed[k]->0.id@;
                assert(all[m] == prev[m]);
            } else {
                assert(all[prev.len() as int] == parsed[k]->0);
            }
        }
    }
}

/// The sort keys of entries: their lowercased labels.
pub open spec fn label_keys(es: Seq<Entry>) -> Seq<(int, Seq<char>)> {
    es.map_values(|e: Entry| (0int, spec_to_lowercase(e.label@)))
}

/// `sorted` holds `es` ordered by lowercased label, equal labels in their
/// input order.
pub open spec fn is_label_sorted(es: Seq<Entry>, sorted: Seq<Entry>) -> bool {
    &&& sorted.len() == es.len()
    &&& exists|ord: Seq<usize>|
        #![trigger is_stable_order(label_keys(es), ord)]
        is_stable_order(label_keys(es), ord) && forall|j: int|
            0 <= j < sorted.len() ==> #[trigger] sorted[j] == es[ord[j] as int]
}

/// The loaded desktop entries have distinct ids.
pub proof fn loaded_ids_are_distinct(files: Seq<DesktopFile>, parsed: Seq<Option<Entry>>, sorted: Seq<Entry>)
    requires
        ids_from_paths(files, parsed),
        is_label_sorted(first_by_id(files, parsed), sorted),
    ensures
        forall|i: int, j: int|
            0 <= i < j < sorted.len() ==> (#[trigger] sorted[i]).id@ != (#[trigger] sorted[j]).id@,
{
    let es = first_by_id(files, parsed);
    first_by_id_keeps_one_per_id(files, parsed);
    let keys = label_keys(es);
    let ord = choose|ord: Seq<usize>|
        #![trigger is_stable_order(keys, ord)]
        is_stable_order(keys, ord) && forall|j: int|
            0 <= j < sorted.len() ==> #[trigger] sorted[j] == es[ord[j] as int];
    assert forall|i: int, j: int| 0 <= i < j < sorted.len() implies (#[trigger] sorted[i]).id@
        != (#[trigger] sorted[j]).id@ by {
        let x = ord[i] as int;
        let y = ord[j] as int;
        assert(goes_before(keys[x], x, keys[y], y));
        if x == y {
            lemma_text_lt_irreflexive(keys[x].1);
        }
        assert(sorted[i] == es[x] && sorted[j] == es[y]);
        if x < y {
            assert(es[x].id@ != es[y].id@);
        } else {
            assert(es[y].id@ != es[x].id@);
        }
    }
}

/// A hidden desktop file masks the files after it with the same desktop
/// id: the kept entry with its id, if any, comes from an earlier file.
pub proof fn hidden_file_masks_later_files(
    files: Seq<DesktopFile>,
    parsed: Seq<Option<Entry>>,
    found: Seq<bool>,
    show_paths: bool,
)
    requires
        parsed_from(files, parsed, found, show_paths),
    ensures
        forall|k: int, i: int|
            0 <= k < files.len() && spec_desktop_scan(files[k].contents@).hidden && 0 <= i
                < first_by_id(files, parsed).len() && (#[trigger] first_by_id(files, parsed)[i]).id@
                == spec_desktop_id(#[trigger] files[k].path@) ==> exists|j: int|
                0 <= j < k && parsed[j] == Some(first_by_id(files, parsed)[i]),
{
    lemma_parsed_ids(files, parsed, found, show_paths);
    first_by_id_keeps_one_per_id(files, parsed);
    let all = first_by_id(files, parsed);
    assert forall|k: int, i: int|
        0 <= k < files.len() && spec_desktop_scan(files[k].contents@).hidden && 0 <= i < all.len()
            && (#[trigger] all[i]).id@ == spec_desktop_id(#[trigger] files[k].path@) implies exists|j: int|
        0 <= j < k && parsed[j] == Some(all[i]) by {
        let j = choose|j: int|
            0 <= j < parsed.len() && parsed[j] == Some(all[i]) && !claimed_before(
                files,
                parsed,
                j,
                all[i].id@,
            );
        assert(desktop_result_is(
            parsed[k],
            spec_desktop_scan(files[k].contents@),
            files[k].path@,
            show_paths,
            found[k],
        ));
        assert(parsed[k] is None);
        if j > k {
            assert(claims_id(files[k], parsed[k]));
            assert(claimed_before(files, parsed, j, all[i].id@));
        }
        assert(j != k);
    }
}

/// Orders entries by lowercased label; equal labels keep their order.
pub fn sort_by_label(es: Vec<Entry>) -> (r: Vec<Entry>)
    ensures
        is_label_sorted(es@, r@),
{
    let mut keys: Vec<SortKey> = Vec::new();
    let mut k: usize = 0;
    while k < es.len()
        invariant
            k <= es@.len(),
            keys@.len() == k,
            forall|j: int| 0 <= j < k ==> #[trigger] key_view(keys@[j]) == label_keys(es@)[j],
        decreases es@.len() - k,
    {
        let lower = to_lowercase(es[k].label.as_str());
        keys.push(SortKey { rank: 0, text: chars_of(lower.as_str()) });
        k = k + 1;
    }
    let order = stable_order(&keys);
    assert(keys@.map_values(|k: SortKey| key_view(k)) =~= label_keys(es@));
    let mut r: Vec<Entry> = Vec::new();
    let mut j: usize = 0;
    while j < order.len()
        invariant
            j <= order@.len(),
            is_stable_order(label_keys(es@), order@),
            r@.len() == j,
            forall|b: int| 0 <= b < j ==> #[trigger] r@[b] == es@[order@[b] as int],
        decreases order@.len() - j,
    {
        r.push(es[order[j]].clone());
        j = j + 1;
    }
    r
}

/// `parsed` holds what each file yields, where `found` tells for each
/// whether its `TryExec` program was found (an empty name never is).
pub open spec fn parsed_from(
    files: Seq<DesktopFile>,
    parsed: Seq<Option<Entry>>,
    found: Seq<bool>,
    show_paths: bool,
) -> bool {
    &&& parsed.len() == files.len()
    &&& found.len() == files.len()
    &&& forall|i: int|
        0 <= i < files.len() ==> desktop_result_is(
            #[trigger] parsed[i],
            spec_desktop_scan(files[i].contents@),
            files[i].path@,
            show_paths,
            found[i],
        ) && lookup_consistent(spec_desktop_scan(files[i].contents@), found[i])
}

proof fn lemma_parsed_ids(
    files: Seq<DesktopFile>,
    parsed: Seq<Option<Entry>>,
    found: Seq<bool>,
    show_paths: bool,
)
    requires
        parsed_from(files, parsed, found, show_paths),
    ensures
        ids_from_paths(files, parsed),
{
    assert forall|k: int| 0 <= k < parsed.len() implies (#[trigger] parsed[k] matches Some(e)
        ==> e.id@ == spec_desktop_id(files[k].path@)) by {
        assert(desktop_result_is(
            parsed[k],
            spec_desktop_scan(files[k].contents@),
            files[k].path@,
            show_paths,
            found[k],
        ));
    }
}

/// A desktop file: its path as text and its contents.
pub struct DesktopFile {
    pub path: String,
    pub contents: String,
}

fn contains_text(v: &Vec<String>, t: &String) -> (r: bool)
    ensures
        r == exists|k: int| 0 <= k < v@.len() && (#[trigger] v@[k])@ == t@,
{
    let tc = chars_of(t.as_str());
    let mut k: usize = 0;
    while k < v.len()
        invariant
            k <= v@.len(),
            tc@ == t@,
            forall|j: int| 0 <= j < k ==> (#[trigger] v@[j])@ != t@,
        decreases v@.len() - k,
    {
        let c = chars_of(v[k].as_str());
        if chars_eq(&c, &tc) {
            return true;
        }
        k = k + 1;
    }
    false
}

/// The launcher entries of the given desktop files, which are listed in the
/// order in which the application directories were walked: each file is
/// parsed; an entry is kept only when no earlier file yielded an entry with
/// its id or was hidden with it; the entries are ordered by lowercased
/// label.
pub fn load_desktop_entries(files: &Vec<DesktopFile>, show_paths: bool) -> (r: Vec<Entry>)
    ensures
        exists|parsed: Seq<Option<Entry>>, found: Seq<bool>|
            #![trigger parsed_from(files@, parsed, found, show_paths)]
            parsed_from(files@, parsed, found, show_paths) && is_label_sorted(
                first_by_id(files@, parsed),
                r@,
            ),
{
    let mut kept: Vec<Entry> = Vec::new();
    let mut claimed: Vec<String> = Vec::new();
    let ghost mut parsed: Seq<Option<Entry>> = Seq::empty();
    let ghost mut founds: Seq<bool> = Seq::empty();
    let mut i: usize = 0;
    while i < files.len()
        invariant
            i <= files@.len(),
            parsed.len() == i,
            founds.len() == i,
            forall|k: int|
                0 <= k < i ==> desktop_result_is(
                    #[trigger] parsed[k],
                    spec_desktop_scan(files@[k].contents@),
                    files@[k].path@,
                    show_paths,
                    founds[k],
                ) && lookup_consistent(spec_desktop_scan(files@[k].contents@), founds[k]),
            forall|id: Seq<char>|
                #![trigger claimed_before(files@, parsed, i as int, id)]
                (exists|k: int| 0 <= k < claimed@.len() && (#[trigger] claimed@[k])@ == id)
                    <==> claimed_before(files@, parsed, i as int, id),
            kept@ == first_by_id(files@, parsed),
        decreases files@.len() - i,
    {
        let file = &files[i];
        let r = parse_desktop_file(file.contents.as_str(), file.path.as_str(), show_paths);
        let hidden = desktop_hidden(file.contents.as_str());
        let ghost before = parsed;
        let ghost fbefore = founds;
        let ghost cbefore = claimed@;
        proof {
            let found = choose|found: bool|
                lookup_consistent(spec_desktop_scan(file.contents@), found) && desktop_result_is(
                    r,
                    spec_desktop_scan(file.contents@),
                    file.path@,
                    show_paths,
                    found,
                );
            parsed = parsed.push(r);
            founds = founds.push(found);
            assert(parsed.drop_last() == before);
            assert forall|k: int|
                0 <= k < i + 1 implies desktop_result_is(
                    #[trigger] parsed[k],
                    spec_desktop_scan(files@[k].contents@),
                    files@[k].path@,
                    show_paths,
                    founds[k],
                ) && lookup_consistent(spec_desktop_scan(files@[k].contents@), founds[k]) by {
                if k < i {
                    assert(parsed[k] == before[k]);
                    assert(founds[k] == fbefore[k]);
                }
            }
            assert forall|id: Seq<char>|
                #![trigger claimed_before(files@, parsed, i as int, id)]
                claimed_before(files@, before, i as int, id) == claimed_before(
                    files@,
                    parsed,
                    i as int,
                    id,
                ) by {
                lemma_claimed_prefix(files@, before, parsed, i as int, id);
            }
        }
        let claims = r.is_some() || hidden;
        match r {
            Some(e) => {
                if !contains_text(&claimed, &e.id) {
                    kept.push(e);
                }
            },
            None => {},
        }
        if claims {
            claimed.push(desktop_id(file.path.as_str()));
        }
        proof {
            assert forall|id: Seq<char>|
                #![trigger claimed_before(files@, parsed, i + 1, id)]
                (exists|k: int| 0 <= k < claimed@.len() && (#[trigger] claimed@[k])@ == id)
                    <==> claimed_before(files@, parsed, i + 1, id) by {
                if exists|k: int| 0 <= k < claimed@.len() && (#[trigger] claimed@[k])@ == id {
                    let k = choose|k: int| 0 <= k < claimed@.len() && (#[trigger] claimed@[k])@ == id;
                    if k < cbefore.len() {
                        assert(cbefore[k] == claimed@[k]);
                        assert(claimed_before(files@, parsed, i as int, id));
                        let m = choose|m: int|
                            0 <= m < i && claims_id(files@[m], #[trigger] parsed[m])
                                && spec_desktop_id(files@[m].path@) == id;
                        assert(claimed_before(files@, parsed, i + 1, id));
                    } else {
                        assert(claims_id(files@[i as int], parsed[i as int]));
                        assert(claimed_before(files@, parsed, i + 1, id));
                    }
                }
                if claimed_before(files@, parsed, i + 1, id) {
                    let m = choose|m: int|
                        0 <= m < i + 1 && claims_id(files@[m], #[trigger] parsed[m])
                            && spec_desktop_id(files@[m].path@) == id;
                    if m < i {
                        assert(claimed_before(files@, parsed, i as int, id));
                        let k = choose|k: int| 0 <= k < cbefore.len() && (#[trigger] cbefore[k])@ == id;
                        assert(claimed@[k] == cbefore[k]);
                    } else {
                        assert(claimed@[cbefore.len() as int]@ == id);
                    }
                }
            }
        }
        i = i + 1;
    }
    let sorted = sort_by_label(kept);
    proof {
        assert(parsed_from(files@, parsed, founds, show_paths));
        assert(is_label_sorted(first_by_id(files@, parsed), sorted@));
    }
    sorted
}


// ---------------------------------------------------------------------------
// Application directories
// ---------------------------------------------------------------------------

/// `Path::join` with a relative path: a `/` is put between the two unless
/// the base is empty or already ends with one.
pub open spec fn join_path(base: Seq<char>, rel: Seq<char>) -> Seq<char> {
    if base.len() > 0 && base.last() != '/' {
        base + seq!['/'] + rel
    } else {
        base + rel
    }
}

/// Each non-empty piece joined with `rel`.
pub open spec fn joined_dirs(ps: Seq<Seq<char>>, rel: Seq<char>) -> Seq<Seq<char>>
    decreases ps.len(),
{
    if ps.len() == 0 {
        Seq::empty()
    } else {
        let prev = joined_dirs(ps.drop_last(), rel);
        if ps.last().len() > 0 {
            prev.push(join_path(ps.last(), rel))
        } else {
            prev
        }
    }
}

/// The directories searched for desktop files, given `$HOME`,
/// `$XDG_DATA_HOME` and `$XDG_DATA_DIRS` (each `None` when unset): the
/// user's `.local/share/applications`, `$XDG_DATA_HOME/applications`, and
/// `applications` under each entry of `$XDG_DATA_DIRS`, or under
/// `/usr/local/share` and `/usr/share` when that variable is unset.
pub open spec fn spec_application_dirs(
    home: Option<Seq<char>>,
    data_home: Option<Seq<char>>,
    data_dirs: Option<Seq<char>>,
) -> Seq<Seq<char>> {
    let a: Seq<Seq<char>> = match home {
        Some(h) => seq![join_path(h, ".local/share/applications"@)],
        None => Seq::empty(),
    };
    let b = match data_home {
        Some(d) => a.push(join_path(d, "applications"@)),
        None => a,
    };
    match data_dirs {
        Some(dd) => b + joined_dirs(split_on(dd, ':'), "applications"@),
        None => b.push("/usr/local/share/applications"@).push("/usr/share/applications"@),
    }
}

fn join_path_exec(base: &[char], rel: &str) -> (r: String)
    ensures
        r@ == join_path(base@, rel@),
{
    let mut r = string_of(base);
    if base.len() > 0 && base[base.len() - 1] != '/' {
        push_char(&mut r, '/');
    }
    push_str(&mut r, rel);
    r
}

/// The directories searched for desktop files.
pub fn application_dirs(home: Option<&str>, data_home: Option<&str>, data_dirs: Option<&str>) -> (r: Vec<String>)
    ensures
        views(r@) == spec_application_dirs(opt_text(home), opt_text(data_home), opt_text(data_dirs)),
{
    let mut dirs: Vec<String> = Vec::new();
    match home {
        Some(h) => {
            let hc = chars_of(h);
            dirs.push(join_path_exec(&hc, ".local/share/applications"));
            assert(views(dirs@) =~= seq![join_path(h@, ".local/share/applications"@)]);
        },
        None => {
            assert(views(dirs@) =~= Seq::<Seq<char>>::empty());
        },
    }
    match data_home {
        Some(d) => {
            let dc = chars_of(d);
            let ghost before = dirs@;
            dirs.push(join_path_exec(&dc, "applications"));
            assert(views(dirs@) =~= views(before).push(join_path(d@, "applications"@)));
        },
        None => {},
    }
    match data_dirs {
        Some(dd) => {
            let ddc = chars_of(dd);
            let ps = split_chars(&ddc, ':');
            let ghost sp = split_on(dd@, ':');
            let ghost b = views(dirs@);
            let mut i: usize = 0;
            while i < ps.len()
                invariant
                    i <= ps@.len(),
                    sp == split_on(dd@, ':'),
                    ps@.len() == sp.len(),
                    forall|k: int| 0 <= k < ps@.len() ==> #[trigger] ps@[k]@ == sp[k],
                    views(dirs@) == b + joined_dirs(sp.take(i as int), "applications"@),
                decreases ps@.len() - i,
            {
                assert(sp.take(i + 1).drop_last() == sp.take(i as int));
                assert(sp.take(i + 1).last() == ps@[i as int]@);
                if ps[i].len() > 0 {
                    let ghost before = dirs@;
                    dirs.push(join_path_exec(&ps[i], "applications"));
                    assert(views(dirs@) =~= views(before).push(join_path(ps@[i as int]@, "applications"@)));
                }
                i = i + 1;
            }
            assert(sp.take(ps@.len() as int) == sp);
        },
        None => {
            let ghost before = dirs@;
            dirs.push(owned("/usr/local/share/applications"));
            dirs.push(owned("/usr/share/applications"));
            assert(views(dirs@) =~= views(before).push("/usr/local/share/applications"@).push(
                "/usr/share/applications"@,
            ));
        },
    }
    dirs
}

// ---------------------------------------------------------------------------
// dmenu input
// ---------------------------------------------------------------------------

/// How dmenu input is read and shown.
#[derive(Debug)]
pub struct DmenuOptions {
    pub delimiter: char,
    pub show_paths: bool,
    pub with_nth: Option<String>,
    pub match_nth: Option<String>,
    pub nth_delimiter: char,
}

/// The records of dmenu input: NUL-separated when the delimiter is NUL,
/// lines otherwise.
pub open spec fn dmenu_chunks(input: Seq<char>, delimiter: char) -> Seq<Seq<char>> {
    if delimiter == '\0' {
        split_on(input, '\0')
    } else {
        lines(input)
    }
}

/// A record without trailing newlines, then without trailing carriage
/// returns.
pub open spec fn dmenu_raw(chunk: Seq<char>) -> Seq<char> {
    trim_end_char(trim_end_char(chunk, '\n'), '\r')
}

/// The non-empty records with their positions among all records.
pub open spec fn dmenu_items(chunks: Seq<Seq<char>>) -> Seq<(int, Seq<char>)>
    decreases chunks.len(),
{
    if chunks.len() == 0 {
        Seq::empty()
    } else {
        let prev = dmenu_items(chunks.drop_last());
        let raw = dmenu_raw(chunks.last());
        if raw.len() > 0 {
            prev.push((chunks.len() - 1, raw))
        } else {
            prev
        }
    }
}

/// `e` is the entry for record `raw` at position `idx`: shown through
/// `--with-nth`, matched through `--match-nth` (or what is shown), with id
/// `stdin:<idx>`.
pub open spec fn is_dmenu_entry(e: Entry, idx: int, raw: Seq<char>, opts: DmenuOptions) -> bool {
    let display = match spec_apply_nth(raw, opt_string(opts.with_nth), opts.nth_delimiter) {
        Some(d) => d,
        None => raw,
    };
    let matched = match spec_apply_nth(raw, opt_string(opts.match_nth), opts.nth_delimiter) {
        Some(m) => m,
        None => display,
    };
    let lower = spec_to_lowercase(matched);
    &&& e.id@ == "stdin:"@ + decimal(idx as nat)
    &&& e.index == idx
    &&& e.label@ == display
    &&& e.raw_text@ == raw
    &&& e.icon_name is None
    &&& e.icon is None
    &&& e.exec_line is None
    &&& e.path is None
    &&& !e.terminal
    &&& e.working_dir is None
    &&& e.search.name@ == lower
    &&& e.search.combined@ == (if opts.show_paths {
        lower + " stdin"@
    } else {
        lower
    })
    &&& e.search.filename@ == Seq::<char>::empty()
    &&& e.search.generic@ == Seq::<char>::empty()
    &&& e.search.exec_line@ == Seq::<char>::empty()
    &&& e.search.keywords@ == Seq::<char>::empty()
    &&& e.search.categories@ == Seq::<char>::empty()
    &&& e.search.comment@ == Seq::<char>::empty()
    &&& e.source == EntrySource::Dmenu
}

/// In dmenu mode `--match-nth` decides what a record is searched by, and
/// `--with-nth` what is shown: when `--match-nth` selects columns, the
/// search name is their lowercased text, whatever is shown; when
/// `--with-nth` selects columns, the label is their text.
pub proof fn match_nth_decides_search_text(
    e: Entry,
    idx: int,
    raw: Seq<char>,
    opts: DmenuOptions,
    selected: Seq<char>,
)
    requires
        is_dmenu_entry(e, idx, raw, opts),
    ensures
        spec_apply_nth(raw, opt_string(opts.match_nth), opts.nth_delimiter) == Some(selected)
            ==> e.search.name@ == spec_to_lowercase(selected),
        spec_apply_nth(raw, opt_string(opts.with_nth), opts.nth_delimiter) == Some(selected)
            ==> e.label@ == selected,
        spec_apply_nth(raw, opt_string(opts.with_nth), opts.nth_delimiter) is None ==> e.label@
            == raw,
        e.raw_text@ == raw,
{
}

fn opt_as_str(o: &Option<String>) -> (r: Option<&str>)
    ensures
        opt_text(r) == opt_string(*o),
{
    match o {
        Some(s) => Some(s.as_str()),
        None => None,
    }
}

fn dmenu_entry(idx: usize, raw: &Vec<char>, options: &DmenuOptions) -> (e: Entry)
    ensures
        is_dmenu_entry(e, idx as int, raw@, *options),
{
    let raw_text = string_of(raw);
    let display = match apply_nth_transform(raw_text.as_str(), opt_as_str(&options.with_nth), options.nth_delimiter) {
        Some(d) => d,
        None => raw_text.clone(),
    };
    let matched = match apply_nth_transform(raw_text.as_str(), opt_as_str(&options.match_nth), options.nth_delimiter) {
        Some(m) => m,
        None => display.clone(),
    };
    let name = to_lowercase(matched.as_str());
    let combined = if options.show_paths {
        let mut c = to_lowercase(matched.as_str());
        push_str(&mut c, " stdin");
        c
    } else {
        to_lowercase(matched.as_str())
    };
    let mut id = owned("stdin:");
    push_decimal(&mut id, idx as u64);
    let mut search = SearchData::default();
    search.name = name;
    search.combined = combined;
    Entry {
        id,
        index: idx,
        label: display,
        raw_text,
        icon_name: None,
        icon: None,
        exec_line: None,
        path: None,
        terminal: false,
        working_dir: None,
        search,
        source: EntrySource::Dmenu,
    }
}

/// The entries of dmenu input: one per non-empty record, in input order.
pub fn load_dmenu_entries(input: &str, options: &DmenuOptions) -> (r: Vec<Entry>)
    ensures
        r@.len() == dmenu_items(dmenu_chunks(input@, options.delimiter)).len(),
        forall|j: int|
            0 <= j < r@.len() ==> {
                let it = dmenu_items(dmenu_chunks(input@, options.delimiter))[j];
                is_dmenu_entry(#[trigger] r@[j], it.0, it.1, *options)
            },
{
    let ic = chars_of(input);
    let chunks = if options.delimiter == '\0' {
        split_chars(&ic, '\0')
    } else {
        lines_chars(&ic)
    };
    let ghost cv = dmenu_chunks(input@, options.delimiter);
    let mut r: Vec<Entry> = Vec::new();
    let mut i: usize = 0;
    while i < chunks.len()
        invariant
            i <= chunks@.len(),
            cv == dmenu_chunks(input@, options.delimiter),
            chunks@.len() == cv.len(),
            forall|k: int| 0 <= k < chunks@.len() ==> #[trigger] chunks@[k]@ == cv[k],
            r@.len() == dmenu_items(cv.take(i as int)).len(),
            forall|j: int|
                0 <= j < r@.len() ==> {
                    let it = dmenu_items(cv.take(i as int))[j];
                    is_dmenu_entry(#[trigger] r@[j], it.0, it.1, *options)
                },
        decreases chunks@.len() - i,
    {
        assert(cv.take(i + 1).drop_last() == cv.take(i as int));
        assert(cv.take(i + 1).last() == chunks@[i as int]@);
        let raw = trim_end_char_chars(&trim_end_char_chars(&chunks[i], '\n'), '\r');
        if raw.len() > 0 {
            let e = dmenu_entry(i, &raw, options);
            r.push(e);
        }
        i = i + 1;
    }
    assert(cv.take(chunks@.len() as int) == cv);
    r
}

} // verus!
