//! Launcher settings and the parsers for their textual values.
use crate::text::{
    byte_len, chars_eq_str, chars_of, decimal, digit_value, digits_value, join,
    lemma_split_on_join, lemma_trim_unchanged, owned, parse_unsigned, parse_unsigned_chars,
    push_decimal, push_str, split_chars, split_on, string_of, trim, trim_chars, trim_start_char,
    utf8_len,
};
use vstd::prelude::*;

verus! {

/// The launcher's settings.  The icon scale ratio, a floating-point value,
/// is held by the application beside this record.
#[derive(Debug)]
pub struct Config {
    pub prompt: String,
    pub hide_prompt: bool,
    pub placeholder: String,
    pub message: String,
    pub minimal_lines: bool,
    pub lines: usize,
    pub width: u32,
    pub window_x: i32,
    pub window_y: i32,
    pub font: String,
    pub icon_theme: String,
    pub icons_enabled: bool,
    pub horizontal_pad: u32,
    pub vertical_pad: u32,
    pub inner_pad: u32,
    pub line_height: Option<u32>,
    pub show_paths: bool,
    pub hide_before_typing: bool,
    pub auto_select: bool,
    pub match_counter: bool,
    pub password_character: String,
    pub fields: Vec<MatchField>,
    pub match_mode: MatchMode,
    pub terminal_command: String,
    pub colors: Colors,
    pub border: BorderConfig,
}

/// Colors as `0x00RRGGBB`.
#[derive(Clone, Copy, Debug)]
pub struct Colors {
    pub background: u32,
    pub text: u32,
    pub message: u32,
    pub prompt: u32,
    pub placeholder: u32,
    pub input: u32,
    pub matched_text: u32,
    pub selection_background: u32,
    pub selection_text: u32,
    pub selection_match: u32,
    pub counter: u32,
    pub border: u32,
}

/// Window border width and corner radius, in pixels.
#[derive(Clone, Copy, Debug)]
pub struct BorderConfig {
    pub width: u32,
    pub radius: u32,
}

/// A searchable field of an entry.
#[derive(Clone, Copy, Debug, PartialEq, Eq, Structural)]
pub enum MatchField {
    Filename,
    Name,
    Generic,
    Exec,
    Keywords,
    Categories,
    Comment,
}

/// How a query token is matched against a field.
#[derive(Clone, Copy, Debug, PartialEq, Eq, Structural)]
pub enum MatchMode {
    Exact,
    Fzf,
}

impl Default for Colors {
    /// The Solarized-light palette.
    fn default() -> (r: Colors)
        ensures
            r.background == 0x00fdf6e3,
            r.text == 0x00657b83,
            r.message == 0x00657b83,
            r.prompt == 0x00586e75,
            r.placeholder == 0x0093a1a1,
            r.input == 0x00657b83,
            r.matched_text == 0x00cb4b16,
            r.selection_background == 0x00eee8d5,
            r.selection_text == 0x00586e75,
            r.selection_match == 0x00cb4b16,
            r.counter == 0x0093a1a1,
            r.border == 0x00002b36,
    {
        Colors {
            background: 0x00fdf6e3,
            text: 0x00657b83,
            message: 0x00657b83,
            prompt: 0x00586e75,
            placeholder: 0x0093a1a1,
            input: 0x00657b83,
            matched_text: 0x00cb4b16,
            selection_background: 0x00eee8d5,
            selection_text: 0x00586e75,
            selection_match: 0x00cb4b16,
            counter: 0x0093a1a1,
            border: 0x00002b36,
        }
    }
}

impl Default for BorderConfig {
    /// A one-pixel border with ten-pixel corners.
    fn default() -> (r: BorderConfig)
        ensures
            r.width == 1,
            r.radius == 10,
    {
        BorderConfig { width: 1, radius: 10 }
    }
}

impl Default for Config {
    /// The built-in settings used when no configuration file is read.
    fn default() -> (r: Config)
        ensures
            r.prompt@ == "> "@,
            !r.hide_prompt,
            r.placeholder@ == Seq::<char>::empty(),
            r.message@ == Seq::<char>::empty(),
            !r.minimal_lines,
            r.lines == 15,
            r.width == 30,
            r.window_x == -1,
            r.window_y == -1,
            r.font@ == "monospace"@,
            r.icon_theme@ == "default"@,
            r.icons_enabled,
            r.horizontal_pad == 40,
            r.vertical_pad == 8,
            r.inner_pad == 0,
            r.line_height is None,
            !r.show_paths,
            !r.hide_before_typing,
            !r.auto_select,
            !r.match_counter,
            r.password_character@ == "*"@,
            r.fields@ == seq![MatchField::Filename, MatchField::Name, MatchField::Generic],
            r.match_mode == MatchMode::Fzf,
            r.terminal_command@ == "xterm -e {cmd}"@,
            r.colors.background == 0x00fdf6e3,
            r.colors.text == 0x00657b83,
            r.colors.message == 0x00657b83,
            r.colors.prompt == 0x00586e75,
            r.colors.placeholder == 0x0093a1a1,
            r.colors.input == 0x00657b83,
            r.colors.matched_text == 0x00cb4b16,
            r.colors.selection_background == 0x00eee8d5,
            r.colors.selection_text == 0x00586e75,
            r.colors.selection_match == 0x00cb4b16,
            r.colors.counter == 0x0093a1a1,
            r.colors.border == 0x00002b36,
            r.border.width == 1,
            r.border.radius == 10,
    {
        Config {
            prompt: owned("> "),
            hide_prompt: false,
            placeholder: String::new(),
            message: String::new(),
            minimal_lines: false,
            lines: 15,
            width: 30,
            window_x: -1,
            window_y: -1,
            font: owned("monospace"),
            icon_theme: owned("default"),
            icons_enabled: true,
            horizontal_pad: 40,
            vertical_pad: 8,
            inner_pad: 0,
            line_height: None,
            show_paths: false,
            hide_before_typing: false,
            auto_select: false,
            match_counter: false,
            password_character: owned("*"),
            fields: vec![MatchField::Filename, MatchField::Name, MatchField::Generic],
            match_mode: MatchMode::Fzf,
            terminal_command: owned("xterm -e {cmd}"),
            colors: Colors::default(),
            border: BorderConfig::default(),
        }
    }
}


// ---------------------------------------------------------------------------
// Colors
// ---------------------------------------------------------------------------

/// The message of a color of the wrong length.
pub open spec fn color_length_error(len: nat) -> Seq<char> {
    "expected 6 or 8 hex digits for color, got "@ + decimal(len)
}

/// What `u32::from_str_radix(hex, 16)` reports for text that is not a hex
/// number.
pub open spec fn invalid_digit_error() -> Seq<char> {
    "invalid digit found in string"@
}

/// A hex color: 6 digits are `RRGGBB`; 8 digits are `RRGGBBAA`, whose
/// alpha is dropped.  The length is counted in bytes.
pub open spec fn spec_parse_hex_color(hex: Seq<char>) -> Result<u32, Seq<char>> {
    let len = utf8_len(hex);
    if len == 6 || len == 8 {
        match parse_unsigned(hex, 16, u32::MAX as nat) {
            Some(v) => Ok(
                if len == 6 {
                    v as u32
                } else {
                    (v / 256) as u32
                },
            ),
            None => Err(invalid_digit_error()),
        }
    } else {
        Err(color_length_error(len))
    }
}

/// `16` to the power `n`.
pub open spec fn pow16(n: nat) -> nat
    decreases n,
{
    if n == 0 {
        1
    } else {
        16 * pow16((n - 1) as nat)
    }
}

/// Whether every character of `s` is a hex digit.
pub open spec fn all_hex_digits(s: Seq<char>) -> bool {
    forall|i: int| 0 <= i < s.len() ==> (#[trigger] digit_value(s[i], 16)) is Some
}

proof fn lemma_hex_digits_value(s: Seq<char>)
    requires
        all_hex_digits(s),
    ensures
        digits_value(s, 16) is Some,
        digits_value(s, 16)->0 < pow16(s.len()),
        utf8_len(s) == s.len(),
    decreases s.len(),
{
    if s.len() > 0 {
        let front = s.drop_last();
        assert forall|i: int| 0 <= i < front.len() implies (#[trigger] digit_value(front[i], 16)) is Some by {
            assert(front[i] == s[i]);
            assert(digit_value(s[i], 16) is Some);
        }
        lemma_hex_digits_value(front);
        let rest = s.drop_first();
        assert forall|i: int| 0 <= i < rest.len() implies (#[trigger] digit_value(rest[i], 16)) is Some by {
            assert(rest[i] == s[i + 1]);
            assert(digit_value(s[i + 1], 16) is Some);
        }
        lemma_hex_digits_value(rest);
        assert(digit_value(s[0], 16) is Some);
        assert(digit_value(s[s.len() - 1], 16) is Some);
        let v = digits_value(front, 16)->0;
        let d = digit_value(s.last(), 16)->0;
        let p = pow16(front.len());
        assert(v * 16 + d < 16 * p) by (nonlinear_arith)
            requires
                v < p,
                d < 16,
        ;
    }
}

/// The alpha of an `RRGGBBAA` color is dropped: eight hex digits give the
/// color of their first six.
pub proof fn alpha_is_dropped(hex: Seq<char>)
    requires
        hex.len() == 8,
        all_hex_digits(hex),
    ensures
        spec_parse_hex_color(hex) == spec_parse_hex_color(hex.take(6)),
        spec_parse_hex_color(hex) is Ok,
{
    let s6 = hex.take(6);
    let s7 = hex.take(7);
    assert forall|i: int| 0 <= i < s6.len() implies (#[trigger] digit_value(s6[i], 16)) is Some by {
        assert(s6[i] == hex[i]);
        assert(digit_value(hex[i], 16) is Some);
    }
    assert forall|i: int| 0 <= i < s7.len() implies (#[trigger] digit_value(s7[i], 16)) is Some by {
        assert(s7[i] == hex[i]);
        assert(digit_value(hex[i], 16) is Some);
    }
    lemma_hex_digits_value(hex);
    lemma_hex_digits_value(s6);
    lemma_hex_digits_value(s7);
    assert(digit_value(hex[0], 16) is Some);
    assert(digit_value(hex[6], 16) is Some);
    assert(digit_value(hex[7], 16) is Some);
    assert(s6[0] == hex[0]);
    assert(pow16(0) == 1);
    assert(pow16(1) == 16);
    assert(pow16(2) == 256);
    assert(pow16(3) == 4096);
    assert(pow16(4) == 65536);
    assert(pow16(5) == 1048576);
    assert(pow16(6) == 16777216);
    assert(pow16(7) == 268435456);
    assert(pow16(8) == 4294967296);
    assert(s7.drop_last() == s6);
    assert(hex.drop_last() == s7);
    let v6 = digits_value(s6, 16)->0;
    let d6 = digit_value(hex[6], 16)->0;
    let d7 = digit_value(hex[7], 16)->0;
    assert(digits_value(s7, 16)->0 == v6 * 16 + d6);
    assert(digits_value(hex, 16)->0 == (v6 * 16 + d6) * 16 + d7);
    assert(((v6 * 16 + d6) * 16 + d7) / 256 == v6) by (nonlinear_arith)
        requires
            d6 < 16,
            d7 < 16,
            v6 >= 0,
            d6 >= 0,
            d7 >= 0,
    ;
}

/// Parses a hex color of 6 (`RRGGBB`) or 8 (`RRGGBBAA`) digits into
/// `0x00RRGGBB`.
pub fn parse_hex_color(hex: &str) -> (r: Result<u32, String>)
    ensures
        match (r, spec_parse_hex_color(hex@)) {
            (Ok(a), Ok(b)) => a == b,
            (Err(a), Err(b)) => a@ == b,
            _ => false,
        },
{
    let len = byte_len(hex);
    if len == 6 || len == 8 {
        let hc = chars_of(hex);
        match parse_unsigned_chars(&hc, 16, 0xffff_ffffu64) {
            Some(v) => {
                if len == 6 {
                    Ok(v as u32)
                } else {
                    assert(v >> 8u64 == v / 256) by (bit_vector);
                    Ok((v >> 8) as u32)
                }
            },
            None => Err(owned("invalid digit found in string")),
        }
    } else {
        let mut msg = owned("expected 6 or 8 hex digits for color, got ");
        push_decimal(&mut msg, len as u64);
        Err(msg)
    }
}

/// A color value as written in the configuration: trimmed, with leading
/// `#` characters removed.
pub open spec fn spec_parse_color_value(raw: Seq<char>) -> Result<u32, Seq<char>> {
    spec_parse_hex_color(trim_start_char(trim(raw), '#'))
}

/// Parses a color value from the configuration, such as `#112233`.
pub fn parse_color_value(raw: &str) -> (r: Result<u32, String>)
    ensures
        match (r, spec_parse_color_value(raw@)) {
            (Ok(a), Ok(b)) => a == b,
            (Err(a), Err(b)) => a@ == b,
            _ => false,
        },
{
    let rc = chars_of(raw);
    let t = trim_chars(&rc);
    let mut a: usize = 0;
    assert(trim_start_char(t@, '#') == trim_start_char(t@.skip(0), '#')) by {
        assert(t@.skip(0) == t@);
    }
    while a < t.len() && t[a] == '#'
        invariant
            a <= t@.len(),
            trim_start_char(t@, '#') == trim_start_char(t@.skip(a as int), '#'),
        decreases t@.len() - a,
    {
        assert(t@.skip(a as int).drop_first() == t@.skip(a + 1));
        a = a + 1;
    }
    let hex = string_of(&crate::text::slice_vec(&t, a, t.len()));
    assert(hex@ == t@.skip(a as int));
    parse_hex_color(hex.as_str())
}

// ---------------------------------------------------------------------------
// Match fields
// ---------------------------------------------------------------------------

/// The field a name denotes, if any.
pub open spec fn field_named(t: Seq<char>) -> Option<MatchField> {
    if t == "filename"@ {
        Some(MatchField::Filename)
    } else if t == "name"@ {
        Some(MatchField::Name)
    } else if t == "generic"@ {
        Some(MatchField::Generic)
    } else if t == "exec"@ {
        Some(MatchField::Exec)
    } else if t == "keywords"@ {
        Some(MatchField::Keywords)
    } else if t == "categories"@ {
        Some(MatchField::Categories)
    } else if t == "comment"@ {
        Some(MatchField::Comment)
    } else {
        None
    }
}

/// The name of each field in the `fields` setting.
pub open spec fn field_name(f: MatchField) -> Seq<char> {
    match f {
        MatchField::Filename => "filename"@,
        MatchField::Name => "name"@,
        MatchField::Generic => "generic"@,
        MatchField::Exec => "exec"@,
        MatchField::Keywords => "keywords"@,
        MatchField::Categories => "categories"@,
        MatchField::Comment => "comment"@,
    }
}

/// The names of a list of fields.
pub open spec fn field_names(fs: Seq<MatchField>) -> Seq<Seq<char>> {
    fs.map_values(|f: MatchField| field_name(f))
}

proof fn lemma_field_name(f: MatchField)
    ensures
        field_named(field_name(f)) == Some(f),
        field_name(f).len() > 0,
        trim(field_name(f)) == field_name(f),
        !field_name(f).contains(','),
{
    reveal_strlit("filename");
    reveal_strlit("name");
    reveal_strlit("generic");
    reveal_strlit("exec");
    reveal_strlit("keywords");
    reveal_strlit("categories");
    reveal_strlit("comment");
    let n = field_name(f);
    lemma_trim_unchanged(n);
    if n.contains(',') {
        let k = choose|k: int| 0 <= k < n.len() && n[k] == ',';
        assert(false);
    }
}

proof fn lemma_parse_field_names(fs: Seq<MatchField>)
    ensures
        parse_fields_from(field_names(fs)) == Ok::<Seq<MatchField>, Seq<char>>(fs),
    decreases fs.len(),
{
    let names = field_names(fs);
    assert(names.len() == fs.len());
    if fs.len() == 0 {
        assert(fs =~= Seq::<MatchField>::empty());
    } else {
        assert(names.drop_last() =~= field_names(fs.drop_last()));
        lemma_parse_field_names(fs.drop_last());
        lemma_field_name(fs.last());
        assert(names.last() == field_name(fs.last()));
        assert(trim(names.last()) == names.last());
        assert(field_named(trim(names.last())) == Some(fs.last()));
        assert(fs.drop_last().push(fs.last()) =~= fs);
    }
}

/// Each field name in a `fields` list reads as the field of that name:
/// writing any list of fields as their names joined by commas and reading
/// it back gives the same fields, in the same order.
pub proof fn field_names_read_back(fs: Seq<MatchField>)
    ensures
        spec_parse_match_fields(join(field_names(fs), seq![','])) == Ok::<
            Seq<MatchField>,
            Seq<char>,
        >(fs),
{
    let names = field_names(fs);
    if fs.len() == 0 {
        assert(join(names, seq![',']) == Seq::<char>::empty());
        let one = seq![Seq::<char>::empty()];
        assert(split_on(Seq::<char>::empty(), ',') =~= one);
        lemma_trim_unchanged(Seq::<char>::empty());
        assert(one.drop_last() =~= Seq::<Seq<char>>::empty());
        assert(parse_fields_from(one.drop_last()) == Ok::<Seq<MatchField>, Seq<char>>(
            Seq::empty(),
        ));
        assert(trim(one.last()).len() == 0);
        assert(parse_fields_from(one) == Ok::<Seq<MatchField>, Seq<char>>(Seq::empty()));
        assert(fs =~= Seq::<MatchField>::empty());
    } else {
        assert forall|i: int| 0 <= i < names.len() implies !(#[trigger] names[i]).contains(',') by {
            lemma_field_name(fs[i]);
        }
        lemma_split_on_join(names, ',');
        assert(split_on(join(names, seq![',']), ',') == names);
        lemma_parse_field_names(fs);
    }
}

/// The message for an unknown field name.
pub open spec fn unknown_field_error(t: Seq<char>) -> Seq<char> {
    "unknown field '"@ + t + "'"@
}

/// Reading the trimmed items of a field list, skipping empty ones; the
/// first unknown name is an error.
pub open spec fn parse_fields_from(ps: Seq<Seq<char>>) -> Result<Seq<MatchField>, Seq<char>>
    decreases ps.len(),
{
    if ps.len() == 0 {
        Ok(Seq::empty())
    } else {
        match parse_fields_from(ps.drop_last()) {
            Err(e) => Err(e),
            Ok(fs) => {
                let t = trim(ps.last());
                if t.len() == 0 {
                    Ok(fs)
                } else {
                    match field_named(t) {
                        Some(f) => Ok(fs.push(f)),
                        None => Err(unknown_field_error(t)),
                    }
                }
            },
        }
    }
}

/// A comma-separated list of field names, such as `name,exec,keywords`.
pub open spec fn spec_parse_match_fields(raw: Seq<char>) -> Result<Seq<MatchField>, Seq<char>> {
    parse_fields_from(split_on(raw, ','))
}

fn field_named_exec(t: &Vec<char>) -> (r: Option<MatchField>)
    ensures
        r == field_named(t@),
{
    if chars_eq_str(t, "filename") {
        Some(MatchField::Filename)
    } else if chars_eq_str(t, "name") {
        Some(MatchField::Name)
    } else if chars_eq_str(t, "generic") {
        Some(MatchField::Generic)
    } else if chars_eq_str(t, "exec") {
        Some(MatchField::Exec)
    } else if chars_eq_str(t, "keywords") {
        Some(MatchField::Keywords)
    } else if chars_eq_str(t, "categories") {
        Some(MatchField::Categories)
    } else if chars_eq_str(t, "comment") {
        Some(MatchField::Comment)
    } else {
        None
    }
}

/// Parses the `fields` setting: comma-separated field names; empty items
/// are skipped and an unknown name is an error.
pub fn parse_match_fields(raw: &str) -> (r: Result<Vec<MatchField>, String>)
    ensures
        match (r, spec_parse_match_fields(raw@)) {
            (Ok(a), Ok(b)) => a@ == b,
            (Err(a), Err(b)) => a@ == b,
            _ => false,
        },
{
    let rc = chars_of(raw);
    let ps = split_chars(&rc, ',');
    let ghost sp = split_on(raw@, ',');
    let mut fields: Vec<MatchField> = Vec::new();
    let mut i: usize = 0;
    while i < ps.len()
        invariant
            i <= ps@.len(),
            sp == split_on(raw@, ','),
            ps@.len() == sp.len(),
            forall|k: int| 0 <= k < ps@.len() ==> #[trigger] ps@[k]@ == sp[k],
            parse_fields_from(sp.take(i as int)) == Ok::<Seq<MatchField>, Seq<char>>(fields@),
        decreases ps@.len() - i,
    {
        assert(sp.take(i + 1).drop_last() == sp.take(i as int));
        assert(sp.take(i + 1).last() == ps@[i as int]@);
        let t = trim_chars(&ps[i]);
        if t.len() > 0 {
            match field_named_exec(&t) {
                Some(f) => fields.push(f),
                None => {
                    let mut msg = owned("unknown field '");
                    push_str(&mut msg, string_of(&t).as_str());
                    push_str(&mut msg, "'");
                    proof {
                        let k = i + 1;
                        lemma_fields_err_stable(sp, k as int);
                    }
                    return Err(msg);
                },
            }
        }
        i = i + 1;
    }
    assert(sp.take(ps@.len() as int) == sp);
    Ok(fields)
}

proof fn lemma_fields_err_stable(ps: Seq<Seq<char>>, i: int)
    requires
        0 <= i <= ps.len(),
        parse_fields_from(ps.take(i)) is Err,
    ensures
        parse_fields_from(ps) == parse_fields_from(ps.take(i)),
    decreases ps.len() - i,
{
    if i == ps.len() {
        assert(ps.take(i) == ps);
    } else {
        assert(ps.drop_last().take(i) == ps.take(i));
        lemma_fields_err_stable(ps.drop_last(), i);
    }
}

} // verus!
