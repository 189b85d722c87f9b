//! Character-level text primitives shared by the parsers and the matcher.
//!
//! Strings are modelled by their view, a `Seq<char>`.  Every scanning
//! operation is specified as a fold over prefixes (`s.drop_last()`), which is
//! the shape a left-to-right loop maintains.
use vstd::prelude::*;

verus! {

// ---------------------------------------------------------------------------
// Specifications
// ---------------------------------------------------------------------------

/// `char::is_whitespace`: the Unicode `White_Space` property.
pub open spec fn is_ws(c: char) -> bool {
    let u = c as u32;
    ||| (0x09 <= u && u <= 0x0d)
    ||| u == 0x20
    ||| u == 0x85
    ||| u == 0xa0
    ||| u == 0x1680
    ||| (0x2000 <= u && u <= 0x200a)
    ||| u == 0x2028
    ||| u == 0x2029
    ||| u == 0x202f
    ||| u == 0x205f
    ||| u == 0x3000
}

/// `s` without its leading whitespace.
pub open spec fn trim_start(s: Seq<char>) -> Seq<char>
    decreases s.len(),
{
    if s.len() > 0 && is_ws(s[0]) {
        trim_start(s.drop_first())
    } else {
        s
    }
}

/// `s` without its trailing whitespace.
pub open spec fn trim_end(s: Seq<char>) -> Seq<char>
    decreases s.len(),
{
    if s.len() > 0 && is_ws(s.last()) {
        trim_end(s.drop_last())
    } else {
        s
    }
}

/// `str::trim`: whitespace removed from both ends.
pub open spec fn trim(s: Seq<char>) -> Seq<char> {
    trim_end(trim_start(s))
}

/// Trimming leaves a text alone when it neither starts nor ends with
/// whitespace.
pub proof fn lemma_trim_unchanged(s: Seq<char>)
    requires
        s.len() > 0 ==> !is_ws(s[0]) && !is_ws(s.last()),
    ensures
        trim(s) == s,
{
}

/// `str::trim_end_matches(c)` for a single character.
pub open spec fn trim_end_char(s: Seq<char>, c: char) -> Seq<char>
    decreases s.len(),
{
    if s.len() > 0 && s.last() == c {
        trim_end_char(s.drop_last(), c)
    } else {
        s
    }
}

/// `str::trim_start_matches(c)` for a single character.
pub open spec fn trim_start_char(s: Seq<char>, c: char) -> Seq<char>
    decreases s.len(),
{
    if s.len() > 0 && s[0] == c {
        trim_start_char(s.drop_first(), c)
    } else {
        s
    }
}

/// The state of a left-to-right split of a text at a delimiter: the pieces
/// already closed, and the piece still open.
pub open spec fn split_scan(s: Seq<char>, d: char) -> (Seq<Seq<char>>, Seq<char>)
    decreases s.len(),
{
    if s.len() == 0 {
        (Seq::empty(), Seq::empty())
    } else {
        let (done, cur) = split_scan(s.drop_last(), d);
        if s.last() == d {
            (done.push(cur), Seq::empty())
        } else {
            (done, cur.push(s.last()))
        }
    }
}

/// `str::split(d)`: the pieces between occurrences of `d`; never empty.
pub open spec fn split_on(s: Seq<char>, d: char) -> Seq<Seq<char>> {
    let (done, cur) = split_scan(s, d);
    done.push(cur)
}

/// `p` without one trailing carriage return, if it has one.
pub open spec fn strip_one_cr(p: Seq<char>) -> Seq<char> {
    if p.len() > 0 && p.last() == '\r' {
        p.drop_last()
    } else {
        p
    }
}

/// `str::lines`: the text split at each `\n`; a line that a `\n` ends loses
/// one `\r` before it; a last, unterminated line is kept only if non-empty.
pub open spec fn lines(s: Seq<char>) -> Seq<Seq<char>> {
    let ps = split_on(s, '\n');
    let ended = ps.take(ps.len() - 1).map_values(|p: Seq<char>| strip_one_cr(p));
    if ps.last().len() > 0 {
        ended.push(ps.last())
    } else {
        ended
    }
}

/// `str::split_once(c)`: the text before and after the first `c`.
pub open spec fn split_once(s: Seq<char>, c: char) -> Option<(Seq<char>, Seq<char>)> {
    match find(s, seq![c]) {
        None => None,
        Some(p) => Some((s.take(p), s.skip(p + 1))),
    }
}

/// The view of an optional string slice.
pub open spec fn opt_text(o: Option<&str>) -> Option<Seq<char>> {
    match o {
        Some(s) => Some(s@),
        None => None,
    }
}

/// The view of an optional string.
pub open spec fn opt_string(o: Option<String>) -> Option<Seq<char>> {
    match o {
        Some(s) => Some(s@),
        None => None,
    }
}

/// `[T]::join(sep)` on texts.
pub open spec fn join(parts: Seq<Seq<char>>, sep: Seq<char>) -> Seq<char>
    decreases parts.len(),
{
    if parts.len() == 0 {
        Seq::empty()
    } else if parts.len() == 1 {
        parts[0]
    } else {
        join(parts.drop_last(), sep) + sep + parts.last()
    }
}

/// State of `str::split_whitespace`: the words closed so far and the word
/// being read.
pub open spec fn words_scan(s: Seq<char>) -> (Seq<Seq<char>>, Seq<char>)
    decreases s.len(),
{
    if s.len() == 0 {
        (Seq::empty(), Seq::empty())
    } else {
        let (done, cur) = words_scan(s.drop_last());
        if is_ws(s.last()) {
            if cur.len() > 0 {
                (done.push(cur), Seq::empty())
            } else {
                (done, cur)
            }
        } else {
            (done, cur.push(s.last()))
        }
    }
}

/// `str::split_whitespace`: the maximal runs of non-whitespace characters.
pub open spec fn words(s: Seq<char>) -> Seq<Seq<char>> {
    let (done, cur) = words_scan(s);
    if cur.len() > 0 {
        done.push(cur)
    } else {
        done
    }
}

/// Whether `n` occurs in `h` starting at character position `p`.
pub open spec fn occurs_at(h: Seq<char>, n: Seq<char>, p: int) -> bool {
    0 <= p && p + n.len() <= h.len() && h.subrange(p, p + n.len()) == n
}

/// The first position at or after `p` where `n` occurs in `h`.
pub open spec fn find_from(h: Seq<char>, n: Seq<char>, p: int) -> Option<int>
    decreases h.len() + 1 - p,
{
    if p < 0 || p + n.len() > h.len() {
        None
    } else if occurs_at(h, n, p) {
        Some(p)
    } else {
        find_from(h, n, p + 1)
    }
}

/// What `find_from` returns is an occurrence at or after `p`, and no
/// occurrence lies between `p` and it.
pub proof fn lemma_find_from_some(h: Seq<char>, n: Seq<char>, p: int)
    requires
        0 <= p,
    ensures
        find_from(h, n, p) matches Some(q) ==> p <= q && occurs_at(h, n, q) && forall|r: int|
            p <= r < q ==> !occurs_at(h, n, r),
        find_from(h, n, p) is None ==> forall|r: int| p <= r ==> !occurs_at(h, n, r),
    decreases h.len() + 1 - p,
{
    if p + n.len() > h.len() {
    } else if occurs_at(h, n, p) {
    } else {
        lemma_find_from_some(h, n, p + 1);
    }
}

/// The byte length of a text is the sum of those of its parts.
pub proof fn lemma_utf8_len_add(a: Seq<char>, b: Seq<char>)
    ensures
        utf8_len(a + b) == utf8_len(a) + utf8_len(b),
    decreases a.len(),
{
    if a.len() == 0 {
        assert(a + b == b);
    } else {
        assert((a + b).drop_first() == a.drop_first() + b);
        lemma_utf8_len_add(a.drop_first(), b);
    }
}

/// A text has at least as many bytes as characters.
pub proof fn lemma_utf8_len_ge_len(s: Seq<char>)
    ensures
        utf8_len(s) >= s.len(),
    decreases s.len(),
{
    if s.len() > 0 {
        lemma_utf8_len_ge_len(s.drop_first());
    }
}

/// A prefix is no longer, in bytes, than the whole text.
pub proof fn lemma_utf8_len_take(s: Seq<char>, p: int)
    requires
        0 <= p <= s.len(),
    ensures
        utf8_len(s.take(p)) <= utf8_len(s),
        utf8_len(s.take(p)) + utf8_len(s.skip(p)) == utf8_len(s),
{
    assert(s.take(p) + s.skip(p) == s);
    lemma_utf8_len_add(s.take(p), s.skip(p));
}

/// Splitting a text whose tail holds no delimiter leaves that tail in the
/// open piece.
pub proof fn lemma_split_scan_tail(p: Seq<char>, s: Seq<char>, d: char)
    requires
        !s.contains(d),
    ensures
        split_scan(p + s, d) == (split_scan(p, d).0, split_scan(p, d).1 + s),
    decreases s.len(),
{
    if s.len() == 0 {
        assert(p + s == p);
        assert(split_scan(p, d).1 + s == split_scan(p, d).1);
    } else {
        assert((p + s).drop_last() == p + s.drop_last());
        assert((p + s).last() == s.last());
        assert(s.drop_last().contains(d) ==> s.contains(d));
        lemma_split_scan_tail(p, s.drop_last(), d);
        assert(split_scan(p, d).1 + s.drop_last() + seq![s.last()] == split_scan(p, d).1 + s);
    }
}

/// No piece of a split holds the delimiter.
pub proof fn lemma_split_scan_no_delim(s: Seq<char>, d: char)
    ensures
        forall|i: int|
            0 <= i < split_scan(s, d).0.len() ==> !(#[trigger] split_scan(s, d).0[i]).contains(d),
        !split_scan(s, d).1.contains(d),
    decreases s.len(),
{
    if s.len() > 0 {
        lemma_split_scan_no_delim(s.drop_last(), d);
        let (done, cur) = split_scan(s.drop_last(), d);
        if s.last() == d {
            let nd = done.push(cur);
            assert forall|i: int| 0 <= i < nd.len() implies !(#[trigger] nd[i]).contains(d) by {
                if i < done.len() {
                    assert(nd[i] == done[i]);
                }
            }
            assert(!Seq::<char>::empty().contains(d));
        } else {
            let nc = cur.push(s.last());
            assert forall|i: int| 0 <= i < nc.len() implies nc[i] != d by {
                if i < cur.len() {
                    assert(nc[i] == cur[i]);
                }
            }
        }
    }
}

/// No line of a text holds a `\n`.
pub proof fn lemma_lines_no_newline(s: Seq<char>)
    ensures
        forall|i: int| 0 <= i < lines(s).len() ==> !(#[trigger] lines(s)[i]).contains('\n'),
{
    lemma_split_scan_no_delim(s, '\n');
    let ps = split_on(s, '\n');
    assert forall|i: int| 0 <= i < ps.len() implies !(#[trigger] ps[i]).contains('\n') by {
        if i < split_scan(s, '\n').0.len() {
            assert(ps[i] == split_scan(s, '\n').0[i]);
        } else {
            assert(ps[i] == split_scan(s, '\n').1);
        }
    }
    let ls = lines(s);
    assert forall|i: int| 0 <= i < ls.len() implies !(#[trigger] ls[i]).contains('\n') by {
        let p = ps[i];
        assert(!p.contains('\n'));
        let q = strip_one_cr(p);
        assert forall|j: int| 0 <= j < q.len() implies q[j] != '\n' by {
            assert(q[j] == p[j]);
        }
        if i < ps.len() - 1 {
            assert(ls[i] == q);
        } else {
            assert(ls[i] == p);
        }
    }
}

/// Splitting at `d` the pieces joined by `d` gives the pieces back, when
/// none of them holds `d`.
pub proof fn lemma_split_on_join(parts: Seq<Seq<char>>, d: char)
    requires
        parts.len() > 0,
        forall|i: int| 0 <= i < parts.len() ==> !(#[trigger] parts[i]).contains(d),
    ensures
        split_on(join(parts, seq![d]), d) == parts,
    decreases parts.len(),
{
    if parts.len() == 1 {
        lemma_split_scan_tail(Seq::empty(), parts[0], d);
        assert(Seq::<char>::empty() + parts[0] == parts[0]);
        assert(Seq::<char>::empty() + parts[0] == parts[0]);
        assert(split_on(parts[0], d) == seq![parts[0]]);
        assert(parts == seq![parts[0]]);
    } else {
        let front = parts.drop_last();
        let j = join(front, seq![d]);
        lemma_split_on_join(front, d);
        assert(j.push(d).drop_last() == j);
        assert((j + seq![d]) == j.push(d));
        lemma_split_scan_tail(j + seq![d], parts.last(), d);
        assert(parts.last() == parts[parts.len() - 1]);
        assert(split_on(join(parts, seq![d]), d) == front.push(parts.last()));
        assert(front.push(parts.last()) == parts);
    }
}

/// `str::lines` gives back the lines joined by `\n`, when each is non-empty,
/// holds no `\n` and does not end in `\r`.
pub proof fn lemma_lines_join(ls: Seq<Seq<char>>)
    requires
        forall|i: int|
            0 <= i < ls.len() ==> (#[trigger] ls[i]).len() > 0 && !ls[i].contains('\n')
                && ls[i].last() != '\r',
    ensures
        lines(join(ls, seq!['\n'])) == ls,
{
    if ls.len() == 0 {
        assert(split_on(Seq::<char>::empty(), '\n') == seq![Seq::<char>::empty()]);
        assert(lines(join(ls, seq!['\n'])) == Seq::<Seq<char>>::empty());
    } else {
        lemma_split_on_join(ls, '\n');
        let ps = split_on(join(ls, seq!['\n']), '\n');
        let ended = ps.take(ps.len() - 1).map_values(|p: Seq<char>| strip_one_cr(p));
        assert(ended == ls.drop_last());
        assert(ps.last() == ls[ls.len() - 1]);
        assert(ls.drop_last().push(ls.last()) == ls);
    }
}

/// The first occurrence of a character that the prefix does not hold is
/// just after the prefix.
pub proof fn lemma_split_once_at(a: Seq<char>, c: char, b: Seq<char>)
    requires
        !a.contains(c),
    ensures
        split_once(a + seq![c] + b, c) == Some((a, b)),
{
    let s = a + seq![c] + b;
    let n = seq![c];
    assert(s.subrange(a.len() as int, a.len() + 1int) == n);
    assert(occurs_at(s, n, a.len() as int));
    lemma_find_from_some(s, n, 0);
    let q = find_from(s, n, 0)->0;
    if q < a.len() {
        assert(s.subrange(q, q + 1)[0] == s[q]);
        assert(s[q] == a[q]);
    }
    assert(q == a.len());
    assert(s.take(q) == a);
    assert(s.skip(q + 1) == b);
}

/// A decimal digit character reads back as its digit.
proof fn lemma_digit_char_value(d: nat)
    requires
        d < 10,
    ensures
        digit_value(digit_char(d), 10) == Some(d),
        digit_char(d) != '+' && digit_char(d) != '|' && digit_char(d) != '\n' && digit_char(d)
            != '\r',
{
}

/// The decimal form of a number reads back as that number.
pub proof fn lemma_decimal_digits(n: nat)
    ensures
        digits_value(decimal(n), 10) == Some(n),
        decimal(n).len() > 0,
        decimal(n)[0] != '+',
        !decimal(n).contains('|'),
        !decimal(n).contains('\n'),
        decimal(n).last() != '\r',
    decreases n,
{
    if n < 10 {
        lemma_digit_char_value(n);
        assert(decimal(n).drop_last() == Seq::<char>::empty());
        assert(digits_value(Seq::<char>::empty(), 10) == Some(0nat));
        assert(decimal(n).last() == digit_char(n));
    } else {
        lemma_digit_char_value(n % 10);
        lemma_decimal_digits(n / 10);
        let d = decimal(n / 10);
        let s = d.push(digit_char(n % 10));
        assert(s.drop_last() == d);
        assert(s[0] == d[0]);
        assert forall|i: int| 0 <= i < s.len() implies s[i] != '|' && s[i] != '\n' by {
            if i < d.len() {
                assert(s[i] == d[i]);
            }
        }
        assert(s == decimal(n));
        assert(s.last() == digit_char(n % 10));
        assert(digits_value(s, 10) == Some((n / 10) * 10 + n % 10));
        assert(n == (n / 10) * 10 + n % 10);
    }
}

/// `str::find` in characters: the first position where `n` occurs in `h`.
pub open spec fn find(h: Seq<char>, n: Seq<char>) -> Option<int> {
    find_from(h, n, 0)
}

/// `str::contains`.
pub open spec fn contains(h: Seq<char>, n: Seq<char>) -> bool {
    find(h, n) is Some
}

/// `str::starts_with`.
pub open spec fn starts_with(h: Seq<char>, n: Seq<char>) -> bool {
    n.len() <= h.len() && h.take(n.len() as int) == n
}

/// `str::replace(pat, rep)`: every non-overlapping occurrence of a non-empty
/// `pat`, found left to right, replaced by `rep`.
pub open spec fn replace_all(s: Seq<char>, pat: Seq<char>, rep: Seq<char>) -> Seq<char>
    decreases s.len(),
{
    if pat.len() == 0 {
        s
    } else {
        match find(s, pat) {
            None => s,
            Some(p) => {
                proof {
                    lemma_find_from_some(s, pat, 0);
                }
                s.take(p) + rep + replace_all(s.skip(p + pat.len()), pat, rep)
            },
        }
    }
}

/// Number of bytes of the UTF-8 encoding of `c`.
pub open spec fn char_utf8_len(c: char) -> nat {
    let u = c as u32;
    if u < 0x80 {
        1
    } else if u < 0x800 {
        2
    } else if u < 0x10000 {
        3
    } else {
        4
    }
}

/// Number of bytes of the UTF-8 encoding of `s`: what `str::len` returns.
pub open spec fn utf8_len(s: Seq<char>) -> nat
    decreases s.len(),
{
    if s.len() == 0 {
        0
    } else {
        char_utf8_len(s[0]) + utf8_len(s.drop_first())
    }
}

/// Lexicographic order of texts by code point: the order of `str::cmp`
/// (UTF-8 preserves code point order byte by byte).
pub open spec fn text_lt(a: Seq<char>, b: Seq<char>) -> bool
    decreases a.len(),
{
    if a.len() == 0 {
        b.len() > 0
    } else if b.len() == 0 {
        false
    } else if a[0] != b[0] {
        (a[0] as u32) < (b[0] as u32)
    } else {
        text_lt(a.drop_first(), b.drop_first())
    }
}

/// Whether `a` and `b` first differ at position `i`, with `a` below `b`
/// there: `a` ends at `i` while `b` goes on, or the code point of `a` at `i`
/// is below that of `b`.
pub open spec fn first_difference_below(a: Seq<char>, b: Seq<char>, i: int) -> bool {
    &&& 0 <= i <= a.len()
    &&& i <= b.len()
    &&& a.take(i) == b.take(i)
    &&& ((i == a.len() && i < b.len()) || (i < a.len() && i < b.len() && (a[i] as u32) < (
    b[i] as u32)))
}

/// The text order is the lexicographic order of code points, as `str::cmp`
/// compares: `a` sorts before `b` exactly when, at the first position where
/// they differ, `a` has ended or has the lower code point.
pub proof fn text_order_is_lexicographic(a: Seq<char>, b: Seq<char>)
    ensures
        text_lt(a, b) <==> exists|i: int| first_difference_below(a, b, i),
    decreases a.len(),
{
    assert(a.take(0) =~= b.take(0));
    if a.len() == 0 {
        if b.len() > 0 {
            assert(first_difference_below(a, b, 0));
        }
    } else if b.len() == 0 {
        if exists|i: int| first_difference_below(a, b, i) {
            let i = choose|i: int| first_difference_below(a, b, i);
            assert(false);
        }
    } else if a[0] != b[0] {
        if (a[0] as u32) < (b[0] as u32) {
            assert(first_difference_below(a, b, 0));
        }
        if exists|i: int| first_difference_below(a, b, i) {
            let i = choose|i: int| first_difference_below(a, b, i);
            if i > 0 {
                assert(a.take(i)[0] == b.take(i)[0]);
            }
        }
    } else {
        let ta = a.drop_first();
        let tb = b.drop_first();
        text_order_is_lexicographic(ta, tb);
        if text_lt(ta, tb) {
            let j = choose|j: int| first_difference_below(ta, tb, j);
            assert(a.take(j + 1) =~= seq![a[0]] + ta.take(j));
            assert(b.take(j + 1) =~= seq![b[0]] + tb.take(j));
            assert(first_difference_below(a, b, j + 1));
        }
        if exists|i: int| first_difference_below(a, b, i) {
            let i = choose|i: int| first_difference_below(a, b, i);
            if i == 0 {
                assert(false);
            }
            assert(ta.take(i - 1) =~= a.take(i).drop_first());
            assert(tb.take(i - 1) =~= b.take(i).drop_first());
            assert(first_difference_below(ta, tb, i - 1));
        }
    }
}

/// A text sorts before every longer text that extends it.
pub proof fn prefix_sorts_first(a: Seq<char>, b: Seq<char>)
    requires
        b.len() > 0,
    ensures
        text_lt(a, a + b),
        !text_lt(a + b, a),
{
    let c = a + b;
    assert(c.take(a.len() as int) =~= a);
    assert(a.take(a.len() as int) =~= a);
    assert(first_difference_below(a, c, a.len() as int));
    text_order_is_lexicographic(a, c);
    text_order_is_lexicographic(c, a);
    if exists|i: int| first_difference_below(c, a, i) {
        let i = choose|i: int| first_difference_below(c, a, i);
        assert(c.take(i) =~= a.take(i));
        assert(c[i] == a[i]);
    }
}

/// The decimal digit character for `d < 10`.
pub open spec fn digit_char(d: nat) -> char {
    if d == 0 { '0' }
    else if d == 1 { '1' }
    else if d == 2 { '2' }
    else if d == 3 { '3' }
    else if d == 4 { '4' }
    else if d == 5 { '5' }
    else if d == 6 { '6' }
    else if d == 7 { '7' }
    else if d == 8 { '8' }
    else { '9' }
}

/// The decimal representation of `n`, as `Display` writes an unsigned integer.
pub open spec fn decimal(n: nat) -> Seq<char>
    decreases n,
{
    if n < 10 {
        seq![digit_char(n)]
    } else {
        decimal(n / 10).push(digit_char(n % 10))
    }
}

/// The value of a digit character in the given radix (10 or 16).
pub open spec fn digit_value(c: char, radix: nat) -> Option<nat> {
    let u = c as u32;
    if 0x30 <= u && u <= 0x39 && (u - 0x30) < radix {
        Some((u - 0x30) as nat)
    } else if radix == 16 && 0x61 <= u && u <= 0x66 {
        Some((u - 0x61 + 10) as nat)
    } else if radix == 16 && 0x41 <= u && u <= 0x46 {
        Some((u - 0x41 + 10) as nat)
    } else {
        None
    }
}

/// The value of a sequence of digits, read most significant first, or
/// `None` if one of them is not a digit of the radix.
pub open spec fn digits_value(s: Seq<char>, radix: nat) -> Option<nat>
    decreases s.len(),
{
    if s.len() == 0 {
        Some(0)
    } else {
        match (digits_value(s.drop_last(), radix), digit_value(s.last(), radix)) {
            (Some(v), Some(d)) => Some(v * radix + d),
            _ => None,
        }
    }
}

/// `from_str_radix` for an unsigned type whose largest value is `max`:
/// an optional `+`, then at least one digit, and a value no larger than `max`.
pub open spec fn parse_unsigned(s: Seq<char>, radix: nat, max: nat) -> Option<nat> {
    if s.len() == 0 {
        None
    } else {
        let ds = if s[0] == '+' { s.drop_first() } else { s };
        if ds.len() == 0 {
            None
        } else {
            match digits_value(ds, radix) {
                Some(v) => if v <= max { Some(v) } else { None },
                None => None,
            }
        }
    }
}

/// The result of `str::to_lowercase`, which Unicode's case tables define.
pub uninterp spec fn spec_to_lowercase(s: Seq<char>) -> Seq<char>;

// ---------------------------------------------------------------------------
// Trusted calls into std
// ---------------------------------------------------------------------------

/// `String::push`: appends one character.
#[verifier::external_body]
pub(crate) fn push_char(s: &mut String, c: char)
    ensures
        final(s)@ == old(s)@.push(c),
{
    s.push(c);
}

/// `str::to_lowercase`.  The result is named by `spec_to_lowercase`, a
/// function of the input alone; nothing more about it is claimed.
#[verifier::external_body]
pub(crate) fn to_lowercase(s: &str) -> (r: String)
    ensures
        r@ == spec_to_lowercase(s@),
{
    s.to_lowercase()
}

// ---------------------------------------------------------------------------
// Executable helpers
// ---------------------------------------------------------------------------

/// `str::len`, which its documentation defines as the length of the string
/// in bytes, that is of its UTF-8 encoding.  A string slice is a value in
/// memory, and the Rust reference bounds the size of every value by
/// `isize::MAX` bytes.
#[verifier::external_body]
pub(crate) fn byte_len(s: &str) -> (n: usize)
    ensures
        n == utf8_len(s@),
        n <= isize::MAX,
{
    s.len()
}

/// `char::len_utf8`.
pub fn char_byte_len(c: char) -> (n: usize)
    ensures
        n == char_utf8_len(c),
{
    let u = c as u32;
    if u < 0x80 {
        1
    } else if u < 0x800 {
        2
    } else if u < 0x10000 {
        3
    } else {
        4
    }
}

/// The number of UTF-8 bytes of the first `p` characters of `s`.
pub fn prefix_byte_len(s: &str, cs: &[char], p: usize) -> (n: usize)
    requires
        cs@ == s@,
        p <= cs.len(),
    ensures
        n == utf8_len(s@.take(p as int)),
{
    let total = byte_len(s);
    let mut n: usize = 0;
    let mut i: usize = 0;
    while i < p
        invariant
            cs@ == s@,
            i <= p <= cs.len(),
            total == utf8_len(s@),
            n == utf8_len(s@.take(i as int)),
        decreases p - i,
    {
        proof {
            lemma_utf8_len_add(s@.take(i as int), seq![s@[i as int]]);
            assert(s@.take(i as int) + seq![s@[i as int]] == s@.take(i + 1));
            lemma_utf8_len_take(s@, i + 1);
            assert(utf8_len(seq![s@[i as int]]) == char_utf8_len(s@[i as int])) by {
                reveal_with_fuel(utf8_len, 2);
                assert(seq![s@[i as int]].drop_first() == Seq::<char>::empty());
            }
        }
        n = n + char_byte_len(cs[i]);
        i = i + 1;
    }
    n
}

/// Whether `n` occurs in `h` at position `p`.
pub fn occurs_at_exec(h: &[char], n: &[char], p: usize) -> (r: bool)
    ensures
        r == occurs_at(h@, n@, p as int),
{
    if p > h.len() || n.len() > h.len() - p {
        return false;
    }
    let mut i: usize = 0;
    while i < n.len()
        invariant
            p + n.len() <= h.len(),
            i <= n.len(),
            forall|j: int| 0 <= j < i ==> h@[p + j] == n@[j],
        decreases n.len() - i,
    {
        if h[p + i] != n[i] {
            assert(h@.subrange(p as int, p + n.len())[i as int] != n@[i as int]);
            return false;
        }
        i = i + 1;
    }
    assert(h@.subrange(p as int, p + n.len()) == n@);
    true
}

/// `str::find` on characters.
pub fn find_chars(h: &[char], n: &[char]) -> (r: Option<usize>)
    ensures
        r matches Some(p) ==> find(h@, n@) == Some(p as int),
        r is None ==> find(h@, n@) is None,
{
    if n.len() > h.len() {
        return None;
    }
    let last = h.len() - n.len();
    let mut p: usize = 0;
    loop
        invariant
            last + n.len() == h.len(),
            p <= last,
            find_from(h@, n@, 0) == find_from(h@, n@, p as int),
        decreases last - p,
    {
        if occurs_at_exec(h, n, p) {
            return Some(p);
        }
        if p == last {
            assert(find_from(h@, n@, p + 1) is None);
            return None;
        }
        p = p + 1;
    }
}

/// `str::starts_with` on characters.
pub fn starts_with_chars(h: &[char], n: &[char]) -> (r: bool)
    ensures
        r == starts_with(h@, n@),
{
    let r = occurs_at_exec(h, n, 0);
    proof {
        if n@.len() <= h@.len() {
            assert(h@.subrange(0, n@.len() as int) == h@.take(n@.len() as int));
        }
    }
    r
}

/// `str::replace(pat, rep)` on characters, for a non-empty pattern.
pub fn replace_chars(s: &[char], pat: &[char], rep: &[char]) -> (r: Vec<char>)
    requires
        pat.len() > 0,
    ensures
        r@ == replace_all(s@, pat@, rep@),
{
    let mut out: Vec<char> = Vec::new();
    let mut rest: Vec<char> = slice_vec(s, 0, s.len());
    assert(rest@ == s@);
    assert(out@ + replace_all(rest@, pat@, rep@) == replace_all(s@, pat@, rep@));
    loop
        invariant
            pat@.len() > 0,
            out@ + replace_all(rest@, pat@, rep@) == replace_all(s@, pat@, rep@),
        decreases rest@.len(),
    {
        match find_chars(&rest, pat) {
            None => {
                assert(replace_all(rest@, pat@, rep@) == rest@);
                let mut i: usize = 0;
                let ghost out0 = out@;
                while i < rest.len()
                    invariant
                        i <= rest.len(),
                        out@ == out0 + rest@.take(i as int),
                    decreases rest.len() - i,
                {
                    out.push(rest[i]);
                    i = i + 1;
                    assert(out@ == out0 + rest@.take(i as int));
                }
                assert(rest@.take(rest@.len() as int) == rest@);
                return out;
            },
            Some(p) => {
                proof {
                    lemma_find_from_some(rest@, pat@, 0);
                    assert(occurs_at(rest@, pat@, p as int));
                    assert(p + pat@.len() <= rest@.len());
                }
                let plen = pat.len();
                assert(p + plen <= rest.len());
                let head = slice_vec(&rest, 0, p);
                let tail = slice_vec(&rest, p + plen, rest.len());
                let mut i: usize = 0;
                let ghost out0 = out@;
                while i < head.len()
                    invariant
                        i <= head.len(),
                        out@ == out0 + head@.take(i as int),
                    decreases head.len() - i,
                {
                    out.push(head[i]);
                    i = i + 1;
                    assert(out@ == out0 + head@.take(i as int));
                }
                let mut j: usize = 0;
                let ghost out1 = out@;
                while j < rep.len()
                    invariant
                        j <= rep.len(),
                        out@ == out1 + rep@.take(j as int),
                    decreases rep.len() - j,
                {
                    out.push(rep[j]);
                    j = j + 1;
                    assert(out@ == out1 + rep@.take(j as int));
                }
                assert(head@.take(head@.len() as int) == head@);
                assert(rep@.take(rep@.len() as int) == rep@);
                assert(tail@ == rest@.skip(p + pat@.len()));
                assert(head@ == rest@.take(p as int));
                rest = tail;
            },
        }
    }
}


/// The characters of a string slice, in order.
pub fn chars_of(s: &str) -> (v: Vec<char>)
    ensures
        v@ == s@,
{
    let mut v: Vec<char> = Vec::new();
    for c in it: s.chars()
        invariant
            v@ == it.seq().take(it.index() as int),
            it.seq() == s@,
    {
        v.push(c);
    }
    v
}

/// A string holding exactly the given characters.
pub fn string_of(v: &[char]) -> (s: String)
    ensures
        s@ == v@,
{
    let mut s = String::new();
    let mut i: usize = 0;
    while i < v.len()
        invariant
            i <= v.len(),
            s@ == v@.take(i as int),
        decreases v.len() - i,
    {
        push_char(&mut s, v[i]);
        i = i + 1;
        assert(s@ == v@.take(i as int));
    }
    assert(v@.take(v.len() as int) == v@);
    s
}

/// Appends the characters of `t` to `s`.
pub fn push_str(s: &mut String, t: &str)
    ensures
        final(s)@ == old(s)@ + t@,
{
    let cs = chars_of(t);
    let mut i: usize = 0;
    while i < cs.len()
        invariant
            i <= cs.len(),
            cs@ == t@,
            s@ == old(s)@ + t@.take(i as int),
        decreases cs.len() - i,
    {
        push_char(s, cs[i]);
        i = i + 1;
        assert(s@ == old(s)@ + t@.take(i as int));
    }
    assert(t@.take(t@.len() as int) == t@);
}

/// Appends the given characters to `s`.
pub fn push_chars(s: &mut String, t: &[char])
    ensures
        final(s)@ == old(s)@ + t@,
{
    let mut i: usize = 0;
    while i < t.len()
        invariant
            i <= t.len(),
            s@ == old(s)@ + t@.take(i as int),
        decreases t.len() - i,
    {
        push_char(s, t[i]);
        i = i + 1;
        assert(s@ == old(s)@ + t@.take(i as int));
    }
    assert(t@.take(t@.len() as int) == t@);
}

/// An owned copy of a string slice.
pub fn owned(s: &str) -> (r: String)
    ensures
        r@ == s@,
{
    let mut r = String::new();
    push_str(&mut r, s);
    r
}

/// `char::is_whitespace`.
pub fn char_is_ws(c: char) -> (b: bool)
    ensures
        b == is_ws(c),
{
    let u = c as u32;
    (0x09 <= u && u <= 0x0d) || u == 0x20 || u == 0x85 || u == 0xa0 || u == 0x1680 || (0x2000
        <= u && u <= 0x200a) || u == 0x2028 || u == 0x2029 || u == 0x202f || u == 0x205f || u
        == 0x3000
}

proof fn lemma_trim_start_skip(s: Seq<char>, i: int)
    requires
        0 <= i <= s.len(),
        forall|j: int| 0 <= j < i ==> is_ws(#[trigger] s[j]),
    ensures
        trim_start(s) == trim_start(s.skip(i)),
    decreases i,
{
    if i > 0 {
        assert(is_ws(s[0]));
        assert(s.drop_first().skip(i - 1) == s.skip(i));
        assert forall|j: int| 0 <= j < i - 1 implies is_ws(#[trigger] s.drop_first()[j]) by {
            assert(s.drop_first()[j] == s[j + 1]);
        }
        lemma_trim_start_skip(s.drop_first(), i - 1);
    } else {
        assert(s.skip(0) == s);
    }
}

proof fn lemma_trim_end_take(s: Seq<char>, i: int)
    requires
        0 <= i <= s.len(),
        forall|j: int| i <= j < s.len() ==> is_ws(#[trigger] s[j]),
    ensures
        trim_end(s) == trim_end(s.take(i)),
    decreases s.len() - i,
{
    if i < s.len() {
        assert(s.drop_last().take(i) == s.take(i));
        lemma_trim_end_take(s.drop_last(), i);
    } else {
        assert(s.take(i) == s);
    }
}

/// The bounds `[a, b)` of `trim(t)` inside `t`.
pub fn trim_bounds(t: &[char]) -> (r: (usize, usize))
    ensures
        r.0 <= r.1 <= t.len(),
        t@.subrange(r.0 as int, r.1 as int) == trim(t@),
{
    let mut a: usize = 0;
    while a < t.len() && char_is_ws(t[a])
        invariant
            a <= t.len(),
            forall|j: int| 0 <= j < a ==> is_ws(#[trigger] t@[j]),
        decreases t.len() - a,
    {
        a = a + 1;
    }
    proof {
        lemma_trim_start_skip(t@, a as int);
    }
    let mut b: usize = t.len();
    while b > a && char_is_ws(t[b - 1])
        invariant
            a <= b <= t.len(),
            forall|j: int| b <= j < t.len() ==> is_ws(#[trigger] t@[j]),
        decreases b,
    {
        b = b - 1;
    }
    proof {
        let u = t@.skip(a as int);
        assert(a < t.len() ==> !is_ws(u[0]));
        assert(trim_start(u) == u) by {
            if u.len() > 0 {
                assert(!is_ws(u[0]));
            }
        }
        assert forall|j: int| (b - a) <= j < u.len() implies is_ws(#[trigger] u[j]) by {
            assert(u[j] == t@[j + a]);
        }
        lemma_trim_end_take(u, (b - a) as int);
        let w = u.take((b - a) as int);
        assert(w == t@.subrange(a as int, b as int));
        if w.len() > 0 {
            assert(w.last() == t@[b - 1]);
            assert(!is_ws(w.last()));
        }
    }
    (a, b)
}

/// A copy of the characters `t[a..b]`.
pub fn slice_vec(t: &[char], a: usize, b: usize) -> (r: Vec<char>)
    requires
        a <= b <= t.len(),
    ensures
        r@ == t@.subrange(a as int, b as int),
{
    let mut r: Vec<char> = Vec::new();
    let mut i: usize = a;
    while i < b
        invariant
            a <= i <= b <= t.len(),
            r@ == t@.subrange(a as int, i as int),
        decreases b - i,
    {
        r.push(t[i]);
        i = i + 1;
        assert(r@ == t@.subrange(a as int, i as int));
    }
    r
}

/// `trim` on a character vector.
pub fn trim_chars(t: &[char]) -> (r: Vec<char>)
    ensures
        r@ == trim(t@),
{
    let (a, b) = trim_bounds(t);
    slice_vec(t, a, b)
}

/// `str::trim`, returned as an owned string.
pub fn trim_str(s: &str) -> (r: String)
    ensures
        r@ == trim(s@),
{
    let cs = chars_of(s);
    let t = trim_chars(&cs);
    string_of(&t)
}

/// Whether two character sequences are equal.
pub fn chars_eq(a: &[char], b: &[char]) -> (r: bool)
    ensures
        r == (a@ == b@),
{
    if a.len() != b.len() {
        return false;
    }
    let mut i: usize = 0;
    while i < a.len()
        invariant
            a.len() == b.len(),
            i <= a.len(),
            forall|j: int| 0 <= j < i ==> a@[j] == b@[j],
        decreases a.len() - i,
    {
        if a[i] != b[i] {
            return false;
        }
        i = i + 1;
    }
    assert(a@ == b@);
    true
}

/// Whether the characters `t` spell the literal `lit`.
pub fn chars_eq_str(t: &[char], lit: &str) -> (r: bool)
    ensures
        r == (t@ == lit@),
{
    let l = chars_of(lit);
    chars_eq(t, &l)
}

/// `split_on` on a character vector.
pub fn split_chars(t: &[char], d: char) -> (r: Vec<Vec<char>>)
    ensures
        r@.len() == split_on(t@, d).len(),
        forall|i: int| 0 <= i < r@.len() ==> #[trigger] r@[i]@ == split_on(t@, d)[i],
{
    let mut done: Vec<Vec<char>> = Vec::new();
    let mut cur: Vec<char> = Vec::new();
    let mut i: usize = 0;
    while i < t.len()
        invariant
            i <= t.len(),
            done@.len() == split_scan(t@.take(i as int), d).0.len(),
            forall|k: int|
                0 <= k < done@.len() ==> #[trigger] done@[k]@ == split_scan(
                    t@.take(i as int),
                    d,
                ).0[k],
            cur@ == split_scan(t@.take(i as int), d).1,
        decreases t.len() - i,
    {
        assert(t@.take(i + 1).drop_last() == t@.take(i as int));
        let c = t[i];
        if c == d {
            let old_cur = cur;
            cur = Vec::new();
            done.push(old_cur);
        } else {
            cur.push(c);
        }
        i = i + 1;
    }
    assert(t@.take(t.len() as int) == t@);
    done.push(cur);
    done
}

/// `split_whitespace` on a character vector.
pub fn words_chars(t: &[char]) -> (r: Vec<Vec<char>>)
    ensures
        r@.len() == words(t@).len(),
        forall|i: int| 0 <= i < r@.len() ==> #[trigger] r@[i]@ == words(t@)[i],
{
    let mut done: Vec<Vec<char>> = Vec::new();
    let mut cur: Vec<char> = Vec::new();
    let mut i: usize = 0;
    while i < t.len()
        invariant
            i <= t.len(),
            done@.len() == words_scan(t@.take(i as int)).0.len(),
            forall|k: int|
                0 <= k < done@.len() ==> #[trigger] done@[k]@ == words_scan(
                    t@.take(i as int),
                ).0[k],
            cur@ == words_scan(t@.take(i as int)).1,
        decreases t.len() - i,
    {
        assert(t@.take(i + 1).drop_last() == t@.take(i as int));
        let c = t[i];
        if char_is_ws(c) {
            if cur.len() > 0 {
                let old_cur = cur;
                cur = Vec::new();
                done.push(old_cur);
            }
        } else {
            cur.push(c);
        }
        i = i + 1;
    }
    assert(t@.take(t.len() as int) == t@);
    if cur.len() > 0 {
        done.push(cur);
    }
    done
}

/// The decimal digit character for `d < 10`.
pub fn digit_char_exec(d: u64) -> (c: char)
    requires
        d < 10,
    ensures
        c == digit_char(d as nat),
{
    if d == 0 { '0' }
    else if d == 1 { '1' }
    else if d == 2 { '2' }
    else if d == 3 { '3' }
    else if d == 4 { '4' }
    else if d == 5 { '5' }
    else if d == 6 { '6' }
    else if d == 7 { '7' }
    else if d == 8 { '8' }
    else { '9' }
}

/// Appends the decimal representation of `n` to `s`.
pub fn push_decimal(s: &mut String, n: u64)
    ensures
        final(s)@ == old(s)@ + decimal(n as nat),
    decreases n,
{
    if n < 10 {
        push_char(s, digit_char_exec(n));
        assert(old(s)@.push(digit_char(n as nat)) == old(s)@ + seq![digit_char(n as nat)]);
    } else {
        push_decimal(s, n / 10);
        push_char(s, digit_char_exec(n % 10));
        assert(decimal(n as nat) == decimal((n / 10) as nat).push(digit_char((n % 10) as nat)));
    }
}

/// The value of a digit character in radix 10 or 16.
pub fn digit_value_exec(c: char, radix: u64) -> (r: Option<u64>)
    requires
        radix == 10 || radix == 16,
    ensures
        r matches Some(d) ==> digit_value(c, radix as nat) == Some(d as nat) && d < radix,
        r is None ==> digit_value(c, radix as nat) is None,
{
    let u = c as u32;
    if 0x30 <= u && u <= 0x39 {
        Some((u - 0x30) as u64)
    } else if radix == 16 && 0x61 <= u && u <= 0x66 {
        Some((u - 0x61 + 10) as u64)
    } else if radix == 16 && 0x41 <= u && u <= 0x46 {
        Some((u - 0x41 + 10) as u64)
    } else {
        None
    }
}

proof fn lemma_digits_value_grows(s: Seq<char>, radix: nat, i: int)
    requires
        radix >= 1,
        0 <= i <= s.len(),
        digits_value(s, radix) is Some,
    ensures
        digits_value(s.take(i), radix) is Some,
        digits_value(s.take(i), radix)->0 <= digits_value(s, radix)->0,
    decreases s.len() - i,
{
    if i == s.len() {
        assert(s.take(i) == s);
    } else {
        assert(s.drop_last().take(i) == s.take(i));
        let v = digits_value(s.drop_last(), radix)->0;
        let d = digit_value(s.last(), radix)->0;
        assert(v * radix + d >= v) by (nonlinear_arith)
            requires
                radix >= 1,
                d >= 0,
                v >= 0,
        ;
        lemma_digits_value_grows(s.drop_last(), radix, i);
    }
}

/// `from_str_radix` for an unsigned type whose largest value is `max`.
pub fn parse_unsigned_chars(t: &[char], radix: u64, max: u64) -> (r: Option<u64>)
    requires
        radix == 10 || radix == 16,
    ensures
        r matches Some(v) ==> parse_unsigned(t@, radix as nat, max as nat) == Some(v as nat),
        r is None ==> parse_unsigned(t@, radix as nat, max as nat) is None,
{
    if t.len() == 0 {
        return None;
    }
    let start: usize = if t[0] == '+' { 1 } else { 0 };
    let ghost ds = if t@[0] == '+' { t@.drop_first() } else { t@ };
    assert(ds == t@.skip(start as int));
    if start == t.len() {
        return None;
    }
    let mut v: u64 = 0;
    let mut over = false;
    let mut i: usize = start;
    while i < t.len()
        invariant
            radix == 10 || radix == 16,
            start <= i <= t.len(),
            t@.len() > 0,
            ds == t@.skip(start as int),
            ds == (if t@[0] == '+' { t@.drop_first() } else { t@ }),
            digits_value(ds.take(i - start), radix as nat) is Some,
            !over ==> digits_value(ds.take(i - start), radix as nat) == Some(v as nat) && v <= max,
            over ==> digits_value(ds.take(i - start), radix as nat)->0 > max,
        decreases t.len() - i,
    {
        let ghost k = i - start;
        assert(ds.take(k + 1).drop_last() == ds.take(k));
        assert(ds.take(k + 1).last() == t@[i as int]);
        match digit_value_exec(t[i], radix) {
            None => {
                proof {
                    assert(ds.len() == t@.len() - start);
                    assert(digits_value(ds.take(k + 1), radix as nat) is None);
                    assert(digits_value(ds, radix as nat) is None) by {
                        if digits_value(ds, radix as nat) is Some {
                            lemma_digits_value_grows(ds, radix as nat, k + 1);
                        }
                    }
                    assert(ds == (if t@[0] == '+' { t@.drop_first() } else { t@ }));
                    assert(parse_unsigned(t@, radix as nat, max as nat) is None);
                }
                return None;
            },
            Some(d) => {
                if !over {
                    let w: u128 = (v as u128) * (radix as u128) + (d as u128);
                    if w > max as u128 {
                        over = true;
                    } else {
                        v = w as u64;
                    }
                } else {
                    proof {
                        let x = digits_value(ds.take(k), radix as nat)->0;
                        assert(x * radix + d >= x) by (nonlinear_arith)
                            requires
                                radix >= 1,
                                d >= 0,
                                x >= 0,
                        ;
                    }
                }
                i = i + 1;
            },
        }
    }
    assert(ds.take(ds.len() as int) == ds);
    if over {
        None
    } else {
        Some(v)
    }
}

/// Whether `a` sorts strictly before `b` (`str::cmp`).
pub fn text_lt_exec(a: &[char], b: &[char]) -> (r: bool)
    ensures
        r == text_lt(a@, b@),
{
    let mut i: usize = 0;
    assert(a@.skip(0) == a@);
    assert(b@.skip(0) == b@);
    while i < a.len() && i < b.len()
        invariant
            i <= a.len(),
            i <= b.len(),
            text_lt(a@, b@) == text_lt(a@.skip(i as int), b@.skip(i as int)),
        decreases a.len() - i,
    {
        if a[i] != b[i] {
            let x: u32 = a[i] as u32;
            let y: u32 = b[i] as u32;
            let r = x < y;
            assert(a@.skip(i as int)[0] == a@[i as int]);
            assert(b@.skip(i as int)[0] == b@[i as int]);
            return r;
        }
        assert(a@.skip(i as int).drop_first() == a@.skip(i + 1));
        assert(b@.skip(i as int).drop_first() == b@.skip(i + 1));
        i = i + 1;
    }
    i == a.len() && i < b.len()
}

/// `join(parts, sep)` on strings.
pub fn join_strings(parts: &Vec<String>, sep: &str) -> (r: String)
    ensures
        r@ == join(parts@.map_values(|p: String| p@), sep@),
{
    let ghost views = parts@.map_values(|p: String| p@);
    let mut r = String::new();
    let mut i: usize = 0;
    while i < parts.len()
        invariant
            i <= parts.len(),
            views == parts@.map_values(|p: String| p@),
            r@ == join(views.take(i as int), sep@),
        decreases parts.len() - i,
    {
        assert(views.take(i + 1).drop_last() == views.take(i as int));
        if i > 0 {
            push_str(&mut r, sep);
        }
        push_str(&mut r, parts[i].as_str());
        proof {
            if i == 0 {
                assert(Seq::<char>::empty() + parts@[0]@ == parts@[0]@);
            }
        }
        i = i + 1;
    }
    assert(views.take(parts.len() as int) == views);
    r
}

/// `str::trim_end_matches(c)` on characters.
pub fn trim_end_char_chars(t: &[char], c: char) -> (r: Vec<char>)
    ensures
        r@ == trim_end_char(t@, c),
{
    let mut b: usize = t.len();
    assert(t@.take(t.len() as int) == t@);
    while b > 0 && t[b - 1] == c
        invariant
            b <= t.len(),
            trim_end_char(t@, c) == trim_end_char(t@.take(b as int), c),
        decreases b,
    {
        assert(t@.take(b as int).drop_last() == t@.take(b - 1));
        b = b - 1;
    }
    let r = slice_vec(t, 0, b);
    assert(r@ == t@.take(b as int));
    r
}

/// `str::lines` on characters.
pub fn lines_chars(t: &[char]) -> (r: Vec<Vec<char>>)
    ensures
        r@.len() == lines(t@).len(),
        forall|i: int| 0 <= i < r@.len() ==> #[trigger] r@[i]@ == lines(t@)[i],
{
    let ps = split_chars(t, '\n');
    let ghost sp = split_on(t@, '\n');
    let n = ps.len();
    assert(n == sp.len());
    assert(n >= 1);
    let mut r: Vec<Vec<char>> = Vec::new();
    let mut i: usize = 0;
    while i + 1 < n
        invariant
            n == ps@.len(),
            n == sp.len(),
            n >= 1,
            sp == split_on(t@, '\n'),
            forall|k: int| 0 <= k < ps@.len() ==> #[trigger] ps@[k]@ == sp[k],
            i + 1 <= n,
            r@.len() == i,
            forall|k: int| 0 <= k < i ==> #[trigger] r@[k]@ == strip_one_cr(sp[k]),
        decreases n - i,
    {
        let p = &ps[i];
        let q = if p.len() > 0 && p[p.len() - 1] == '\r' {
            slice_vec(p, 0, p.len() - 1)
        } else {
            slice_vec(p, 0, p.len())
        };
        proof {
            assert(p@ == sp[i as int]);
            if p@.len() > 0 && p@.last() == '\r' {
                assert(q@ == p@.drop_last());
            } else {
                assert(q@ == p@);
            }
        }
        r.push(q);
        i = i + 1;
    }
    let ghost ended = sp.take(sp.len() - 1).map_values(|p: Seq<char>| strip_one_cr(p));
    assert(r@.len() == ended.len());
    if ps[n - 1].len() > 0 {
        let last = slice_vec(&ps[n - 1], 0, ps[n - 1].len());
        assert(last@ == sp.last());
        r.push(last);
    }
    r
}

/// `str::split_once(c)` on characters.
pub fn split_once_chars(t: &[char], c: char) -> (r: Option<(Vec<char>, Vec<char>)>)
    ensures
        r matches Some(pr) ==> split_once(t@, c) == Some((pr.0@, pr.1@)),
        r is None ==> split_once(t@, c) is None,
{
    let pat = vec![c];
    assert(pat@ == seq![c]);
    match find_chars(t, &pat) {
        None => None,
        Some(p) => {
            proof {
                lemma_find_from_some(t@, seq![c], 0);
                assert(occurs_at(t@, seq![c], p as int));
            }
            let one: usize = 1;
            assert(p + one <= t.len());
            let a = slice_vec(t, 0, p);
            let b = slice_vec(t, p + one, t.len());
            assert(a@ == t@.take(p as int));
            assert(b@ == t@.skip(p + 1));
            Some((a, b))
        },
    }
}

/// Strings holding the given character sequences.
pub fn strings_of(v: &Vec<Vec<char>>) -> (r: Vec<String>)
    ensures
        r@.len() == v@.len(),
        forall|i: int| 0 <= i < r@.len() ==> #[trigger] r@[i]@ == v@[i]@,
{
    let mut r: Vec<String> = Vec::new();
    let mut i: usize = 0;
    while i < v.len()
        invariant
            i <= v.len(),
            r@.len() == i,
            forall|k: int| 0 <= k < i ==> #[trigger] r@[k]@ == v@[k]@,
        decreases v.len() - i,
    {
        r.push(string_of(&v[i]));
        i = i + 1;
    }
    r
}

} // verus!
