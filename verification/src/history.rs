//! Launch counts per entry id, and their one-line-per-entry text form.
use crate::sort::{goes_before, is_stable_order, key_view, stable_order, SortKey};
use crate::text::{
    chars_eq, chars_of, decimal, digit_value, digits_value, find_from, join, lemma_decimal_digits,
    lemma_find_from_some, lemma_lines_join, lemma_lines_no_newline, lemma_split_once_at, lines,
    lines_chars, occurs_at,
    parse_unsigned, parse_unsigned_chars, push_char, push_chars, push_decimal, split_once,
    split_once_chars, string_of, text_lt,
};
use vstd::prelude::*;

verus! {

/// How many times each entry was launched, keyed by entry id.
#[derive(Debug)]
pub struct History {
    counts: Vec<(String, u64)>,
}

/// The map that a list of `(id, count)` pairs describes; a later pair for
/// the same id wins.
pub open spec fn pairs_map(s: Seq<(String, u64)>) -> Map<Seq<char>, u64>
    decreases s.len(),
{
    if s.len() == 0 {
        Map::empty()
    } else {
        pairs_map(s.drop_last()).insert(s.last().0@, s.last().1)
    }
}

/// An id with a zero count holds no line break.
pub open spec fn zero_ids_unbroken(s: Seq<(String, u64)>) -> bool {
    forall|i: int| 0 <= i < s.len() && (#[trigger] s[i]).1 == 0 ==> !s[i].0@.contains('\n')
}

/// In the history `m`, an id with a zero count holds no line break: such
/// an id can only have been read from a line of history text.  Every
/// history meets this (`History::to_contents` ensures it).
pub open spec fn unbroken_zero_ids(m: Map<Seq<char>, u64>) -> bool {
    forall|k: Seq<char>| #[trigger] m.contains_key(k) && m[k] == 0 ==> !k.contains('\n')
}

/// No id occurs twice in the list.
pub open spec fn unique_ids(s: Seq<(String, u64)>) -> bool {
    forall|i: int, j: int| 0 <= i < j < s.len() ==> s[i].0@ != s[j].0@
}

impl View for History {
    type V = Map<Seq<char>, u64>;

    closed spec fn view(&self) -> Map<Seq<char>, u64> {
        pairs_map(self.counts@)
    }
}

/// The score of an id: its count, or 0 for an id never launched.
pub open spec fn count_of(m: Map<Seq<char>, u64>, id: Seq<char>) -> u64 {
    if m.contains_key(id) {
        m[id]
    } else {
        0
    }
}

/// One line of the history text: the id, `|`, and the count in decimal.
pub open spec fn history_line(id: Seq<char>, count: u64) -> Seq<char> {
    id + seq!['|'] + decimal(count as nat)
}

/// The map that reading history text yields: for each line holding a `|`
/// whose remainder is a `u64`, the text before the `|` is bound to it; a
/// later line for the same id wins; other lines are ignored.
pub open spec fn parse_history_lines(ls: Seq<Seq<char>>) -> Map<Seq<char>, u64>
    decreases ls.len(),
{
    if ls.len() == 0 {
        Map::empty()
    } else {
        let m = parse_history_lines(ls.drop_last());
        match split_once(ls.last(), '|') {
            Some((id, count)) => match parse_unsigned(count, 10, u64::MAX as nat) {
                Some(v) => m.insert(id, v as u64),
                None => m,
            },
            None => m,
        }
    }
}

/// The map read from a history text.
pub open spec fn parse_history(text: Seq<char>) -> Map<Seq<char>, u64> {
    parse_history_lines(lines(text))
}

/// `pairs` lists the bindings of `m`, each once, highest count first and
/// equal counts by id.
pub open spec fn is_history_listing(m: Map<Seq<char>, u64>, pairs: Seq<(Seq<char>, u64)>) -> bool {
    &&& forall|i: int|
        0 <= i < pairs.len() ==> #[trigger] m.contains_key(pairs[i].0) && m[pairs[i].0]
            == pairs[i].1
    &&& forall|k: Seq<char>| #[trigger] m.contains_key(k) ==> exists|i: int| 0 <= i < pairs.len() && pairs[i].0 == k
    &&& forall|i: int, j: int|
        #![trigger pairs[i], pairs[j]]
        0 <= i < j < pairs.len() ==> pairs[i].1 > pairs[j].1 || (pairs[i].1 == pairs[j].1
            && text_lt(pairs[i].0, pairs[j].0))
}

/// The lines of a listing.
pub open spec fn history_lines(pairs: Seq<(Seq<char>, u64)>) -> Seq<Seq<char>> {
    pairs.map_values(|p: (Seq<char>, u64)| history_line(p.0, p.1))
}

/// The history text for a listing: one line per pair, joined by `\n`.
pub open spec fn render_history(pairs: Seq<(Seq<char>, u64)>) -> Seq<char> {
    join(history_lines(pairs), seq!['\n'])
}

/// The map that a listing binds; a later pair for the same id wins.
pub open spec fn listing_map(pairs: Seq<(Seq<char>, u64)>) -> Map<Seq<char>, u64>
    decreases pairs.len(),
{
    if pairs.len() == 0 {
        Map::empty()
    } else {
        listing_map(pairs.drop_last()).insert(pairs.last().0, pairs.last().1)
    }
}

proof fn lemma_listing_map_facts(pairs: Seq<(Seq<char>, u64)>)
    ensures
        forall|k: Seq<char>| #[trigger]
            listing_map(pairs).contains_key(k) ==> exists|i: int|
                0 <= i < pairs.len() && pairs[i].0 == k && listing_map(pairs)[k] == pairs[i].1,
        forall|i: int|
            0 <= i < pairs.len() ==> listing_map(pairs).contains_key(#[trigger] pairs[i].0),
    decreases pairs.len(),
{
    if pairs.len() > 0 {
        let front = pairs.drop_last();
        lemma_listing_map_facts(front);
        let last = pairs.len() - 1;
        assert forall|k: Seq<char>| #[trigger]
            listing_map(pairs).contains_key(k) implies exists|i: int|
                0 <= i < pairs.len() && pairs[i].0 == k && listing_map(pairs)[k]
                    == pairs[i].1 by {
            if k == pairs[last].0 {
                assert(pairs[last].0 == k && listing_map(pairs)[k] == pairs[last].1);
            } else {
                let i = choose|i: int|
                    0 <= i < front.len() && front[i].0 == k && listing_map(front)[k] == front[i].1;
                assert(pairs[i] == front[i]);
            }
        }
        assert forall|i: int| 0 <= i < pairs.len() implies listing_map(pairs).contains_key(
            #[trigger] pairs[i].0,
        ) by {
            if i < last {
                assert(front[i] == pairs[i]);
            }
        }
    }
}

/// A listing of a history binds exactly that history.
proof fn lemma_listing_map_of_listing(m: Map<Seq<char>, u64>, pairs: Seq<(Seq<char>, u64)>)
    requires
        is_history_listing(m, pairs),
    ensures
        listing_map(pairs) == m,
{
    lemma_listing_map_facts(pairs);
    assert forall|k: Seq<char>| #[trigger] listing_map(pairs).contains_key(k) implies m.contains_key(k)
        && listing_map(pairs)[k] == m[k] by {
        let i = choose|i: int|
            0 <= i < pairs.len() && pairs[i].0 == k && listing_map(pairs)[k] == pairs[i].1;
        assert(m.contains_key(pairs[i].0));
    }
    assert forall|k: Seq<char>| #[trigger] m.contains_key(k) implies listing_map(pairs).contains_key(k) by {
        let i = choose|i: int| 0 <= i < pairs.len() && pairs[i].0 == k;
        assert(listing_map(pairs).contains_key(pairs[i].0));
    }
    assert(listing_map(pairs) =~= m);
}

/// Reading back the lines of a listing binds what the listing binds, when
/// no id holds `|`.
proof fn lemma_parse_history_lines_listing(pairs: Seq<(Seq<char>, u64)>)
    requires
        forall|i: int| 0 <= i < pairs.len() ==> !(#[trigger] pairs[i].0).contains('|'),
    ensures
        parse_history_lines(history_lines(pairs)) == listing_map(pairs),
    decreases pairs.len(),
{
    if pairs.len() > 0 {
        let ls = history_lines(pairs);
        let front = pairs.drop_last();
        assert(ls.drop_last() == history_lines(front));
        assert forall|i: int| 0 <= i < front.len() implies !(#[trigger] front[i].0).contains('|') by {
            assert(front[i] == pairs[i]);
        }
        lemma_parse_history_lines_listing(front);
        let p = pairs[pairs.len() - 1];
        assert(ls.last() == history_line(p.0, p.1));
        lemma_split_once_at(p.0, '|', decimal(p.1 as nat));
        lemma_decimal_digits(p.1 as nat);
        assert(parse_unsigned(decimal(p.1 as nat), 10, u64::MAX as nat) == Some(p.1 as nat));
    }
}

/// Writing a history out and reading the text back gives the same counts,
/// for ids that hold neither `|` nor a line break.
pub proof fn history_text_round_trip(h: History, text: Seq<char>)
    requires
        exists|pairs: Seq<(Seq<char>, u64)>|
            is_history_listing(h@, pairs) && text == render_history(pairs),
        forall|k: Seq<char>| #[trigger]
            h@.contains_key(k) ==> !k.contains('|') && !k.contains('\n'),
    ensures
        parse_history(text) == h@,
{
    let pairs = choose|pairs: Seq<(Seq<char>, u64)>|
        is_history_listing(h@, pairs) && text == render_history(pairs);
    let ls = history_lines(pairs);
    assert forall|i: int| 0 <= i < pairs.len() implies !(#[trigger] pairs[i].0).contains('|')
        && !pairs[i].0.contains('\n') by {
        assert(h@.contains_key(pairs[i].0));
    }
    assert forall|i: int| 0 <= i < ls.len() implies (#[trigger] ls[i]).len() > 0 && !ls[i].contains(
        '\n',
    ) && ls[i].last() != '\r' by {
        let p = pairs[i];
        assert(h@.contains_key(p.0));
        lemma_decimal_digits(p.1 as nat);
        let d = decimal(p.1 as nat);
        let l = history_line(p.0, p.1);
        assert(ls[i] == l);
        assert(l.last() == d.last());
        assert forall|j: int| 0 <= j < l.len() implies l[j] != '\n' by {
            if j < p.0.len() {
                assert(l[j] == p.0[j]);
            } else if j > p.0.len() {
                assert(l[j] == d[j - p.0.len() - 1]);
            }
        }
    }
    lemma_lines_join(ls);
    lemma_parse_history_lines_listing(pairs);
    lemma_listing_map_of_listing(h@, pairs);
}

/// The map that reading back the lines of a listing yields: a line whose
/// id holds `|` is split at that `|` and its remainder, which then holds a
/// `|` too, is no number, so the line is not read back.
pub open spec fn readable_map(pairs: Seq<(Seq<char>, u64)>) -> Map<Seq<char>, u64>
    decreases pairs.len(),
{
    if pairs.len() == 0 {
        Map::empty()
    } else {
        let m = readable_map(pairs.drop_last());
        if pairs.last().0.contains('|') {
            m
        } else {
            m.insert(pairs.last().0, pairs.last().1)
        }
    }
}

proof fn lemma_digits_all_digits(s: Seq<char>, radix: nat, i: int)
    requires
        digits_value(s, radix) is Some,
        0 <= i < s.len(),
    ensures
        digit_value(s[i], radix) is Some,
    decreases s.len(),
{
    if i < s.len() - 1 {
        assert(s.drop_last()[i] == s[i]);
        lemma_digits_all_digits(s.drop_last(), radix, i);
    }
}

/// A history line whose id holds `|` is not read back.
proof fn lemma_line_with_bar_unread(id: Seq<char>, count: u64)
    requires
        id.contains('|'),
    ensures
        split_once(history_line(id, count), '|') matches Some((a, b)) ==> parse_unsigned(
            b,
            10,
            u64::MAX as nat,
        ) is None,
{
    let l = history_line(id, count);
    let n = seq!['|'];
    let t = choose|t: int| 0 <= t < id.len() && id[t] == '|';
    assert(l[t] == '|');
    assert(l.subrange(t, t + 1) == n);
    assert(occurs_at(l, n, t));
    lemma_find_from_some(l, n, 0);
    let q = find_from(l, n, 0)->0;
    assert(q <= t);
    assert(l.subrange(q, q + 1)[0] == l[q]);
    let b = l.skip(q + 1);
    let j = id.len() - q - 1;
    assert(b[j] == '|');
    if parse_unsigned(b, 10, u64::MAX as nat) is Some {
        let ds = if b[0] == '+' {
            b.drop_first()
        } else {
            b
        };
        if b[0] == '+' {
            assert(j > 0);
            assert(ds[j - 1] == '|');
            lemma_digits_all_digits(ds, 10, j - 1);
        } else {
            lemma_digits_all_digits(ds, 10, j);
        }
    }
}

proof fn lemma_readable_map_facts(pairs: Seq<(Seq<char>, u64)>)
    ensures
        forall|k: Seq<char>| #[trigger]
            readable_map(pairs).contains_key(k) ==> !k.contains('|') && exists|i: int|
                0 <= i < pairs.len() && pairs[i].0 == k && readable_map(pairs)[k] == pairs[i].1,
        forall|i: int|
            0 <= i < pairs.len() && !pairs[i].0.contains('|') ==> readable_map(pairs).contains_key(
                #[trigger] pairs[i].0,
            ),
    decreases pairs.len(),
{
    if pairs.len() > 0 {
        let front = pairs.drop_last();
        lemma_readable_map_facts(front);
        let last = pairs.len() - 1;
        assert forall|k: Seq<char>| #[trigger]
            readable_map(pairs).contains_key(k) implies !k.contains('|') && exists|i: int|
                0 <= i < pairs.len() && pairs[i].0 == k && readable_map(pairs)[k]
                    == pairs[i].1 by {
            if k == pairs[last].0 && !pairs[last].0.contains('|') {
                assert(pairs[last].0 == k && readable_map(pairs)[k] == pairs[last].1);
            } else {
                assert(readable_map(front).contains_key(k));
                let i = choose|i: int|
                    0 <= i < front.len() && front[i].0 == k && readable_map(front)[k] == front[i].1;
                assert(pairs[i] == front[i]);
            }
        }
        assert forall|i: int|
            0 <= i < pairs.len() && !pairs[i].0.contains('|') implies readable_map(
                pairs,
            ).contains_key(#[trigger] pairs[i].0) by {
            if i < last {
                assert(front[i] == pairs[i]);
            }
        }
    }
}

/// Reading back the lines of a listing yields `readable_map`.
proof fn lemma_parse_history_lines_readable(pairs: Seq<(Seq<char>, u64)>)
    ensures
        parse_history_lines(history_lines(pairs)) == readable_map(pairs),
    decreases pairs.len(),
{
    if pairs.len() > 0 {
        let ls = history_lines(pairs);
        let front = pairs.drop_last();
        assert(ls.drop_last() == history_lines(front));
        lemma_parse_history_lines_readable(front);
        let p = pairs[pairs.len() - 1];
        assert(ls.last() == history_line(p.0, p.1));
        if p.0.contains('|') {
            lemma_line_with_bar_unread(p.0, p.1);
        } else {
            lemma_split_once_at(p.0, '|', decimal(p.1 as nat));
            lemma_decimal_digits(p.1 as nat);
            assert(parse_unsigned(decimal(p.1 as nat), 10, u64::MAX as nat) == Some(p.1 as nat));
        }
    }
}

/// Writing a history out and reading the text back gives every id its
/// score, for histories whose ids with a positive count hold neither `|`
/// nor a line break.  (`text` and `unbroken_zero_ids` are what
/// `History::to_contents` ensures of every history.)
pub proof fn history_scores_round_trip(h: History, text: Seq<char>)
    requires
        exists|pairs: Seq<(Seq<char>, u64)>|
            is_history_listing(h@, pairs) && text == render_history(pairs),
        unbroken_zero_ids(h@),
        forall|k: Seq<char>| #[trigger]
            h@.contains_key(k) && h@[k] > 0 ==> !k.contains('\n') && !k.contains('|'),
    ensures
        forall|id: Seq<char>| count_of(parse_history(text), id) == #[trigger] count_of(h@, id),
{
    let pairs = choose|pairs: Seq<(Seq<char>, u64)>|
        is_history_listing(h@, pairs) && text == render_history(pairs);
    let ls = history_lines(pairs);
    assert forall|i: int| 0 <= i < ls.len() implies (#[trigger] ls[i]).len() > 0 && !ls[i].contains(
        '\n',
    ) && ls[i].last() != '\r' by {
        let p = pairs[i];
        assert(h@.contains_key(p.0));
        assert(h@[p.0] == p.1);
        assert(!p.0.contains('\n'));
        lemma_decimal_digits(p.1 as nat);
        let d = decimal(p.1 as nat);
        let l = history_line(p.0, p.1);
        assert(ls[i] == l);
        assert(l.last() == d.last());
        assert forall|j: int| 0 <= j < l.len() implies l[j] != '\n' by {
            if j < p.0.len() {
                assert(l[j] == p.0[j]);
            } else if j > p.0.len() {
                assert(l[j] == d[j - p.0.len() - 1]);
            }
        }
    }
    lemma_lines_join(ls);
    lemma_parse_history_lines_readable(pairs);
    lemma_readable_map_facts(pairs);
    let m = readable_map(pairs);
    assert forall|id: Seq<char>| count_of(m, id) == #[trigger] count_of(h@, id) by {
        if m.contains_key(id) {
            let i = choose|i: int| 0 <= i < pairs.len() && pairs[i].0 == id && m[id] == pairs[i].1;
            assert(h@.contains_key(pairs[i].0));
        } else if h@.contains_key(id) {
            let i = choose|i: int| 0 <= i < pairs.len() && pairs[i].0 == id;
            assert(h@[pairs[i].0] == pairs[i].1);
            if !pairs[i].0.contains('|') {
                assert(m.contains_key(pairs[i].0));
            }
        }
    }
}

/// Bumping an id raises its score by one and leaves every other score as
/// it was.
pub proof fn bump_raises_only_its_score(before: History, after: History, id: Seq<char>, other: Seq<char>)
    requires
        before.spec_score(id) < u64::MAX,
        after@ == before@.insert(id, (before.spec_score(id) + 1) as u64),
    ensures
        after.spec_score(id) == before.spec_score(id) + 1,
        other != id ==> after.spec_score(other) == before.spec_score(other),
{
}

/// How often `id` occurs in `ids`.
pub open spec fn occurrences(ids: Seq<Seq<char>>, id: Seq<char>) -> nat
    decreases ids.len(),
{
    if ids.len() == 0 {
        0
    } else {
        occurrences(ids.drop_last(), id) + if ids.last() == id {
            1nat
        } else {
            0nat
        }
    }
}

/// `hs[i + 1]` is `hs[i]` after `bump(ids[i])`, as `bump`'s contract
/// relates them.
pub open spec fn bump_step(ids: Seq<Seq<char>>, hs: Seq<History>, i: int) -> bool {
    &&& hs[i].spec_score(ids[i]) < u64::MAX
    &&& hs[i + 1]@ == hs[i]@.insert(ids[i], (hs[i].spec_score(ids[i]) + 1) as u64)
}

proof fn lemma_bump_prefix(ids: Seq<Seq<char>>, hs: Seq<History>, n: int)
    requires
        hs.len() == ids.len() + 1,
        0 <= n <= ids.len(),
        hs[0]@ == Map::<Seq<char>, u64>::empty(),
        forall|i: int| 0 <= i < ids.len() ==> #[trigger] bump_step(ids, hs, i),
    ensures
        forall|id: Seq<char>| #[trigger] hs[n].spec_score(id) == occurrences(ids.take(n), id),
    decreases n,
{
    if n == 0 {
        assert forall|id: Seq<char>| #[trigger] hs[n].spec_score(id) == occurrences(ids.take(n), id) by {
            assert(ids.take(0).len() == 0);
        }
    } else {
        lemma_bump_prefix(ids, hs, n - 1);
        assert(ids.take(n).drop_last() == ids.take(n - 1));
        assert(ids.take(n).last() == ids[n - 1]);
        let prev = hs[n - 1];
        assert(bump_step(ids, hs, n - 1));
        assert(hs[n]@ == prev@.insert(ids[n - 1], (prev.spec_score(ids[n - 1]) + 1) as u64));
        assert forall|id: Seq<char>| #[trigger] hs[n].spec_score(id) == occurrences(ids.take(n), id) by {
            assert(prev.spec_score(id) == occurrences(ids.take(n - 1), id));
        }
    }
}

/// After bumping each of `ids` in turn, starting from an empty history,
/// each id's score is the number of times it was bumped.  `hs[i]` is the
/// history after the first `i` bumps, related as `bump` relates them.
pub proof fn bumps_count_launches(ids: Seq<Seq<char>>, hs: Seq<History>)
    requires
        hs.len() == ids.len() + 1,
        hs[0]@ == Map::<Seq<char>, u64>::empty(),
        forall|i: int| 0 <= i < ids.len() ==> #[trigger] bump_step(ids, hs, i),
    ensures
        forall|id: Seq<char>| #[trigger] hs[ids.len() as int].spec_score(id) == occurrences(ids, id),
{
    lemma_bump_prefix(ids, hs, ids.len() as int);
    assert(ids.take(ids.len() as int) == ids);
}

proof fn lemma_pairs_map_index(s: Seq<(String, u64)>, i: int)
    requires
        unique_ids(s),
        0 <= i < s.len(),
    ensures
        pairs_map(s).contains_key(s[i].0@),
        pairs_map(s)[s[i].0@] == s[i].1,
    decreases s.len(),
{
    if i < s.len() - 1 {
        assert(s.drop_last()[i] == s[i]);
        lemma_pairs_map_index(s.drop_last(), i);
    }
}

proof fn lemma_pairs_map_keys(s: Seq<(String, u64)>, k: Seq<char>)
    ensures
        pairs_map(s).contains_key(k) <==> exists|i: int| 0 <= i < s.len() && s[i].0@ == k,
    decreases s.len(),
{
    if s.len() > 0 {
        lemma_pairs_map_keys(s.drop_last(), k);
        if exists|i: int| 0 <= i < s.len() - 1 && s.drop_last()[i].0@ == k {
            let i = choose|i: int| 0 <= i < s.len() - 1 && s.drop_last()[i].0@ == k;
            assert(s[i].0@ == k);
        }
        if exists|i: int| 0 <= i < s.len() && s[i].0@ == k {
            let i = choose|i: int| 0 <= i < s.len() && s[i].0@ == k;
            if i < s.len() - 1 {
                assert(s.drop_last()[i].0@ == k);
            }
        }
    }
}

proof fn lemma_pairs_map_update(s: Seq<(String, u64)>, i: int, p: (String, u64))
    requires
        unique_ids(s),
        0 <= i < s.len(),
        p.0@ == s[i].0@,
    ensures
        pairs_map(s.update(i, p)) == pairs_map(s).insert(p.0@, p.1),
    decreases s.len(),
{
    let t = s.update(i, p);
    if i == s.len() - 1 {
        assert(t.drop_last() == s.drop_last());
        assert(pairs_map(s).insert(p.0@, p.1) == pairs_map(s.drop_last()).insert(p.0@, p.1));
    } else {
        assert(t.drop_last() == s.drop_last().update(i, p));
        lemma_pairs_map_update(s.drop_last(), i, p);
        assert(s.last().0@ != p.0@);
        assert(pairs_map(t) == pairs_map(s.drop_last()).insert(p.0@, p.1).insert(
            s.last().0@,
            s.last().1,
        ));
        assert(pairs_map(t) =~= pairs_map(s).insert(p.0@, p.1));
    }
}

proof fn lemma_unbroken_view(s: Seq<(String, u64)>)
    requires
        unique_ids(s),
        zero_ids_unbroken(s),
    ensures
        unbroken_zero_ids(pairs_map(s)),
{
    assert forall|k: Seq<char>| #[trigger] pairs_map(s).contains_key(k) && pairs_map(s)[k] == 0
        implies !k.contains('\n') by {
        lemma_pairs_map_keys(s, k);
        let i = choose|i: int| 0 <= i < s.len() && s[i].0@ == k;
        lemma_pairs_map_index(s, i);
        assert(s[i].1 == 0);
    }
}

impl History {
    #[verifier::type_invariant]
    spec fn inv(self) -> bool {
        unique_ids(self.counts@) && zero_ids_unbroken(self.counts@)
    }

    /// The score of an id: its launch count, or 0.
    pub open spec fn spec_score(&self, id: Seq<char>) -> u64 {
        count_of(self@, id)
    }

    /// An empty history.
    pub fn new() -> (h: History)
        ensures
            h@ == Map::<Seq<char>, u64>::empty(),
    {
        History { counts: Vec::new() }
    }

    /// The position of `id` in the list, if it is there.
    fn position(&self, id: &[char]) -> (r: Option<usize>)
        ensures
            r matches Some(i) ==> i < self.counts@.len() && self.counts@[i as int].0@ == id@,
            r is None ==> forall|i: int|
                0 <= i < self.counts@.len() ==> self.counts@[i].0@ != id@,
    {
        let mut i: usize = 0;
        while i < self.counts.len()
            invariant
                i <= self.counts@.len(),
                forall|k: int| 0 <= k < i ==> self.counts@[k].0@ != id@,
            decreases self.counts@.len() - i,
        {
            let cs = chars_of(self.counts[i].0.as_str());
            if chars_eq(&cs, id) {
                return Some(i);
            }
            i = i + 1;
        }
        None
    }

    /// Counts one more launch of `id`.
    pub fn bump(&mut self, id: &str)
        requires
            old(self).spec_score(id@) < u64::MAX,
        ensures
            final(self)@ == old(self)@.insert(id@, (old(self).spec_score(id@) + 1) as u64),
    {
        let n = self.score(id);
        let idc = chars_of(id);
        self.set(&idc, n + 1);
    }

    /// The launch count of `id`, or 0 if it was never launched.
    pub fn score(&self, id: &str) -> (r: u64)
        ensures
            r == self.spec_score(id@),
    {
        proof {
            use_type_invariant(self);
            lemma_pairs_map_keys(self.counts@, id@);
        }
        let idc = chars_of(id);
        match self.position(&idc) {
            Some(i) => {
                proof {
                    lemma_pairs_map_index(self.counts@, i as int);
                }
                self.counts[i].1
            },
            None => 0,
        }
    }

    /// Binds `id` to `count`, replacing an earlier binding.
    fn set(&mut self, id: &[char], count: u64)
        requires
            count > 0 || !id@.contains('\n'),
        ensures
            final(self)@ == old(self)@.insert(id@, count),
    {
        proof {
            use_type_invariant(&*self);
        }
        let name = string_of(id);
        let ghost old_counts = self.counts@;
        match self.position(id) {
            Some(i) => {
                let mut counts: Vec<(String, u64)> = Vec::new();
                std::mem::swap(&mut counts, &mut self.counts);
                counts.set(i, (name, count));
                proof {
                    lemma_pairs_map_update(old_counts, i as int, (name, count));
                    assert forall|a: int, b: int| 0 <= a < b < counts@.len() implies counts@[a].0@
                        != counts@[b].0@ by {
                        if a != i && b != i {
                            assert(counts@[a] == old_counts[a] && counts@[b] == old_counts[b]);
                        } else if a == i {
                            assert(counts@[b] == old_counts[b]);
                        } else {
                            assert(counts@[a] == old_counts[a]);
                        }
                    }
                    assert forall|a: int| 0 <= a < counts@.len() && (#[trigger] counts@[a]).1
                        == 0 implies !counts@[a].0@.contains('\n') by {
                        if a != i {
                            assert(counts@[a] == old_counts[a]);
                        }
                    }
                }
                self.counts = counts;
            },
            None => {
                let mut counts: Vec<(String, u64)> = Vec::new();
                std::mem::swap(&mut counts, &mut self.counts);
                counts.push((name, count));
                proof {
                    assert(counts@.drop_last() == old_counts);
                    assert forall|a: int, b: int| 0 <= a < b < counts@.len() implies counts@[a].0@
                        != counts@[b].0@ by {
                        if b < old_counts.len() {
                            assert(counts@[a] == old_counts[a] && counts@[b] == old_counts[b]);
                        } else {
                            assert(counts@[a] == old_counts[a]);
                        }
                    }
                    assert forall|a: int| 0 <= a < counts@.len() && (#[trigger] counts@[a]).1
                        == 0 implies !counts@[a].0@.contains('\n') by {
                        if a < old_counts.len() {
                            assert(counts@[a] == old_counts[a]);
                        }
                    }
                }
                self.counts = counts;
            },
        }
    }

    /// Reads a history text: one `id|count` per line.
    pub fn from_contents(contents: &str) -> (h: History)
        ensures
            h@ == parse_history(contents@),
    {
        let cs = chars_of(contents);
        let ls = lines_chars(&cs);
        let ghost lv = lines(contents@);
        proof {
            lemma_lines_no_newline(contents@);
        }
        let mut h = History::new();
        let mut i: usize = 0;
        while i < ls.len()
            invariant
                i <= ls@.len(),
                ls@.len() == lv.len(),
                lv == lines(contents@),
                forall|k: int| 0 <= k < lv.len() ==> !(#[trigger] lv[k]).contains('\n'),
                forall|k: int| 0 <= k < ls@.len() ==> #[trigger] ls@[k]@ == lv[k],
                h@ == parse_history_lines(lv.take(i as int)),
            decreases ls@.len() - i,
        {
            assert(lv.take(i + 1).drop_last() == lv.take(i as int));
            assert(lv.take(i + 1).last() == ls@[i as int]@);
            match split_once_chars(&ls[i], '|') {
                Some((id, count)) => {
                    match parse_unsigned_chars(&count, 10, u64::MAX) {
                        Some(v) => {
                            proof {
                                let line = ls@[i as int]@;
                                assert(!lv[i as int].contains('\n'));
                                lemma_find_from_some(line, seq!['|'], 0);
                                let p = find_from(line, seq!['|'], 0)->0;
                                assert(id@ == line.take(p));
                                assert forall|j: int| 0 <= j < id@.len() implies id@[j] != '\n' by {
                                    assert(id@[j] == line[j]);
                                }
                            }
                            h.set(&id, v);
                        },
                        None => {},
                    }
                },
                None => {},
            }
            i = i + 1;
        }
        assert(lv.take(ls@.len() as int) == lv);
        h
    }

    /// Writes the history text: `id|count` lines, highest count first and
    /// equal counts by id, joined by `\n`.
    pub fn to_contents(&self) -> (r: String)
        ensures
            exists|pairs: Seq<(Seq<char>, u64)>|
                is_history_listing(self@, pairs) && r@ == render_history(pairs),
            unbroken_zero_ids(self@),
    {
        proof {
            use_type_invariant(self);
            lemma_unbroken_view(self.counts@);
        }
        let mut keys: Vec<SortKey> = Vec::new();
        let mut k: usize = 0;
        while k < self.counts.len()
            invariant
                k <= self.counts@.len(),
                keys@.len() == k,
                forall|a: int|
                    0 <= a < k ==> #[trigger] key_view(keys@[a]) == (
                        self.counts@[a].1 as int,
                        self.counts@[a].0@,
                    ),
            decreases self.counts@.len() - k,
        {
            keys.push(SortKey { rank: self.counts[k].1 as i128, text: chars_of(self.counts[k].0.as_str()) });
            k = k + 1;
        }
        let order = stable_order(&keys);
        let ghost kv = keys@.map_values(|k: SortKey| key_view(k));
        let ghost cs = self.counts@;
        let ghost pairs = order@.map_values(|o: usize| (cs[o as int].0@, cs[o as int].1));
        let ghost lines_v = history_lines(pairs);
        let mut r = String::new();
        let mut j: usize = 0;
        while j < order.len()
            invariant
                j <= order@.len(),
                cs == self.counts@,
                kv == keys@.map_values(|k: SortKey| key_view(k)),
                is_stable_order(kv, order@),
                order@.len() == cs.len(),
                pairs == order@.map_values(|o: usize| (cs[o as int].0@, cs[o as int].1)),
                lines_v == history_lines(pairs),
                r@ == join(lines_v.take(j as int), seq!['\n']),
            decreases order@.len() - j,
        {
            assert(lines_v.take(j + 1).drop_last() == lines_v.take(j as int));
            let o = order[j];
            if j > 0 {
                push_char(&mut r, '\n');
            }
            let ghost before = r@;
            let idc = chars_of(self.counts[o].0.as_str());
            push_chars(&mut r, &idc);
            push_char(&mut r, '|');
            push_decimal(&mut r, self.counts[o].1);
            proof {
                assert(lines_v[j as int] == history_line(cs[o as int].0@, cs[o as int].1));
                assert(r@ == before + lines_v[j as int]);
                if j == 0 {
                    assert(lines_v.take(1).len() == 1);
                    assert(before == Seq::<char>::empty());
                }
            }
            j = j + 1;
        }
        proof {
            assert(lines_v.take(order@.len() as int) == lines_v);
            assert forall|i: int| 0 <= i < pairs.len() implies #[trigger] self@.contains_key(
                pairs[i].0,
            ) && self@[pairs[i].0] == pairs[i].1 by {
                lemma_pairs_map_index(cs, order@[i] as int);
            }
            assert forall|key: Seq<char>| #[trigger] self@.contains_key(key) implies exists|i: int|
                0 <= i < pairs.len() && pairs[i].0 == key by {
                lemma_pairs_map_keys(cs, key);
                let a = choose|a: int| 0 <= a < cs.len() && cs[a].0@ == key;
                assert(order@.contains(a as usize));
                let i = choose|i: int| 0 <= i < order@.len() && order@[i] == a as usize;
                assert(pairs[i].0 == key);
            }
            assert forall|a: int, b: int|
                #![trigger pairs[a], pairs[b]]
                0 <= a < b < pairs.len() implies pairs[a].1 > pairs[b].1 || (pairs[a].1
                    == pairs[b].1 && text_lt(pairs[a].0, pairs[b].0)) by {
                let oi = order@[a] as int;
                let oj = order@[b] as int;
                assert(goes_before(kv[oi], oi, kv[oj], oj));
                assert(kv[oi] == key_view(keys@[oi]));
                assert(kv[oj] == key_view(keys@[oj]));
                if oi < oj {
                    assert(cs[oi].0@ != cs[oj].0@);
                } else if oj < oi {
                    assert(cs[oj].0@ != cs[oi].0@);
                }
            }
            assert(is_history_listing(self@, pairs));
            assert(r@ == render_history(pairs));
        }
        r
    }
}

impl Default for History {
    /// An empty history.
    fn default() -> (h: History)
        ensures
            h@ == Map::<Seq<char>, u64>::empty(),
    {
        History::new()
    }
}

} // verus!
