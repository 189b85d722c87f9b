//! Scoring entries against a query and ranking the matches.
//!
//! Scores are specified over mathematical integers.  The launcher computes
//! them in `i64`, so each specification also carries a flag that says
//! whether every intermediate value stays within `i64`; where it does not,
//! the launcher's arithmetic overflows.
use crate::config::{Config, MatchField, MatchMode};
use crate::history::{count_of, History};
use crate::model::{Entry, MatchResult, SearchData};
use crate::sort::{
    goes_before, is_stable_order, key_view, stable_order, stable_order_is_unique, SortKey,
};
use crate::text::{
    byte_len, chars_of, contains, find, find_chars, lemma_find_from_some, lemma_utf8_len_add,
    lemma_utf8_len_ge_len, lemma_utf8_len_take, occurs_at, prefix_byte_len, spec_to_lowercase,
    starts_with, starts_with_chars, strings_of, text_lt, to_lowercase, trim, trim_str, utf8_len, words,
    words_chars,
};
use vstd::prelude::*;

verus! {

// ---------------------------------------------------------------------------
// Specification
// ---------------------------------------------------------------------------

/// Whether `x` is a value of `i64`.
pub open spec fn fits(x: int) -> bool {
    i64::MIN <= x <= i64::MAX
}

/// Positions as integers.
pub open spec fn ints(v: Seq<usize>) -> Seq<int> {
    v.map_values(|x: usize| x as int)
}

/// `u64 as i64`: values above `i64::MAX` wrap around to negatives.
pub open spec fn wrap_i64(c: u64) -> int {
    if c <= i64::MAX {
        c as int
    } else {
        c - 0x1_0000_0000_0000_0000
    }
}

/// Exact matching: the first occurrence of `n` in `h`, at byte offset
/// `start`, scores `150 - start`, plus 30 at the very start; the matched
/// positions are the bytes of the occurrence.
pub open spec fn spec_exact_score(h: Seq<char>, n: Seq<char>) -> Option<(int, Seq<int>)> {
    match find(h, n) {
        None => None,
        Some(p) => {
            let start = utf8_len(h.take(p)) as int;
            Some(
                (
                    if start == 0 {
                        180
                    } else {
                        150 - start
                    },
                    Seq::new(utf8_len(n), |k: int| start + k),
                ),
            )
        },
    }
}

/// fzf-style matching, from haystack character `i` on, with needle
/// character `k` still to match: each matched character scores 10, plus 15
/// when it follows the previous match directly, minus the gap otherwise, plus
/// 20 for a first match at position 0; a complete match scores 100 more.
/// The second component says whether every partial score was an `i64`.
pub open spec fn subseq_run(
    h: Seq<char>,
    n: Seq<char>,
    i: int,
    k: int,
    score: int,
    last: Option<int>,
    idx: Seq<int>,
    ok: bool,
) -> (Option<(int, Seq<int>)>, bool)
    decreases h.len() - i,
{
    if i < 0 || i >= h.len() || k < 0 || k >= n.len() {
        (None, ok)
    } else if h[i] != n[k] {
        subseq_run(h, n, i + 1, k, score, last, idx, ok)
    } else {
        let s1 = score + 10;
        let s2 = match last {
            Some(prev) => if i == prev + 1 {
                s1 + 15
            } else {
                s1 - (i - prev)
            },
            None => if i == 0 {
                s1 + 20
            } else {
                s1
            },
        };
        let ok2 = ok && fits(s1) && fits(s2);
        if k + 1 < n.len() {
            subseq_run(h, n, i + 1, k + 1, s2, Some(i), idx.push(i), ok2)
        } else {
            (Some((s2 + 100, idx.push(i))), ok2 && fits(s2 + 100))
        }
    }
}

/// fzf-style matching of `n` as a subsequence of `h`, greedily from the left,
/// with character positions as the matched positions.
pub open spec fn spec_subsequence_score(h: Seq<char>, n: Seq<char>) -> (Option<(int, Seq<int>)>, bool) {
    if n.len() == 0 {
        (Some((0, Seq::empty())), true)
    } else {
        subseq_run(h, n, 0, 0, 0, None, Seq::empty(), true)
    }
}

/// Bonus for the whole query: 120 if the text starts with it, 50 if it
/// contains it elsewhere, 0 otherwise or for an empty query.
pub open spec fn spec_prefix_bonus(h: Seq<char>, q: Seq<char>) -> int {
    if q.len() == 0 {
        0
    } else if starts_with(h, q) {
        120
    } else if contains(h, q) {
        50
    } else {
        0
    }
}

/// The score of one token against one field in the given mode.
pub open spec fn spec_candidate(h: Seq<char>, token: Seq<char>, mode: MatchMode) -> (Option<(int, Seq<int>)>, bool) {
    match mode {
        MatchMode::Exact => (spec_exact_score(h, token), true),
        MatchMode::Fzf => spec_subsequence_score(h, token),
    }
}

/// The best score of a token over the given fields, skipping empty fields;
/// on a tie the earlier field wins.
pub open spec fn spec_score_fields(
    s: SearchData,
    fields: Seq<MatchField>,
    token: Seq<char>,
    mode: MatchMode,
) -> (Option<(int, Seq<int>)>, bool)
    decreases fields.len(),
{
    if fields.len() == 0 {
        (None, true)
    } else {
        let (best, ok) = spec_score_fields(s, fields.drop_last(), token, mode);
        let h = s.spec_field(fields.last());
        if h.len() == 0 {
            (best, ok)
        } else {
            let (cand, cok) = spec_candidate(h, token, mode);
            let next = match cand {
                Some(c) => match best {
                    Some(b) => if c.0 > b.0 {
                        Some(c)
                    } else {
                        best
                    },
                    None => Some(c),
                },
                None => best,
            };
            (next, ok && cok)
        }
    }
}

/// The summed score and concatenated positions of all tokens, or `None` as
/// soon as one token matches no field.
pub open spec fn spec_token_total(
    s: SearchData,
    tokens: Seq<Seq<char>>,
    fields: Seq<MatchField>,
    mode: MatchMode,
) -> (Option<(int, Seq<int>)>, bool)
    decreases tokens.len(),
{
    if tokens.len() == 0 {
        (Some((0, Seq::empty())), true)
    } else {
        let (prev, ok) = spec_token_total(s, tokens.drop_last(), fields, mode);
        match prev {
            None => (None, ok),
            Some(p) => {
                let (t, tok) = spec_score_fields(s, fields, tokens.last(), mode);
                match t {
                    None => (None, ok && tok),
                    Some(c) => (Some((p.0 + c.0, p.1 + c.1)), ok && tok && fits(p.0 + c.0)),
                }
            },
        }
    }
}

/// The normalized query: trimmed, then lowercased.
pub open spec fn normalized_query(query: Seq<char>) -> Seq<char> {
    spec_to_lowercase(trim(query))
}

/// The score of an entry for a normalized query `q`: the token total (10
/// for a query without tokens), plus 50 per recorded launch, plus the
/// whole-query bonus on the combined text, minus the label's byte length.
pub open spec fn spec_entry_result(
    e: Entry,
    q: Seq<char>,
    hist: Map<Seq<char>, u64>,
    fields: Seq<MatchField>,
    mode: MatchMode,
) -> (Option<(int, Seq<int>)>, bool) {
    let tokens = words(q);
    let (r, ok) = spec_token_total(e.search, tokens, fields, mode);
    match r {
        None => (None, ok),
        Some(p) => {
            let base = if tokens.len() == 0 {
                10
            } else {
                p.0
            };
            let hs = wrap_i64(count_of(hist, e.id@)) * 50;
            let s1 = base + hs;
            let s2 = s1 + spec_prefix_bonus(e.search.combined@, q);
            let s3 = s2 - utf8_len(e.label@);
            (Some((s3, p.1)), ok && fits(hs) && fits(s1) && fits(s2) && fits(s3))
        },
    }
}

/// The entries that match, in entry order: position, score and
/// matched positions.
pub open spec fn spec_matched(
    entries: Seq<Entry>,
    q: Seq<char>,
    hist: Map<Seq<char>, u64>,
    fields: Seq<MatchField>,
    mode: MatchMode,
) -> Seq<(int, int, Seq<int>)>
    decreases entries.len(),
{
    if entries.len() == 0 {
        Seq::empty()
    } else {
        let prev = spec_matched(entries.drop_last(), q, hist, fields, mode);
        match spec_entry_result(entries.last(), q, hist, fields, mode).0 {
            Some(r) => prev.push((entries.len() - 1, r.0, r.1)),
            None => prev,
        }
    }
}

/// Whether scoring every entry stays within `i64`.
pub open spec fn spec_all_fit(
    entries: Seq<Entry>,
    q: Seq<char>,
    hist: Map<Seq<char>, u64>,
    fields: Seq<MatchField>,
    mode: MatchMode,
) -> bool {
    forall|i: int| 0 <= i < entries.len() ==> #[trigger] spec_entry_result(entries[i], q, hist, fields, mode).1
}

/// The ranking keys of the matches: score, then lowercased label.
pub open spec fn match_keys(entries: Seq<Entry>, matched: Seq<(int, int, Seq<int>)>) -> Seq<(int, Seq<char>)> {
    matched.map_values(|m: (int, int, Seq<int>)| (m.1, spec_to_lowercase(entries[m.0].label@)))
}

/// `res` holds the matches ranked by score, highest first, equal scores by
/// lowercased label, and equal keys in entry order.
pub open spec fn is_ranking(
    entries: Seq<Entry>,
    matched: Seq<(int, int, Seq<int>)>,
    res: Seq<MatchResult>,
) -> bool {
    &&& res.len() == matched.len()
    &&& exists|ord: Seq<usize>|
        #![trigger is_stable_order(match_keys(entries, matched), ord)]
        is_stable_order(match_keys(entries, matched), ord) && forall|j: int|
            0 <= j < res.len() ==> {
                let m = matched[ord[j] as int];
                &&& #[trigger] res[j].entry == entries[m.0]
                &&& res[j].score == m.1
                &&& ints(res[j].matched_indices@) == m.2
            }
}

// ---------------------------------------------------------------------------
// Laws
// ---------------------------------------------------------------------------

/// An entry matches a query exactly when every token of the query matches
/// one of the searched fields.
pub proof fn tokens_must_all_match(
    s: SearchData,
    tokens: Seq<Seq<char>>,
    fields: Seq<MatchField>,
    mode: MatchMode,
)
    ensures
        spec_token_total(s, tokens, fields, mode).0 is Some <==> forall|t: int|
            0 <= t < tokens.len() ==> (#[trigger] spec_score_fields(s, fields, tokens[t], mode)).0 is Some,
    decreases tokens.len(),
{
    if tokens.len() > 0 {
        let front = tokens.drop_last();
        tokens_must_all_match(s, front, fields, mode);
        assert forall|t: int| 0 <= t < front.len() implies front[t] == tokens[t] by {}
        if spec_token_total(s, tokens, fields, mode).0 is Some {
            assert forall|t: int| 0 <= t < tokens.len() implies (#[trigger] spec_score_fields(
                s,
                fields,
                tokens[t],
                mode,
            )).0 is Some by {
                if t < front.len() {
                    assert(front[t] == tokens[t]);
                }
            }
        }
        if forall|t: int|
            0 <= t < tokens.len() ==> (#[trigger] spec_score_fields(s, fields, tokens[t], mode)).0 is Some {
            assert(spec_score_fields(s, fields, tokens[tokens.len() - 1], mode).0 is Some);
            assert forall|t: int| 0 <= t < front.len() implies (#[trigger] spec_score_fields(
                s,
                fields,
                front[t],
                mode,
            )).0 is Some by {
                assert(front[t] == tokens[t]);
                assert(spec_score_fields(s, fields, tokens[t], mode).0 is Some);
            }
        }
    }
}

/// A query without tokens keeps every entry, in entry order.
pub proof fn empty_query_keeps_all(
    entries: Seq<Entry>,
    q: Seq<char>,
    hist: Map<Seq<char>, u64>,
    fields: Seq<MatchField>,
    mode: MatchMode,
)
    requires
        words(q).len() == 0,
    ensures
        spec_matched(entries, q, hist, fields, mode).len() == entries.len(),
        forall|i: int|
            0 <= i < entries.len() ==> (#[trigger] spec_matched(entries, q, hist, fields, mode)[i]).0
                == i,
    decreases entries.len(),
{
    if entries.len() > 0 {
        empty_query_keeps_all(entries.drop_last(), q, hist, fields, mode);
        assert(spec_token_total(entries.last().search, words(q), fields, mode).0 is Some);
        let prev = spec_matched(entries.drop_last(), q, hist, fields, mode);
        let m = spec_matched(entries, q, hist, fields, mode);
        assert forall|i: int| 0 <= i < entries.len() implies (#[trigger] m[i]).0 == i by {
            if i < entries.len() - 1 {
                assert(m[i] == prev[i]);
            }
        }
    }
}

/// One more recorded launch of an entry raises its score by exactly 50 and
/// changes nothing else about its match.
pub proof fn launch_adds_fifty(
    e: Entry,
    q: Seq<char>,
    hist: Map<Seq<char>, u64>,
    fields: Seq<MatchField>,
    mode: MatchMode,
)
    requires
        count_of(hist, e.id@) < i64::MAX,
    ensures
        ({
            let before = spec_entry_result(e, q, hist, fields, mode).0;
            let after = spec_entry_result(
                e,
                q,
                hist.insert(e.id@, (count_of(hist, e.id@) + 1) as u64),
                fields,
                mode,
            ).0;
            &&& (before is Some <==> after is Some)
            &&& before matches Some(b) ==> after == Some((b.0 + 50, b.1))
        }),
{
    let c = count_of(hist, e.id@);
    let hist2 = hist.insert(e.id@, (c + 1) as u64);
    assert(count_of(hist2, e.id@) == c + 1);
    assert(wrap_i64((c + 1) as u64) == c + 1);
    assert(wrap_i64(c) == c);
}

/// The ranked matches come highest score first; equal scores come in the
/// order of their lowercased labels.
pub proof fn ranking_is_sorted(
    entries: Seq<Entry>,
    matched: Seq<(int, int, Seq<int>)>,
    res: Seq<MatchResult>,
)
    requires
        is_ranking(entries, matched, res),
    ensures
        forall|i: int, j: int|
            #![trigger res[i], res[j]]
            0 <= i < j < res.len() ==> {
                let li = spec_to_lowercase(res[i].entry.label@);
                let lj = spec_to_lowercase(res[j].entry.label@);
                ||| res[i].score > res[j].score
                ||| (res[i].score == res[j].score && (text_lt(li, lj) || li == lj))
            },
{
    let keys = match_keys(entries, matched);
    let ord = choose|ord: Seq<usize>|
        #![trigger is_stable_order(keys, ord)]
        is_stable_order(keys, ord) && forall|j: int|
            0 <= j < res.len() ==> {
                let m = matched[ord[j] as int];
                &&& #[trigger] res[j].entry == entries[m.0]
                &&& res[j].score == m.1
                &&& ints(res[j].matched_indices@) == m.2
            };
    assert forall|i: int, j: int|
        #![trigger res[i], res[j]]
        0 <= i < j < res.len() implies {
            let li = spec_to_lowercase(res[i].entry.label@);
            let lj = spec_to_lowercase(res[j].entry.label@);
            ||| res[i].score > res[j].score
            ||| (res[i].score == res[j].score && (text_lt(li, lj) || li == lj))
        } by {
        assert(ord[i] < keys.len() && ord[j] < keys.len());
        assert(goes_before(keys[ord[i] as int], ord[i] as int, keys[ord[j] as int], ord[j] as int));
        assert(res[i].entry == entries[matched[ord[i] as int].0]);
        assert(res[j].entry == entries[matched[ord[j] as int].0]);
        assert(keys[ord[i] as int] == (
            matched[ord[i] as int].1,
            spec_to_lowercase(entries[matched[ord[i] as int].0].label@),
        ));
        assert(keys[ord[j] as int] == (
            matched[ord[j] as int].1,
            spec_to_lowercase(entries[matched[ord[j] as int].0].label@),
        ));
    }
}

/// Two rankings of the same matches are equal, match by match.
pub proof fn rankings_agree(
    entries: Seq<Entry>,
    matched: Seq<(int, int, Seq<int>)>,
    r1: Seq<MatchResult>,
    r2: Seq<MatchResult>,
)
    requires
        is_ranking(entries, matched, r1),
        is_ranking(entries, matched, r2),
    ensures
        r1.len() == r2.len(),
        forall|j: int|
            0 <= j < r1.len() ==> (#[trigger] r1[j]).entry == r2[j].entry && r1[j].score
                == r2[j].score && r1[j].matched_indices@ == r2[j].matched_indices@,
{
    let keys = match_keys(entries, matched);
    let o1 = choose|ord: Seq<usize>|
        #![trigger is_stable_order(keys, ord)]
        is_stable_order(keys, ord) && forall|j: int|
            0 <= j < r1.len() ==> {
                let m = matched[ord[j] as int];
                &&& #[trigger] r1[j].entry == entries[m.0]
                &&& r1[j].score == m.1
                &&& ints(r1[j].matched_indices@) == m.2
            };
    let o2 = choose|ord: Seq<usize>|
        #![trigger is_stable_order(keys, ord)]
        is_stable_order(keys, ord) && forall|j: int|
            0 <= j < r2.len() ==> {
                let m = matched[ord[j] as int];
                &&& #[trigger] r2[j].entry == entries[m.0]
                &&& r2[j].score == m.1
                &&& ints(r2[j].matched_indices@) == m.2
            };
    stable_order_is_unique(keys, o1, o2);
    assert forall|j: int| 0 <= j < r1.len() implies (#[trigger] r1[j]).entry == r2[j].entry
        && r1[j].score == r2[j].score && r1[j].matched_indices@ == r2[j].matched_indices@ by {
        assert(r1[j].entry == entries[matched[o1[j] as int].0]);
        assert(r2[j].entry == entries[matched[o2[j] as int].0]);
        let v1 = r1[j].matched_indices@;
        let v2 = r2[j].matched_indices@;
        assert(ints(v1) == ints(v2));
        assert forall|k: int| 0 <= k < v1.len() implies v1[k] == v2[k] by {
            assert(ints(v1)[k] == v1[k] as int);
            assert(ints(v2)[k] == v2[k] as int);
        }
        assert(v1 =~= v2);
    }
}

/// Queries that are equal once trimmed and lowercased rank the entries the
/// same way, match by match.
pub proof fn same_normalized_query_same_results(
    entries: Seq<Entry>,
    q1: Seq<char>,
    q2: Seq<char>,
    hist: Map<Seq<char>, u64>,
    fields: Seq<MatchField>,
    mode: MatchMode,
    r1: Seq<MatchResult>,
    r2: Seq<MatchResult>,
)
    requires
        normalized_query(q1) == normalized_query(q2),
        is_ranking(entries, spec_matched(entries, normalized_query(q1), hist, fields, mode), r1),
        is_ranking(entries, spec_matched(entries, normalized_query(q2), hist, fields, mode), r2),
    ensures
        r1.len() == r2.len(),
        forall|j: int|
            0 <= j < r1.len() ==> (#[trigger] r1[j]).entry == r2[j].entry && r1[j].score
                == r2[j].score && r1[j].matched_indices@ == r2[j].matched_indices@,
{
    rankings_agree(
        entries,
        spec_matched(entries, normalized_query(q1), hist, fields, mode),
        r1,
        r2,
    );
}

// ---------------------------------------------------------------------------
// Scoring
// ---------------------------------------------------------------------------

/// An intermediate score, held wide enough that it cannot overflow.
struct Wide {
    score: i128,
    indices: Vec<usize>,
}

spec fn wide_is(r: Option<Wide>, s: Option<(int, Seq<int>)>) -> bool {
    match (r, s) {
        (Some(w), Some(t)) => w.score as int == t.0 && ints(w.indices@) == t.1,
        (None, None) => true,
        _ => false,
    }
}

proof fn lemma_ints_push(v: Seq<usize>, x: usize)
    ensures
        ints(v.push(x)) == ints(v).push(x as int),
{
    assert(ints(v.push(x)) =~= ints(v).push(x as int));
}

proof fn lemma_ints_add(a: Seq<usize>, b: Seq<usize>)
    ensures
        ints(a + b) == ints(a) + ints(b),
{
    assert(ints(a + b) =~= ints(a) + ints(b));
}

fn exact_wide(h: &str, hc: &Vec<char>, n: &Vec<char>, nbytes: usize) -> (r: Option<Wide>)
    requires
        hc@ == h@,
        nbytes == utf8_len(n@),
    ensures
        wide_is(r, spec_exact_score(h@, n@)),
        r matches Some(w) ==> w.score <= 180 && w.score >= 150 - isize::MAX,
{
    match find_chars(hc, n) {
        None => None,
        Some(p) => {
            proof {
                lemma_find_from_some(h@, n@, 0);
                assert(occurs_at(h@, n@, p as int));
                let pre = h@.take(p as int);
                let rest = h@.skip(p as int);
                assert(rest == n@ + h@.skip(p + n@.len()));
                lemma_utf8_len_take(h@, p as int);
                lemma_utf8_len_add(n@, h@.skip(p + n@.len()));
            }
            let total = byte_len(h);
            let start = prefix_byte_len(h, hc, p);
            assert(start + nbytes <= total);
            let mut indices: Vec<usize> = Vec::new();
            let mut k: usize = 0;
            while k < nbytes
                invariant
                    k <= nbytes,
                    start + nbytes <= total,
                    ints(indices@) == Seq::new(k as nat, |j: int| start + j),
                decreases nbytes - k,
            {
                proof {
                    lemma_ints_push(indices@, (start + k) as usize);
                }
                indices.push(start + k);
                k = k + 1;
                assert(ints(indices@) =~= Seq::new(k as nat, |j: int| start + j));
            }
            let score: i128 = if start == 0 {
                180
            } else {
                150 - (start as i128)
            };
            Some(Wide { score, indices })
        },
    }
}

fn subsequence_wide(hc: &Vec<char>, nc: &Vec<char>) -> (r: (Option<Wide>, bool))
    ensures
        wide_is(r.0, spec_subsequence_score(hc@, nc@).0),
        r.1 == spec_subsequence_score(hc@, nc@).1,
{
    if nc.len() == 0 {
        let w = Wide { score: 0, indices: Vec::new() };
        assert(ints(w.indices@) =~= Seq::<int>::empty());
        return (Some(w), true);
    }
    let ghost goal = spec_subsequence_score(hc@, nc@);
    let mut k: usize = 0;
    let mut score: i128 = 0;
    let mut last: Option<usize> = None;
    let mut indices: Vec<usize> = Vec::new();
    let mut ok = true;
    let mut i: usize = 0;
    assert(ints(indices@) =~= Seq::<int>::empty());
    while i < hc.len()
        invariant
            nc@.len() > 0,
            goal == spec_subsequence_score(hc@, nc@),
            i <= hc@.len(),
            k < nc@.len(),
            goal == subseq_run(
                hc@,
                nc@,
                i as int,
                k as int,
                score as int,
                match last {
                    Some(l) => Some(l as int),
                    None => None,
                },
                ints(indices@),
                ok,
            ),
            match last {
                Some(l) => l < i && -(l as int) <= score <= 30 + 25 * (l as int),
                None => score == 0,
            },
        decreases hc@.len() - i,
    {
        if hc[i] != nc[k] {
            i = i + 1;
        } else {
            let ghost lv: Option<int> = match last {
                Some(l) => Some(l as int),
                None => None,
            };
            let s1 = score + 10;
            let s2: i128 = match last {
                Some(prev) => if i == prev + 1 {
                    s1 + 15
                } else {
                    s1 - ((i - prev) as i128)
                },
                None => if i == 0 {
                    s1 + 20
                } else {
                    s1
                },
            };
            let fit1 = -0x8000_0000_0000_0000i128 <= s1 && s1 <= 0x7fff_ffff_ffff_ffffi128;
            let fit2 = -0x8000_0000_0000_0000i128 <= s2 && s2 <= 0x7fff_ffff_ffff_ffffi128;
            let ok2 = ok && fit1 && fit2;
            proof {
                lemma_ints_push(indices@, i);
            }
            indices.push(i);
            if k < nc.len() - 1 {
                k = k + 1;
                score = s2;
                last = Some(i);
                ok = ok2;
                i = i + 1;
            } else {
                let fin = s2 + 100;
                let fit3 = -0x8000_0000_0000_0000i128 <= fin && fin <= 0x7fff_ffff_ffff_ffffi128;
                return (Some(Wide { score: fin, indices }), ok2 && fit3);
            }
        }
    }
    (None, ok)
}

fn prefix_bonus_chars(h: &Vec<char>, q: &Vec<char>) -> (r: i64)
    ensures
        r == spec_prefix_bonus(h@, q@),
{
    if q.len() == 0 {
        0
    } else if starts_with_chars(h, q) {
        120
    } else if find_chars(h, q).is_some() {
        50
    } else {
        0
    }
}

/// The whole-query bonus: 120 when `haystack` starts with `query`, 50 when
/// it contains it elsewhere, 0 otherwise or for an empty query.
pub fn prefix_bonus(haystack: &str, query: &str) -> (r: i64)
    ensures
        r == spec_prefix_bonus(haystack@, query@),
{
    let h = chars_of(haystack);
    let q = chars_of(query);
    prefix_bonus_chars(&h, &q)
}

/// Exact matching of `needle` in `haystack`: score and matched byte
/// positions of its first occurrence.
pub fn exact_score(haystack: &str, needle: &str) -> (r: Option<(i64, Vec<usize>)>)
    ensures
        r matches Some(p) ==> spec_exact_score(haystack@, needle@) == Some(
            (p.0 as int, ints(p.1@)),
        ),
        r is None ==> spec_exact_score(haystack@, needle@) is None,
{
    let hc = chars_of(haystack);
    let nc = chars_of(needle);
    let nbytes = byte_len(needle);
    match exact_wide(haystack, &hc, &nc, nbytes) {
        Some(w) => Some((w.score as i64, w.indices)),
        None => None,
    }
}

/// fzf-style matching of `needle` as a subsequence of `haystack`: score and
/// matched character positions.
pub fn subsequence_score(haystack: &str, needle: &str) -> (r: Option<(i64, Vec<usize>)>)
    requires
        spec_subsequence_score(haystack@, needle@).1,
    ensures
        r matches Some(p) ==> spec_subsequence_score(haystack@, needle@).0 == Some(
            (p.0 as int, ints(p.1@)),
        ),
        r is None ==> spec_subsequence_score(haystack@, needle@).0 is None,
{
    let hc = chars_of(haystack);
    let nc = chars_of(needle);
    let (r, ok) = subsequence_wide(&hc, &nc);
    proof {
        lemma_subseq_fits_result(hc@, nc@);
    }
    match r {
        Some(w) => Some((w.score as i64, w.indices)),
        None => None,
    }
}

proof fn lemma_subseq_run_fits(
    h: Seq<char>,
    n: Seq<char>,
    i: int,
    k: int,
    score: int,
    last: Option<int>,
    idx: Seq<int>,
    ok: bool,
)
    ensures
        subseq_run(h, n, i, k, score, last, idx, ok).1 ==> ok,
        subseq_run(h, n, i, k, score, last, idx, ok).1 ==> (subseq_run(
            h,
            n,
            i,
            k,
            score,
            last,
            idx,
            ok,
        ).0 matches Some(p) ==> fits(p.0)),
    decreases h.len() - i,
{
    if i < 0 || i >= h.len() || k < 0 || k >= n.len() {
    } else if h[i] != n[k] {
        lemma_subseq_run_fits(h, n, i + 1, k, score, last, idx, ok);
    } else {
        let s1 = score + 10;
        let s2 = match last {
            Some(prev) => if i == prev + 1 {
                s1 + 15
            } else {
                s1 - (i - prev)
            },
            None => if i == 0 {
                s1 + 20
            } else {
                s1
            },
        };
        let ok2 = ok && fits(s1) && fits(s2);
        if k + 1 < n.len() {
            lemma_subseq_run_fits(h, n, i + 1, k + 1, s2, Some(i), idx.push(i), ok2);
        }
    }
}

proof fn lemma_subseq_fits_result(h: Seq<char>, n: Seq<char>)
    ensures
        spec_subsequence_score(h, n).1 ==> (spec_subsequence_score(h, n).0 matches Some(p)
            ==> fits(p.0)),
{
    if n.len() > 0 {
        lemma_subseq_run_fits(h, n, 0, 0, 0, None, Seq::empty(), true);
    }
}


// ---------------------------------------------------------------------------
// Entries
// ---------------------------------------------------------------------------

proof fn lemma_token_total_none_stable(
    s: SearchData,
    tokens: Seq<Seq<char>>,
    fields: Seq<MatchField>,
    mode: MatchMode,
    i: int,
)
    requires
        0 <= i <= tokens.len(),
        spec_token_total(s, tokens.take(i), fields, mode).0 is None,
    ensures
        spec_token_total(s, tokens, fields, mode) == spec_token_total(s, tokens.take(i), fields, mode),
    decreases tokens.len() - i,
{
    if i == tokens.len() {
        assert(tokens.take(i) == tokens);
    } else {
        assert(tokens.drop_last().take(i) == tokens.take(i));
        lemma_token_total_none_stable(s, tokens.drop_last(), fields, mode, i);
    }
}

proof fn lemma_token_total_ok_prefix(
    s: SearchData,
    tokens: Seq<Seq<char>>,
    fields: Seq<MatchField>,
    mode: MatchMode,
    i: int,
)
    requires
        0 <= i <= tokens.len(),
    ensures
        spec_token_total(s, tokens, fields, mode).1 ==> spec_token_total(s, tokens.take(i), fields, mode).1,
    decreases tokens.len() - i,
{
    if i == tokens.len() {
        assert(tokens.take(i) == tokens);
    } else {
        assert(tokens.drop_last().take(i) == tokens.take(i));
        lemma_token_total_ok_prefix(s, tokens.drop_last(), fields, mode, i);
    }
}

fn candidate_wide(h: &str, token: &Vec<char>, token_bytes: usize, mode: MatchMode) -> (r: (Option<Wide>, bool))
    requires
        token_bytes == utf8_len(token@),
    ensures
        wide_is(r.0, spec_candidate(h@, token@, mode).0),
        r.1 == spec_candidate(h@, token@, mode).1,
        r.1 ==> (r.0 matches Some(w) ==> fits(w.score as int)),
{
    let hc = chars_of(h);
    match mode {
        MatchMode::Exact => (exact_wide(h, &hc, token, token_bytes), true),
        MatchMode::Fzf => {
            proof {
                lemma_subseq_fits_result(hc@, token@);
            }
            subsequence_wide(&hc, token)
        },
    }
}

fn score_fields_wide(
    search: &SearchData,
    fields: &Vec<MatchField>,
    token: &Vec<char>,
    token_bytes: usize,
    mode: MatchMode,
) -> (r: (Option<Wide>, bool))
    requires
        token_bytes == utf8_len(token@),
    ensures
        wide_is(r.0, spec_score_fields(*search, fields@, token@, mode).0),
        r.1 == spec_score_fields(*search, fields@, token@, mode).1,
        r.1 ==> (r.0 matches Some(w) ==> fits(w.score as int)),
{
    let mut best: Option<Wide> = None;
    let mut ok = true;
    let mut i: usize = 0;
    while i < fields.len()
        invariant
            token_bytes == utf8_len(token@),
            i <= fields@.len(),
            wide_is(best, spec_score_fields(*search, fields@.take(i as int), token@, mode).0),
            ok == spec_score_fields(*search, fields@.take(i as int), token@, mode).1,
            ok ==> (best matches Some(w) ==> fits(w.score as int)),
        decreases fields@.len() - i,
    {
        assert(fields@.take(i + 1).drop_last() == fields@.take(i as int));
        assert(fields@.take(i + 1).last() == fields@[i as int]);
        let h = search.field(fields[i]);
        if byte_len(h) != 0 {
            proof {
                lemma_utf8_len_ge_len(h@);
                if h@.len() == 0 {
                    assert(utf8_len(h@) == 0);
                }
            }
            let (cand, cok) = candidate_wide(h, token, token_bytes, mode);
            match cand {
                Some(c) => {
                    let replace = match &best {
                        Some(b) => c.score > b.score,
                        None => true,
                    };
                    if replace {
                        best = Some(c);
                    }
                },
                None => {},
            }
            ok = ok && cok;
        } else {
            proof {
                assert(h@.len() == 0) by {
                    if h@.len() > 0 {
                        assert(utf8_len(h@) >= 1) by {
                            assert(utf8_len(h@) == crate::text::char_utf8_len(h@[0]) + utf8_len(
                                h@.drop_first(),
                            ));
                        }
                    }
                }
            }
        }
        i = i + 1;
    }
    assert(fields@.take(fields@.len() as int) == fields@);
    (best, ok)
}

/// The best score of `token` over the configured fields, skipping empty
/// fields; an earlier field wins a tie.
pub fn score_entry(search: &SearchData, token: &str, config: &Config) -> (r: Option<(i64, Vec<usize>)>)
    requires
        spec_score_fields(*search, config.fields@, token@, config.match_mode).1,
    ensures
        r matches Some(p) ==> spec_score_fields(*search, config.fields@, token@, config.match_mode).0
            == Some((p.0 as int, ints(p.1@))),
        r is None ==> spec_score_fields(*search, config.fields@, token@, config.match_mode).0 is None,
{
    let tc = chars_of(token);
    let tb = byte_len(token);
    let (r, ok) = score_fields_wide(search, &config.fields, &tc, tb, config.match_mode);
    match r {
        Some(w) => Some((w.score as i64, w.indices)),
        None => None,
    }
}

/// The score of one entry: `None` when the arithmetic would leave `i64`,
/// otherwise the entry's score and matched positions, if it matches.
fn entry_eval(
    entry: &Entry,
    q: &Vec<char>,
    tokens: &Vec<Vec<char>>,
    token_bytes: &Vec<usize>,
    history: &History,
    fields: &Vec<MatchField>,
    mode: MatchMode,
) -> (r: Option<Option<(i64, Vec<usize>)>>)
    requires
        tokens@.len() == words(q@).len(),
        forall|k: int| 0 <= k < tokens@.len() ==> #[trigger] tokens@[k]@ == words(q@)[k],
        token_bytes@.len() == tokens@.len(),
        forall|k: int| 0 <= k < tokens@.len() ==> #[trigger] token_bytes@[k] == utf8_len(tokens@[k]@),
    ensures
        r is None <==> !spec_entry_result(*entry, q@, history@, fields@, mode).1,
        r matches Some(x) ==> match (x, spec_entry_result(*entry, q@, history@, fields@, mode).0) {
            (Some(p), Some(t)) => p.0 as int == t.0 && ints(p.1@) == t.1,
            (None, None) => true,
            _ => false,
        },
{
    let ghost tv = words(q@);
    let ghost s = entry.search;
    let mut total: i128 = 0;
    let mut indices: Vec<usize> = Vec::new();
    let mut i: usize = 0;
    assert(ints(indices@) =~= Seq::<int>::empty());
    assert(tv.take(0) == Seq::<Seq<char>>::empty());
    while i < tokens.len()
        invariant
            tv == words(q@),
            s == entry.search,
            tokens@.len() == tv.len(),
            forall|k: int| 0 <= k < tokens@.len() ==> #[trigger] tokens@[k]@ == tv[k],
            token_bytes@.len() == tokens@.len(),
            forall|k: int| 0 <= k < tokens@.len() ==> #[trigger] token_bytes@[k] == utf8_len(tokens@[k]@),
            i <= tokens@.len(),
            spec_token_total(s, tv.take(i as int), fields@, mode) == (
                Some((total as int, ints(indices@))),
                true,
            ),
            fits(total as int),
        decreases tokens@.len() - i,
    {
        assert(tv.take(i + 1).drop_last() == tv.take(i as int));
        assert(tv.take(i + 1).last() == tokens@[i as int]@);
        let (t, tok) = score_fields_wide(&entry.search, fields, &tokens[i], token_bytes[i], mode);
        if !tok {
            proof {
                lemma_token_total_ok_prefix(s, tv, fields@, mode, i + 1);
            }
            return None;
        }
        match t {
            None => {
                proof {
                    lemma_token_total_none_stable(s, tv, fields@, mode, i + 1);
                }
                return Some(None);
            },
            Some(w) => {
                let next = total + w.score;
                if !(-0x8000_0000_0000_0000i128 <= next && next <= 0x7fff_ffff_ffff_ffffi128) {
                    proof {
                        lemma_token_total_ok_prefix(s, tv, fields@, mode, i + 1);
                    }
                    return None;
                }
                proof {
                    lemma_ints_add(indices@, w.indices@);
                }
                total = next;
                let mut wi = w.indices;
                indices.append(&mut wi);
            },
        }
        i = i + 1;
    }
    assert(tv.take(tokens@.len() as int) == tv);
    let base: i128 = if tokens.len() == 0 {
        10
    } else {
        total
    };
    let count = history.score(entry.id.as_str());
    let wrapped: i128 = if count <= 0x7fff_ffff_ffff_ffffu64 {
        count as i128
    } else {
        (count as i128) - 0x1_0000_0000_0000_0000i128
    };
    let hs: i128 = wrapped * 50;
    let s1 = base + hs;
    let qs_bonus = prefix_bonus_chars(&chars_of(entry.search.combined.as_str()), q);
    let s2 = s1 + (qs_bonus as i128);
    let label_bytes = byte_len(entry.label.as_str());
    let s3 = s2 - (label_bytes as i128);
    let lo = -0x8000_0000_0000_0000i128;
    let hi = 0x7fff_ffff_ffff_ffffi128;
    if !(lo <= hs && hs <= hi && lo <= s1 && s1 <= hi && lo <= s2 && s2 <= hi && lo <= s3 && s3 <= hi) {
        return None;
    }
    Some(Some((s3 as i64, indices)))
}


// ---------------------------------------------------------------------------
// Filtering and ranking
// ---------------------------------------------------------------------------

proof fn lemma_all_fit_prefix(
    entries: Seq<Entry>,
    q: Seq<char>,
    hist: Map<Seq<char>, u64>,
    fields: Seq<MatchField>,
    mode: MatchMode,
    i: int,
)
    requires
        0 <= i <= entries.len(),
    ensures
        spec_matched(entries.take(i), q, hist, fields, mode).len() <= i,
        forall|j: int|
            0 <= j < spec_matched(entries.take(i), q, hist, fields, mode).len() ==> 0 <= (
            #[trigger] spec_matched(entries.take(i), q, hist, fields, mode)[j]).0 < i,
    decreases i,
{
    if i > 0 {
        assert(entries.take(i).drop_last() == entries.take(i - 1));
        lemma_all_fit_prefix(entries, q, hist, fields, mode, i - 1);
    }
}

/// Scores every entry against `query` and ranks the matches; `None` when
/// the `i64` arithmetic would overflow on one of them.
fn rank_entries(
    entries: &[Entry],
    query: &str,
    history: &History,
    config: &Config,
) -> (r: Option<Vec<MatchResult>>)
    ensures
        r is None <==> !spec_all_fit(
            entries@,
            normalized_query(query@),
            history@,
            config.fields@,
            config.match_mode,
        ),
        r matches Some(res) ==> is_ranking(
            entries@,
            spec_matched(
                entries@,
                normalized_query(query@),
                history@,
                config.fields@,
                config.match_mode,
            ),
            res@,
        ),
{
    let (qc, tokens, token_bytes) = query_tokens(query);
    let ghost qv = normalized_query(query@);
    let ghost hv = history@;
    let ghost fv = config.fields@;
    let mode = config.match_mode;
    let ghost ev = entries@;
    assert(qc@ == qv);
    let mut pos: Vec<usize> = Vec::new();
    let mut scores: Vec<i64> = Vec::new();
    let mut found: Vec<Vec<usize>> = Vec::new();
    let mut i: usize = 0;
    while i < entries.len()
        invariant
            ev == entries@,
            qc@ == qv,
            qv == normalized_query(query@),
            mode == config.match_mode,
            fv == config.fields@,
            hv == history@,
            tokens@.len() == words(qv).len(),
            forall|k: int| 0 <= k < tokens@.len() ==> #[trigger] tokens@[k]@ == words(qv)[k],
            token_bytes@.len() == tokens@.len(),
            forall|k: int| 0 <= k < tokens@.len() ==> #[trigger] token_bytes@[k] == utf8_len(tokens@[k]@),
            i <= ev.len(),
            forall|k: int| 0 <= k < i ==> #[trigger] spec_entry_result(ev[k], qv, hv, fv, mode).1,
            pos@.len() == spec_matched(ev.take(i as int), qv, hv, fv, mode).len(),
            scores@.len() == pos@.len(),
            found@.len() == pos@.len(),
            forall|j: int|
                0 <= j < pos@.len() ==> {
                    let m = #[trigger] spec_matched(ev.take(i as int), qv, hv, fv, mode)[j];
                    &&& pos@[j] as int == m.0
                    &&& scores@[j] as int == m.1
                    &&& ints(found@[j]@) == m.2
                },
        decreases ev.len() - i,
    {
        assert(ev.take(i + 1).drop_last() == ev.take(i as int));
        assert(ev.take(i + 1).last() == ev[i as int]);
        match entry_eval(&entries[i], &qc, &tokens, &token_bytes, history, &config.fields, mode) {
            None => {
                proof {
                    assert(!spec_entry_result(ev[i as int], qv, hv, fv, mode).1);
                    assert(!spec_all_fit(ev, qv, hv, fv, mode));
                }
                return None;
            },
            Some(None) => {},
            Some(Some((sc, ix))) => {
                pos.push(i);
                scores.push(sc);
                found.push(ix);
            },
        }
        i = i + 1;
    }
    assert(ev.take(ev.len() as int) == ev);
    let ghost matched = spec_matched(ev, qv, hv, fv, mode);
    proof {
        lemma_all_fit_prefix(ev, qv, hv, fv, mode, ev.len() as int);
    }
    // Rank by score, then by lowercased label.
    let mut keys: Vec<SortKey> = Vec::new();
    let mut k: usize = 0;
    while k < pos.len()
        invariant
            k <= pos@.len(),
            matched == spec_matched(ev, qv, hv, fv, mode),
            ev == entries@,
            pos@.len() == matched.len(),
            scores@.len() == pos@.len(),
            forall|j: int| 0 <= j < matched.len() ==> 0 <= (#[trigger] matched[j]).0 < ev.len(),
            forall|j: int|
                0 <= j < pos@.len() ==> {
                    let m = #[trigger] matched[j];
                    &&& pos@[j] as int == m.0
                    &&& scores@[j] as int == m.1
                },
            keys@.len() == k,
            forall|j: int| 0 <= j < k ==> #[trigger] key_view(keys@[j]) == match_keys(ev, matched)[j],
        decreases pos@.len() - k,
    {
        assert(pos@[k as int] as int == matched[k as int].0);
        let lower = to_lowercase(entries[pos[k]].label.as_str());
        keys.push(SortKey { rank: scores[k] as i128, text: chars_of(lower.as_str()) });
        k = k + 1;
    }
    let order = stable_order(&keys);
    proof {
        assert(keys@.map_values(|k: SortKey| key_view(k)) =~= match_keys(ev, matched));
    }
    let mut res: Vec<MatchResult> = Vec::new();
    let mut j: usize = 0;
    while j < order.len()
        invariant
            j <= order@.len(),
            matched == spec_matched(ev, qv, hv, fv, mode),
            ev == entries@,
            is_stable_order(match_keys(ev, matched), order@),
            pos@.len() == matched.len(),
            scores@.len() == pos@.len(),
            found@.len() == pos@.len(),
            forall|a: int| 0 <= a < matched.len() ==> 0 <= (#[trigger] matched[a]).0 < ev.len(),
            forall|a: int|
                0 <= a < pos@.len() ==> {
                    let m = #[trigger] matched[a];
                    &&& pos@[a] as int == m.0
                    &&& scores@[a] as int == m.1
                    &&& ints(found@[a]@) == m.2
                },
            res@.len() == j,
            forall|b: int|
                0 <= b < j ==> {
                    let m = matched[order@[b] as int];
                    &&& #[trigger] res@[b].entry == ev[m.0]
                    &&& res@[b].score == m.1
                    &&& ints(res@[b].matched_indices@) == m.2
                },
        decreases order@.len() - j,
    {
        let o = order[j];
        assert(pos@[o as int] as int == matched[o as int].0);
        let e = entries[pos[o]].clone();
        let ix = found[o].clone();
        res.push(MatchResult { entry: e, score: scores[o], matched_indices: ix });
        j = j + 1;
    }
    proof {
        assert(is_stable_order(match_keys(ev, matched), order@));
    }
    Some(res)
}

/// Scores every entry against `query` (trimmed, lowercased, split into
/// whitespace-separated tokens that must all match) and returns the matches
/// ranked by score, highest first, then by lowercased label.
pub fn filter_entries(entries: &[Entry], query: &str, history: &History, config: &Config) -> (r: Vec<MatchResult>)
    requires
        spec_all_fit(entries@, normalized_query(query@), history@, config.fields@, config.match_mode),
    ensures
        is_ranking(
            entries@,
            spec_matched(
                entries@,
                normalized_query(query@),
                history@,
                config.fields@,
                config.match_mode,
            ),
            r@,
        ),
{
    match rank_entries(entries, query, history, config) {
        Some(res) => res,
        None => Vec::new(),
    }
}

/// The normalized query and its tokens, with the byte length of each token.
fn query_tokens(query: &str) -> (r: (Vec<char>, Vec<Vec<char>>, Vec<usize>))
    ensures
        r.0@ == normalized_query(query@),
        r.1@.len() == words(r.0@).len(),
        forall|k: int| 0 <= k < r.1@.len() ==> #[trigger] r.1@[k]@ == words(r.0@)[k],
        r.2@.len() == r.1@.len(),
        forall|k: int| 0 <= k < r.1@.len() ==> #[trigger] r.2@[k] == utf8_len(r.1@[k]@),
{
    let trimmed = trim_str(query);
    let q = to_lowercase(trimmed.as_str());
    let qc = chars_of(q.as_str());
    let tokens = words_chars(&qc);
    let token_strings = strings_of(&tokens);
    let mut token_bytes: Vec<usize> = Vec::new();
    let mut t: usize = 0;
    while t < tokens.len()
        invariant
            t <= tokens@.len(),
            token_strings@.len() == tokens@.len(),
            forall|k: int| 0 <= k < tokens@.len() ==> #[trigger] token_strings@[k]@ == tokens@[k]@,
            token_bytes@.len() == t,
            forall|k: int| 0 <= k < t ==> #[trigger] token_bytes@[k] == utf8_len(tokens@[k]@),
        decreases tokens@.len() - t,
    {
        token_bytes.push(byte_len(token_strings[t].as_str()));
        t = t + 1;
    }
    (qc, tokens, token_bytes)
}

/// Whether scoring every entry against `query` stays within `i64`.
pub fn all_scores_fit(entries: &[Entry], query: &str, history: &History, config: &Config) -> (b: bool)
    ensures
        b == spec_all_fit(entries@, normalized_query(query@), history@, config.fields@, config.match_mode),
{
    let (qc, tokens, token_bytes) = query_tokens(query);
    let ghost qv = normalized_query(query@);
    let mut i: usize = 0;
    while i < entries.len()
        invariant
            qc@ == qv,
            qv == normalized_query(query@),
            tokens@.len() == words(qv).len(),
            forall|k: int| 0 <= k < tokens@.len() ==> #[trigger] tokens@[k]@ == words(qv)[k],
            token_bytes@.len() == tokens@.len(),
            forall|k: int| 0 <= k < tokens@.len() ==> #[trigger] token_bytes@[k] == utf8_len(tokens@[k]@),
            i <= entries@.len(),
            forall|k: int| 0 <= k < i ==> #[trigger] spec_entry_result(entries@[k], qv, history@, config.fields@, config.match_mode).1,
        decreases entries@.len() - i,
    {
        if entry_eval(&entries[i], &qc, &tokens, &token_bytes, history, &config.fields, config.match_mode).is_none() {
            assert(!spec_entry_result(entries@[i as int], qv, history@, config.fields@, config.match_mode).1);
            return false;
        }
        i = i + 1;
    }
    true
}

/// `filter_entries` where its arithmetic stays within `i64`, `None` where
/// it would overflow.
pub fn try_filter_entries(
    entries: &[Entry],
    query: &str,
    history: &History,
    config: &Config,
) -> (r: Option<Vec<MatchResult>>)
    ensures
        r is None <==> !spec_all_fit(
            entries@,
            normalized_query(query@),
            history@,
            config.fields@,
            config.match_mode,
        ),
        r matches Some(res) ==> is_ranking(
            entries@,
            spec_matched(
                entries@,
                normalized_query(query@),
                history@,
                config.fields@,
                config.match_mode,
            ),
            res@,
        ),
{
    if all_scores_fit(entries, query, history, config) {
        Some(filter_entries(entries, query, history, config))
    } else {
        None
    }
}

} // verus!
