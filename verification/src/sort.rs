//! Stable ordering by a key: a rank (higher first) and a text (lower first),
//! ties kept in the order they came in.
use crate::text::{text_lt, text_lt_exec};
use vstd::prelude::*;

verus! {

/// A sort key: items with a higher `rank` come first, then those whose
/// `text` sorts first.
pub struct SortKey {
    pub rank: i128,
    pub text: Vec<char>,
}

/// Whether the item at input position `i` with key `a` goes before the
/// item at position `j` with key `b` in a stable sort.
pub open spec fn goes_before(a: (int, Seq<char>), i: int, b: (int, Seq<char>), j: int) -> bool {
    ||| a.0 > b.0
    ||| (a.0 == b.0 && text_lt(a.1, b.1))
    ||| (a.0 == b.0 && a.1 == b.1 && i < j)
}

/// The view of a key.
pub open spec fn key_view(k: SortKey) -> (int, Seq<char>) {
    (k.rank as int, k.text@)
}

/// `order` lists each position of `keys` exactly once, in the order of a
/// stable sort by key.
pub open spec fn is_stable_order(keys: Seq<(int, Seq<char>)>, order: Seq<usize>) -> bool {
    &&& order.len() == keys.len()
    &&& forall|a: int| 0 <= a < order.len() ==> #[trigger] order[a] < keys.len()
    &&& forall|k: usize| k < keys.len() ==> #[trigger] order.contains(k)
    &&& forall|a: int, b: int|
        0 <= a < b < order.len() ==> goes_before(
            keys[order[a] as int],
            order[a] as int,
            keys[order[b] as int],
            order[b] as int,
        )
}

/// `text_lt` is irreflexive.
pub proof fn lemma_text_lt_irreflexive(a: Seq<char>)
    ensures
        !text_lt(a, a),
    decreases a.len(),
{
    if a.len() > 0 {
        lemma_text_lt_irreflexive(a.drop_first());
    }
}

/// `text_lt` is transitive.
pub proof fn lemma_text_lt_transitive(a: Seq<char>, b: Seq<char>, c: Seq<char>)
    requires
        text_lt(a, b),
        text_lt(b, c),
    ensures
        text_lt(a, c),
    decreases a.len(),
{
    if a.len() > 0 && b.len() > 0 && c.len() > 0 {
        if a[0] == b[0] && b[0] == c[0] {
            lemma_text_lt_transitive(a.drop_first(), b.drop_first(), c.drop_first());
        }
    }
}

/// Any two distinct texts are ordered by `text_lt` one way or the other.
pub proof fn lemma_text_lt_total(a: Seq<char>, b: Seq<char>)
    ensures
        a == b || text_lt(a, b) || text_lt(b, a),
    decreases a.len(),
{
    if a.len() > 0 && b.len() > 0 {
        if a[0] == b[0] {
            lemma_text_lt_total(a.drop_first(), b.drop_first());
            if a.drop_first() == b.drop_first() {
                assert(a == seq![a[0]] + a.drop_first());
                assert(b == seq![b[0]] + b.drop_first());
            }
        } else {
            vstd::utf8::char_u32_cast(a[0], a[0] as u32);
            vstd::utf8::char_u32_cast(b[0], b[0] as u32);
        }
    } else if a.len() == 0 && b.len() == 0 {
        assert(a == b);
    }
}

/// Neither of two texts goes before the other under `text_lt` both ways.
pub proof fn lemma_text_lt_asymmetric(a: Seq<char>, b: Seq<char>)
    ensures
        !(text_lt(a, b) && text_lt(b, a)),
{
    if text_lt(a, b) && text_lt(b, a) {
        lemma_text_lt_transitive(a, b, a);
        lemma_text_lt_irreflexive(a);
    }
}

proof fn lemma_goes_before_transitive(
    a: (int, Seq<char>),
    i: int,
    b: (int, Seq<char>),
    j: int,
    c: (int, Seq<char>),
    k: int,
)
    requires
        goes_before(a, i, b, j),
        goes_before(b, j, c, k),
    ensures
        goes_before(a, i, c, k),
{
    if a.0 == b.0 && b.0 == c.0 {
        if text_lt(a.1, b.1) && text_lt(b.1, c.1) {
            lemma_text_lt_transitive(a.1, b.1, c.1);
        }
    }
}

proof fn lemma_goes_before_total(a: (int, Seq<char>), i: int, b: (int, Seq<char>), j: int)
    requires
        i != j,
    ensures
        goes_before(a, i, b, j) || goes_before(b, j, a, i),
{
    lemma_text_lt_total(a.1, b.1);
}

proof fn lemma_goes_before_asymmetric(a: (int, Seq<char>), i: int, b: (int, Seq<char>), j: int)
    ensures
        !(goes_before(a, i, b, j) && goes_before(b, j, a, i)),
{
    lemma_text_lt_asymmetric(a.1, b.1);
    lemma_text_lt_irreflexive(a.1);
}

fn goes_before_exec(keys: &Vec<SortKey>, i: usize, j: usize) -> (r: bool)
    requires
        i < keys.len(),
        j < keys.len(),
    ensures
        r == goes_before(key_view(keys@[i as int]), i as int, key_view(keys@[j as int]), j as int),
{
    let a = &keys[i];
    let b = &keys[j];
    if a.rank != b.rank {
        return a.rank > b.rank;
    }
    if text_lt_exec(&a.text, &b.text) {
        return true;
    }
    if text_lt_exec(&b.text, &a.text) {
        proof {
            lemma_text_lt_asymmetric(a.text@, b.text@);
        }
        return false;
    }
    proof {
        lemma_text_lt_total(a.text@, b.text@);
    }
    i < j
}

/// The positions of `keys` in the order of a stable sort by key.
pub fn stable_order(keys: &Vec<SortKey>) -> (order: Vec<usize>)
    ensures
        is_stable_order(keys@.map_values(|k: SortKey| key_view(k)), order@),
{
    let ghost kv = keys@.map_values(|k: SortKey| key_view(k));
    let mut order: Vec<usize> = Vec::new();
    let mut i: usize = 0;
    while i < keys.len()
        invariant
            i <= keys.len(),
            kv == keys@.map_values(|k: SortKey| key_view(k)),
            order@.len() == i,
            forall|a: int| 0 <= a < order@.len() ==> #[trigger] order@[a] < i,
            forall|k: usize| k < i ==> #[trigger] order@.contains(k),
            forall|a: int, b: int|
                0 <= a < b < order@.len() ==> goes_before(
                    kv[order@[a] as int],
                    order@[a] as int,
                    kv[order@[b] as int],
                    order@[b] as int,
                ),
        decreases keys.len() - i,
    {
        // Find the first position whose item goes after item `i`.
        let mut p: usize = 0;
        while p < order.len() && !goes_before_exec(keys, i, order[p])
            invariant
                i < keys.len(),
                kv == keys@.map_values(|k: SortKey| key_view(k)),
                p <= order@.len(),
                forall|a: int| 0 <= a < order@.len() ==> #[trigger] order@[a] < i,
                forall|a: int|
                    0 <= a < p ==> !goes_before(
                        kv[i as int],
                        i as int,
                        kv[#[trigger] order@[a] as int],
                        order@[a] as int,
                    ),
            decreases order@.len() - p,
        {
            p = p + 1;
        }
        let ghost old_order = order@;
        order.insert(p, i);
        proof {
            assert(order@ == old_order.insert(p as int, i));
            assert forall|a: int| 0 <= a < order@.len() implies #[trigger] order@[a] < i + 1 by {
                if a < p {
                    assert(order@[a] == old_order[a]);
                } else if a > p {
                    assert(order@[a] == old_order[a - 1]);
                }
            }
            assert forall|k: usize| k < i + 1 implies #[trigger] order@.contains(k) by {
                if k == i {
                    assert(order@[p as int] == i);
                } else {
                    assert(old_order.contains(k));
                    let a = choose|a: int| 0 <= a < old_order.len() && old_order[a] == k;
                    if a < p {
                        assert(order@[a] == k);
                    } else {
                        assert(order@[a + 1] == k);
                    }
                }
            }
            // Items before `p` go before item `i`; item `i` goes before the rest.
            assert forall|a: int| 0 <= a < p implies goes_before(
                kv[old_order[a] as int],
                old_order[a] as int,
                kv[i as int],
                i as int,
            ) by {
                assert(old_order[a] < i);
                lemma_goes_before_total(
                    kv[i as int],
                    i as int,
                    kv[old_order[a] as int],
                    old_order[a] as int,
                );
            }
            if p < old_order.len() {
                assert forall|b: int| p <= b < old_order.len() implies goes_before(
                    kv[i as int],
                    i as int,
                    kv[old_order[b] as int],
                    old_order[b] as int,
                ) by {
                    if b > p {
                        lemma_goes_before_transitive(
                            kv[i as int],
                            i as int,
                            kv[old_order[p as int] as int],
                            old_order[p as int] as int,
                            kv[old_order[b] as int],
                            old_order[b] as int,
                        );
                    }
                }
            }
            assert forall|a: int, b: int| 0 <= a < b < order@.len() implies goes_before(
                kv[order@[a] as int],
                order@[a] as int,
                kv[order@[b] as int],
                order@[b] as int,
            ) by {
                if b < p {
                    assert(order@[a] == old_order[a] && order@[b] == old_order[b]);
                } else if b == p {
                    assert(order@[a] == old_order[a]);
                } else if a < p {
                    assert(order@[a] == old_order[a] && order@[b] == old_order[b - 1]);
                    lemma_goes_before_transitive(
                        kv[old_order[a] as int],
                        old_order[a] as int,
                        kv[i as int],
                        i as int,
                        kv[old_order[b - 1] as int],
                        old_order[b - 1] as int,
                    );
                } else if a == p {
                    assert(order@[b] == old_order[b - 1]);
                } else {
                    assert(order@[a] == old_order[a - 1] && order@[b] == old_order[b - 1]);
                }
            }
        }
        i = i + 1;
    }
    order
}

/// In a stable order of keys, the first `n` positions agree with those of
/// any other stable order of the same keys.
proof fn lemma_stable_order_prefix(
    keys: Seq<(int, Seq<char>)>,
    o1: Seq<usize>,
    o2: Seq<usize>,
    n: int,
)
    requires
        is_stable_order(keys, o1),
        is_stable_order(keys, o2),
        0 <= n <= o1.len(),
    ensures
        forall|c: int| 0 <= c < n ==> o1[c] == o2[c],
    decreases n,
{
    if n > 0 {
        let a = n - 1;
        lemma_stable_order_prefix(keys, o1, o2, a);
        let x = o1[a];
        let y = o2[a];
        if x != y {
            // `y` stands in `o1` after position `a`, and `x` in `o2`.
            assert(o1.contains(y));
            let b = choose|b: int| 0 <= b < o1.len() && o1[b] == y;
            assert(o2.contains(x));
            let b2 = choose|b2: int| 0 <= b2 < o2.len() && o2[b2] == x;
            if b < a {
                assert(o2[b] == y);
                assert(goes_before(keys[y as int], y as int, keys[y as int], y as int));
                lemma_text_lt_irreflexive(keys[y as int].1);
            }
            if b2 < a {
                assert(o1[b2] == x);
                assert(goes_before(keys[x as int], x as int, keys[x as int], x as int));
                lemma_text_lt_irreflexive(keys[x as int].1);
            }
            assert(b > a && b2 > a);
            assert(goes_before(keys[x as int], x as int, keys[y as int], y as int));
            assert(goes_before(keys[y as int], y as int, keys[x as int], x as int));
            lemma_goes_before_asymmetric(keys[x as int], x as int, keys[y as int], y as int);
        }
    }
}

/// A stable order is fixed by its keys: two stable orders of the same keys
/// are equal.
pub proof fn stable_order_is_unique(keys: Seq<(int, Seq<char>)>, o1: Seq<usize>, o2: Seq<usize>)
    requires
        is_stable_order(keys, o1),
        is_stable_order(keys, o2),
    ensures
        o1 == o2,
{
    lemma_stable_order_prefix(keys, o1, o2, o1.len() as int);
    assert(o1 =~= o2);
}

} // verus!
