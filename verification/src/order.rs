//! Searching and stable sorting, stated over sequences.
use vstd::prelude::*;

verus! {

/// The first element of `s` that `p` accepts.
pub open spec fn first_match<T>(s: Seq<T>, p: spec_fn(T) -> bool) -> Option<T>
    decreases s.len(),
{
    if s.len() == 0 {
        None
    } else if p(s[0]) {
        Some(s[0])
    } else {
        first_match(s.drop_first(), p)
    }
}

/// What the search finds, by position.
pub proof fn lemma_first_match<T>(s: Seq<T>, p: spec_fn(T) -> bool, at: int)
    requires
        0 <= at <= s.len(),
        forall|j: int| 0 <= j < at ==> !p(#[trigger] s[j]),
        at < s.len() ==> p(s[at]),
    ensures
        first_match(s, p) == (if at < s.len() {
            Some(s[at])
        } else {
            None
        }),
    decreases s.len(),
{
    if s.len() > 0 && at > 0 {
        assert(!p(s[0]));
        let r = s.drop_first();
        assert forall|j: int| 0 <= j < at - 1 implies !p(#[trigger] r[j]) by {
            assert(r[j] == s[j + 1]);
        }
        lemma_first_match(r, p, at - 1);
    }
}

/// What the search finds is in the sequence and accepted.
pub proof fn lemma_first_match_holds<T>(s: Seq<T>, p: spec_fn(T) -> bool)
    ensures
        first_match(s, p) matches Some(t) ==> p(t) && s.contains(t),
        first_match(s, p) is None ==> forall|j: int| 0 <= j < s.len() ==> !p(#[trigger] s[j]),
    decreases s.len(),
{
    if s.len() > 0 {
        if p(s[0]) {
            assert(s.contains(s[0]));
        } else {
            let r = s.drop_first();
            lemma_first_match_holds(r, p);
            if first_match(r, p) is Some {
                let t = first_match(r, p)->0;
                let k = choose|k: int| 0 <= k < r.len() && r[k] == t;
                assert(s[k + 1] == t);
            } else {
                assert forall|j: int| 0 <= j < s.len() implies !p(#[trigger] s[j]) by {
                    if j > 0 {
                        assert(r[j - 1] == s[j]);
                    }
                }
            }
        }
    }
}

/// Whether the element at `a` comes before the one at `b` when they are sorted by
/// their keys and equal keys keep their order.
pub open spec fn comes_before(keys: Seq<int>, a: int, b: int) -> bool {
    keys[a] < keys[b] || (keys[a] == keys[b] && a < b)
}

/// Whether `order` lists the positions of `keys` in the order of a stable sort.
pub open spec fn is_stable_order(keys: Seq<int>, order: Seq<int>) -> bool {
    &&& order.len() == keys.len()
    &&& forall|i: int| 0 <= i < order.len() ==> 0 <= #[trigger] order[i] < keys.len()
    &&& forall|i: int, j: int|
        0 <= i < j < order.len() ==> comes_before(keys, #[trigger] order[i], #[trigger] order[j])
}

/// The elements of `s` at the positions that `order` lists.
pub open spec fn arranged<T>(s: Seq<T>, order: Seq<int>) -> Seq<T> {
    Seq::new(order.len(), |i: int| s[order[i]])
}

/// Whether `after` is `before`, sorted by `keys`, equal keys in their old order.
pub open spec fn stably_sorted<T>(before: Seq<T>, after: Seq<T>, keys: Seq<int>) -> bool {
    exists|order: Seq<int>|
        #[trigger] is_stable_order(keys, order) && after == arranged(before, order)
}

/// A stable order lists every position.
pub proof fn lemma_order_covers(keys: Seq<int>, order: Seq<int>, x: int)
    requires
        is_stable_order(keys, order),
        0 <= x < keys.len(),
    ensures
        order.contains(x),
{
    let n = keys.len() as int;
    assert(order.no_duplicates()) by {
        assert forall|i: int, j: int|
            0 <= i < order.len() && 0 <= j < order.len() && i != j implies order[i] != order[j] by {
            if i < j {
                assert(comes_before(keys, order[i], order[j]));
            } else {
                assert(comes_before(keys, order[j], order[i]));
            }
        }
    }
    order.unique_seq_to_set();
    vstd::set_lib::lemma_int_range(0, n);
    let range = vstd::set_lib::set_int_range(0, n);
    assert(order.to_set().subset_of(range)) by {
        assert forall|y: int| order.to_set().contains(y) implies range.contains(y) by {
            let i = choose|i: int| 0 <= i < order.len() && order[i] == y;
            assert(0 <= order[i] < keys.len());
        }
    }
    vstd::set_lib::lemma_subset_equality(order.to_set(), range);
    assert(range.contains(x));
}

/// There is one stable order only: sorting by the same keys gives the same result.
pub proof fn law_stable_order_unique(keys: Seq<int>, a: Seq<int>, b: Seq<int>)
    requires
        is_stable_order(keys, a),
        is_stable_order(keys, b),
    ensures
        a == b,
{
    assert forall|p: int| 0 <= p < keys.len() implies #[trigger] a[p] == b[p] by {
        lemma_orders_agree(keys, a, b, p);
    }
    assert(a =~= b);
}

proof fn lemma_orders_agree(keys: Seq<int>, a: Seq<int>, b: Seq<int>, p: int)
    requires
        is_stable_order(keys, a),
        is_stable_order(keys, b),
        0 <= p < keys.len(),
    ensures
        a[p] == b[p],
    decreases p,
{
    if a[p] != b[p] {
        lemma_order_covers(keys, b, a[p]);
        lemma_order_covers(keys, a, b[p]);
        let q = choose|q: int| 0 <= q < b.len() && b[q] == a[p];
        let r = choose|r: int| 0 <= r < a.len() && a[r] == b[p];
        if q < p {
            lemma_orders_agree(keys, a, b, q);
            assert(comes_before(keys, a[q], a[p]));
        } else if r < p {
            lemma_orders_agree(keys, a, b, r);
            assert(comes_before(keys, b[r], b[p]));
        } else {
            assert(comes_before(keys, b[p], b[q]));
            assert(comes_before(keys, a[p], a[r]));
        }
    }
}

/// A stable sort loses nothing, adds nothing, and has one outcome only.
pub proof fn law_stable_sort<T>(before: Seq<T>, after: Seq<T>, keys: Seq<int>)
    requires
        before.len() == keys.len(),
        stably_sorted(before, after, keys),
    ensures
        after.len() == before.len(),
        forall|t: T| before.contains(t) <==> after.contains(t),
        forall|other: Seq<T>| #[trigger] stably_sorted(before, other, keys) ==> other == after,
{
    let order = choose|order: Seq<int>|
        #[trigger] is_stable_order(keys, order) && after == arranged(before, order);
    assert forall|t: T| before.contains(t) <==> after.contains(t) by {
        if before.contains(t) {
            let x = choose|x: int| 0 <= x < before.len() && before[x] == t;
            lemma_order_covers(keys, order, x);
            let i = choose|i: int| 0 <= i < order.len() && order[i] == x;
            assert(after[i] == t);
        }
        if after.contains(t) {
            let i = choose|i: int| 0 <= i < after.len() && after[i] == t;
            assert(before[order[i]] == t);
        }
    }
    assert forall|other: Seq<T>| #[trigger] stably_sorted(before, other, keys) implies other
        == after by {
        let o2 = choose|o2: Seq<int>|
            #[trigger] is_stable_order(keys, o2) && other == arranged(before, o2);
        law_stable_order_unique(keys, order, o2);
    }
}

/// The keys as mathematical integers.
pub open spec fn ints(keys: Seq<i64>) -> Seq<int> {
    keys.map_values(|k: i64| k as int)
}

/// The items, sorted by their keys; equal keys keep their order.
pub fn stable_sort<T>(items: Vec<T>, keys: &Vec<i64>) -> (sorted: Vec<T>)
    requires
        items@.len() == keys@.len(),
    ensures
        stably_sorted(items@, sorted@, ints(keys@)),
{
    let mut rest = items;
    let mut out: Vec<T> = Vec::new();
    let mut out_keys: Vec<i64> = Vec::new();
    let ghost before = items@;
    let ghost k = ints(keys@);
    let ghost mut order: Seq<int> = Seq::empty();
    let mut i: usize = rest.len();
    while i > 0
        invariant
            before.len() == keys@.len(),
            k == ints(keys@),
            rest@ == before.take(i as int),
            i <= before.len(),
            order.len() == before.len() - i,
            out@.len() == order.len(),
            out_keys@.len() == order.len(),
            forall|j: int| 0 <= j < order.len() ==> i <= #[trigger] order[j] < before.len(),
            forall|a: int, b: int|
                0 <= a < b < order.len() ==> comes_before(k, #[trigger] order[a], #[trigger] order[b]),
            forall|j: int| 0 <= j < order.len() ==> #[trigger] out@[j] == before[order[j]],
            forall|j: int| 0 <= j < order.len() ==> #[trigger] out_keys@[j] == k[order[j]],
        decreases i,
    {
        let x = match rest.pop() {
            Some(x) => x,
            None => {
                assert(false);
                return out;
            },
        };
        i = i - 1;
        let key: i64 = keys[i];
        let mut p: usize = 0;
        while p < out_keys.len() && out_keys[p] < key
            invariant
                p <= out_keys@.len(),
                forall|j: int| 0 <= j < p ==> out_keys@[j] < key,
            decreases out_keys@.len() - p,
        {
            p = p + 1;
        }
        let ghost old_order = order;
        let ghost old_out = out@;
        let ghost old_keys = out_keys@;
        out.insert(p, x);
        out_keys.insert(p, key);
        proof {
            order = old_order.insert(p as int, i as int);
            assert(rest@ =~= before.take(i as int));
            assert(x == before[i as int]);
            assert forall|j: int| 0 <= j < order.len() implies i <= #[trigger] order[j]
                < before.len() by {
                if j < p {
                    assert(order[j] == old_order[j]);
                } else if j > p {
                    assert(order[j] == old_order[j - 1]);
                }
            }
            assert forall|j: int| 0 <= j < order.len() implies #[trigger] out@[j] == before[order[j]]
                && out_keys@[j] == k[order[j]] by {
                if j < p {
                    assert(out@[j] == old_out[j] && order[j] == old_order[j]);
                    assert(out_keys@[j] == old_keys[j]);
                } else if j > p {
                    assert(out@[j] == old_out[j - 1] && order[j] == old_order[j - 1]);
                    assert(out_keys@[j] == old_keys[j - 1]);
                }
            }
            assert forall|j: int| 0 <= j < order.len() implies #[trigger] out_keys@[j] == k[order[j]] by {}
            assert forall|a: int, b: int| 0 <= a < b < order.len() implies comes_before(
                k,
                #[trigger] order[a],
                #[trigger] order[b],
            ) by {
                if b < p {
                    assert(order[a] == old_order[a] && order[b] == old_order[b]);
                } else if b == p {
                    assert(order[a] == old_order[a]);
                    assert(old_keys[a] < key);
                } else if a < p {
                    assert(order[a] == old_order[a] && order[b] == old_order[b - 1]);
                } else if a > p {
                    assert(order[a] == old_order[a - 1] && order[b] == old_order[b - 1]);
                } else {
                    assert(order[b] == old_order[b - 1]);
                    assert(old_keys[p as int] >= key);
                    if b - 1 > p {
                        assert(comes_before(k, old_order[p as int], old_order[b - 1]));
                    }
                }
            }
        }
    }
    proof {
        assert(is_stable_order(k, order));
        assert(out@ =~= arranged(before, order));
    }
    out
}

/// The positions of the keys, in the order of a stable sort.
pub fn stable_order(keys: &Vec<i64>) -> (order: Vec<usize>)
    ensures
        is_stable_order(ints(keys@), order@.map_values(|i: usize| i as int)),
{
    let mut positions: Vec<usize> = Vec::new();
    let n: usize = keys.len();
    for i in 0..n
        invariant
            n == keys@.len(),
            positions@.len() == i,
            forall|j: int| 0 <= j < i ==> positions@[j] == j,
    {
        positions.push(i);
    }
    let ghost before = positions@;
    let sorted = stable_sort(positions, keys);
    proof {
        let k = ints(keys@);
        let order = choose|order: Seq<int>|
            #[trigger] is_stable_order(k, order) && sorted@ == arranged(before, order);
        assert forall|i: int| 0 <= i < order.len() implies sorted@[i] as int == #[trigger] order[i] by {
            assert(before[order[i]] == order[i]);
        }
        assert(sorted@.map_values(|i: usize| i as int) =~= order);
    }
    sorted
}

/// A stable sort leaves the keys ascending.
pub proof fn law_sort_ascends<T>(before: Seq<T>, after: Seq<T>, key: spec_fn(T) -> int, i: int, j: int)
    requires
        stably_sorted(before, after, before.map_values(key)),
        0 <= i <= j < after.len(),
    ensures
        key(after[i]) <= key(after[j]),
{
    let keys = before.map_values(key);
    let order = choose|order: Seq<int>|
        #[trigger] is_stable_order(keys, order) && after == arranged(before, order);
    assert(0 <= order[i] < keys.len() && 0 <= order[j] < keys.len());
    if i < j {
        assert(comes_before(keys, order[i], order[j]));
    }
}

} // verus!
