//! Round lookup by tick: which round a tick falls in.
use crate::order;
use crate::order::stable_sort;
use crate::rounds;
use crate::rounds::Round;
use crate::text;
use vstd::prelude::*;

verus! {

broadcast use crate::text::group_views;

/// The anchor and number of every round.
pub open spec fn anchor_pairs(rounds: Seq<Round<Seq<char>>>) -> Seq<(i32, i32)> {
    rounds.map_values(|r: Round<Seq<char>>| (rounds::anchor(r), r.round_num))
}

/// The anchor of every pair.
pub open spec fn pair_ticks(pairs: Seq<(i32, i32)>) -> Seq<int> {
    pairs.map_values(|p: (i32, i32)| p.0 as int)
}

/// Whether pairs stand in the order of their ticks.
pub open spec fn ascending(pairs: Seq<(i32, i32)>) -> bool {
    forall|i: int, j: int| 0 <= i <= j < pairs.len() ==> (#[trigger] pairs[i]).0 <= (#[trigger] pairs[j]).0
}

/// Whether round `k` is the one that `tick` falls in: the one with the latest anchor
/// at or before it, the later round where two anchors are equal.
pub open spec fn falls_in(rounds: Seq<Round<Seq<char>>>, tick: i32, k: int) -> bool {
    &&& 0 <= k < rounds.len()
    &&& rounds::anchor(rounds[k]) <= tick
    &&& forall|j: int|
        0 <= j < rounds.len() && rounds::anchor(#[trigger] rounds[j]) <= tick ==> rounds::anchor(
            rounds[j],
        ) < rounds::anchor(rounds[k]) || (rounds::anchor(rounds[j]) == rounds::anchor(rounds[k]) && j
            <= k)
}

/// The number of the round that a tick falls in; none before every anchor.
pub open spec fn round_num_at(rounds: Seq<Round<Seq<char>>>, tick: i32) -> Option<i32> {
    if exists|k: int| falls_in(rounds, tick, k) {
        Some(rounds[choose|k: int| falls_in(rounds, tick, k)].round_num)
    } else {
        None
    }
}

/// Whether `anchors` are the anchors and numbers of rounds, sorted for lookup by tick.
pub open spec fn looks_up(rounds: Seq<Round<Seq<char>>>, anchors: Seq<(i32, i32)>) -> bool {
    &&& order::stably_sorted(anchor_pairs(rounds), anchors, pair_ticks(anchor_pairs(rounds)))
    &&& ascending(anchors)
}

/// The number paired with the last tick at or before `tick`.
pub open spec fn last_at(pairs: Seq<(i32, i32)>, tick: i32) -> Option<i32>
    decreases pairs.len(),
{
    if pairs.len() == 0 {
        None
    } else if pairs.last().0 <= tick {
        Some(pairs.last().1)
    } else {
        last_at(pairs.drop_last(), tick)
    }
}

/// What `last_at` finds among ascending pairs, by position.
proof fn lemma_last_at(pairs: Seq<(i32, i32)>, tick: i32, n: int)
    requires
        0 <= n <= pairs.len(),
        n > 0 ==> pairs[n - 1].0 <= tick,
        forall|i: int| n <= i < pairs.len() ==> (#[trigger] pairs[i]).0 > tick,
    ensures
        last_at(pairs, tick) == (if n > 0 {
            Some(pairs[n - 1].1)
        } else {
            None
        }),
    decreases pairs.len(),
{
    if pairs.len() > n {
        assert(pairs[pairs.len() - 1].0 > tick);
        lemma_last_at(pairs.drop_last(), tick, n);
    }
}

/// Sorted `(anchor, round number)` pairs for lookup by tick.
pub fn round_num_anchors(rounds: &[Round]) -> (anchors: Vec<(i32, i32)>)
    ensures
        looks_up(text::views(rounds@), anchors@),
        anchors@.len() == rounds@.len(),
{
    let mut pairs: Vec<(i32, i32)> = Vec::new();
    let mut ticks: Vec<i64> = Vec::new();
    let n: usize = rounds.len();
    for i in 0..n
        invariant
            n == rounds@.len(),
            pairs@.len() == i,
            ticks@.len() == i,
            forall|j: int|
                0 <= j < i ==> #[trigger] pairs@[j] == (rounds::anchor(rounds@[j]@), rounds@[j].round_num),
            forall|j: int| 0 <= j < i ==> #[trigger] ticks@[j] == rounds::anchor(rounds@[j]@),
    {
        let r = &rounds[i];
        let tick: i32 = anchor_tick(r);
        pairs.push((tick, r.round_num));
        ticks.push(tick as i64);
    }
    let ghost all = anchor_pairs(text::views(rounds@));
    let ghost keys = pair_ticks(all);
    assert(pairs@ =~= all);
    assert(order::ints(ticks@) =~= keys);
    let sorted = stable_sort(pairs, &ticks);
    proof {
        let o = choose|o: Seq<int>|
            #[trigger] order::is_stable_order(keys, o) && sorted@ == order::arranged(all, o);
        assert forall|i: int, j: int| 0 <= i <= j < sorted@.len() implies (#[trigger] sorted@[i]).0 <= (
        #[trigger] sorted@[j]).0 by {
            if i < j {
                assert(order::comes_before(keys, o[i], o[j]));
            }
        }
    }
    sorted
}

/// The earliest known boundary of a round.
pub fn anchor_tick(r: &Round) -> (tick: i32)
    ensures
        tick == rounds::anchor(r@),
{
    match (r.start_tick, r.freeze_end_tick) {
        (Some(s), _) => s,
        (None, Some(f)) => f,
        (None, None) => r.end_tick,
    }
}

/// The number of the round whose anchor is the latest one at or before `tick`;
/// `None` if `tick` precedes every anchor.
pub fn round_num_for_tick(anchors: &[(i32, i32)], tick: i32) -> (num: Option<i32>)
    requires
        ascending(anchors@),
    ensures
        num == last_at(anchors@, tick),
{
    let mut lo: usize = 0;
    let mut hi: usize = anchors.len();
    while lo < hi
        invariant
            lo <= hi <= anchors@.len(),
            ascending(anchors@),
            forall|i: int| 0 <= i < lo ==> (#[trigger] anchors@[i]).0 <= tick,
            forall|i: int| hi <= i < anchors@.len() ==> (#[trigger] anchors@[i]).0 > tick,
        decreases hi - lo,
    {
        let mid: usize = lo + (hi - lo) / 2;
        if anchors[mid].0 <= tick {
            lo = mid + 1;
        } else {
            hi = mid;
        }
    }
    proof {
        lemma_last_at(anchors@, tick, lo as int);
    }
    if lo == 0 {
        None
    } else {
        Some(anchors[lo - 1].1)
    }
}

/// Looking a tick up in the sorted anchors finds the round it falls in.
pub proof fn law_lookup_finds_round(
    rounds: Seq<Round<Seq<char>>>,
    anchors: Seq<(i32, i32)>,
    tick: i32,
)
    requires
        looks_up(rounds, anchors),
    ensures
        last_at(anchors, tick) == round_num_at(rounds, tick),
{
    let all = anchor_pairs(rounds);
    let keys = pair_ticks(all);
    let o = choose|o: Seq<int>|
        #[trigger] order::is_stable_order(keys, o) && anchors == order::arranged(all, o);
    assert forall|i: int, j: int| 0 <= i <= j < anchors.len() implies (#[trigger] anchors[i]).0 <= (
    #[trigger] anchors[j]).0 by {
        if i < j {
            assert(order::comes_before(keys, o[i], o[j]));
        }
    }
    let n = lemma_count_at(anchors, tick);
    lemma_last_at(anchors, tick, n);
    if n > 0 {
        let k = o[n - 1];
        assert(anchors[n - 1] == all[k]);
        assert forall|j: int|
            0 <= j < rounds.len() && rounds::anchor(#[trigger] rounds[j]) <= tick implies rounds::anchor(
            rounds[j],
        ) < rounds::anchor(rounds[k]) || (rounds::anchor(rounds[j]) == rounds::anchor(rounds[k]) && j
            <= k) by {
            order::lemma_order_covers(keys, o, j);
            let p = choose|p: int| 0 <= p < o.len() && o[p] == j;
            assert(anchors[p] == all[j]);
            if p < n - 1 {
                assert(order::comes_before(keys, o[p], o[n - 1]));
            }
        }
        assert(falls_in(rounds, tick, k));
        let c = choose|c: int| falls_in(rounds, tick, c);
        assert(c == k);
    } else {
        assert forall|k: int| !falls_in(rounds, tick, k) by {
            if falls_in(rounds, tick, k) {
                order::lemma_order_covers(keys, o, k);
                let p = choose|p: int| 0 <= p < o.len() && o[p] == k;
                assert(anchors[p] == all[k]);
            }
        }
    }
}

/// How many ascending pairs are at or before a tick.
proof fn lemma_count_at(pairs: Seq<(i32, i32)>, tick: i32) -> (n: int)
    requires
        ascending(pairs),
    ensures
        0 <= n <= pairs.len(),
        n > 0 ==> pairs[n - 1].0 <= tick,
        forall|i: int| n <= i < pairs.len() ==> (#[trigger] pairs[i]).0 > tick,
    decreases pairs.len(),
{
    if pairs.len() == 0 {
        0
    } else if pairs.last().0 <= tick {
        pairs.len() as int
    } else {
        let init = pairs.drop_last();
        assert(ascending(init)) by {
            assert forall|i: int, j: int| 0 <= i <= j < init.len() implies (#[trigger] init[i]).0 <= (
            #[trigger] init[j]).0 by {
                assert(init[i] == pairs[i] && init[j] == pairs[j]);
            }
        }
        let n = lemma_count_at(init, tick);
        assert forall|i: int| n <= i < pairs.len() implies (#[trigger] pairs[i]).0 > tick by {
            if i < init.len() {
                assert(init[i] == pairs[i]);
            }
        }
        n
    }
}

/// A tick falls in one round at most, and a later tick never in a round of an
/// earlier anchor.
pub proof fn law_lookup_monotone(rounds: Seq<Round<Seq<char>>>, early: i32, late: i32, a: int, b: int)
    requires
        early <= late,
        falls_in(rounds, early, a),
        falls_in(rounds, late, b),
    ensures
        rounds::anchor(rounds[a]) <= rounds::anchor(rounds[b]),
        early == late ==> a == b,
{
    assert(rounds::anchor(rounds[a]) <= late);
}

/// A tick has no round only if it comes before every round's anchor.
pub proof fn law_lookup_covers(rounds: Seq<Round<Seq<char>>>, tick: i32)
    ensures
        round_num_at(rounds, tick) is None <==> forall|k: int|
            0 <= k < rounds.len() ==> rounds::anchor(#[trigger] rounds[k]) > tick,
{
    lemma_falls_somewhere(rounds, tick);
}

/// Unless it comes before all of them, a tick falls in one of the rounds.
proof fn lemma_falls_somewhere(rounds: Seq<Round<Seq<char>>>, tick: i32)
    ensures
        (exists|k: int| falls_in(rounds, tick, k)) || forall|k: int|
            0 <= k < rounds.len() ==> rounds::anchor(#[trigger] rounds[k]) > tick,
    decreases rounds.len(),
{
    if rounds.len() > 0 {
        let init = rounds.drop_last();
        let last = rounds.len() - 1;
        lemma_falls_somewhere(init, tick);
        if exists|k: int| falls_in(init, tick, k) {
            let k = choose|k: int| falls_in(init, tick, k);
            let anchor = rounds::anchor(rounds[last]);
            assert(init[k] == rounds[k]);
            assert forall|j: int|
                0 <= j < rounds.len() && rounds::anchor(#[trigger] rounds[j]) <= tick && j
                    != last implies rounds::anchor(rounds[j]) < rounds::anchor(rounds[k]) || (
            rounds::anchor(rounds[j]) == rounds::anchor(rounds[k]) && j <= k) by {
                assert(init[j] == rounds[j]);
            }
            if anchor <= tick && rounds::anchor(rounds[k]) <= anchor {
                assert(falls_in(rounds, tick, last));
            } else {
                assert(falls_in(rounds, tick, k));
            }
        } else {
            assert forall|j: int| 0 <= j < last implies rounds::anchor(#[trigger] rounds[j]) > tick by {
                assert(init[j] == rounds[j]);
            }
            if rounds::anchor(rounds[last]) <= tick {
                assert(falls_in(rounds, tick, last));
            }
        }
    }
}

} // verus!
