//! Trades: deaths that a teammate avenges in time.
use crate::kills::Kill;
use crate::order;
use crate::order::stable_order;
use crate::text;
use crate::text::same_text;
use vstd::prelude::*;

verus! {

/// Whether both sides of a kill are resolved.
pub open spec fn sides_known(k: Kill<Seq<char>>) -> bool {
    k.attacker_side is Some && k.victim_side is Some
}

/// Whether kill `j` avenges the death of kill `i`: a teammate of the victim kills
/// the killer, later and within `trade_ticks`. A kill with an unresolved side
/// neither avenges nor is avenged.
pub open spec fn avenges(kills: Seq<Kill<Seq<char>>>, trade_ticks: int, i: int, j: int) -> bool {
    &&& 0 <= i < kills.len()
    &&& 0 <= j < kills.len()
    &&& sides_known(kills[i])
    &&& sides_known(kills[j])
    &&& kills[i].attacker_steamid is Some
    &&& kills[j].victim_steamid == kills[i].attacker_steamid
    &&& kills[j].attacker_side == kills[i].victim_side
    &&& kills[i].tick < kills[j].tick
    &&& kills[j].tick - kills[i].tick <= trade_ticks
}

/// Whether kill `a` happened before kill `b`; kills on one tick go by position.
pub open spec fn earlier(kills: Seq<Kill<Seq<char>>>, a: int, b: int) -> bool {
    kills[a].tick < kills[b].tick || (kills[a].tick == kills[b].tick && a < b)
}

/// Whether kill `j` is the trade for the death of kill `i`: the earliest that
/// avenges it.
pub open spec fn is_trade_for(kills: Seq<Kill<Seq<char>>>, trade_ticks: int, i: int, j: int) -> bool {
    &&& avenges(kills, trade_ticks, i, j)
    &&& forall|k: int| #[trigger]
        avenges(kills, trade_ticks, i, k) ==> k == j || earlier(kills, j, k)
}

/// Whether the death of kill `i` is traded.
pub open spec fn is_traded(kills: Seq<Kill<Seq<char>>>, trade_ticks: int, i: int) -> bool {
    exists|j: int| avenges(kills, trade_ticks, i, j)
}

/// Whether kill `j` is a trade.
pub open spec fn is_trade(kills: Seq<Kill<Seq<char>>>, trade_ticks: int, j: int) -> bool {
    exists|i: int| is_trade_for(kills, trade_ticks, i, j)
}

/// The tick of every kill.
pub open spec fn kill_ticks(kills: Seq<Kill<Seq<char>>>) -> Seq<int> {
    kills.map_values(|k: Kill<Seq<char>>| k.tick as int)
}

/// Whether one kill avenges another, ticks aside.
fn could_avenge(death: &Kill, revenge: &Kill) -> (b: bool)
    ensures
        b == (sides_known(death@) && sides_known(revenge@) && death@.attacker_steamid is Some
            && revenge@.victim_steamid == death@.attacker_steamid && revenge@.attacker_side
            == death@.victim_side),
{
    match (death.attacker_steamid, revenge.victim_steamid) {
        (Some(killer), Some(killed)) => {
            if killer != killed || death.attacker_side.is_none() || revenge.victim_side.is_none() {
                return false;
            }
            match (&death.victim_side, &revenge.attacker_side) {
                (Some(victim_side), Some(avenger_side)) => same_text(
                    avenger_side.as_str(),
                    victim_side.as_str(),
                ),
                _ => false,
            }
        },
        _ => false,
    }
}

/// Classify every kill as a trade and/or a traded death.
///
/// A death is traded when the killer is themselves killed by a teammate of the
/// victim within `trade_ticks`. The revenge kill is a trade. Gives
/// `(is_trade, victim_traded)` per kill, positionally matching `kills`, which need
/// not be sorted.
pub fn trade_flags(kills: &[Kill], trade_ticks: i32) -> (flags: Vec<(bool, bool)>)
    ensures
        flags@.len() == kills@.len(),
        forall|i: int|
            0 <= i < kills@.len() ==> #[trigger] flags@[i] == (
                is_trade(text::views(kills@), trade_ticks as int, i),
                is_traded(text::views(kills@), trade_ticks as int, i),
            ),
{
    let n: usize = kills.len();
    let ghost all = text::views(kills@);
    let ghost w = trade_ticks as int;
    let mut flags: Vec<(bool, bool)> = Vec::new();
    let mut ticks: Vec<i64> = Vec::new();
    for i in 0..n
        invariant
            n == kills@.len(),
            flags@.len() == i,
            ticks@.len() == i,
            forall|j: int| 0 <= j < i ==> #[trigger] flags@[j] == (false, false),
            forall|j: int| 0 <= j < i ==> #[trigger] ticks@[j] == kills@[j].tick,
    {
        flags.push((false, false));
        ticks.push(kills[i].tick as i64);
    }
    let order = stable_order(&ticks);
    let ghost keys = kill_ticks(all);
    let ghost ord = order@.map_values(|i: usize| i as int);
    assert(order::ints(ticks@) =~= keys);
    assert(forall|p: int| 0 <= p < n ==> #[trigger] ord[p] == order@[p]);
    for pos in 0..n
        invariant
            n == kills@.len(),
            all == text::views(kills@),
            w == trade_ticks,
            keys == kill_ticks(all),
            order::is_stable_order(keys, ord),
            ord == order@.map_values(|i: usize| i as int),
            forall|p: int| 0 <= p < n ==> #[trigger] ord[p] == order@[p],
            order@.len() == n,
            flags@.len() == n,
            forall|i: int|
                0 <= i < n ==> (#[trigger] flags@[i]).1 == (ord.take(pos as int).contains(i) && is_traded(
                    all,
                    w,
                    i,
                )),
            forall|j: int|
                0 <= j < n ==> ((#[trigger] flags@[j]).0 <==> exists|i: int|
                    ord.take(pos as int).contains(i) && is_trade_for(all, w, i, j)),
    {
        assert(0 <= ord[pos as int] < n);
        let i: usize = order[pos];
        let death = &kills[i];
        let mut q: usize = pos + 1;
        let mut found: Option<usize> = None;
        assert forall|r: int| 0 <= r <= pos implies !avenges(all, w, i as int, #[trigger] ord[r]) by {
            if r < pos {
                assert(order::comes_before(keys, ord[r], ord[pos as int]));
            }
        }
        while q < n && found.is_none()
            invariant
                n == kills@.len(),
                all == text::views(kills@),
                w == trade_ticks,
                keys == kill_ticks(all),
                order::is_stable_order(keys, ord),
                forall|p: int| 0 <= p < n ==> #[trigger] ord[p] == order@[p],
                order@.len() == n,
                pos < n,
                i < n,
                ord[pos as int] == i,
                *death == kills@[i as int],
                pos < q <= n,
                forall|r: int| 0 <= r < q ==> found is None ==> !avenges(
                    all,
                    w,
                    i as int,
                    #[trigger] ord[r],
                ),
                found matches Some(j) ==> j < n && is_trade_for(all, w, i as int, j as int),
            decreases n - q,
        {
            assert(0 <= ord[q as int] < n);
            let j: usize = order[q];
            let revenge = &kills[j];
            assert(order::comes_before(keys, ord[pos as int], ord[q as int]));
            if revenge.tick as i64 - death.tick as i64 > trade_ticks as i64 {
                assert forall|r: int| q <= r < n implies !avenges(all, w, i as int, #[trigger] ord[r]) by {
                    if r > q {
                        assert(order::comes_before(keys, ord[q as int], ord[r]));
                    }
                }
                q = n;
            } else if revenge.tick > death.tick && could_avenge(death, revenge) {
                assert(avenges(all, w, i as int, j as int));
                assert forall|k: int| #[trigger] avenges(all, w, i as int, k) implies k == j || earlier(
                    all,
                    j as int,
                    k,
                ) by {
                    order::lemma_order_covers(keys, ord, k);
                    let r = choose|r: int| 0 <= r < ord.len() && ord[r] == k;
                    if r > q {
                        assert(order::comes_before(keys, ord[q as int], ord[r]));
                    }
                }
                found = Some(j);
                q = n;
            } else {
                q = q + 1;
            }
        }
        proof {
            if found is None {
                assert forall|k: int| !#[trigger] avenges(all, w, i as int, k) by {
                    if avenges(all, w, i as int, k) {
                        order::lemma_order_covers(keys, ord, k);
                        let r = choose|r: int| 0 <= r < ord.len() && ord[r] == k;
                        assert(!avenges(all, w, i as int, ord[r]));
                    }
                }
            }
        }
        let ghost old_flags = flags@;
        if let Some(j) = found {
            let f = flags[i];
            flags.set(i, (f.0, true));
            let g = flags[j];
            flags.set(j, (true, g.1));
        }
        proof {
            let before = ord.take(pos as int);
            let after = ord.take(pos + 1);
            assert(after =~= before.push(i as int));
            assert forall|x: int| after.contains(x) <==> before.contains(x) || x == i by {
                if before.contains(x) {
                    let k = choose|k: int| 0 <= k < before.len() && before[k] == x;
                    assert(after[k] == x);
                }
                if x == i {
                    assert(after[pos as int] == x);
                }
                if after.contains(x) {
                    let k = choose|k: int| 0 <= k < after.len() && after[k] == x;
                    if k < pos {
                        assert(before[k] == x);
                    }
                }
            }
            if let Some(j) = found {
                assert(avenges(all, w, i as int, j as int));
            }
            assert forall|x: int| 0 <= x < n implies (#[trigger] flags@[x]).1 == (after.contains(x)
                && is_traded(all, w, x)) by {
                assert(old_flags[x].1 == (before.contains(x) && is_traded(all, w, x)));
            }
            assert forall|x: int| 0 <= x < n implies ((#[trigger] flags@[x]).0 <==> exists|y: int|
                after.contains(y) && is_trade_for(all, w, y, x)) by {
                let was = old_flags[x].0;
                if was {
                    let y = choose|y: int| before.contains(y) && is_trade_for(all, w, y, x);
                    assert(after.contains(y) && is_trade_for(all, w, y, x));
                }
                if let Some(j) = found {
                    if x == j {
                        assert(after.contains(i as int) && is_trade_for(all, w, i as int, x));
                    }
                }
                if exists|y: int| after.contains(y) && is_trade_for(all, w, y, x) {
                    let y = choose|y: int| after.contains(y) && is_trade_for(all, w, y, x);
                    if y == i {
                        assert(avenges(all, w, i as int, x));
                        assert(found is Some);
                        let j = found->0;
                        assert(avenges(all, w, i as int, j as int));
                        assert(x == j);
                    } else {
                        assert(before.contains(y));
                    }
                }
            }
        }
    }
    proof {
        assert(ord.take(n as int) =~= ord);
        assert forall|i: int| 0 <= i < n implies #[trigger] flags@[i] == (
            is_trade(all, w, i),
            is_traded(all, w, i),
        ) by {
            order::lemma_order_covers(keys, ord, i);
            if is_trade(all, w, i) {
                let d = choose|d: int| is_trade_for(all, w, d, i);
                assert(avenges(all, w, d, i));
                order::lemma_order_covers(keys, ord, d);
            }
        }
    }
    flags
}

/// Among the kills that avenge a death there is an earliest one.
proof fn lemma_earliest(kills: Seq<Kill<Seq<char>>>, trade_ticks: int, i: int, upto: int) -> (j: int)
    requires
        0 <= upto <= kills.len(),
        exists|k: int| 0 <= k < upto && avenges(kills, trade_ticks, i, k),
    ensures
        0 <= j < upto,
        avenges(kills, trade_ticks, i, j),
        forall|k: int|
            0 <= k < upto && #[trigger] avenges(kills, trade_ticks, i, k) ==> k == j || earlier(kills, j, k),
    decreases upto,
{
    let last = upto - 1;
    if exists|k: int| 0 <= k < last && avenges(kills, trade_ticks, i, k) {
        let j = lemma_earliest(kills, trade_ticks, i, last);
        if avenges(kills, trade_ticks, i, last) && earlier(kills, last, j) {
            last
        } else {
            j
        }
    } else {
        last
    }
}

/// The two flags are duals: a traded death has a kill that is its trade, and a
/// trade has a death that it trades.
pub proof fn law_trades_are_duals(kills: Seq<Kill<Seq<char>>>, trade_ticks: int, k: int)
    ensures
        is_traded(kills, trade_ticks, k) ==> exists|j: int|
            is_trade_for(kills, trade_ticks, k, j) && is_trade(kills, trade_ticks, j),
        is_trade(kills, trade_ticks, k) ==> exists|i: int|
            is_trade_for(kills, trade_ticks, i, k) && is_traded(kills, trade_ticks, i),
{
    if is_traded(kills, trade_ticks, k) {
        let w = choose|w: int| avenges(kills, trade_ticks, k, w);
        let j = lemma_earliest(kills, trade_ticks, k, kills.len() as int);
        assert(is_trade_for(kills, trade_ticks, k, j));
        assert(is_trade(kills, trade_ticks, j));
    }
    if is_trade(kills, trade_ticks, k) {
        let i = choose|i: int| is_trade_for(kills, trade_ticks, i, k);
        assert(avenges(kills, trade_ticks, i, k));
        assert(is_traded(kills, trade_ticks, i));
    }
}

/// A kill with an unresolved side can neither trade nor be traded.
pub proof fn law_unresolved_never_trades(kills: Seq<Kill<Seq<char>>>, trade_ticks: int, k: int)
    requires
        0 <= k < kills.len(),
        !sides_known(kills[k]),
    ensures
        !is_trade(kills, trade_ticks, k),
        !is_traded(kills, trade_ticks, k),
{
}

/// A death has one trade at most, so there are never more trades than traded
/// deaths: one kill can avenge several teammates at once.
pub proof fn law_trades_at_most_traded(kills: Seq<Kill<Seq<char>>>, trade_ticks: int)
    ensures
        forall|i: int, a: int, b: int| #[trigger]
            is_trade_for(kills, trade_ticks, i, a) && #[trigger] is_trade_for(kills, trade_ticks, i, b)
                ==> a == b,
        Set::new(|j: int| is_trade(kills, trade_ticks, j)).len() <= Set::new(
            |i: int| is_traded(kills, trade_ticks, i),
        ).len(),
{
    let trades = Set::new(|j: int| is_trade(kills, trade_ticks, j));
    let traded = Set::new(|i: int| is_traded(kills, trade_ticks, i));
    let range = vstd::set_lib::set_int_range(0, kills.len() as int);
    vstd::set_lib::lemma_int_range(0, kills.len() as int);
    assert forall|i: int, a: int, b: int| #[trigger]
        is_trade_for(kills, trade_ticks, i, a) && #[trigger] is_trade_for(kills, trade_ticks, i, b)
        implies a == b by {
        assert(avenges(kills, trade_ticks, i, a));
        assert(avenges(kills, trade_ticks, i, b));
    }
    assert(traded.subset_of(range));
    vstd::set_lib::lemma_len_subset(traded, range);
    let trade_of = |i: int| choose|j: int| is_trade_for(kills, trade_ticks, i, j);
    let image = traded.map(trade_of);
    traded.lemma_map_finite(trade_of);
    assert forall|j: int| trades.contains(j) implies image.contains(j) by {
        law_trades_are_duals(kills, trade_ticks, j);
        let i = choose|i: int|
            is_trade_for(kills, trade_ticks, i, j) && is_traded(kills, trade_ticks, i);
        assert(is_trade_for(kills, trade_ticks, i, trade_of(i)));
        assert(traded.contains(i) && trade_of(i) == j);
    }
    vstd::set_lib::lemma_len_subset(trades, image);
    vstd::set_lib::lemma_map_size_bound(traded, image, trade_of);
}

} // verus!
