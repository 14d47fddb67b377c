//! Marks on finished rounds: knife rounds and extended freeze periods.
use crate::anchors;
use crate::anchors::anchor_tick;
use crate::demo::GameEvent;
use crate::keys;
use crate::keys::Keys;
use crate::order;
use crate::order::stable_order;
use crate::rounds;
use crate::rounds::Round;
use crate::text;
use crate::text::{contains_text, same_text};
use vstd::prelude::*;

verus! {

broadcast use crate::text::group_views;

/// The weapon of a death.
pub open spec fn weapon_of(e: GameEvent) -> Seq<char> {
    keys::key_string(e.keys@, "weapon"@)
}

/// Whether a weapon is a melee weapon.
pub open spec fn is_melee(weapon: Seq<char>) -> bool {
    text::holds_text(weapon, "knife"@) || text::holds_text(weapon, "bayonet"@)
}

/// Whether a weapon is a firearm or a grenade.
pub open spec fn is_armed(weapon: Seq<char>) -> bool {
    !is_melee(weapon) && weapon != "world"@ && weapon.len() > 0
}

/// Whether event `i` is a death in round `k`.
pub open spec fn death_in(
    rounds: Seq<Round<Seq<char>>>,
    events: Seq<GameEvent>,
    i: int,
    k: int,
) -> bool {
    &&& 0 <= i < events.len()
    &&& events[i].name@ == "player_death"@
    &&& anchors::falls_in(rounds, events[i].tick, k)
}

/// Whether a round is a knife round: at least one melee kill, and no kill with a
/// firearm or a grenade.
pub open spec fn is_knife_round(
    rounds: Seq<Round<Seq<char>>>,
    events: Seq<GameEvent>,
    k: int,
) -> bool {
    &&& exists|i: int| #[trigger]
        death_in(rounds, events, i, k) && is_melee(weapon_of(events[i]))
    &&& forall|i: int| #[trigger]
        death_in(rounds, events, i, k) ==> !is_armed(weapon_of(events[i]))
}

/// The rounds, with knife rounds marked.
pub open spec fn with_knife_marks(
    rounds: Seq<Round<Seq<char>>>,
    events: Seq<GameEvent>,
) -> Seq<Round<Seq<char>>> {
    Seq::new(
        rounds.len(),
        |k: int| Round { is_knife_round: is_knife_round(rounds, events, k), ..rounds[k] },
    )
}

/// The round that a tick falls in.
fn round_of_tick(rounds: &Vec<Round>, tick: i32) -> (r: Option<usize>)
    ensures
        match r {
            Some(k) => anchors::falls_in(text::views(rounds@), tick, k as int),
            None => forall|k: int| !anchors::falls_in(text::views(rounds@), tick, k),
        },
{
    let ghost all = text::views(rounds@);
    let n: usize = rounds.len();
    let mut best: Option<usize> = None;
    for i in 0..n
        invariant
            n == rounds@.len(),
            all == text::views(rounds@),
            best matches Some(b) ==> b < i && rounds::anchor(all[b as int]) <= tick,
            best is None ==> forall|j: int| 0 <= j < i ==> rounds::anchor(#[trigger] all[j]) > tick,
            best matches Some(b) ==> forall|j: int|
                0 <= j < i && rounds::anchor(#[trigger] all[j]) <= tick ==> rounds::anchor(all[j])
                    < rounds::anchor(all[b as int]) || (rounds::anchor(all[j]) == rounds::anchor(
                    all[b as int],
                ) && j <= b),
    {
        let a: i32 = anchor_tick(&rounds[i]);
        assert(rounds::anchor(all[i as int]) == a);
        if a <= tick {
            match best {
                None => {
                    best = Some(i);
                },
                Some(b) => {
                    if anchor_tick(&rounds[b]) <= a {
                        best = Some(i);
                    }
                },
            }
        }
    }
    best
}

/// Mark every round a kind of kill occurs in.
fn mark_all(rounds: &mut Vec<Round>, melee: &Vec<bool>, armed: &Vec<bool>)
    requires
        old(rounds)@.len() == melee@.len(),
        old(rounds)@.len() == armed@.len(),
    ensures
        text::views(final(rounds)@) == Seq::new(
            old(rounds)@.len(),
            |k: int|
                Round { is_knife_round: melee@[k] && !armed@[k], ..text::views(old(rounds)@)[k] },
        ),
{
    let ghost before = rounds@;
    let n: usize = rounds.len();
    let mut k: usize = 0;
    while k < n
        invariant
            k <= n,
            n == before.len(),
            n == rounds@.len(),
            n == melee@.len(),
            n == armed@.len(),
            forall|j: int| k <= j < n ==> #[trigger] rounds@[j] == before[j],
            forall|j: int|
                0 <= j < k ==> (#[trigger] rounds@[j])@ == (Round {
                    is_knife_round: melee@[j] && !armed@[j],
                    ..before[j]@
                }),
        decreases n - k,
    {
        rounds[k].is_knife_round = melee[k] && !armed[k];
        k = k + 1;
    }
    assert(text::views(rounds@) =~= Seq::new(
        before.len(),
        |k: int| Round { is_knife_round: melee@[k] && !armed@[k], ..text::views(before)[k] },
    ));
}

/// Flag knife rounds in place: a round with at least one kill by knife or bayonet
/// and none by firearm or grenade. Only the `player_death` events count; those before
/// every round are ignored.
pub fn mark_knife_rounds(rounds: &mut Vec<Round>, events: &Vec<GameEvent>)
    ensures
        text::views(final(rounds)@) == with_knife_marks(text::views(old(rounds)@), events@),
{
    let ghost all = text::views(rounds@);
    let n: usize = rounds.len();
    let mut melee: Vec<bool> = Vec::new();
    let mut armed: Vec<bool> = Vec::new();
    for k in 0..n
        invariant
            melee@.len() == k,
            armed@.len() == k,
            forall|j: int| 0 <= j < k ==> !(#[trigger] melee@[j]),
            forall|j: int| 0 <= j < k ==> !(#[trigger] armed@[j]),
    {
        melee.push(false);
        armed.push(false);
    }
    let m: usize = events.len();
    let mut i: usize = 0;
    while i < m
        invariant
            i <= m,
            m == events@.len(),
            n == rounds@.len(),
            all == text::views(rounds@),
            melee@.len() == n,
            armed@.len() == n,
            forall|k: int|
                0 <= k < n ==> (#[trigger] melee@[k] <==> exists|j: int|
                    0 <= j < i && #[trigger] death_in(all, events@, j, k) && is_melee(
                        weapon_of(events@[j]),
                    )),
            forall|k: int|
                0 <= k < n ==> (#[trigger] armed@[k] <==> exists|j: int|
                    0 <= j < i && #[trigger] death_in(all, events@, j, k) && is_armed(
                        weapon_of(events@[j]),
                    )),
        decreases m - i,
    {
        let ghost melee0 = melee@;
        let ghost armed0 = armed@;
        let e = &events[i];
        if same_text(e.name.as_str(), "player_death") {
            if let Some(k) = round_of_tick(rounds, e.tick) {
                let weapon = Keys(&e.keys).string("weapon");
                let knife = contains_text(weapon.as_str(), "knife");
                let bayonet = contains_text(weapon.as_str(), "bayonet");
                assert(death_in(all, events@, i as int, k as int));
                if knife || bayonet {
                    melee.set(k, true);
                } else if !same_text(weapon.as_str(), "world") && !weapon.as_str().is_empty() {
                    armed.set(k, true);
                }
            }
        }
        proof {
            assert forall|k: int| 0 <= k < n implies (#[trigger] melee@[k] <==> exists|j: int|
                0 <= j < i + 1 && #[trigger] death_in(all, events@, j, k) && is_melee(
                    weapon_of(events@[j]),
                )) by {
                assert(melee0[k] ==> melee@[k]);
                if melee0[k] {
                    let j = choose|j: int|
                        0 <= j < i && #[trigger] death_in(all, events@, j, k) && is_melee(
                            weapon_of(events@[j]),
                        );
                    assert(death_in(all, events@, j, k));
                }
            }
            assert forall|k: int| 0 <= k < n implies (#[trigger] armed@[k] <==> exists|j: int|
                0 <= j < i + 1 && #[trigger] death_in(all, events@, j, k) && is_armed(
                    weapon_of(events@[j]),
                )) by {
                assert(armed0[k] ==> armed@[k]);
                if armed0[k] {
                    let j = choose|j: int|
                        0 <= j < i && #[trigger] death_in(all, events@, j, k) && is_armed(
                            weapon_of(events@[j]),
                        );
                    assert(death_in(all, events@, j, k));
                }
            }
        }
        i = i + 1;
    }
    mark_all(rounds, &melee, &armed);
    proof {
        assert forall|k: int| 0 <= k < n implies (melee@[k] && !armed@[k]) == is_knife_round(
            all,
            events@,
            k,
        ) by {
            if melee@[k] {
                let j = choose|j: int|
                    0 <= j < m && #[trigger] death_in(all, events@, j, k) && is_melee(
                        weapon_of(events@[j]),
                    );
                assert(death_in(all, events@, j, k));
            }
        }
        assert(text::views(rounds@) =~= with_knife_marks(all, events@));
    }
}

/// The freeze lengths that are known, in round order.
pub open spec fn freeze_lengths(rounds: Seq<Round<Seq<char>>>) -> Seq<int>
    decreases rounds.len(),
{
    if rounds.len() == 0 {
        Seq::empty()
    } else {
        let rest = freeze_lengths(rounds.drop_last());
        match rounds.last().freeze_ticks {
            Some(t) => rest.push(t as int),
            None => rest,
        }
    }
}

/// The middle value of a sorted arrangement of `lengths`, the upper one of two.
pub open spec fn median(lengths: Seq<int>) -> int {
    let order = choose|order: Seq<int>| order::is_stable_order(lengths, order);
    lengths[order[lengths.len() as int / 2]]
}

/// Whether a freeze of `ticks` is unusually long for a baseline: more than one and a
/// half times as long, a baseline under one tick counting as one.
pub open spec fn is_extended(ticks: int, baseline: int) -> bool {
    2 * ticks > 3 * (if baseline < 1 {
        1
    } else {
        baseline
    })
}

/// The rounds, with extended freezes marked. With fewer than two known lengths there
/// is no baseline and nothing changes.
pub open spec fn with_freeze_marks(rounds: Seq<Round<Seq<char>>>) -> Seq<Round<Seq<char>>> {
    let lengths = freeze_lengths(rounds);
    if lengths.len() < 2 {
        rounds
    } else {
        Seq::new(
            rounds.len(),
            |k: int|
                Round {
                    extended_freeze: match rounds[k].freeze_ticks {
                        Some(t) => is_extended(t as int, median(lengths)),
                        None => false,
                    },
                    ..rounds[k]
                },
        )
    }
}

/// Flag rounds whose freeze period ran more than one and a half times as long as the
/// demo's own median freeze length.
pub fn mark_extended_freeze(rounds: &mut Vec<Round>)
    ensures
        text::views(final(rounds)@) == with_freeze_marks(text::views(old(rounds)@)),
{
    let ghost before = rounds@;
    let ghost all = text::views(before);
    let n: usize = rounds.len();
    let mut lengths: Vec<i64> = Vec::new();
    let mut i: usize = 0;
    assert(all.take(0) =~= Seq::<Round<Seq<char>>>::empty());
    while i < n
        invariant
            i <= n,
            n == before.len(),
            rounds@ == before,
            all == text::views(before),
            order::ints(lengths@) == freeze_lengths(all.take(i as int)),
            forall|j: int| 0 <= j < lengths@.len() ==> i32::MIN <= #[trigger] lengths@[j] <= i32::MAX,
        decreases n - i,
    {
        assert(all.take(i + 1).drop_last() =~= all.take(i as int));
        let ghost lengths0 = lengths@;
        if let Some(t) = rounds[i].freeze_ticks {
            lengths.push(t as i64);
            assert(order::ints(lengths@) =~= order::ints(lengths0).push(t as int));
        }
        i = i + 1;
    }
    assert(all.take(n as int) =~= all);
    assert(order::ints(lengths@).len() == lengths@.len());
    if lengths.len() < 2 {
        return;
    }
    let order = stable_order(&lengths);
    let middle: usize = order[lengths.len() / 2];
    let ghost ints = order::ints(lengths@);
    let ghost ord = order@.map_values(|i: usize| i as int);
    proof {
        let chosen = choose|o: Seq<int>| order::is_stable_order(ints, o);
        order::law_stable_order_unique(ints, ord, chosen);
        assert(ord[lengths@.len() as int / 2] == middle);
    }
    let median: i64 = lengths[middle];
    let baseline: i64 = if median < 1 { 1 } else { median };
    let mut k: usize = 0;
    while k < n
        invariant
            k <= n,
            n == before.len(),
            n == rounds@.len(),
            i32::MIN <= median <= i32::MAX,
            baseline == (if median < 1 { 1int } else { median as int }),
            forall|j: int| k <= j < n ==> #[trigger] rounds@[j] == before[j],
            forall|j: int|
                0 <= j < k ==> (#[trigger] rounds@[j])@ == (Round {
                    extended_freeze: match before[j]@.freeze_ticks {
                        Some(t) => is_extended(t as int, median as int),
                        None => false,
                    },
                    ..before[j]@
                }),
        decreases n - k,
    {
        let long = match rounds[k].freeze_ticks {
            Some(t) => 2 * (t as i64) > 3 * baseline,
            None => false,
        };
        rounds[k].extended_freeze = long;
        k = k + 1;
    }
    assert(text::views(rounds@) =~= with_freeze_marks(all));
}

} // verus!
