//! Round economy: one row for every side in every round, with what its players hold.
use crate::economy;
use crate::economy::RoundEconomy;
use crate::laws::reading;
use crate::laws::states;
use crate::names::Scope;
use crate::parser::Parser;
use crate::rounds::Round;
use crate::snapshots::PlayerState;
use crate::text;
use vstd::prelude::*;

verus! {

/// The sum of the first `n` of some numbers.
pub open spec fn total(n: int, v: spec_fn(int) -> int) -> int
    decreases n,
{
    if n <= 0 {
        0
    } else {
        total(n - 1, v) + v(n - 1)
    }
}

/// The tick on which a round's buy is locked: its freeze end, else its start, else its end.
pub open spec fn lock_tick(r: Round<Seq<char>>) -> i32 {
    if r.freeze_end_tick is Some {
        r.freeze_end_tick->0
    } else if r.start_tick is Some {
        r.start_tick->0
    } else {
        r.end_tick
    }
}

/// Whether a round has an economy: it is no knife round, and no later round that is none
/// either has its buy locked on the same tick.
pub open spec fn has_economy(rounds: Seq<Round<Seq<char>>>, k: int) -> bool {
    &&& 0 <= k < rounds.len()
    &&& !rounds[k].is_knife_round
    &&& forall|m: int|
        k < m < rounds.len() && !(#[trigger] rounds[m]).is_knife_round ==> lock_tick(rounds[m])
            != lock_tick(rounds[k])
}

/// Whether a state is that of a player on a side on a tick.
pub open spec fn is_on(
    states: Seq<PlayerState<Seq<char>>>,
    tick: i32,
    side: Seq<char>,
    i: int,
) -> bool {
    states[i].tick == tick && states[i].side == Some(side)
}

/// Whether anybody is on a side on a tick.
pub open spec fn anyone_on(
    states: Seq<PlayerState<Seq<char>>>,
    tick: i32,
    side: Seq<char>,
) -> bool {
    exists|i: int| 0 <= i < states.len() && #[trigger] is_on(states, tick, side, i)
}

/// What the players on a side hold on a tick, all together.
pub open spec fn held_by(
    states: Seq<PlayerState<Seq<char>>>,
    tick: i32,
    side: Seq<char>,
) -> int {
    total(
        states.len() as int,
        |i: int|
            if is_on(states, tick, side, i) {
                states[i].equipment_value as int
            } else {
                0
            },
    )
}

/// How many players are on a side on a tick.
pub open spec fn players_on(
    states: Seq<PlayerState<Seq<char>>>,
    tick: i32,
    side: Seq<char>,
) -> int {
    reading::how_many(states.len() as int, |i: int| is_on(states, tick, side, i))
}

/// Whether a round is played by anybody who is known.
pub open spec fn is_played(
    rounds: Seq<Round<Seq<char>>>,
    states: Seq<PlayerState<Seq<char>>>,
    k: int,
) -> bool {
    has_economy(rounds, k) && exists|i: int|
        0 <= i < states.len() && (#[trigger] states[i]).tick == lock_tick(rounds[k])
            && states[i].steamid is Some && states[i].side is Some
}

/// Whether round `m` is the one played before round `k`.
pub open spec fn is_played_before(
    rounds: Seq<Round<Seq<char>>>,
    states: Seq<PlayerState<Seq<char>>>,
    m: int,
    k: int,
) -> bool {
    &&& m < k
    &&& is_played(rounds, states, m)
    &&& forall|x: int| m < x < k ==> !#[trigger] is_played(rounds, states, x)
}

/// Whether the sides are switched in a round: more of its players were on the other side in the
/// round played before than on the same one.
pub open spec fn is_switched(
    rounds: Seq<Round<Seq<char>>>,
    states: Seq<PlayerState<Seq<char>>>,
    k: int,
) -> bool {
    is_played(rounds, states, k) && exists|m: int| #[trigger]
        is_played_before(rounds, states, m, k) && economy::flipped(
            economy::lineup(states, lock_tick(rounds[m])),
            economy::lineup(states, lock_tick(rounds[k])),
        )
}

/// Whether a round is a pistol round: the first one played, or the first with switched sides.
pub open spec fn is_pistol_round(
    rounds: Seq<Round<Seq<char>>>,
    states: Seq<PlayerState<Seq<char>>>,
    k: int,
) -> bool {
    &&& is_played(rounds, states, k)
    &&& (forall|m: int| 0 <= m < k ==> !#[trigger] is_played(rounds, states, m)) || (is_switched(
        rounds,
        states,
        k,
    ) && forall|m: int| 0 <= m < k ==> !#[trigger] is_switched(rounds, states, m))
}

/// Whether a row is the economy of a side in round `k`.
pub open spec fn is_economy_of(
    rounds: Seq<Round<Seq<char>>>,
    states: Seq<PlayerState<Seq<char>>>,
    k: int,
    row: RoundEconomy<Seq<char>>,
) -> bool {
    let tick = lock_tick(rounds[k]);
    let value = held_by(states, tick, row.side);
    &&& has_economy(rounds, k)
    &&& anyone_on(states, tick, row.side)
    &&& row.round_num == rounds[k].round_num
    &&& row.equipment_value == value as i32
    &&& row.n_players == players_on(states, tick, row.side) as i32
    &&& row.buy_type == (if is_pistol_round(rounds, states, k) {
        "pistol"@
    } else if value < 5000 {
        "eco"@
    } else if value < 20000 {
        "force"@
    } else {
        "full"@
    })
}

/// Whether a row is the economy of a side in some round.
pub open spec fn is_economy_of_some(
    rounds: Seq<Round<Seq<char>>>,
    states: Seq<PlayerState<Seq<char>>>,
    row: RoundEconomy<Seq<char>>,
) -> bool {
    exists|k: int| #[trigger] is_economy_of(rounds, states, k, row)
}

proof fn lemma_held(
    states: Seq<PlayerState<Seq<char>>>,
    tick: i32,
    side: Seq<char>,
    n: int,
)
    requires
        0 <= n <= states.len(),
    ensures
        economy::equipment(states.take(n), tick, side) == total(
            n,
            |i: int|
                if is_on(states, tick, side, i) {
                    states[i].equipment_value as int
                } else {
                    0
                },
        ),
        economy::headcount(states.take(n), tick, side) == reading::how_many(
            n,
            |i: int| is_on(states, tick, side, i),
        ),
    decreases n,
{
    if n == 0 {
        assert(states.take(0) =~= Seq::empty());
    } else {
        lemma_held(states, tick, side, n - 1);
        assert(states.take(n).drop_last() =~= states.take(n - 1));
        assert(states.take(n).last() == states[n - 1]);
    }
}

/// The lineup of a tick says on which side each player is: by their last state on the tick that
/// has a side, and nothing of players without one.
pub proof fn law_lineup_by_last_state(
    states: Seq<PlayerState<Seq<char>>>,
    tick: i32,
    id: u64,
)
    ensures
        match economy::side_in(economy::lineup(states, tick), id) {
            None => forall|i: int|
                0 <= i < states.len() && (#[trigger] states[i]).tick == tick && states[i].steamid
                    == Some(id) ==> states[i].side is None,
            Some(side) => exists|i: int|
                0 <= i < states.len() && (#[trigger] states[i]).tick == tick && states[i].steamid
                    == Some(id) && states[i].side == Some(side) && forall|j: int|
                    i < j < states.len() && (#[trigger] states[j]).tick == tick && states[j].steamid
                        == Some(id) ==> states[j].side is None,
        },
    decreases states.len(),
{
    if states.len() > 0 {
        let init = states.drop_last();
        let n = states.len() - 1;
        law_lineup_by_last_state(init, tick, id);
        assert forall|i: int| 0 <= i < init.len() implies init[i] == #[trigger] states[i] by {}
        let s = states[n];
        assert(s == states.last());
        let was = economy::lineup(init, tick);
        let now = economy::lineup(states, tick);
        let own = s.tick == tick && s.steamid == Some(id) && s.side is Some;
        if own {
            lemma_placed(was, id, s.side->0, id);
            assert(states[n].tick == tick);
        } else {
            if s.tick == tick && s.steamid is Some && s.side is Some {
                lemma_placed(was, s.steamid->0, s.side->0, id);
            }
            assert(economy::side_in(now, id) == economy::side_in(was, id));
            if let Some(side) = economy::side_in(was, id) {
                let i = choose|i: int|
                    0 <= i < init.len() && (#[trigger] init[i]).tick == tick && init[i].steamid
                        == Some(id) && init[i].side == Some(side) && forall|j: int|
                        i < j < init.len() && (#[trigger] init[j]).tick == tick && init[j].steamid
                            == Some(id) ==> init[j].side is None;
                assert(states[i] == init[i]);
                assert forall|j: int|
                    i < j < states.len() && (#[trigger] states[j]).tick == tick && states[j].steamid
                        == Some(id) implies states[j].side is None by {
                    if j < n {
                        assert(init[j] == states[j]);
                    }
                }
            } else {
                assert forall|i: int|
                    0 <= i < states.len() && (#[trigger] states[i]).tick == tick
                        && states[i].steamid == Some(id) implies states[i].side is None by {
                    if i < n {
                        assert(init[i] == states[i]);
                    }
                }
            }
        }
    }
}

proof fn lemma_placed(line: Seq<(u64, Seq<char>)>, id: u64, side: Seq<char>, other: u64)
    ensures
        economy::side_in(economy::placed(line, id, side), other) == (if other == id {
            Some(side)
        } else {
            economy::side_in(line, other)
        }),
{
    if economy::side_in(line, id) is Some {
        lemma_placed_over(line, id, side, other);
        let f = |p: (u64, Seq<char>)|
            if p.0 == id {
                (id, side)
            } else {
                p
            };
        assert(economy::placed(line, id, side) =~= line.map_values(f));
    } else {
        assert(line.push((id, side)).drop_last() =~= line);
    }
}

proof fn lemma_placed_over(line: Seq<(u64, Seq<char>)>, id: u64, side: Seq<char>, other: u64)
    ensures
        economy::side_in(
            line.map_values(
                |p: (u64, Seq<char>)|
                    if p.0 == id {
                        (id, side)
                    } else {
                        p
                    },
            ),
            other,
        ) == (if other == id && economy::side_in(line, id) is Some {
            Some(side)
        } else {
            economy::side_in(line, other)
        }),
    decreases line.len(),
{
    let f = |p: (u64, Seq<char>)|
        if p.0 == id {
            (id, side)
        } else {
            p
        };
    if line.len() > 0 {
        let init = line.drop_last();
        lemma_placed_over(init, id, side, other);
        assert(line.map_values(f).drop_last() =~= init.map_values(f));
        assert(line.map_values(f).last() == f(line.last()));
    }
}

/// Sides are switched where more players of the later lineup have moved than stayed: players
/// who were on the other side before against those who were on the same one, and nobody who
/// was not there.
pub proof fn law_switch_counts_players(
    prev: Seq<(u64, Seq<char>)>,
    cur: Seq<(u64, Seq<char>)>,
)
    ensures
        economy::flipped(prev, cur) <==> reading::how_many(
            cur.len() as int,
            |i: int|
                economy::side_in(prev, cur[i].0) matches Some(side) && side != cur[i].1,
        ) > reading::how_many(
            cur.len() as int,
            |i: int|
                economy::side_in(prev, cur[i].0) matches Some(side) && side == cur[i].1,
        ),
{
    lemma_kept(prev, cur, cur.len() as int);
    assert(cur.take(cur.len() as int) =~= cur);
}

proof fn lemma_kept(prev: Seq<(u64, Seq<char>)>, cur: Seq<(u64, Seq<char>)>, n: int)
    requires
        0 <= n <= cur.len(),
    ensures
        economy::kept_sides(prev, cur.take(n), false) == reading::how_many(
            n,
            |i: int|
                economy::side_in(prev, cur[i].0) matches Some(side) && side != cur[i].1,
        ),
        economy::kept_sides(prev, cur.take(n), true) == reading::how_many(
            n,
            |i: int|
                economy::side_in(prev, cur[i].0) matches Some(side) && side == cur[i].1,
        ),
    decreases n,
{
    if n == 0 {
        assert(cur.take(0) =~= Seq::empty());
    } else {
        lemma_kept(prev, cur, n - 1);
        assert(cur.take(n).drop_last() =~= cur.take(n - 1));
        assert(cur.take(n).last() == cur[n - 1]);
    }
}

proof fn lemma_economy_of_round(rounds: Seq<Round<Seq<char>>>, k: int)
    requires
        0 <= k < rounds.len(),
    ensures
        economy::buys_at(rounds, k, economy::buy_tick(rounds[k])) == has_economy(rounds, k),
        economy::buy_tick(rounds[k]) == lock_tick(rounds[k]),
{
    if economy::buys_at(rounds, k, economy::buy_tick(rounds[k])) {
        assert forall|m: int|
            k < m < rounds.len() && !(#[trigger] rounds[m]).is_knife_round implies lock_tick(
            rounds[m],
        ) != lock_tick(rounds[k]) by {
            assert(economy::buy_tick(rounds[m]) == lock_tick(rounds[m]));
        }
    }
    if has_economy(rounds, k) {
        assert forall|m: int| k < m < rounds.len() implies (#[trigger] rounds[m]).is_knife_round
            || economy::buy_tick(rounds[m]) != lock_tick(rounds[k]) by {
            assert(economy::buy_tick(rounds[m]) == lock_tick(rounds[m]));
        }
    }
}

proof fn lemma_lineup_empty(states: Seq<PlayerState<Seq<char>>>, tick: i32)
    ensures
        economy::lineup(states, tick).len() > 0 <==> exists|i: int|
            0 <= i < states.len() && (#[trigger] states[i]).tick == tick && states[i].steamid is Some
                && states[i].side is Some,
    decreases states.len(),
{
    if states.len() > 0 {
        let init = states.drop_last();
        let n = states.len() - 1;
        lemma_lineup_empty(init, tick);
        assert forall|i: int| 0 <= i < init.len() implies init[i] == #[trigger] states[i] by {}
        assert(states[n] == states.last());
        if economy::lineup(init, tick).len() > 0 {
            let i = choose|i: int|
                0 <= i < init.len() && (#[trigger] init[i]).tick == tick && init[i].steamid is Some
                    && init[i].side is Some;
            assert(states[i] == init[i]);
        }
        if exists|i: int|
            0 <= i < states.len() && (#[trigger] states[i]).tick == tick && states[i].steamid is Some
                && states[i].side is Some {
            let i = choose|i: int|
                0 <= i < states.len() && (#[trigger] states[i]).tick == tick
                    && states[i].steamid is Some && states[i].side is Some;
            if i < n {
                assert(init[i] == states[i]);
            }
        }
    }
}

/// Which rounds are played.
spec fn played_picks(
    rounds: Seq<Round<Seq<char>>>,
    states: Seq<PlayerState<Seq<char>>>,
) -> spec_fn(int) -> bool {
    |k: int| is_played(rounds, states, k)
}

proof fn lemma_lineups(
    rounds: Seq<Round<Seq<char>>>,
    states: Seq<PlayerState<Seq<char>>>,
    n: int,
)
    requires
        0 <= n <= rounds.len(),
    ensures
        ({
            let lines = economy::lineups(rounds, states, n);
            let played = reading::picks(n, played_picks(rounds, states));
            &&& lines.len() == played.len()
            &&& forall|i: int|
                0 <= i < lines.len() ==> (#[trigger] lines[i]).0 == played[i] && lines[i].1
                    == economy::lineup(states, lock_tick(rounds[played[i]])) && 0 <= played[i] < n
                    && is_played(rounds, states, played[i])
            &&& forall|i: int, j: int| 0 <= i < j < played.len() ==> played[i] < played[j]
            &&& forall|k: int|
                0 <= k < n && #[trigger] is_played(rounds, states, k) ==> played.contains(k)
        }),
    decreases n,
{
    if n > 0 {
        lemma_lineups(rounds, states, n - 1);
        lemma_economy_of_round(rounds, n - 1);
        lemma_lineup_empty(states, lock_tick(rounds[n - 1]));
        let lines = economy::lineups(rounds, states, n);
        let before = economy::lineups(rounds, states, n - 1);
        let was = reading::picks(n - 1, played_picks(rounds, states));
        let played = reading::picks(n, played_picks(rounds, states));
        assert(economy::round_lineup(rounds, states, n - 1).len() > 0 <==> is_played(
            rounds,
            states,
            n - 1,
        ));
        assert forall|i: int| 0 <= i < lines.len() implies (#[trigger] lines[i]).0 == played[i]
            && lines[i].1 == economy::lineup(states, lock_tick(rounds[played[i]])) && 0
            <= played[i] < n && is_played(rounds, states, played[i]) by {
            if i < before.len() {
                assert(lines[i] == before[i]);
            }
        }
        assert forall|k: int| 0 <= k < n && #[trigger] is_played(rounds, states, k) implies played.contains(
            k,
        ) by {
            if k < n - 1 {
                assert(was.contains(k));
                let i = choose|i: int| 0 <= i < was.len() && was[i] == k;
                assert(played[i] == k);
            } else {
                assert(played[was.len() as int] == k);
            }
        }
        assert forall|i: int, j: int| 0 <= i < j < played.len() implies played[i] < played[j] by {
            if j >= was.len() {
                assert(before[i].0 == was[i]);
            }
        }
    }
}

/// Pistol rounds are the first round that is played and the first with switched sides.
pub proof fn law_pistol_rounds(
    rounds: Seq<Round<Seq<char>>>,
    states: Seq<PlayerState<Seq<char>>>,
    k: int,
)
    requires
        0 <= k < rounds.len(),
    ensures
        economy::is_pistol(economy::lineups(rounds, states, rounds.len() as int), k)
            == is_pistol_round(rounds, states, k),
{
    let n = rounds.len() as int;
    let lines = economy::lineups(rounds, states, n);
    let played = reading::picks(n, played_picks(rounds, states));
    lemma_lineups(rounds, states, n);
    assert forall|i: int| 0 <= i < lines.len() implies #[trigger] economy::flips_at(lines, i)
        == is_switched(rounds, states, played[i]) by {
        lemma_switch_at(rounds, states, i);
    }
    if economy::is_pistol(lines, k) {
        if lines.len() > 0 && lines[0].0 == k {
            assert forall|m: int| 0 <= m < k implies !#[trigger] is_played(rounds, states, m) by {
                if is_played(rounds, states, m) {
                    assert(played.contains(m));
                    let i = choose|i: int| 0 <= i < played.len() && played[i] == m;
                    if i > 0 {
                        assert(played[0] < played[i]);
                    }
                }
            }
        } else {
            let i = choose|i: int|
                #[trigger] economy::flips_at(lines, i) && lines[i].0 == k && forall|j: int|
                    0 < j < i ==> !#[trigger] economy::flips_at(lines, j);
            assert(is_switched(rounds, states, played[i]));
            assert forall|m: int| 0 <= m < k implies !#[trigger] is_switched(rounds, states, m) by {
                if is_switched(rounds, states, m) {
                    assert(played.contains(m));
                    let j = choose|j: int| 0 <= j < played.len() && played[j] == m;
                    if j >= i {
                        if j > i {
                            assert(played[i] < played[j]);
                        }
                    } else {
                        assert(economy::flips_at(lines, j));
                    }
                }
            }
        }
    }
    if is_pistol_round(rounds, states, k) {
        assert(played.contains(k));
        let i = choose|i: int| 0 <= i < played.len() && played[i] == k;
        assert(lines[i].0 == k);
        if i > 0 {
            assert(is_played(rounds, states, played[0])) by {
                assert(lines[0].0 == played[0]);
            }
            assert(played[0] < played[i]);
            assert(is_switched(rounds, states, k));
            assert(economy::flips_at(lines, i));
            assert forall|j: int| 0 < j < i implies !#[trigger] economy::flips_at(lines, j) by {
                assert(played[j] < played[i]);
                assert(lines[j].0 == played[j]);
                assert(!is_switched(rounds, states, played[j]));
            }
        }
    }
}

proof fn lemma_switch_at(
    rounds: Seq<Round<Seq<char>>>,
    states: Seq<PlayerState<Seq<char>>>,
    i: int,
)
    requires
        0 <= i < economy::lineups(rounds, states, rounds.len() as int).len(),
    ensures
        ({
            let lines = economy::lineups(rounds, states, rounds.len() as int);
            economy::flips_at(lines, i) == is_switched(rounds, states, lines[i].0)
        }),
{
    let n = rounds.len() as int;
    let lines = economy::lineups(rounds, states, n);
    let played = reading::picks(n, played_picks(rounds, states));
    lemma_lineups(rounds, states, n);
    let k = lines[i].0;
    assert(k == played[i]);
    if i > 0 {
        let m = played[i - 1];
        assert(lines[i - 1].0 == m);
        assert(played[i - 1] < played[i]);
        assert(is_played_before(rounds, states, m, k)) by {
            assert forall|x: int| m < x < k implies !#[trigger] is_played(rounds, states, x) by {
                if is_played(rounds, states, x) {
                    assert(played.contains(x));
                    let j = choose|j: int| 0 <= j < played.len() && played[j] == x;
                    if j < i - 1 {
                        assert(played[j] < played[i - 1]);
                    } else if j > i {
                        assert(played[i] < played[j]);
                    }
                }
            }
        }
    }
    if is_switched(rounds, states, k) {
        let m = choose|m: int| #[trigger]
            is_played_before(rounds, states, m, k) && economy::flipped(
                economy::lineup(states, lock_tick(rounds[m])),
                economy::lineup(states, lock_tick(rounds[k])),
            );
        assert(played.contains(m));
        let j = choose|j: int| 0 <= j < played.len() && played[j] == m;
        if j > i {
            assert(played[i] < played[j]);
        } else if j < i - 1 {
            assert(played[j] < played[i - 1]);
            assert(lines[i - 1].0 == played[i - 1]);
            assert(is_played(rounds, states, played[i - 1]));
            assert(played[i - 1] < played[i]);
        }
        assert(j == i - 1);
    }
}

proof fn lemma_row(
    rounds: Seq<Round<Seq<char>>>,
    states: Seq<PlayerState<Seq<char>>>,
    k: int,
    side: Seq<char>,
)
    requires
        0 <= k < rounds.len(),
    ensures
        economy::has_side(rounds, states, k, side) == (has_economy(rounds, k) && anyone_on(
            states,
            lock_tick(rounds[k]),
            side,
        )),
        economy::has_side(rounds, states, k, side) ==> is_economy_of(
            rounds,
            states,
            k,
            economy::economy_row(rounds, states, k, side),
        ),
{
    let tick = lock_tick(rounds[k]);
    lemma_economy_of_round(rounds, k);
    lemma_held(states, tick, side, states.len() as int);
    assert(states.take(states.len() as int) =~= states);
    law_pistol_rounds(rounds, states, k);
    if anyone_on(states, tick, side) {
        let i = choose|i: int| 0 <= i < states.len() && #[trigger] is_on(states, tick, side, i);
        assert(economy::counts_for(states[i], tick, side));
    }
    if exists|i: int|
        0 <= i < states.len() && economy::counts_for(#[trigger] states[i], tick, side) {
        let i = choose|i: int|
            0 <= i < states.len() && economy::counts_for(#[trigger] states[i], tick, side);
        assert(is_on(states, tick, side, i));
    }
}

/// The economy is what each side holds when the buy is locked: every row is that of a side in
/// a round, with the sum of what the players on the side hold on the tick on which the buy is
/// locked; every side that anybody is on then, in every round that has an economy, has a row;
/// and rows come by round number and then by side.
pub proof fn law_economy_is_what_is_held(
    rounds: Seq<Round<Seq<char>>>,
    states: Seq<PlayerState<Seq<char>>>,
    rows: Seq<RoundEconomy<Seq<char>>>,
)
    requires
        economy::economy_of(rounds, states, rows),
    ensures
        forall|i: int|
            0 <= i < rows.len() ==> is_economy_of_some(rounds, states, #[trigger] rows[i]),
        forall|k: int, side: Seq<char>|
            #![trigger has_economy(rounds, k), anyone_on(states, lock_tick(rounds[k]), side)]
            has_economy(rounds, k) && anyone_on(states, lock_tick(rounds[k]), side) ==> exists|
                i: int,
            |
                0 <= i < rows.len() && (#[trigger] rows[i]).side == side && is_economy_of(
                    rounds,
                    states,
                    k,
                    rows[i],
                ),
        forall|i: int, j: int|
            0 <= i < j < rows.len() ==> (#[trigger] rows[i]).round_num < (
            #[trigger] rows[j]).round_num || (rows[i].round_num == rows[j].round_num
                && text::text_before(rows[i].side, rows[j].side)),
{
    assert forall|i: int| 0 <= i < rows.len() implies is_economy_of_some(
        rounds,
        states,
        #[trigger] rows[i],
    ) by {
        let row = rows[i];
        assert(rows.contains(row));
        let k = choose|k: int|
            economy::has_side(rounds, states, k, row.side) && row == #[trigger] economy::economy_row(
                rounds,
                states,
                k,
                row.side,
            );
        lemma_row(rounds, states, k, row.side);
        assert(is_economy_of(rounds, states, k, row));
    }
    assert forall|k: int, side: Seq<char>|
        #![trigger has_economy(rounds, k), anyone_on(states, lock_tick(rounds[k]), side)]
        has_economy(rounds, k) && anyone_on(states, lock_tick(rounds[k]), side) implies exists|
        i: int,
    |
        0 <= i < rows.len() && (#[trigger] rows[i]).side == side && is_economy_of(
            rounds,
            states,
            k,
            rows[i],
        ) by {
        lemma_row(rounds, states, k, side);
        let row = economy::economy_row(rounds, states, k, side);
        assert(economy::is_economy(rounds, states, row));
        assert(rows.contains(row));
        let i = choose|i: int| 0 <= i < rows.len() && rows[i] == row;
        assert(rows[i].side == side);
    }
    assert forall|i: int, j: int| 0 <= i < j < rows.len() implies (#[trigger] rows[i]).round_num < (
    #[trigger] rows[j]).round_num || (rows[i].round_num == rows[j].round_num && text::text_before(
        rows[i].side,
        rows[j].side,
    )) by {
        assert(economy::row_before(rows[i], rows[j]));
    }
}

/// The economy is read off the tick, the side, the player and what they hold, and off nothing
/// else that a state says: states that agree on these give the same rows.
pub proof fn law_economy_reads_equipment_only(
    rounds: Seq<Round<Seq<char>>>,
    a: Seq<PlayerState<Seq<char>>>,
    b: Seq<PlayerState<Seq<char>>>,
    x: Seq<RoundEconomy<Seq<char>>>,
    y: Seq<RoundEconomy<Seq<char>>>,
)
    requires
        a.len() == b.len(),
        forall|i: int|
            0 <= i < a.len() ==> (#[trigger] a[i]).tick == b[i].tick && a[i].side == b[i].side
                && a[i].steamid == b[i].steamid && a[i].equipment_value == b[i].equipment_value,
        economy::economy_of(rounds, a, x),
        economy::economy_of(rounds, b, y),
    ensures
        x == y,
{
    assert forall|row: RoundEconomy<Seq<char>>| economy::is_economy(rounds, a, row)
        == economy::is_economy(rounds, b, row) by {
        if economy::is_economy(rounds, a, row) {
            lemma_same_row(rounds, a, b, row);
        }
        if economy::is_economy(rounds, b, row) {
            assert forall|i: int| 0 <= i < b.len() implies (#[trigger] b[i]).tick == a[i].tick
                && b[i].side == a[i].side && b[i].steamid == a[i].steamid && b[i].equipment_value
                == a[i].equipment_value by {
                assert(a[i].tick == b[i].tick);
            }
            lemma_same_row(rounds, b, a, row);
        }
    }
    assert(economy::economy_of(rounds, a, y)) by {
        assert forall|row: RoundEconomy<Seq<char>>| #[trigger]
            y.contains(row) <==> economy::is_economy(rounds, a, row) by {
            assert(y.contains(row) <==> economy::is_economy(rounds, b, row));
        }
    }
    economy::law_economy_unique(rounds, a, x, y);
}

proof fn lemma_same_lineup(
    a: Seq<PlayerState<Seq<char>>>,
    b: Seq<PlayerState<Seq<char>>>,
    tick: i32,
    side: Seq<char>,
)
    requires
        a.len() == b.len(),
        forall|i: int|
            0 <= i < a.len() ==> (#[trigger] a[i]).tick == b[i].tick && a[i].side == b[i].side
                && a[i].steamid == b[i].steamid && a[i].equipment_value == b[i].equipment_value,
    ensures
        economy::lineup(a, tick) == economy::lineup(b, tick),
        economy::equipment(a, tick, side) == economy::equipment(b, tick, side),
        economy::headcount(a, tick, side) == economy::headcount(b, tick, side),
    decreases a.len(),
{
    if a.len() > 0 {
        let x = a.drop_last();
        let y = b.drop_last();
        assert(a[a.len() - 1].tick == b[b.len() - 1].tick);
        assert forall|i: int| 0 <= i < x.len() implies (#[trigger] x[i]).tick == y[i].tick
            && x[i].side == y[i].side && x[i].steamid == y[i].steamid && x[i].equipment_value
            == y[i].equipment_value by {
            assert(a[i].tick == b[i].tick);
        }
        lemma_same_lineup(x, y, tick, side);
    }
}

proof fn lemma_same_lineups(
    rounds: Seq<Round<Seq<char>>>,
    a: Seq<PlayerState<Seq<char>>>,
    b: Seq<PlayerState<Seq<char>>>,
    n: int,
)
    requires
        a.len() == b.len(),
        forall|i: int|
            0 <= i < a.len() ==> (#[trigger] a[i]).tick == b[i].tick && a[i].side == b[i].side
                && a[i].steamid == b[i].steamid && a[i].equipment_value == b[i].equipment_value,
    ensures
        economy::lineups(rounds, a, n) == economy::lineups(rounds, b, n),
    decreases n,
{
    if n > 0 {
        lemma_same_lineups(rounds, a, b, n - 1);
        lemma_same_lineup(a, b, economy::buy_tick(rounds[n - 1]), Seq::empty());
    }
}

proof fn lemma_same_row(
    rounds: Seq<Round<Seq<char>>>,
    a: Seq<PlayerState<Seq<char>>>,
    b: Seq<PlayerState<Seq<char>>>,
    row: RoundEconomy<Seq<char>>,
)
    requires
        a.len() == b.len(),
        forall|i: int|
            0 <= i < a.len() ==> (#[trigger] a[i]).tick == b[i].tick && a[i].side == b[i].side
                && a[i].steamid == b[i].steamid && a[i].equipment_value == b[i].equipment_value,
        economy::is_economy(rounds, a, row),
    ensures
        economy::is_economy(rounds, b, row),
{
    let k = choose|k: int|
        economy::has_side(rounds, a, k, row.side) && row == #[trigger] economy::economy_row(
            rounds,
            a,
            k,
            row.side,
        );
    let tick = economy::buy_tick(rounds[k]);
    lemma_same_lineup(a, b, tick, row.side);
    lemma_same_lineups(rounds, a, b, rounds.len() as int);
    let i = choose|i: int|
        0 <= i < a.len() && economy::counts_for(#[trigger] a[i], tick, row.side);
    assert(a[i].tick == b[i].tick);
    assert(economy::counts_for(b[i], tick, row.side));
    assert(row == economy::economy_row(rounds, b, k, row.side));
}

/// The states that the economy is read from are those of all pawns in play on the ticks on
/// which the buys of rounds are locked.
pub proof fn law_economy_states(p: Parser)
    requires
        p.buy_states() is Ok,
    ensures
        ({
            let rounds = p.round_rows()->Ok_0;
            exists|wants: spec_fn(i32) -> bool|
                #![trigger p.state_rows(wants)]
                p.state_rows(wants) == p.buy_states() && states::are_states(
                    p.schema,
                    p.names,
                    Scope::Snapshots,
                    p.keyframes->Ok_0@.map_values(|k: crate::segments::Keyframe| k.tick),
                    wants,
                    p.frames->Ok_0@,
                    rounds,
                    p.buy_states()->Ok_0,
                ) && forall|k: int|
                    0 <= k < rounds.len() && !(#[trigger] rounds[k]).is_knife_round ==> wants(
                        lock_tick(rounds[k]),
                    )
        }),
{
    let rounds = p.round_rows()->Ok_0;
    let ticks = economy::buy_ticks(rounds);
    let wants = p.sampled_ticks(None, ticks, i32::MIN, i32::MAX);
    states::law_queried_states(p, wants);
    assert forall|k: int| 0 <= k < rounds.len() && !(#[trigger] rounds[k]).is_knife_round implies wants(
        lock_tick(rounds[k]),
    ) by {
        assert(economy::buy_tick(rounds[k]) == lock_tick(rounds[k]));
        assert(ticks.contains(lock_tick(rounds[k])));
    }
    assert(p.state_rows(wants) == p.buy_states());
}

} // verus!
