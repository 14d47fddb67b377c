//! Each team's economy at the start of each round.
use crate::damages;
use crate::rounds;
use crate::rounds::Round;
use crate::snapshots::PlayerState;
use crate::text;
use crate::text::{same_text, sorts_before};
use std::collections::HashSet;
use vstd::prelude::*;

verus! {

broadcast use {
    vstd::std_specs::hash::group_hash_axioms,
    vstd::string::group_string_axioms,
    crate::text::group_views,
};

/// Team equipment value below which the team is playing an eco.
pub const BUY_ECO_MAX: i32 = 5_000;

/// Team equipment value at or above which it is a full buy.
pub const BUY_FULL_MIN: i32 = 20_000;

/// A team's economy at the start of one round.
#[derive(Clone, Debug)]
pub struct RoundEconomy<T = String> {
    pub round_num: i32,
    pub side: T,
    /// Total equipment value across the team once the buy is locked (freeze end).
    pub equipment_value: i32,
    /// `pistol`, `eco`, `force` or `full`.
    pub buy_type: T,
    /// Number of players counted for the team.
    pub n_players: i32,
}

impl View for RoundEconomy {
    type V = RoundEconomy<Seq<char>>;

    open spec fn view(&self) -> RoundEconomy<Seq<char>> {
        RoundEconomy {
            round_num: self.round_num,
            side: self.side@,
            equipment_value: self.equipment_value,
            buy_type: self.buy_type@,
            n_players: self.n_players,
        }
    }
}

/// What a team's total equipment value makes of its buy.
pub open spec fn buy_type_of(team_equipment: int) -> Seq<char> {
    if team_equipment < BUY_ECO_MAX {
        "eco"@
    } else if team_equipment < BUY_FULL_MIN {
        "force"@
    } else {
        "full"@
    }
}

/// Classify a team's total equipment value: `eco` (saving), `force` (partial buy) or
/// `full`. Pistol rounds are told apart before.
pub fn buy_type(team_equipment: i32) -> (t: String)
    ensures
        t@ == buy_type_of(team_equipment as int),
{
    if team_equipment < BUY_ECO_MAX {
        "eco".to_string()
    } else if team_equipment < BUY_FULL_MIN {
        "force".to_string()
    } else {
        "full".to_string()
    }
}

/// The tick at which a round's buy is read: its freeze end, else its start, else its end.
pub open spec fn buy_tick(r: Round<Seq<char>>) -> i32 {
    match (r.freeze_end_tick, r.start_tick) {
        (Some(f), _) => f,
        (None, Some(s)) => s,
        (None, None) => r.end_tick,
    }
}

fn tick_of_buy(r: &Round) -> (tick: i32)
    ensures
        tick == buy_tick(r@),
{
    match (r.freeze_end_tick, r.start_tick) {
        (Some(f), _) => f,
        (None, Some(s)) => s,
        (None, None) => r.end_tick,
    }
}

/// Whether a round's buy is read at a tick. Knife rounds have none, and where two rounds
/// share a tick it belongs to the later one.
pub open spec fn buys_at(rounds: Seq<Round<Seq<char>>>, k: int, tick: i32) -> bool {
    &&& 0 <= k < rounds.len()
    &&& !rounds[k].is_knife_round
    &&& buy_tick(rounds[k]) == tick
    &&& forall|j: int|
        k < j < rounds.len() ==> (#[trigger] rounds[j]).is_knife_round || buy_tick(rounds[j]) != tick
}

/// The ticks at which buys are read.
pub open spec fn buy_ticks(rounds: Seq<Round<Seq<char>>>) -> Set<i32> {
    Set::new(
        |t: i32|
            exists|k: int|
                0 <= k < rounds.len() && !(#[trigger] rounds[k]).is_knife_round && buy_tick(
                    rounds[k],
                ) == t,
    )
}

/// Whether a state counts for a side at a tick.
pub open spec fn counts_for(s: PlayerState<Seq<char>>, tick: i32, side: Seq<char>) -> bool {
    s.tick == tick && s.side == Some(side)
}

/// The equipment of a side at a tick.
pub open spec fn equipment(states: Seq<PlayerState<Seq<char>>>, tick: i32, side: Seq<char>) -> int
    decreases states.len(),
{
    if states.len() == 0 {
        0
    } else {
        equipment(states.drop_last(), tick, side) + (if counts_for(states.last(), tick, side) {
            states.last().equipment_value as int
        } else {
            0
        })
    }
}

/// The players of a side at a tick.
pub open spec fn headcount(states: Seq<PlayerState<Seq<char>>>, tick: i32, side: Seq<char>) -> int
    decreases states.len(),
{
    if states.len() == 0 {
        0
    } else {
        headcount(states.drop_last(), tick, side) + (if counts_for(states.last(), tick, side) {
            1int
        } else {
            0
        })
    }
}

/// Who plays on which side at a tick, each player once, by their last state.
pub open spec fn lineup(states: Seq<PlayerState<Seq<char>>>, tick: i32) -> Seq<(u64, Seq<char>)>
    decreases states.len(),
{
    if states.len() == 0 {
        Seq::empty()
    } else {
        let rest = lineup(states.drop_last(), tick);
        let s = states.last();
        match (s.steamid, s.side) {
            (Some(id), Some(side)) => if s.tick == tick {
                placed(rest, id, side)
            } else {
                rest
            },
            _ => rest,
        }
    }
}

/// A lineup with a player on a side.
pub open spec fn placed(line: Seq<(u64, Seq<char>)>, id: u64, side: Seq<char>) -> Seq<
    (u64, Seq<char>),
> {
    if side_in(line, id) is Some {
        line.map_values(
            |p: (u64, Seq<char>)|
                if p.0 == id {
                    (id, side)
                } else {
                    p
                },
        )
    } else {
        line.push((id, side))
    }
}

/// The side that a player is on in a lineup.
pub open spec fn side_in(line: Seq<(u64, Seq<char>)>, id: u64) -> Option<Seq<char>>
    decreases line.len(),
{
    if line.len() == 0 {
        None
    } else if line.last().0 == id {
        Some(line.last().1)
    } else {
        side_in(line.drop_last(), id)
    }
}

/// How many players of `cur` were on the same side in `prev`, or on another.
pub open spec fn kept_sides(
    prev: Seq<(u64, Seq<char>)>,
    cur: Seq<(u64, Seq<char>)>,
    same: bool,
) -> int
    decreases cur.len(),
{
    if cur.len() == 0 {
        0
    } else {
        let rest = kept_sides(prev, cur.drop_last(), same);
        match side_in(prev, cur.last().0) {
            Some(side) => if (side == cur.last().1) == same {
                rest + 1
            } else {
                rest
            },
            None => rest,
        }
    }
}

/// Whether most players that two lineups share are on the other side in the later one.
pub open spec fn flipped(prev: Seq<(u64, Seq<char>)>, cur: Seq<(u64, Seq<char>)>) -> bool {
    kept_sides(prev, cur, false) > kept_sides(prev, cur, true)
}

/// The lineup of a round; empty where its buy is not read.
pub open spec fn round_lineup(
    rounds: Seq<Round<Seq<char>>>,
    states: Seq<PlayerState<Seq<char>>>,
    k: int,
) -> Seq<(u64, Seq<char>)> {
    if buys_at(rounds, k, buy_tick(rounds[k])) {
        lineup(states, buy_tick(rounds[k]))
    } else {
        Seq::empty()
    }
}

/// The lineups of the first rounds, as far as anybody is in them.
pub open spec fn lineups(
    rounds: Seq<Round<Seq<char>>>,
    states: Seq<PlayerState<Seq<char>>>,
    n: int,
) -> Seq<(int, Seq<(u64, Seq<char>)>)>
    decreases n,
{
    if n <= 0 {
        Seq::empty()
    } else {
        let rest = lineups(rounds, states, n - 1);
        let line = round_lineup(rounds, states, n - 1);
        if line.len() > 0 {
            rest.push((n - 1, line))
        } else {
            rest
        }
    }
}

/// Whether the sides are flipped from one lineup to the next.
pub open spec fn flips_at(lines: Seq<(int, Seq<(u64, Seq<char>)>)>, i: int) -> bool {
    0 < i < lines.len() && flipped(lines[i - 1].1, lines[i].1)
}

/// Whether a round is a pistol round: the first one played, or the first one whose sides
/// are flipped from the one before.
pub open spec fn is_pistol(lines: Seq<(int, Seq<(u64, Seq<char>)>)>, k: int) -> bool {
    ||| lines.len() > 0 && lines[0].0 == k
    ||| exists|i: int|
        #[trigger] flips_at(lines, i) && lines[i].0 == k && forall|j: int|
            0 < j < i ==> !#[trigger] flips_at(lines, j)
}

/// A side's economy in a round.
pub open spec fn economy_row(
    rounds: Seq<Round<Seq<char>>>,
    states: Seq<PlayerState<Seq<char>>>,
    k: int,
    side: Seq<char>,
) -> RoundEconomy<Seq<char>> {
    let tick = buy_tick(rounds[k]);
    let value = equipment(states, tick, side);
    RoundEconomy {
        round_num: rounds[k].round_num,
        side,
        equipment_value: value as i32,
        buy_type: if is_pistol(lineups(rounds, states, rounds.len() as int), k) {
            "pistol"@
        } else {
            buy_type_of(value)
        },
        n_players: headcount(states, tick, side) as i32,
    }
}

/// Whether anybody plays on a side in a round.
pub open spec fn has_side(
    rounds: Seq<Round<Seq<char>>>,
    states: Seq<PlayerState<Seq<char>>>,
    k: int,
    side: Seq<char>,
) -> bool {
    buys_at(rounds, k, buy_tick(rounds[k])) && exists|i: int|
        0 <= i < states.len() && counts_for(#[trigger] states[i], buy_tick(rounds[k]), side)
}

/// Whether a row is some side's economy in some round.
pub open spec fn is_economy(
    rounds: Seq<Round<Seq<char>>>,
    states: Seq<PlayerState<Seq<char>>>,
    row: RoundEconomy<Seq<char>>,
) -> bool {
    exists|k: int|
        has_side(rounds, states, k, row.side) && row == #[trigger] economy_row(
            rounds,
            states,
            k,
            row.side,
        )
}

/// Whether a row comes before another: by round, then by side.
pub open spec fn row_before(a: RoundEconomy<Seq<char>>, b: RoundEconomy<Seq<char>>) -> bool {
    a.round_num < b.round_num || (a.round_num == b.round_num && text::text_before(a.side, b.side))
}

/// Whether rows are the economy of every side in every round, by round and then by side.
pub open spec fn economy_of(
    rounds: Seq<Round<Seq<char>>>,
    states: Seq<PlayerState<Seq<char>>>,
    rows: Seq<RoundEconomy<Seq<char>>>,
) -> bool {
    &&& forall|i: int, j: int|
        0 <= i < j < rows.len() ==> row_before(#[trigger] rows[i], #[trigger] rows[j])
    &&& forall|row: RoundEconomy<Seq<char>>| #[trigger]
        rows.contains(row) <==> is_economy(rounds, states, row)
}

/// Whether the equipment and the players of a side at a tick can be added up in 32 bits, one
/// state after the other.
pub open spec fn sum_fits(
    states: Seq<PlayerState<Seq<char>>>,
    tick: i32,
    side: Seq<char>,
) -> bool {
    &&& headcount(states, tick, side) <= i32::MAX
    &&& forall|n: int|
        0 <= n <= states.len() ==> damages::fits(
            equipment(#[trigger] states.take(n), tick, side),
        )
}

/// Whether the equipment and the players of every side in every round can be added up in 32
/// bits.
pub open spec fn sums_fit(
    rounds: Seq<Round<Seq<char>>>,
    states: Seq<PlayerState<Seq<char>>>,
) -> bool {
    forall|k: int, side: Seq<char>| #[trigger]
        has_side(rounds, states, k, side) ==> sum_fits(states, buy_tick(rounds[k]), side)
}

/// Whether a round's buy is read.
fn reads_buy(rounds: &Vec<Round>, k: usize) -> (b: bool)
    requires
        k < rounds@.len(),
    ensures
        b == buys_at(text::views(rounds@), k as int, buy_tick(rounds@[k as int]@)),
{
    let ghost all = text::views(rounds@);
    assert(all[k as int] == rounds@[k as int]@);
    if rounds[k].is_knife_round {
        return false;
    }
    let tick = tick_of_buy(&rounds[k]);
    let n: usize = rounds.len();
    let mut j: usize = k + 1;
    while j < n
        invariant
            k < j <= n,
            n == rounds@.len(),
            all == text::views(rounds@),
            tick == buy_tick(rounds@[k as int]@),
            forall|i: int|
                k < i < j ==> (#[trigger] all[i]).is_knife_round || buy_tick(all[i]) != tick,
        decreases n - j,
    {
        assert(all[j as int] == rounds@[j as int]@);
        if !rounds[j].is_knife_round && tick_of_buy(&rounds[j]) == tick {
            return false;
        }
        j = j + 1;
    }
    true
}

/// The ticks at which buys are read.
pub fn find_buy_ticks(rounds: &Vec<Round>) -> (ticks: HashSet<i32>)
    ensures
        ticks@ == buy_ticks(text::views(rounds@)),
{
    let mut ticks: HashSet<i32> = HashSet::new();
    let ghost all = text::views(rounds@);
    let n: usize = rounds.len();
    let mut i: usize = 0;
    while i < n
        invariant
            i <= n,
            n == rounds@.len(),
            all == text::views(rounds@),
            forall|t: i32| #[trigger]
                ticks@.contains(t) <==> exists|k: int|
                    0 <= k < i && !(#[trigger] all[k]).is_knife_round && buy_tick(all[k]) == t,
        decreases n - i,
    {
        let ghost before = ticks@;
        assert(all[i as int] == rounds@[i as int]@);
        if !rounds[i].is_knife_round {
            ticks.insert(tick_of_buy(&rounds[i]));
        }
        proof {
            assert forall|t: i32| #[trigger] ticks@.contains(t) <==> exists|k: int|
                0 <= k < i + 1 && !(#[trigger] all[k]).is_knife_round && buy_tick(all[k]) == t by {
                if before.contains(t) {
                    let k = choose|k: int|
                        0 <= k < i && !(#[trigger] all[k]).is_knife_round && buy_tick(all[k]) == t;
                    assert(!all[k].is_knife_round);
                }
                if !all[i as int].is_knife_round && buy_tick(all[i as int]) == t {
                    assert(ticks@.contains(t));
                }
            }
        }
        i = i + 1;
    }
    assert(ticks@ =~= buy_ticks(all));
    ticks
}

/// Put a player on a side of a lineup.
fn place_player(line: &mut Vec<(u64, String)>, id: u64, side: &String)
    ensures
        text::views(final(line)@) == placed(text::views(old(line)@), id, side@),
{
    let ghost was = text::views(line@);
    let n: usize = line.len();
    let mut found = false;
    let mut i: usize = 0;
    assert(was.take(0) =~= Seq::empty());
    while i < n
        invariant
            i <= n,
            n == line@.len(),
            n == was.len(),
            found == side_in(was.take(i as int), id) is Some,
            forall|j: int|
                0 <= j < i ==> (#[trigger] line@[j])@ == (if was[j].0 == id {
                    (id, side@)
                } else {
                    was[j]
                }),
            forall|j: int| i <= j < n ==> (#[trigger] line@[j])@ == was[j],
        decreases n - i,
    {
        assert(was.take(i + 1).drop_last() =~= was.take(i as int));
        assert(line@[i as int]@ == was[i as int]);
        if line[i].0 == id {
            line.set(i, (id, side.clone()));
            found = true;
        }
        i = i + 1;
    }
    assert(was.take(n as int) =~= was);
    if found {
        assert(text::views(line@) =~= placed(was, id, side@));
    } else {
        proof {
            lemma_side_in(was, id);
            assert(text::views(line@) =~= was);
        }
        line.push((id, side.clone()));
    }
}

/// A player that is on no side is in no place.
proof fn lemma_side_in(line: Seq<(u64, Seq<char>)>, id: u64)
    ensures
        side_in(line, id) is None <==> forall|j: int|
            0 <= j < line.len() ==> (#[trigger] line[j]).0 != id,
    decreases line.len(),
{
    if line.len() > 0 {
        let init = line.drop_last();
        lemma_side_in(init, id);
        assert(line[line.len() - 1] == line.last());
        if side_in(init, id) is None {
            assert forall|j: int| 0 <= j < init.len() implies (#[trigger] line[j]).0 != id by {
                assert(init[j].0 != id);
            }
        } else {
            let j = choose|j: int| 0 <= j < init.len() && (#[trigger] init[j]).0 == id;
            assert(line[j].0 == id);
        }
    }
}

/// Who plays on which side at a tick.
fn find_lineup(states: &Vec<PlayerState>, tick: i32) -> (line: Vec<(u64, String)>)
    ensures
        text::views(line@) == lineup(text::views(states@), tick),
{
    let mut line: Vec<(u64, String)> = Vec::new();
    let ghost all = text::views(states@);
    let n: usize = states.len();
    let mut i: usize = 0;
    assert(all.take(0) =~= Seq::empty());
    while i < n
        invariant
            i <= n,
            n == states@.len(),
            all == text::views(states@),
            text::views(line@) == lineup(all.take(i as int), tick),
        decreases n - i,
    {
        assert(all.take(i + 1).drop_last() =~= all.take(i as int));
        assert(all.take(i + 1).last() == states@[i as int]@);
        let s = &states[i];
        if s.tick == tick {
            if let (Some(id), Some(side)) = (s.steamid, &s.side) {
                place_player(&mut line, id, side);
            }
        }
        i = i + 1;
    }
    assert(all.take(n as int) =~= all);
    line
}

/// The position of a player in a lineup, by the last entry.
fn find_side(line: &Vec<(u64, String)>, id: u64) -> (at: Option<usize>)
    ensures
        match at {
            Some(k) => k < line@.len() && side_in(text::views(line@), id) == Some(
                line@[k as int].1@,
            ),
            None => side_in(text::views(line@), id) is None,
        },
{
    let ghost all = text::views(line@);
    let mut i: usize = line.len();
    assert(all.take(i as int) =~= all);
    while i > 0
        invariant
            i <= line@.len(),
            all == text::views(line@),
            side_in(all, id) == side_in(all.take(i as int), id),
        decreases i,
    {
        assert(all.take(i as int).drop_last() =~= all.take(i - 1));
        assert(all.take(i as int).last() == line@[i - 1]@);
        if line[i - 1].0 == id {
            return Some(i - 1);
        }
        i = i - 1;
    }
    None
}

/// Whether most players shared between two lineups are on the opposite side in the later
/// one: the tell-tale of a halftime side switch.
pub fn sides_flipped(prev: &Vec<(u64, String)>, cur: &Vec<(u64, String)>) -> (b: bool)
    ensures
        b == flipped(text::views(prev@), text::views(cur@)),
{
    let ghost before = text::views(prev@);
    let ghost all = text::views(cur@);
    let mut moved: usize = 0;
    let mut stayed: usize = 0;
    let n: usize = cur.len();
    let mut i: usize = 0;
    assert(all.take(0) =~= Seq::empty());
    while i < n
        invariant
            i <= n,
            n == cur@.len(),
            before == text::views(prev@),
            all == text::views(cur@),
            moved <= i,
            stayed <= i,
            moved == kept_sides(before, all.take(i as int), false),
            stayed == kept_sides(before, all.take(i as int), true),
        decreases n - i,
    {
        assert(all.take(i + 1).drop_last() =~= all.take(i as int));
        assert(all.take(i + 1).last() == cur@[i as int]@);
        if let Some(k) = find_side(prev, cur[i].0) {
            if same_text(prev[k].1.as_str(), cur[i].1.as_str()) {
                stayed = stayed + 1;
            } else {
                moved = moved + 1;
            }
        }
        i = i + 1;
    }
    assert(all.take(n as int) =~= all);
    moved > stayed
}

/// Lineups of rounds, as sequences.
spec fn line_views(lines: Seq<(usize, Vec<(u64, String)>)>) -> Seq<(int, Seq<(u64, Seq<char>)>)> {
    lines.map_values(|p: (usize, Vec<(u64, String)>)| (p.0 as int, text::views(p.1@)))
}

/// The lineups of all rounds, as far as anybody is in them.
fn find_lineups(rounds: &Vec<Round>, states: &Vec<PlayerState>) -> (lines: Vec<
    (usize, Vec<(u64, String)>),
>)
    ensures
        line_views(lines@) == lineups(
            text::views(rounds@),
            text::views(states@),
            rounds@.len() as int,
        ),
        forall|i: int| 0 <= i < lines@.len() ==> (#[trigger] lines@[i]).0 < rounds@.len(),
{
    let mut lines: Vec<(usize, Vec<(u64, String)>)> = Vec::new();
    let ghost all = text::views(rounds@);
    let n: usize = rounds.len();
    let mut k: usize = 0;
    assert(line_views(lines@) =~= Seq::empty());
    while k < n
        invariant
            k <= n,
            n == rounds@.len(),
            all == text::views(rounds@),
            line_views(lines@) == lineups(all, text::views(states@), k as int),
            forall|i: int| 0 <= i < lines@.len() ==> (#[trigger] lines@[i]).0 < n,
        decreases n - k,
    {
        assert(all[k as int] == rounds@[k as int]@);
        if reads_buy(rounds, k) {
            let line = find_lineup(states, tick_of_buy(&rounds[k]));
            if line.len() > 0 {
                let ghost was = line_views(lines@);
                let ghost l = text::views(line@);
                lines.push((k, line));
                assert(line_views(lines@) =~= was.push((k as int, l)));
            }
        }
        k = k + 1;
    }
    lines
}

/// The pistol rounds: the first one played and the first one after the sides switched.
fn find_pistols(lines: &Vec<(usize, Vec<(u64, String)>)>) -> (p: (Option<usize>, Option<usize>))
    ensures
        forall|k: usize| #[trigger]
            is_pistol(line_views(lines@), k as int) <==> p.0 == Some(k) || p.1 == Some(k),
{
    let ghost all = line_views(lines@);
    let n: usize = lines.len();
    if n == 0 {
        return (None, None);
    }
    let first: usize = lines[0].0;
    assert(all[0].0 == first);
    let mut i: usize = 1;
    while i < n
        invariant
            1 <= i <= n,
            n == lines@.len(),
            all == line_views(lines@),
            first == all[0].0,
            forall|j: int| 0 < j < i ==> !#[trigger] flips_at(all, j),
        decreases n - i,
    {
        assert(all[i - 1].1 == text::views(lines@[i - 1].1@));
        assert(all[i as int].1 == text::views(lines@[i as int].1@));
        if sides_flipped(&lines[i - 1].1, &lines[i].1) {
            let second: usize = lines[i].0;
            assert(flips_at(all, i as int));
            assert forall|k: usize| #[trigger] is_pistol(all, k as int) <==> first == k || second
                == k by {
                if second == k {
                    assert(flips_at(all, i as int) && all[i as int].0 == k);
                }
                if is_pistol(all, k as int) && first != k {
                    let j = choose|j: int|
                        #[trigger] flips_at(all, j) && all[j].0 == k && forall|m: int|
                            0 < m < j ==> !#[trigger] flips_at(all, m);
                    assert(j == i);
                }
            }
            return (Some(first), Some(second));
        }
        i = i + 1;
    }
    (Some(first), None)
}

/// Whether texts are in dictionary order, each once.
spec fn sorted_texts(list: Seq<Seq<char>>) -> bool {
    forall|i: int, j: int|
        0 <= i < j < list.len() ==> text::text_before(#[trigger] list[i], #[trigger] list[j])
}

/// Add a text to a sorted list, unless it is there.
fn insert_text(list: &mut Vec<String>, t: &String)
    requires
        sorted_texts(text::views(old(list)@)),
    ensures
        sorted_texts(text::views(final(list)@)),
        forall|x: Seq<char>| #[trigger]
            text::views(final(list)@).contains(x) <==> text::views(old(list)@).contains(x) || x
                == t@,
{
    let ghost was = text::views(list@);
    let n: usize = list.len();
    let mut at: usize = 0;
    while at < n && sorts_before(list[at].as_str(), t.as_str())
        invariant
            at <= n,
            n == list@.len(),
            was == text::views(list@),
            forall|i: int| 0 <= i < at ==> text::text_before(#[trigger] was[i], t@),
        decreases n - at,
    {
        assert(was[at as int] == list@[at as int]@);
        at = at + 1;
    }
    if at < n && same_text(list[at].as_str(), t.as_str()) {
        assert(was[at as int] == t@);
        return;
    }
    proof {
        if at < n {
            assert(was[at as int] == list@[at as int]@);
            text::law_text_order(t@, was[at as int], t@);
        }
        assert forall|i: int| at <= i < n implies text::text_before(t@, #[trigger] was[i]) by {
            if i > at {
                text::law_text_order(t@, was[at as int], was[i]);
            }
        }
    }
    list.insert(at, t.clone());
    proof {
        let now = text::views(list@);
        assert(now =~= was.insert(at as int, t@));
        assert forall|i: int, j: int| 0 <= i < j < now.len() implies text::text_before(
            #[trigger] now[i],
            #[trigger] now[j],
        ) by {
            let a = if i <= at {
                i
            } else {
                i - 1
            };
            let b = if j <= at {
                j
            } else {
                j - 1
            };
            if i == at {
                assert(now[j] == was[b]);
            } else if j == at {
                assert(now[i] == was[a]);
            } else {
                assert(now[i] == was[a] && now[j] == was[b]);
            }
        }
        assert forall|x: Seq<char>| #[trigger] now.contains(x) <==> was.contains(x) || x == t@ by {
            if was.contains(x) {
                let i = choose|i: int| 0 <= i < was.len() && was[i] == x;
                if i < at {
                    assert(now[i] == x);
                } else {
                    assert(now[i + 1] == x);
                }
            }
            if x == t@ {
                assert(now[at as int] == x);
            }
            if now.contains(x) {
                let i = choose|i: int| 0 <= i < now.len() && now[i] == x;
                if i < at {
                    assert(was[i] == x);
                } else if i > at {
                    assert(was[i - 1] == x);
                }
            }
        }
    }
}

/// Whether anybody is on a side at a tick.
spec fn seen_on(states: Seq<PlayerState<Seq<char>>>, tick: i32, side: Seq<char>) -> bool {
    exists|i: int| 0 <= i < states.len() && counts_for(#[trigger] states[i], tick, side)
}

/// The sides that anybody is on at a tick, in dictionary order.
fn find_sides(states: &Vec<PlayerState>, tick: i32) -> (sides: Vec<String>)
    ensures
        sorted_texts(text::views(sides@)),
        forall|x: Seq<char>| #[trigger]
            text::views(sides@).contains(x) <==> seen_on(text::views(states@), tick, x),
{
    let mut sides: Vec<String> = Vec::new();
    let ghost all = text::views(states@);
    let n: usize = states.len();
    let mut i: usize = 0;
    assert(text::views(sides@) =~= Seq::empty());
    while i < n
        invariant
            i <= n,
            n == states@.len(),
            all == text::views(states@),
            sorted_texts(text::views(sides@)),
            forall|x: Seq<char>| #[trigger]
                text::views(sides@).contains(x) <==> seen_on(all.take(i as int), tick, x),
        decreases n - i,
    {
        let ghost was = text::views(sides@);
        let ghost before = all.take(i as int);
        let ghost next = all.take(i + 1);
        assert(next[i as int] == states@[i as int]@);
        let s = &states[i];
        if s.tick == tick {
            if let Some(side) = &s.side {
                insert_text(&mut sides, side);
            }
        }
        proof {
            let now = text::views(sides@);
            assert forall|x: Seq<char>| #[trigger] now.contains(x) <==> seen_on(next, tick, x) by {
                assert(was.contains(x) <==> seen_on(before, tick, x));
                if seen_on(before, tick, x) {
                    let j = choose|j: int|
                        0 <= j < before.len() && counts_for(#[trigger] before[j], tick, x);
                    assert(counts_for(next[j], tick, x));
                }
                if counts_for(next[i as int], tick, x) {
                    assert(seen_on(next, tick, x));
                }
                if seen_on(next, tick, x) {
                    let j = choose|j: int|
                        0 <= j < next.len() && counts_for(#[trigger] next[j], tick, x);
                    if j < i {
                        assert(counts_for(before[j], tick, x));
                    }
                }
            }
        }
        i = i + 1;
    }
    assert(all.take(n as int) =~= all);
    sides
}

/// A headcount only grows.
proof fn lemma_headcount_grows(
    states: Seq<PlayerState<Seq<char>>>,
    tick: i32,
    side: Seq<char>,
    n: int,
)
    requires
        0 <= n <= states.len(),
    ensures
        0 <= headcount(states.take(n), tick, side) <= headcount(states, tick, side),
        headcount(states, tick, side) <= states.len(),
    decreases states.len(),
{
    if n < states.len() {
        assert(states.take(n) =~= states.drop_last().take(n));
        lemma_headcount_grows(states.drop_last(), tick, side, n);
    } else {
        assert(states.take(n) =~= states);
        if n > 0 {
            let init = states.drop_last();
            lemma_headcount_grows(init, tick, side, n - 1);
        }
    }
}

/// The equipment and the number of players of a side at a tick.
fn add_up(states: &Vec<PlayerState>, tick: i32, side: &String) -> (r: (i32, i32))
    requires
        sum_fits(text::views(states@), tick, side@),
    ensures
        r.0 == equipment(text::views(states@), tick, side@),
        r.1 == headcount(text::views(states@), tick, side@),
{
    let ghost all = text::views(states@);
    let mut value: i32 = 0;
    let mut players: i32 = 0;
    let n: usize = states.len();
    let mut i: usize = 0;
    assert(all.take(0) =~= Seq::empty());
    while i < n
        invariant
            i <= n,
            n == states@.len(),
            all == text::views(states@),
            sum_fits(all, tick, side@),
            value == equipment(all.take(i as int), tick, side@),
            players == headcount(all.take(i as int), tick, side@),
        decreases n - i,
    {
        assert(all.take(i + 1).drop_last() =~= all.take(i as int));
        assert(all.take(i + 1).last() == states@[i as int]@);
        assert(damages::fits(equipment(all.take(i + 1), tick, side@)));
        proof {
            lemma_headcount_grows(all, tick, side@, i + 1);
            lemma_headcount_grows(all, tick, side@, i as int);
        }
        let s = &states[i];
        let on = match &s.side {
            Some(t) => same_text(t.as_str(), side.as_str()),
            None => false,
        };
        if s.tick == tick && on {
            value = value + s.equipment_value;
            players = players + 1;
        }
        i = i + 1;
    }
    assert(all.take(n as int) =~= all);
    (value, players)
}

/// Whether a row is some side's economy in one of the first rounds.
spec fn is_economy_upto(
    rounds: Seq<Round<Seq<char>>>,
    states: Seq<PlayerState<Seq<char>>>,
    row: RoundEconomy<Seq<char>>,
    n: int,
) -> bool {
    exists|k: int|
        0 <= k < n && has_side(rounds, states, k, row.side) && row == #[trigger] economy_row(
            rounds,
            states,
            k,
            row.side,
        )
}

/// Whether rows are sorted by round and then by side.
spec fn sorted_rows(rows: Seq<RoundEconomy<Seq<char>>>) -> bool {
    forall|i: int, j: int|
        0 <= i < j < rows.len() ==> row_before(#[trigger] rows[i], #[trigger] rows[j])
}

/// The economy of one round's sides, added to that of the rounds before.
fn add_round(
    rounds: &Vec<Round>,
    states: &Vec<PlayerState>,
    pistol: bool,
    k: usize,
    out: &mut Vec<RoundEconomy>,
)
    requires
        k < rounds@.len(),
        sums_fit(text::views(rounds@), text::views(states@)),
        rounds::numbered(text::views(rounds@)),
        buys_at(text::views(rounds@), k as int, buy_tick(rounds@[k as int]@)),
        pistol == is_pistol(
            lineups(text::views(rounds@), text::views(states@), rounds@.len() as int),
            k as int,
        ),
        sorted_rows(text::views(old(out)@)),
        forall|row: RoundEconomy<Seq<char>>| #[trigger]
            text::views(old(out)@).contains(row) <==> is_economy_upto(
                text::views(rounds@),
                text::views(states@),
                row,
                k as int,
            ),
    ensures
        sorted_rows(text::views(final(out)@)),
        forall|row: RoundEconomy<Seq<char>>| #[trigger]
            text::views(final(out)@).contains(row) <==> is_economy_upto(
                text::views(rounds@),
                text::views(states@),
                row,
                k + 1,
            ),
{
    let ghost all = text::views(rounds@);
    let ghost people = text::views(states@);
    let ghost start = text::views(out@);
    assert(all[k as int] == rounds@[k as int]@);
    let tick = tick_of_buy(&rounds[k]);
    let sides = find_sides(states, tick);
    let ghost list = text::views(sides@);
    let n: usize = sides.len();
    let mut m: usize = 0;
    assert forall|row: RoundEconomy<Seq<char>>| #[trigger] start.contains(row) implies row.round_num
        < all[k as int].round_num by {
        let j = choose|j: int|
            0 <= j < k && has_side(all, people, j, row.side) && row == #[trigger] economy_row(
                all,
                people,
                j,
                row.side,
            );
        assert(all[j].round_num < all[k as int].round_num);
    }
    while m < n
        invariant
            m <= n,
            n == sides@.len(),
            k < rounds@.len(),
            all == text::views(rounds@),
            people == text::views(states@),
            list == text::views(sides@),
            tick == buy_tick(all[k as int]),
            all[k as int] == rounds@[k as int]@,
            sums_fit(all, people),
            buys_at(all, k as int, tick),
            forall|x: Seq<char>| #[trigger] list.contains(x) ==> seen_on(people, tick, x),
            pistol == is_pistol(lineups(all, people, all.len() as int), k as int),
            sorted_texts(list),
            sorted_rows(text::views(out@)),
            start.len() + m == text::views(out@).len(),
            forall|i: int| 0 <= i < start.len() ==> text::views(out@)[i] == #[trigger] start[i],
            forall|row: RoundEconomy<Seq<char>>| #[trigger]
                start.contains(row) ==> row.round_num < all[k as int].round_num,
            forall|i: int|
                0 <= i < m ==> text::views(out@)[start.len() + i] == economy_row(
                    all,
                    people,
                    k as int,
                    #[trigger] list[i],
                ),
        decreases n - m,
    {
        assert(list[m as int] == sides@[m as int]@);
        assert(list.contains(list[m as int]));
        assert(has_side(all, people, k as int, list[m as int]));
        let (value, players) = add_up(states, tick, &sides[m]);
        let row = RoundEconomy {
            round_num: rounds[k].round_num,
            side: sides[m].clone(),
            equipment_value: value,
            buy_type: if pistol {
                "pistol".to_string()
            } else {
                buy_type(value)
            },
            n_players: players,
        };
        let ghost v = row@;
        assert(v == economy_row(all, people, k as int, list[m as int]));
        let ghost was = text::views(out@);
        out.push(row);
        proof {
            let now = text::views(out@);
            assert(now == was.push(v));
            assert forall|i: int, j: int| 0 <= i < j < now.len() implies row_before(
                #[trigger] now[i],
                #[trigger] now[j],
            ) by {
                if j < was.len() {
                    assert(now[i] == was[i] && now[j] == was[j]);
                } else if i < start.len() {
                    assert(now[i] == start[i]);
                    assert(start.contains(start[i]));
                } else {
                    let a = i - start.len();
                    assert(now[i] == economy_row(all, people, k as int, list[a]));
                    assert(text::text_before(list[a], list[m as int]));
                }
            }
            assert forall|i: int| 0 <= i < m + 1 implies now[start.len() + i] == economy_row(
                all,
                people,
                k as int,
                #[trigger] list[i],
            ) by {
                if i < m {
                    assert(now[start.len() + i] == was[start.len() + i]);
                }
            }
        }
        m = m + 1;
    }
    proof {
        let now = text::views(out@);
        assert forall|row: RoundEconomy<Seq<char>>| #[trigger] now.contains(row) <==> is_economy_upto(
            all,
            people,
            row,
            k + 1,
        ) by {
            if now.contains(row) {
                let i = choose|i: int| 0 <= i < now.len() && now[i] == row;
                if i < start.len() {
                    assert(start[i] == row);
                    assert(start.contains(row));
                    let j = choose|j: int|
                        0 <= j < k && has_side(all, people, j, row.side) && row
                            == #[trigger] economy_row(all, people, j, row.side);
                    assert(row == economy_row(all, people, j, row.side));
                } else {
                    let a = i - start.len();
                    assert(row == economy_row(all, people, k as int, list[a]));
                    assert(list.contains(list[a]));
                    assert(seen_on(people, tick, list[a]));
                    assert(has_side(all, people, k as int, row.side));
                    assert(row == economy_row(all, people, k as int, row.side));
                }
            }
            if is_economy_upto(all, people, row, k + 1) {
                let j = choose|j: int|
                    0 <= j < k + 1 && has_side(all, people, j, row.side) && row
                        == #[trigger] economy_row(all, people, j, row.side);
                if j < k {
                    assert(is_economy_upto(all, people, row, k as int));
                    assert(start.contains(row));
                    let i = choose|i: int| 0 <= i < start.len() && start[i] == row;
                    assert(now[i] == row);
                } else {
                    assert(seen_on(people, tick, row.side));
                    assert(list.contains(row.side));
                    let a = choose|a: int| 0 <= a < list.len() && list[a] == row.side;
                    assert(now[start.len() + a] == row);
                }
            }
        }
    }
}

/// Reckon every side's economy in every round, from the states at the rounds' buy ticks.
pub fn reckon_economy(rounds: &Vec<Round>, states: &Vec<PlayerState>) -> (out: Vec<RoundEconomy>)
    requires
        rounds::numbered(text::views(rounds@)),
        sums_fit(text::views(rounds@), text::views(states@)),
    ensures
        economy_of(text::views(rounds@), text::views(states@), text::views(out@)),
{
    let lines = find_lineups(rounds, states);
    let (first, second) = find_pistols(&lines);
    let ghost all = text::views(rounds@);
    let ghost people = text::views(states@);
    let mut out: Vec<RoundEconomy> = Vec::new();
    let n: usize = rounds.len();
    let mut k: usize = 0;
    assert(text::views(out@) =~= Seq::empty());
    while k < n
        invariant
            k <= n,
            n == rounds@.len(),
            all == text::views(rounds@),
            people == text::views(states@),
            rounds::numbered(all),
            sums_fit(all, people),
            forall|k: usize| #[trigger]
                is_pistol(lineups(all, people, all.len() as int), k as int) <==> first == Some(k)
                    || second == Some(k),
            sorted_rows(text::views(out@)),
            forall|row: RoundEconomy<Seq<char>>| #[trigger]
                text::views(out@).contains(row) <==> is_economy_upto(all, people, row, k as int),
        decreases n - k,
    {
        assert(all[k as int] == rounds@[k as int]@);
        let pistol = first == Some(k) || second == Some(k);
        if reads_buy(rounds, k) {
            add_round(rounds, states, pistol, k, &mut out);
        } else {
            assert forall|row: RoundEconomy<Seq<char>>|
                is_economy_upto(all, people, row, k + 1) == is_economy_upto(
                    all,
                    people,
                    row,
                    k as int,
                ) by {
                if is_economy_upto(all, people, row, k + 1) {
                    let j = choose|j: int|
                        0 <= j < k + 1 && has_side(all, people, j, row.side) && row
                            == #[trigger] economy_row(all, people, j, row.side);
                    assert(j != k);
                    assert(row == economy_row(all, people, j, row.side));
                }
                if is_economy_upto(all, people, row, k as int) {
                    let j = choose|j: int|
                        0 <= j < k && has_side(all, people, j, row.side) && row
                            == #[trigger] economy_row(all, people, j, row.side);
                    assert(row == economy_row(all, people, j, row.side));
                }
            }
        }
        k = k + 1;
    }
    proof {
        let rows = text::views(out@);
        assert forall|row: RoundEconomy<Seq<char>>| #[trigger] rows.contains(row) <==> is_economy(
            all,
            people,
            row,
        ) by {
            if is_economy_upto(all, people, row, n as int) {
                let j = choose|j: int|
                    0 <= j < n && has_side(all, people, j, row.side) && row
                        == #[trigger] economy_row(all, people, j, row.side);
                assert(row == economy_row(all, people, j, row.side));
            }
            if is_economy(all, people, row) {
                let j = choose|j: int|
                    has_side(all, people, j, row.side) && row == #[trigger] economy_row(
                        all,
                        people,
                        j,
                        row.side,
                    );
                assert(row == economy_row(all, people, j, row.side));
            }
        }
    }
    out
}

/// No row comes before itself, and of two rows only one comes before the other.
proof fn lemma_row_before(a: RoundEconomy<Seq<char>>, b: RoundEconomy<Seq<char>>)
    ensures
        !row_before(a, a),
        row_before(a, b) ==> !row_before(b, a),
{
    text::law_text_order(a.side, b.side, a.side);
}

/// Two listings of the same economy agree as far as the shorter goes.
proof fn lemma_economy_agrees(
    rounds: Seq<Round<Seq<char>>>,
    states: Seq<PlayerState<Seq<char>>>,
    a: Seq<RoundEconomy<Seq<char>>>,
    b: Seq<RoundEconomy<Seq<char>>>,
    p: int,
)
    requires
        economy_of(rounds, states, a),
        economy_of(rounds, states, b),
        0 <= p < a.len(),
        p <= b.len(),
        forall|i: int| 0 <= i < p ==> a[i] == b[i],
    ensures
        p < b.len(),
        a[p] == b[p],
{
    assert(a.contains(a[p]));
    assert(b.contains(a[p]));
    let q = choose|q: int| 0 <= q < b.len() && b[q] == a[p];
    if q < p {
        assert(a[q] == a[p]);
        lemma_row_before(a[q], a[p]);
        assert(row_before(a[q], a[p]));
    } else if q > p {
        assert(row_before(b[p], b[q]));
        assert(b.contains(b[p]));
        assert(a.contains(b[p]));
        let r = choose|r: int| 0 <= r < a.len() && a[r] == b[p];
        if r < p {
            assert(b[r] == b[p]);
            lemma_row_before(b[r], b[p]);
            assert(row_before(b[r], b[p]));
        } else if r > p {
            assert(row_before(a[p], a[r]));
            lemma_row_before(a[p], a[r]);
        } else {
            lemma_row_before(a[p], a[p]);
        }
    }
}

/// There is only one economy: rounds and states settle every row and its place, and there
/// is one row per round and side.
pub proof fn law_economy_unique(
    rounds: Seq<Round<Seq<char>>>,
    states: Seq<PlayerState<Seq<char>>>,
    a: Seq<RoundEconomy<Seq<char>>>,
    b: Seq<RoundEconomy<Seq<char>>>,
)
    requires
        economy_of(rounds, states, a),
        economy_of(rounds, states, b),
    ensures
        a == b,
        forall|i: int, j: int|
            0 <= i < j < a.len() ==> (#[trigger] a[i]).round_num != (#[trigger] a[j]).round_num
                || a[i].side != a[j].side,
{
    lemma_economy_prefix(rounds, states, a, b, a.len() as int);
    lemma_economy_prefix(rounds, states, b, a, b.len() as int);
    assert(a =~= b);
    assert forall|i: int, j: int| 0 <= i < j < a.len() implies (#[trigger] a[i]).round_num != (
    #[trigger] a[j]).round_num || a[i].side != a[j].side by {
        assert(row_before(a[i], a[j]));
        text::law_text_order(a[i].side, a[j].side, a[i].side);
    }
}

proof fn lemma_economy_prefix(
    rounds: Seq<Round<Seq<char>>>,
    states: Seq<PlayerState<Seq<char>>>,
    a: Seq<RoundEconomy<Seq<char>>>,
    b: Seq<RoundEconomy<Seq<char>>>,
    n: int,
)
    requires
        economy_of(rounds, states, a),
        economy_of(rounds, states, b),
        0 <= n <= a.len(),
    ensures
        n <= b.len(),
        forall|i: int| 0 <= i < n ==> a[i] == b[i],
    decreases n,
{
    if n > 0 {
        lemma_economy_prefix(rounds, states, a, b, n - 1);
        lemma_economy_agrees(rounds, states, a, b, n - 1);
    }
}

/// A bigger total never makes for a smaller buy: whoever is on a full buy stays on one with
/// more, and whoever saves does so with less.
pub proof fn law_buy_types_ordered(less: int, more: int)
    requires
        less <= more,
    ensures
        buy_type_of(more) == "eco"@ ==> buy_type_of(less) == "eco"@,
        buy_type_of(less) == "full"@ ==> buy_type_of(more) == "full"@,
{
    reveal_strlit("eco");
    reveal_strlit("force");
    reveal_strlit("full");
    assert("eco"@.len() == 3 && "force"@.len() == 5 && "full"@.len() == 4);
}

/// Whether no player is listed twice.
pub open spec fn listed_once(line: Seq<(u64, Seq<char>)>) -> bool {
    forall|i: int, j: int|
        0 <= i < j < line.len() ==> (#[trigger] line[i]).0 != (#[trigger] line[j]).0
}

/// A player without a side is not listed.
proof fn lemma_not_listed(line: Seq<(u64, Seq<char>)>, id: u64)
    requires
        side_in(line, id) is None,
    ensures
        forall|i: int| 0 <= i < line.len() ==> (#[trigger] line[i]).0 != id,
    decreases line.len(),
{
    if line.len() > 0 {
        let init = line.drop_last();
        lemma_not_listed(init, id);
        assert forall|i: int| 0 <= i < line.len() implies (#[trigger] line[i]).0 != id by {
            if i < init.len() {
                assert(line[i] == init[i]);
            }
        }
    }
}

/// Nobody is on two sides: a lineup lists each player once.
pub proof fn law_lineup_lists_once(states: Seq<PlayerState<Seq<char>>>, tick: i32)
    ensures
        listed_once(lineup(states, tick)),
    decreases states.len(),
{
    if states.len() > 0 {
        law_lineup_lists_once(states.drop_last(), tick);
        let rest = lineup(states.drop_last(), tick);
        let line = lineup(states, tick);
        if let Some(id) = states.last().steamid {
            if side_in(rest, id) is None {
                lemma_not_listed(rest, id);
            }
            assert forall|i: int, j: int| 0 <= i < j < line.len() implies (#[trigger] line[i]).0 != (
            #[trigger] line[j]).0 by {
                assert(line[i].0 == rest[i].0);
                if j < rest.len() {
                    assert(line[j].0 == rest[j].0);
                }
            }
        }
    }
}

/// Where everybody stays, the sides have not switched.
pub proof fn law_same_lineup_is_no_flip(line: Seq<(u64, Seq<char>)>)
    requires
        listed_once(line),
    ensures
        !flipped(line, line),
{
    lemma_none_moved(line, line.len() as int);
    assert(line.take(line.len() as int) =~= line);
}

/// A player listed once is where they are listed.
proof fn lemma_listed_side(line: Seq<(u64, Seq<char>)>, i: int)
    requires
        listed_once(line),
        0 <= i < line.len(),
    ensures
        side_in(line, line[i].0) == Some(line[i].1),
    decreases line.len(),
{
    if i < line.len() - 1 {
        let init = line.drop_last();
        assert(line[i].0 != line[line.len() - 1].0);
        assert forall|a: int, b: int| 0 <= a < b < init.len() implies (#[trigger] init[a]).0 != (
        #[trigger] init[b]).0 by {
            assert(line[a].0 != line[b].0);
        }
        lemma_listed_side(init, i);
        assert(init[i] == line[i]);
    }
}

proof fn lemma_none_moved(line: Seq<(u64, Seq<char>)>, n: int)
    requires
        listed_once(line),
        0 <= n <= line.len(),
    ensures
        kept_sides(line, line.take(n), false) == 0,
        kept_sides(line, line.take(n), true) == n,
    decreases n,
{
    if n > 0 {
        lemma_none_moved(line, n - 1);
        assert(line.take(n).drop_last() =~= line.take(n - 1));
        lemma_listed_side(line, n - 1);
        assert(line.take(n).last() == line[n - 1]);
    } else {
        assert(line.take(0) =~= Seq::empty());
    }
}

/// Whether the equipment and the players of a side at a tick can be added up in 32 bits.
fn can_add(states: &Vec<PlayerState>, tick: i32, side: &String) -> (b: bool)
    ensures
        b == sum_fits(text::views(states@), tick, side@),
{
    let ghost all = text::views(states@);
    let mut value: i64 = 0;
    let mut players: usize = 0;
    let n: usize = states.len();
    let mut i: usize = 0;
    assert(all.take(0) =~= Seq::empty());
    while i < n
        invariant
            i <= n,
            n == states@.len(),
            all == text::views(states@),
            value == equipment(all.take(i as int), tick, side@),
            players == headcount(all.take(i as int), tick, side@),
            players <= i,
            damages::fits(value as int),
            forall|m: int|
                0 <= m <= i ==> damages::fits(equipment(#[trigger] all.take(m), tick, side@)),
        decreases n - i,
    {
        assert(all.take(i + 1).drop_last() =~= all.take(i as int));
        assert(all.take(i + 1).last() == states@[i as int]@);
        let s = &states[i];
        let on = match &s.side {
            Some(t) => same_text(t.as_str(), side.as_str()),
            None => false,
        };
        if s.tick == tick && on {
            value = value + s.equipment_value as i64;
            players = players + 1;
        }
        assert(value == equipment(all.take(i + 1), tick, side@));
        if value < i32::MIN as i64 || value > i32::MAX as i64 {
            assert(!damages::fits(equipment(all.take(i + 1), tick, side@)));
            return false;
        }
        i = i + 1;
    }
    assert(all.take(n as int) =~= all);
    players <= i32::MAX as usize
}

/// Whether the equipment and the players of every side in a round can be added up in 32 bits.
fn can_add_round(rounds: &Vec<Round>, states: &Vec<PlayerState>, k: usize) -> (b: bool)
    requires
        k < rounds@.len(),
        buys_at(text::views(rounds@), k as int, buy_tick(rounds@[k as int]@)),
    ensures
        b == forall|side: Seq<char>| #[trigger]
            has_side(text::views(rounds@), text::views(states@), k as int, side) ==> sum_fits(
                text::views(states@),
                buy_tick(rounds@[k as int]@),
                side,
            ),
{
    let ghost all = text::views(rounds@);
    let ghost people = text::views(states@);
    assert(all[k as int] == rounds@[k as int]@);
    let tick = tick_of_buy(&rounds[k]);
    let sides = find_sides(states, tick);
    let ghost list = text::views(sides@);
    let n: usize = sides.len();
    let mut m: usize = 0;
    while m < n
        invariant
            m <= n,
            n == sides@.len(),
            k < rounds@.len(),
            all == text::views(rounds@),
            people == text::views(states@),
            list == text::views(sides@),
            all[k as int] == rounds@[k as int]@,
            tick == buy_tick(all[k as int]),
            buys_at(all, k as int, tick),
            forall|x: Seq<char>| #[trigger] list.contains(x) <==> seen_on(people, tick, x),
            forall|i: int| 0 <= i < m ==> sum_fits(people, tick, #[trigger] list[i]),
        decreases n - m,
    {
        assert(list[m as int] == sides@[m as int]@);
        if !can_add(states, tick, &sides[m]) {
            assert(list.contains(list[m as int]));
            assert(has_side(all, people, k as int, list[m as int]));
            return false;
        }
        m = m + 1;
    }
    assert forall|side: Seq<char>| #[trigger]
        has_side(all, people, k as int, side) implies sum_fits(people, tick, side) by {
        assert(seen_on(people, tick, side));
        assert(list.contains(side));
        let i = choose|i: int| 0 <= i < list.len() && list[i] == side;
        assert(sum_fits(people, tick, list[i]));
    }
    true
}

/// Whether the equipment and the players of every side in every round can be added up in 32
/// bits.
pub fn can_add_up(rounds: &Vec<Round>, states: &Vec<PlayerState>) -> (b: bool)
    ensures
        b == sums_fit(text::views(rounds@), text::views(states@)),
{
    let ghost all = text::views(rounds@);
    let ghost people = text::views(states@);
    let n: usize = rounds.len();
    let mut k: usize = 0;
    while k < n
        invariant
            k <= n,
            n == rounds@.len(),
            all == text::views(rounds@),
            people == text::views(states@),
            forall|j: int, side: Seq<char>|
                j < k && #[trigger] has_side(all, people, j, side) ==> sum_fits(
                    people,
                    buy_tick(all[j]),
                    side,
                ),
        decreases n - k,
    {
        assert(all[k as int] == rounds@[k as int]@);
        if reads_buy(rounds, k) && !can_add_round(rounds, states, k) {
            return false;
        }
        k = k + 1;
    }
    true
}

/// Knife rounds have no economy: every row is of a round that is no knife round.
pub proof fn law_economy_skips_knife_rounds(
    rounds: Seq<Round<Seq<char>>>,
    states: Seq<PlayerState<Seq<char>>>,
    rows: Seq<RoundEconomy<Seq<char>>>,
    i: int,
)
    requires
        economy_of(rounds, states, rows),
        0 <= i < rows.len(),
    ensures
        exists|k: int|
            0 <= k < rounds.len() && (#[trigger] rounds[k]).round_num == rows[i].round_num
                && !rounds[k].is_knife_round,
{
    assert(rows.contains(rows[i]));
}

} // verus!
