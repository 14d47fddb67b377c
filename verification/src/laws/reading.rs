//! How laws point at the entities and events of a demo, and what reading one of them gives.
use crate::anchors;
use crate::demo::{Entity, Frame, Schema};
use crate::resolve;
use crate::resolve::TeamKeys;
use crate::rounds::Round;
use vstd::prelude::*;

verus! {

/// The places of one row of a table that a condition picks, from the left.
pub open spec fn spots_in(i: int, m: int, p: spec_fn(int, int) -> bool) -> Seq<(int, int)>
    decreases m,
{
    if m <= 0 {
        Seq::empty()
    } else if p(i, m - 1) {
        spots_in(i, m - 1, p).push((i, m - 1))
    } else {
        spots_in(i, m - 1, p)
    }
}

/// The places of a table of `n` rows that a condition picks, row by row.
pub open spec fn spots(n: int, width: spec_fn(int) -> int, p: spec_fn(int, int) -> bool) -> Seq<
    (int, int),
>
    decreases n,
{
    if n <= 0 {
        Seq::empty()
    } else {
        spots(n - 1, width, p) + spots_in(n - 1, width(n - 1), p)
    }
}

/// How many of the first `n` positions a condition picks.
pub open spec fn how_many(n: int, p: spec_fn(int) -> bool) -> int
    decreases n,
{
    if n <= 0 {
        0
    } else if p(n - 1) {
        how_many(n - 1, p) + 1
    } else {
        how_many(n - 1, p)
    }
}

/// Whether an entity names a team's clan.
pub open spec fn names_clan(schema: Schema, e: Entity, team: i64, clan: Seq<char>) -> bool {
    &&& e.active
    &&& e.class_name@ == "CCSTeam"@
    &&& e.i64_at(schema.key_of("CCSTeam"@, "m_iTeamNum"@)) == team
    &&& team > 1
    &&& e.text_at(schema.key_of("CCSTeam"@, "m_szClanTeamname"@)) == Some(clan)
    &&& clan.len() > 0
}

/// Whether an entity of a frame names a team's clan.
pub open spec fn clan_named_at(
    schema: Schema,
    frames: Seq<Frame>,
    team: i64,
    clan: Seq<char>,
    i: int,
    j: int,
) -> bool {
    0 <= i < frames.len() && 0 <= j < frames[i].entities@.len() && names_clan(
        schema,
        frames[i].entities@[j],
        team,
        clan,
    )
}

/// Whether a team has a clan name after the first `n` frames: the one that an entity of it
/// named last, and none where no entity has named it.
pub open spec fn is_clan(
    schema: Schema,
    frames: Seq<Frame>,
    n: int,
    team: i64,
    clan: Option<Seq<char>>,
) -> bool {
    match clan {
        None => forall|i: int, j: int, other: Seq<char>|
            0 <= i < n ==> !#[trigger] clan_named_at(schema, frames, team, other, i, j),
        Some(c) => exists|i: int, j: int| #[trigger]
            clan_named_at(schema, frames, team, c, i, j) && i < n && forall|
                a: int,
                b: int,
                other: Seq<char>,
            |
                a < n && (a > i || (a == i && b > j)) ==> !#[trigger] clan_named_at(
                    schema,
                    frames,
                    team,
                    other,
                    a,
                    b,
                ),
    }
}

/// Whether a team has a clan name once the first `m` entities of frame `n` are looked at too.
spec fn is_clan_within(
    schema: Schema,
    frames: Seq<Frame>,
    n: int,
    m: int,
    team: i64,
    clan: Option<Seq<char>>,
) -> bool {
    match clan {
        None => forall|i: int, j: int, other: Seq<char>|
            (i < n || (i == n && j < m)) ==> !#[trigger] clan_named_at(
                schema,
                frames,
                team,
                other,
                i,
                j,
            ),
        Some(c) => exists|i: int, j: int| #[trigger]
            clan_named_at(schema, frames, team, c, i, j) && (i < n || (i == n && j < m)) && forall|
                a: int,
                b: int,
                other: Seq<char>,
            |
                (a < n || (a == n && b < m)) && (a > i || (a == i && b > j))
                    ==> !#[trigger] clan_named_at(schema, frames, team, other, a, b),
    }
}

proof fn lemma_clan_within(schema: Schema, frames: Seq<Frame>, n: int, m: int, team: i64)
    requires
        0 <= n < frames.len(),
        0 <= m <= frames[n].entities@.len(),
        is_clan_within(
            schema,
            frames,
            n,
            0,
            team,
            resolve::clan_of(
                resolve::clans_through(TeamKeys::of(schema), frames.take(n)),
                team,
            ),
        ),
    ensures
        is_clan_within(
            schema,
            frames,
            n,
            m,
            team,
            resolve::clan_of(
                resolve::clans_after(
                    resolve::clans_through(TeamKeys::of(schema), frames.take(n)),
                    TeamKeys::of(schema),
                    frames[n].entities@.take(m),
                ),
                team,
            ),
        ),
    decreases m,
{
    let tk = TeamKeys::of(schema);
    let before = resolve::clans_through(tk, frames.take(n));
    let es = frames[n].entities@;
    if m == 0 {
        assert(es.take(0) =~= Seq::empty());
    } else {
        lemma_clan_within(schema, frames, n, m - 1, team);
        assert(es.take(m).drop_last() =~= es.take(m - 1));
        let e = es[m - 1];
        assert(es.take(m).last() == e);
        let was = resolve::clans_after(before, tk, es.take(m - 1));
        let now = resolve::clans_step(was, tk, e);
        let c = resolve::clan_of(was, team);
        if exists|clan: Seq<char>| names_clan(schema, e, team, clan) {
            let clan = choose|clan: Seq<char>| names_clan(schema, e, team, clan);
            assert(clan_named_at(schema, frames, team, clan, n, m - 1));
            assert(resolve::clan_of(now, team) == Some(clan));
        } else {
            if let Some(text) = e.text_at(tk.clan) {
                assert(!names_clan(schema, e, team, text));
            }
            assert(resolve::clan_of(now, team) == c);
            assert forall|other: Seq<char>| !#[trigger] clan_named_at(
                schema,
                frames,
                team,
                other,
                n,
                m - 1,
            ) by {}
            if let Some(text) = c {
                let (i, j) = choose|i: int, j: int| #[trigger]
                    clan_named_at(schema, frames, team, text, i, j) && (i < n || (i == n && j < m
                        - 1)) && forall|a: int, b: int, other: Seq<char>|
                        (a < n || (a == n && b < m - 1)) && (a > i || (a == i && b > j))
                            ==> !#[trigger] clan_named_at(schema, frames, team, other, a, b);
                assert(clan_named_at(schema, frames, team, text, i, j));
            }
        }
    }
}

/// Clan names are those that team entities named last: after any number of frames, a team
/// has the clan name that an active entity of it carried last, blanks aside, and none if there
/// was no such entity.
pub proof fn law_clans_are_named_last(schema: Schema, frames: Seq<Frame>, n: int, team: i64)
    requires
        0 <= n <= frames.len(),
    ensures
        is_clan(
            schema,
            frames,
            n,
            team,
            resolve::clan_of(
                resolve::clans_through(TeamKeys::of(schema), frames.take(n)),
                team,
            ),
        ),
    decreases n,
{
    let tk = TeamKeys::of(schema);
    if n == 0 {
        assert(frames.take(0) =~= Seq::empty());
    } else {
        law_clans_are_named_last(schema, frames, n - 1, team);
        let es = frames[n - 1].entities@;
        let was = resolve::clan_of(resolve::clans_through(tk, frames.take(n - 1)), team);
        assert(is_clan_within(schema, frames, n - 1, 0, team, was)) by {
            if let Some(c) = was {
                let (i, j) = choose|i: int, j: int| #[trigger]
                    clan_named_at(schema, frames, team, c, i, j) && i < n - 1 && forall|
                        a: int,
                        b: int,
                        other: Seq<char>,
                    |
                        a < n - 1 && (a > i || (a == i && b > j)) ==> !#[trigger] clan_named_at(
                            schema,
                            frames,
                            team,
                            other,
                            a,
                            b,
                        );
                assert(clan_named_at(schema, frames, team, c, i, j));
            }
        }
        lemma_clan_within(schema, frames, n - 1, es.len() as int, team);
        assert(es.take(es.len() as int) =~= es);
        assert(frames.take(n).drop_last() =~= frames.take(n - 1));
        assert(frames.take(n).last() == frames[n - 1]);
        let now = resolve::clan_of(resolve::clans_through(tk, frames.take(n)), team);
        if let Some(c) = now {
            let (i, j) = choose|i: int, j: int| #[trigger]
                clan_named_at(schema, frames, team, c, i, j) && (i < n - 1 || (i == n - 1 && j
                    < es.len())) && forall|a: int, b: int, other: Seq<char>|
                    (a < n - 1 || (a == n - 1 && b < es.len())) && (a > i || (a == i && b > j))
                        ==> !#[trigger] clan_named_at(schema, frames, team, other, a, b);
            assert(clan_named_at(schema, frames, team, c, i, j));
        }
    }
}

/// The tick with which a round begins, as far as it is known: its start tick, else its freeze
/// end tick, else its end tick.
pub open spec fn first_tick(r: Round<Seq<char>>) -> i32 {
    if r.start_tick is Some {
        r.start_tick->0
    } else if r.freeze_end_tick is Some {
        r.freeze_end_tick->0
    } else {
        r.end_tick
    }
}

/// Whether a number is that of the round that a tick is in: the one that began last, at or
/// before the tick, and none where no round has begun. Of two that begin together, it is the
/// later one.
pub open spec fn is_round_of(rounds: Seq<Round<Seq<char>>>, tick: i32, num: Option<i32>) -> bool {
    match num {
        None => forall|k: int| 0 <= k < rounds.len() ==> first_tick(#[trigger] rounds[k]) > tick,
        Some(n) => exists|k: int|
            0 <= k < rounds.len() && (#[trigger] rounds[k]).round_num == n && first_tick(rounds[k])
                <= tick && forall|j: int|
                0 <= j < rounds.len() && first_tick(#[trigger] rounds[j]) <= tick ==> first_tick(
                    rounds[j],
                ) < first_tick(rounds[k]) || (first_tick(rounds[j]) == first_tick(rounds[k]) && j
                    <= k),
    }
}

/// Every tick is in the round that began last.
pub proof fn law_round_of_tick(rounds: Seq<Round<Seq<char>>>, tick: i32)
    ensures
        is_round_of(rounds, tick, anchors::round_num_at(rounds, tick)),
{
    anchors::law_lookup_covers(rounds, tick);
    if anchors::round_num_at(rounds, tick) is None {
        assert forall|k: int| 0 <= k < rounds.len() implies first_tick(#[trigger] rounds[k])
            > tick by {
            assert(crate::rounds::anchor(rounds[k]) > tick);
        }
    } else {
        let k = choose|k: int| anchors::falls_in(rounds, tick, k);
        assert(anchors::falls_in(rounds, tick, k));
        assert forall|j: int|
            0 <= j < rounds.len() && first_tick(#[trigger] rounds[j]) <= tick implies first_tick(
            rounds[j],
        ) < first_tick(rounds[k]) || (first_tick(rounds[j]) == first_tick(rounds[k]) && j <= k) by {
            assert(crate::rounds::anchor(rounds[j]) <= tick);
        }
        assert(rounds[k].round_num == anchors::round_num_at(rounds, tick)->0);
    }
}

/// The places that a condition picks are those that meet it, each once, row by row and from
/// the left.
pub proof fn law_spots(n: int, width: spec_fn(int) -> int, p: spec_fn(int, int) -> bool)
    ensures
        forall|i: int, j: int| #[trigger]
            spots(n, width, p).contains((i, j)) <==> 0 <= i < n && 0 <= j < width(i) && p(i, j),
        forall|a: int, b: int|
            0 <= a < b < spots(n, width, p).len() ==> {
                let x = #[trigger] spots(n, width, p)[a];
                let y = #[trigger] spots(n, width, p)[b];
                x.0 < y.0 || (x.0 == y.0 && x.1 < y.1)
            },
    decreases n,
{
    if n > 0 {
        law_spots(n - 1, width, p);
        let m = width(n - 1);
        lemma_spots_in(n - 1, m, p);
        let before = spots(n - 1, width, p);
        let own = spots_in(n - 1, m, p);
        let all = spots(n, width, p);
        assert forall|i: int, j: int| #[trigger] all.contains((i, j)) <==> 0 <= i < n && 0 <= j
            < width(i) && p(i, j) by {
            if all.contains((i, j)) {
                let k = choose|k: int| 0 <= k < all.len() && all[k] == (i, j);
                if k < before.len() {
                    assert(before[k] == (i, j));
                    assert(before.contains((i, j)));
                } else {
                    assert(own[k - before.len()] == (i, j));
                    assert(own.contains((i, j)));
                }
            }
            if 0 <= i < n && 0 <= j < width(i) && p(i, j) {
                if i < n - 1 {
                    assert(before.contains((i, j)));
                    let k = choose|k: int| 0 <= k < before.len() && before[k] == (i, j);
                    assert(all[k] == (i, j));
                } else {
                    assert(own.contains((i, j)));
                    let k = choose|k: int| 0 <= k < own.len() && own[k] == (i, j);
                    assert(all[before.len() + k] == (i, j));
                }
            }
        }
        assert forall|a: int, b: int| 0 <= a < b < all.len() implies {
            let x = #[trigger] all[a];
            let y = #[trigger] all[b];
            x.0 < y.0 || (x.0 == y.0 && x.1 < y.1)
        } by {
            if a < before.len() {
                assert(before[a] == all[a]);
                assert(before.contains(before[a]));
                assert(before.contains((before[a].0, before[a].1)));
            }
            if b < before.len() {
                assert(before[b] == all[b]);
            } else {
                assert(own[b - before.len()] == all[b]);
                assert(own.contains(own[b - before.len()]));
                assert(own.contains((all[b].0, all[b].1)));
                if a >= before.len() {
                    assert(own[a - before.len()] == all[a]);
                }
            }
        }
    }
}

proof fn lemma_spots_in(i: int, m: int, p: spec_fn(int, int) -> bool)
    ensures
        forall|a: int, b: int| #[trigger]
            spots_in(i, m, p).contains((a, b)) <==> a == i && 0 <= b < m && p(i, b),
        forall|a: int, b: int|
            0 <= a < b < spots_in(i, m, p).len() ==> (#[trigger] spots_in(i, m, p)[a]).0 == (
            #[trigger] spots_in(i, m, p)[b]).0 && spots_in(i, m, p)[a].1 < spots_in(i, m, p)[b].1,
    decreases m,
{
    if m > 0 {
        lemma_spots_in(i, m - 1, p);
        let rest = spots_in(i, m - 1, p);
        let all = spots_in(i, m, p);
        assert forall|a: int, b: int| #[trigger] all.contains((a, b)) <==> a == i && 0 <= b < m && p(
            i,
            b,
        ) by {
            if all.contains((a, b)) {
                let k = choose|k: int| 0 <= k < all.len() && all[k] == (a, b);
                if k < rest.len() {
                    assert(rest[k] == (a, b));
                    assert(rest.contains((a, b)));
                }
            }
            if a == i && 0 <= b < m && p(i, b) {
                if b < m - 1 {
                    assert(rest.contains((a, b)));
                    let k = choose|k: int| 0 <= k < rest.len() && rest[k] == (a, b);
                    assert(all[k] == (a, b));
                } else {
                    assert(all[rest.len() as int] == (a, b));
                }
            }
        }
        assert forall|a: int, b: int| 0 <= a < b < all.len() implies (#[trigger] all[a]).0 == (
        #[trigger] all[b]).0 && all[a].1 < all[b].1 by {
            assert(all[a] == rest[a]);
            assert(rest.contains(rest[a]));
            assert(rest.contains((rest[a].0, rest[a].1)));
            if b < rest.len() {
                assert(all[b] == rest[b]);
            }
        }
    }
}

/// The positions among the first `n` that a condition picks.
pub open spec fn picks(n: int, p: spec_fn(int) -> bool) -> Seq<int>
    decreases n,
{
    if n <= 0 {
        Seq::empty()
    } else if p(n - 1) {
        picks(n - 1, p).push(n - 1)
    } else {
        picks(n - 1, p)
    }
}

/// The last of the first `m` places of a row of a table that meets a condition.
pub open spec fn last_in(i: int, m: int, p: spec_fn(int, int) -> bool) -> Option<int>
    decreases m,
{
    if m <= 0 {
        None
    } else if p(i, m - 1) {
        Some(m - 1)
    } else {
        last_in(i, m - 1, p)
    }
}

/// The last place of a table, before place `j` of row `i`, that meets a condition.
pub open spec fn last_before(
    i: int,
    j: int,
    width: spec_fn(int) -> int,
    p: spec_fn(int, int) -> bool,
) -> Option<(int, int)>
    decreases i,
{
    match last_in(i, j, p) {
        Some(b) => Some((i, b)),
        None => if i <= 0 {
            None
        } else {
            last_before(i - 1, width(i - 1), width, p)
        },
    }
}

proof fn lemma_last_in(i: int, m: int, p: spec_fn(int, int) -> bool)
    ensures
        match last_in(i, m, p) {
            Some(b) => 0 <= b < m && p(i, b) && forall|y: int| b < y < m ==> !#[trigger] p(i, y),
            None => forall|y: int| 0 <= y < m ==> !#[trigger] p(i, y),
        },
    decreases m,
{
    if m > 0 {
        lemma_last_in(i, m - 1, p);
    }
}

/// What the last place before another is: it meets the condition, and no place between them
/// does; where there is none, no place before does.
pub proof fn law_last_before(
    i: int,
    j: int,
    width: spec_fn(int) -> int,
    p: spec_fn(int, int) -> bool,
)
    requires
        i >= 0,
    ensures
        match last_before(i, j, width, p) {
            Some((a, b)) => {
                &&& 0 <= a <= i
                &&& 0 <= b < (if a == i {
                    j
                } else {
                    width(a)
                })
                &&& p(a, b)
                &&& forall|x: int, y: int|
                    (x > a || (x == a && y > b)) && 0 <= x <= i && 0 <= y < (if x == i {
                        j
                    } else {
                        width(x)
                    }) ==> !#[trigger] p(x, y)
            },
            None => forall|x: int, y: int|
                0 <= x <= i && 0 <= y < (if x == i {
                    j
                } else {
                    width(x)
                }) ==> !#[trigger] p(x, y),
        },
    decreases i,
{
    lemma_last_in(i, j, p);
    if last_in(i, j, p) is None && i > 0 {
        law_last_before(i - 1, width(i - 1), width, p);
    }
}

/// After the last place of a row comes the first of the next one.
pub proof fn lemma_last_turn(
    i: int,
    width: spec_fn(int) -> int,
    p: spec_fn(int, int) -> bool,
)
    requires
        i >= 0,
    ensures
        last_before(i + 1, 0, width, p) == last_before(i, width(i), width, p),
{
}

} // verus!
