//! Kills, damage, bomb actions and shots: one row for every game event of their names.
use crate::bomb;
use crate::bomb::BombEvent;
use crate::damages;
use crate::damages::Damage;
use crate::demo;
use crate::demo::{Entity, Frame, GameEvent, Schema};
use crate::events;
use crate::keys;
use crate::kills;
use crate::kills::Kill;
use crate::laws::blinds;
use crate::laws::participants;
use crate::laws::reading;
use crate::laws::states;
use crate::names::{Names, Scope};
use crate::order;
use crate::parser::Parser;
use crate::resolve;
use crate::resolve::{Lens, ResolvedPlayer, TeamKeys};
use crate::shots;
use crate::shots::Shot;
use crate::trades;
use vstd::prelude::*;

verus! {

/// Which events of which frames have a name.
pub open spec fn name_picks(frames: Seq<Frame>, name: Seq<char>) -> spec_fn(int, int) -> bool {
    |i: int, j: int| frames[i].events@[j].name@ == name
}

/// The events of a name, frame by frame and in their order.
pub open spec fn events_named(frames: Seq<Frame>, name: Seq<char>) -> Seq<(int, int)> {
    reading::spots(
        frames.len() as int,
        blinds::event_counts(frames),
        name_picks(frames, name),
    )
}

/// The clan names after the first `n` frames.
spec fn clans_at(schema: Schema, frames: Seq<Frame>, n: int) -> Map<i64, Seq<char>> {
    resolve::clans_through(TeamKeys::of(schema), frames.take(n))
}

/// The row of an event, for a frame and the clan names after it.
spec fn row_in<R>(
    row: spec_fn(Frame, Map<i64, Seq<char>>, GameEvent) -> Option<R>,
    f: Frame,
    clans: Map<i64, Seq<char>>,
) -> spec_fn(GameEvent) -> Option<R> {
    |e: GameEvent| row(f, clans, e)
}

/// Whether a row is that of the event at a place.
spec fn is_told<R>(
    schema: Schema,
    frames: Seq<Frame>,
    row: spec_fn(Frame, Map<i64, Seq<char>>, GameEvent) -> Option<R>,
    place: (int, int),
    r: R,
) -> bool {
    let (i, j) = place;
    &&& 0 <= i < frames.len()
    &&& 0 <= j < frames[i].events@.len()
    &&& row(frames[i], clans_at(schema, frames, i + 1), frames[i].events@[j]) == Some(r)
}

/// Whether a condition picks the events that have a row.
spec fn picks_rows<R>(
    schema: Schema,
    frames: Seq<Frame>,
    row: spec_fn(Frame, Map<i64, Seq<char>>, GameEvent) -> Option<R>,
    p: spec_fn(int, int) -> bool,
) -> bool {
    forall|i: int, j: int|
        0 <= i < frames.len() && 0 <= j < frames[i].events@.len() ==> #[trigger] p(i, j) == row(
            frames[i],
            clans_at(schema, frames, i + 1),
            frames[i].events@[j],
        ) is Some
}

proof fn lemma_rows_of<R>(
    schema: Schema,
    frames: Seq<Frame>,
    row: spec_fn(Frame, Map<i64, Seq<char>>, GameEvent) -> Option<R>,
    p: spec_fn(int, int) -> bool,
    i: int,
    m: int,
)
    requires
        0 <= i < frames.len(),
        0 <= m <= frames[i].events@.len(),
        picks_rows(schema, frames, row, p),
    ensures
        ({
            let rows = events::rows_of(
                frames[i].events@.take(m),
                row_in(row, frames[i], clans_at(schema, frames, i + 1)),
            );
            let places = reading::spots_in(i, m, p);
            &&& rows.len() == places.len()
            &&& forall|k: int|
                0 <= k < rows.len() ==> is_told(schema, frames, row, places[k], #[trigger] rows[k])
        }),
    decreases m,
{
    let es = frames[i].events@;
    let g = row_in(row, frames[i], clans_at(schema, frames, i + 1));
    if m == 0 {
        assert(es.take(0) =~= Seq::empty());
    } else {
        lemma_rows_of(schema, frames, row, p, i, m - 1);
        assert(es.take(m).drop_last() =~= es.take(m - 1));
        assert(es.take(m).last() == es[m - 1]);
        assert(p(i, m - 1) == g(es[m - 1]) is Some);
        let was = events::rows_of(es.take(m - 1), g);
        let now = events::rows_of(es.take(m), g);
        let before = reading::spots_in(i, m - 1, p);
        let all = reading::spots_in(i, m, p);
        assert forall|k: int| 0 <= k < now.len() implies is_told(
            schema,
            frames,
            row,
            all[k],
            #[trigger] now[k],
        ) by {
            if k < was.len() {
                assert(now[k] == was[k]);
                assert(all[k] == before[k]);
            } else {
                assert(all[k] == (i, m - 1));
                assert(now[k] == g(es[m - 1])->0);
            }
        }
    }
}

proof fn lemma_collected<R>(
    schema: Schema,
    frames: Seq<Frame>,
    row: spec_fn(Frame, Map<i64, Seq<char>>, GameEvent) -> Option<R>,
    p: spec_fn(int, int) -> bool,
    n: int,
)
    requires
        0 <= n <= frames.len(),
        picks_rows(schema, frames, row, p),
    ensures
        ({
            let rows = events::collected(TeamKeys::of(schema), frames.take(n), row);
            let places = reading::spots(n, blinds::event_counts(frames), p);
            &&& rows.len() == places.len()
            &&& forall|k: int|
                0 <= k < rows.len() ==> is_told(schema, frames, row, places[k], #[trigger] rows[k])
        }),
    decreases n,
{
    let tk = TeamKeys::of(schema);
    if n == 0 {
        assert(frames.take(0) =~= Seq::empty());
    } else {
        lemma_collected(schema, frames, row, p, n - 1);
        assert(frames.take(n).drop_last() =~= frames.take(n - 1));
        let f = frames[n - 1];
        assert(frames.take(n).last() == f);
        let m = f.events@.len() as int;
        lemma_rows_of(schema, frames, row, p, n - 1, m);
        assert(f.events@.take(m) =~= f.events@);
        let clans = clans_at(schema, frames, n);
        let x = events::collected(tk, frames.take(n - 1), row);
        let y = events::rows_of(f.events@, row_in(row, f, clans));
        let a = reading::spots(n - 1, blinds::event_counts(frames), p);
        let b = reading::spots_in(n - 1, m, p);
        assert(events::collected(tk, frames.take(n), row) == x + y) by {
            assert((|e: GameEvent| row(f, clans, e)) =~= row_in(row, f, clans));
        }
        assert forall|k: int| 0 <= k < (x + y).len() implies is_told(
            schema,
            frames,
            row,
            (a + b)[k],
            #[trigger] (x + y)[k],
        ) by {
            if k < x.len() {
                assert((x + y)[k] == x[k]);
            } else {
                assert((x + y)[k] == y[k - x.len()]);
            }
        }
    }
}

/// The handle that an event has under a key.
pub open spec fn handle_under(e: GameEvent, key: Seq<char>) -> u32 {
    keys::key_i64(e.keys@, key) as u32
}

/// Whether a player takes part in an event of frame `i`, under a key that holds the handle of
/// their pawn.
pub open spec fn takes_part(
    schema: Schema,
    names: Names,
    frames: Seq<Frame>,
    i: int,
    e: GameEvent,
    key: Seq<char>,
    p: ResolvedPlayer<Seq<char>>,
) -> bool {
    &&& participants::is_player_at(
        schema,
        names,
        Scope::Events,
        frames[i].entities@,
        handle_under(e, key),
        p,
    )
    &&& participants::is_in_clan(
        schema,
        names,
        Scope::Events,
        frames,
        i + 1,
        handle_under(e, key),
        p,
    )
}

proof fn lemma_takes_part(
    schema: Schema,
    names: Names,
    frames: Seq<Frame>,
    i: int,
    e: GameEvent,
    key: Seq<char>,
)
    requires
        0 <= i < frames.len(),
    ensures
        takes_part(
            schema,
            names,
            frames,
            i,
            e,
            key,
            Lens::of(schema, &names, Scope::Events).player_of_handle(
                frames[i].entities@,
                keys::key_i64(e.keys@, key),
                clans_at(schema, frames, i + 1),
            ),
        ),
{
    let handle = keys::key_i64(e.keys@, key);
    participants::law_player_of_handle(
        schema,
        names,
        Scope::Events,
        frames[i].entities@,
        handle,
        clans_at(schema, frames, i + 1),
    );
    participants::law_player_in_clan(schema, names, Scope::Events, frames, i + 1, handle);
}

/// Whether a row says what a `player_death` event says by itself.
pub open spec fn says_kill(e: GameEvent, names: Names, row: Kill<Seq<char>>) -> bool {
    &&& row.tick == e.tick
    &&& row.weapon == keys::key_string(e.keys@, "weapon"@)
    &&& row.headshot == keys::key_bool(e.keys@, "headshot"@)
    &&& row.assist_flash == keys::key_bool(e.keys@, "assistedflash"@)
    &&& row.dominated == keys::key_i32(e.keys@, "dominated"@)
    &&& row.noscope == keys::key_bool(e.keys@, "noscope"@)
    &&& row.penetrated == keys::key_i32(e.keys@, "penetrated"@)
    &&& row.revenge == keys::key_i32(e.keys@, "revenge"@)
    &&& row.thrusmoke == keys::key_bool(e.keys@, "thrusmoke"@)
    &&& row.attacker_blind == keys::key_bool(e.keys@, "attackerblind"@)
    &&& row.attacker_in_air == keys::key_bool(e.keys@, "attackerinair"@)
    &&& keys::key_number(e.keys@, "distance"@) is Some ==> keys::key_number(
        e.keys@,
        "distance"@,
    ) == Some(row.distance)
    &&& keys::key_number(e.keys@, "distance"@) is None ==> row.distance.bits == 0
    &&& row.hitgroup == keys::key_i32(e.keys@, "hitgroup"@)
    &&& row.hitgroup_name == names.hitgroups.name(
        keys::key_i32(e.keys@, "hitgroup"@) as i64,
    )
}

/// Whether a row names the players of a kill in frame `i`.
pub open spec fn names_killers(
    schema: Schema,
    names: Names,
    frames: Seq<Frame>,
    i: int,
    e: GameEvent,
    row: Kill<Seq<char>>,
) -> bool {
    let attacker = ResolvedPlayer {
        steamid: row.attacker_steamid,
        name: row.attacker_name,
        side: row.attacker_side,
        x: row.attacker_x,
        y: row.attacker_y,
        z: row.attacker_z,
        team_clan_name: row.attacker_team_clan_name,
        cash_spent_this_round: row.attacker_cash_spent_this_round,
    };
    let victim = ResolvedPlayer {
        steamid: row.victim_steamid,
        name: row.victim_name,
        side: row.victim_side,
        x: row.victim_x,
        y: row.victim_y,
        z: row.victim_z,
        team_clan_name: row.victim_team_clan_name,
        cash_spent_this_round: row.victim_cash_spent_this_round,
    };
    let assister = ResolvedPlayer {
        steamid: row.assister_steamid,
        name: row.assister_name,
        side: row.assister_side,
        x: row.assister_x,
        y: row.assister_y,
        z: row.assister_z,
        team_clan_name: row.assister_team_clan_name,
        cash_spent_this_round: row.assister_cash_spent_this_round,
    };
    &&& takes_part(schema, names, frames, i, e, "attacker_pawn"@, attacker)
    &&& takes_part(schema, names, frames, i, e, "userid_pawn"@, victim)
    &&& if keys::key_i32(e.keys@, "assister"@) == 65535 {
        participants::is_nobody(assister)
    } else {
        takes_part(schema, names, frames, i, e, "assister_pawn"@, assister)
    }
}

/// Whether kill `j` avenges kill `i`: all sides are known, a teammate of its victim kills its
/// attacker, on a later tick but at most `ticks` later.
pub open spec fn avenges(rows: Seq<Kill<Seq<char>>>, ticks: int, i: int, j: int) -> bool {
    &&& 0 <= i < rows.len()
    &&& 0 <= j < rows.len()
    &&& rows[i].attacker_side is Some
    &&& rows[i].victim_side is Some
    &&& rows[j].attacker_side is Some
    &&& rows[j].victim_side is Some
    &&& rows[i].attacker_steamid is Some
    &&& rows[j].victim_steamid == rows[i].attacker_steamid
    &&& rows[j].attacker_side == rows[i].victim_side
    &&& rows[i].tick < rows[j].tick <= rows[i].tick + ticks
}

/// Whether kill `j` is the first that avenges kill `i`.
pub open spec fn avenges_first(rows: Seq<Kill<Seq<char>>>, ticks: int, i: int, j: int) -> bool {
    &&& avenges(rows, ticks, i, j)
    &&& forall|k: int| #[trigger]
        avenges(rows, ticks, i, k) ==> rows[j].tick < rows[k].tick || (rows[j].tick
            == rows[k].tick && j <= k)
}

/// Whether two rows agree in what trades depend on.
spec fn same_fight(a: Kill<Seq<char>>, b: Kill<Seq<char>>) -> bool {
    &&& a.tick == b.tick
    &&& a.attacker_side == b.attacker_side
    &&& a.victim_side == b.victim_side
    &&& a.attacker_steamid == b.attacker_steamid
    &&& a.victim_steamid == b.victim_steamid
}

proof fn lemma_trades(
    told: Seq<Kill<Seq<char>>>,
    rows: Seq<Kill<Seq<char>>>,
    ticks: int,
    k: int,
)
    requires
        told.len() == rows.len(),
        forall|k: int| 0 <= k < rows.len() ==> same_fight(told[k], #[trigger] rows[k]),
    ensures
        trades::is_traded(told, ticks, k) <==> exists|m: int| #[trigger] avenges(rows, ticks, k, m),
        trades::is_trade(told, ticks, k) <==> exists|m: int| #[trigger]
            avenges_first(rows, ticks, m, k),
{
    assert forall|i: int, j: int| #[trigger]
        trades::avenges(told, ticks, i, j) == avenges(rows, ticks, i, j) by {
        if 0 <= i < rows.len() && 0 <= j < rows.len() {
            assert(same_fight(told[i], rows[i]));
            assert(same_fight(told[j], rows[j]));
        }
    }
    assert forall|i: int, j: int| #[trigger]
        trades::is_trade_for(told, ticks, i, j) == avenges_first(rows, ticks, i, j) by {
        if trades::is_trade_for(told, ticks, i, j) {
            assert(trades::avenges(told, ticks, i, j));
            assert forall|k: int| #[trigger] avenges(rows, ticks, i, k) implies rows[j].tick
                < rows[k].tick || (rows[j].tick == rows[k].tick && j <= k) by {
                assert(trades::avenges(told, ticks, i, k));
                assert(same_fight(told[j], rows[j]));
                assert(same_fight(told[k], rows[k]));
            }
        }
        if avenges_first(rows, ticks, i, j) {
            assert(trades::avenges(told, ticks, i, j));
            assert forall|k: int| #[trigger] trades::avenges(told, ticks, i, k) implies k == j
                || trades::earlier(told, j, k) by {
                assert(avenges(rows, ticks, i, k));
                assert(same_fight(told[j], rows[j]));
                assert(same_fight(told[k], rows[k]));
            }
        }
    }
    if trades::is_traded(told, ticks, k) {
        let m = choose|m: int| trades::avenges(told, ticks, k, m);
        assert(avenges(rows, ticks, k, m));
    }
    if exists|m: int| #[trigger] avenges(rows, ticks, k, m) {
        let m = choose|m: int| #[trigger] avenges(rows, ticks, k, m);
        assert(trades::avenges(told, ticks, k, m));
    }
    if trades::is_trade(told, ticks, k) {
        let m = choose|m: int| trades::is_trade_for(told, ticks, m, k);
        assert(avenges_first(rows, ticks, m, k));
    }
    if exists|m: int| #[trigger] avenges_first(rows, ticks, m, k) {
        let m = choose|m: int| #[trigger] avenges_first(rows, ticks, m, k);
        assert(trades::is_trade_for(told, ticks, m, k));
    }
}

/// A death is traded where some kill avenges it, and a kill is a trade where it is the first to
/// avenge one.
pub proof fn law_trades_avenge(rows: Seq<Kill<Seq<char>>>, ticks: int, k: int)
    ensures
        trades::is_traded(rows, ticks, k) <==> exists|m: int| #[trigger] avenges(rows, ticks, k, m),
        trades::is_trade(rows, ticks, k) <==> exists|m: int| #[trigger]
            avenges_first(rows, ticks, m, k),
{
    lemma_trades(rows, rows, ticks, k);
}

proof fn lemma_kill(
    schema: Schema,
    names: Names,
    frames: Seq<Frame>,
    i: int,
    j: int,
    row: Kill<Seq<char>>,
)
    requires
        0 <= i < frames.len(),
        0 <= j < frames[i].events@.len(),
        kills::kill_of(
            Lens::of(schema, &names, Scope::Events),
            frames[i],
            clans_at(schema, frames, i + 1),
            frames[i].events@[j],
        ) == Some(row),
    ensures
        says_kill(frames[i].events@[j], names, row),
        names_killers(schema, names, frames, i, frames[i].events@[j], row),
{
    let e = frames[i].events@[j];
    lemma_takes_part(schema, names, frames, i, e, "attacker_pawn"@);
    lemma_takes_part(schema, names, frames, i, e, "userid_pawn"@);
    lemma_takes_part(schema, names, frames, i, e, "assister_pawn"@);
}

proof fn lemma_kill_kept(
    schema: Schema,
    names: Names,
    frames: Seq<Frame>,
    i: int,
    e: GameEvent,
    told: Kill<Seq<char>>,
    row: Kill<Seq<char>>,
)
    requires
        says_kill(e, names, told),
        names_killers(schema, names, frames, i, e, told),
        row == (Kill {
            victim_traded: row.victim_traded,
            is_trade: row.is_trade,
            round_num: row.round_num,
            ..told
        }),
    ensures
        says_kill(e, names, row),
        names_killers(schema, names, frames, i, e, row),
{
}

/// Kills are the `player_death` events: there is one row for every one of them, in their order,
/// and each field of it says what the event, the pawns that it points at and the rounds show.
/// A victim is traded where some kill avenges theirs, and a kill is a trade where it is the
/// first to avenge one.
pub proof fn law_kills_tell_deaths(p: Parser)
    requires
        p.kill_rows() is Ok,
    ensures
        ({
            let frames = p.frames->Ok_0@;
            let places = events_named(frames, "player_death"@);
            let rows = p.kill_rows()->Ok_0;
            let ticks = p.trade_ticks as int;
            &&& rows.len() == places.len()
            &&& forall|k: int|
                0 <= k < rows.len() ==> {
                    let (i, j) = places[k];
                    let row = #[trigger] rows[k];
                    &&& says_kill(frames[i].events@[j], p.names, row)
                    &&& names_killers(p.schema, p.names, frames, i, frames[i].events@[j], row)
                    &&& reading::is_round_of(p.round_rows()->Ok_0, row.tick, row.round_num)
                    &&& row.victim_traded <==> exists|m: int| #[trigger] avenges(rows, ticks, k, m)
                    &&& row.is_trade <==> exists|m: int| #[trigger]
                        avenges_first(rows, ticks, m, k)
                }
        }),
{
    let frames = p.frames->Ok_0@;
    let n = frames.len() as int;
    let lens = p.event_lens();
    let rounds = p.round_rows()->Ok_0;
    let rows = p.kill_rows()->Ok_0;
    let told = events::told_kills(p.schema, lens, frames);
    let ticks = p.trade_ticks as int;
    let row_of = |f: Frame, clans: Map<i64, Seq<char>>, e: GameEvent|
        kills::kill_of(lens, f, clans, e);
    let places = events_named(frames, "player_death"@);
    lemma_collected(p.schema, frames, row_of, name_picks(frames, "player_death"@), n);
    assert(frames.take(n) =~= frames);
    assert(told == events::collected(TeamKeys::of(p.schema), frames, row_of));
    assert forall|k: int| 0 <= k < rows.len() implies same_fight(
        told[k],
        #[trigger] rows[k],
    ) by {}
    assert forall|k: int| 0 <= k < rows.len() implies {
        let (i, j) = places[k];
        let row = #[trigger] rows[k];
        &&& says_kill(frames[i].events@[j], p.names, row)
        &&& names_killers(p.schema, p.names, frames, i, frames[i].events@[j], row)
        &&& reading::is_round_of(rounds, row.tick, row.round_num)
        &&& row.victim_traded <==> exists|m: int| #[trigger] avenges(rows, ticks, k, m)
        &&& row.is_trade <==> exists|m: int| #[trigger] avenges_first(rows, ticks, m, k)
    } by {
        let (i, j) = places[k];
        let row = rows[k];
        assert(is_told(p.schema, frames, row_of, places[k], told[k]));
        lemma_kill(p.schema, p.names, frames, i, j, told[k]);
        lemma_kill_kept(p.schema, p.names, frames, i, frames[i].events@[j], told[k], row);
        reading::law_round_of_tick(rounds, row.tick);
        lemma_trades(told, rows, ticks, k);
    }
}

/// Whether a row says what a `player_hurt` event says by itself. What a player had before is
/// what is left and what was taken, and no more than 100.
pub open spec fn says_damage(e: GameEvent, names: Names, row: Damage<Seq<char>>) -> bool {
    let health = keys::key_i32(e.keys@, "health"@);
    let armor = keys::key_i32(e.keys@, "armor"@);
    &&& row.tick == e.tick
    &&& row.weapon == keys::key_string(e.keys@, "weapon"@)
    &&& row.dmg_health == keys::key_i32(e.keys@, "dmg_health"@)
    &&& row.dmg_armor == keys::key_i32(e.keys@, "dmg_armor"@)
    &&& row.health_post == health
    &&& row.armor_post == armor
    &&& row.health_pre == (if health + row.dmg_health > 100 {
        100
    } else {
        health + row.dmg_health
    })
    &&& row.armor_pre == (if armor + row.dmg_armor > 100 {
        100
    } else {
        armor + row.dmg_armor
    })
    &&& row.hitgroup == keys::key_i32(e.keys@, "hitgroup"@)
    &&& row.hitgroup_name == names.hitgroups.name(
        keys::key_i32(e.keys@, "hitgroup"@) as i64,
    )
}

/// Whether a row names the players of a hit in frame `i`.
pub open spec fn names_hitters(
    schema: Schema,
    names: Names,
    frames: Seq<Frame>,
    i: int,
    e: GameEvent,
    row: Damage<Seq<char>>,
) -> bool {
    let attacker = ResolvedPlayer {
        steamid: row.attacker_steamid,
        name: row.attacker_name,
        side: row.attacker_side,
        x: row.attacker_x,
        y: row.attacker_y,
        z: row.attacker_z,
        team_clan_name: row.attacker_team_clan_name,
        cash_spent_this_round: row.attacker_cash_spent_this_round,
    };
    let victim = ResolvedPlayer {
        steamid: row.victim_steamid,
        name: row.victim_name,
        side: row.victim_side,
        x: row.victim_x,
        y: row.victim_y,
        z: row.victim_z,
        team_clan_name: row.victim_team_clan_name,
        cash_spent_this_round: row.victim_cash_spent_this_round,
    };
    &&& takes_part(schema, names, frames, i, e, "attacker_pawn"@, attacker)
    &&& takes_part(schema, names, frames, i, e, "userid_pawn"@, victim)
}

/// Which events of which frames tell the health of a pawn: hits on it, and its spawns.
pub open spec fn health_picks(frames: Seq<Frame>, pawn: u32) -> spec_fn(int, int) -> bool {
    |a: int, b: int|
        {
            let e = frames[a].events@[b];
            (e.name@ == "player_hurt"@ || e.name@ == "player_spawn"@) && handle_under(
                e,
                "userid_pawn"@,
            ) == pawn
        }
}

/// The health that a pawn has before event `j` of frame `i`: what the last hit on it has left,
/// or 100 after a spawn, and where nothing is known.
pub open spec fn health_before(frames: Seq<Frame>, pawn: u32, i: int, j: int) -> i32 {
    match reading::last_before(
        i,
        j,
        blinds::event_counts(frames),
        health_picks(frames, pawn),
    ) {
        Some((a, b)) => {
            let e = frames[a].events@[b];
            if e.name@ == "player_hurt"@ {
                keys::key_i32(e.keys@, "health"@)
            } else {
                100
            }
        },
        None => 100,
    }
}

/// Whether a row is the hit that event `j` of frame `i` tells of.
pub open spec fn is_hit(
    schema: Schema,
    names: Names,
    frames: Seq<Frame>,
    i: int,
    j: int,
    row: Damage<Seq<char>>,
) -> bool {
    let e = frames[i].events@[j];
    let had = health_before(frames, handle_under(e, "userid_pawn"@), i, j);
    &&& says_damage(e, names, row)
    &&& names_hitters(schema, names, frames, i, e, row)
    &&& row.dmg_health_real == (if had > row.health_post {
        had - row.health_post
    } else {
        0
    })
}

spec fn healths_upto(frames: Seq<Frame>, i: int, j: int, health: Map<u32, i32>) -> bool {
    forall|pawn: u32| #[trigger]
        damages::health_left(health, pawn) == health_before(frames, pawn, i, j)
}

proof fn lemma_hurt_names()
    ensures
        "player_hurt"@ != "player_spawn"@,
{
    reveal_strlit("player_hurt");
    reveal_strlit("player_spawn");
    assert("player_hurt"@.len() != "player_spawn"@.len());
}

proof fn lemma_last_step(
    i: int,
    j: int,
    width: spec_fn(int) -> int,
    p: spec_fn(int, int) -> bool,
)
    requires
        j >= 0,
    ensures
        reading::last_before(i, j + 1, width, p) == (if p(i, j) {
            Some((i, j))
        } else {
            reading::last_before(i, j, width, p)
        }),
{
}

proof fn lemma_hits_in(
    schema: Schema,
    names: Names,
    frames: Seq<Frame>,
    i: int,
    m: int,
    health: Map<u32, i32>,
)
    requires
        0 <= i < frames.len(),
        0 <= m <= frames[i].events@.len(),
        healths_upto(frames, i, 0, health),
        damages::tick_hurts_fit(health, frames[i].events@),
    ensures
        ({
            let es = frames[i].events@;
            let rows = damages::damages_in(
                Lens::of(schema, &names, Scope::Events),
                frames[i],
                clans_at(schema, frames, i + 1),
                health,
                es.take(m),
            );
            let places = reading::spots_in(i, m, name_picks(frames, "player_hurt"@));
            &&& healths_upto(frames, i, m, damages::health_after(health, es.take(m)))
            &&& rows.len() == places.len()
            &&& forall|k: int|
                0 <= k < rows.len() ==> is_hit(
                    schema,
                    names,
                    frames,
                    places[k].0,
                    places[k].1,
                    #[trigger] rows[k],
                )
        }),
    decreases m,
{
    let lens = Lens::of(schema, &names, Scope::Events);
    let clans = clans_at(schema, frames, i + 1);
    let es = frames[i].events@;
    let w = blinds::event_counts(frames);
    if m == 0 {
        assert(es.take(0) =~= Seq::empty());
    } else {
        lemma_hits_in(schema, names, frames, i, m - 1, health);
        lemma_hurt_names();
        assert(es.take(m).drop_last() =~= es.take(m - 1));
        let e = es[m - 1];
        assert(es.take(m).last() == e);
        let before = damages::health_after(health, es.take(m - 1));
        let after = damages::health_after(health, es.take(m));
        assert forall|pawn: u32| #[trigger] damages::health_left(after, pawn) == health_before(
            frames,
            pawn,
            i,
            m,
        ) by {
            assert(damages::health_left(before, pawn) == health_before(frames, pawn, i, m - 1));
            lemma_last_step(i, m - 1, w, health_picks(frames, pawn));
        }
        let pawn = damages::pawn_of(e);
        assert(damages::health_left(before, pawn) == health_before(frames, pawn, i, m - 1));
        let p = name_picks(frames, "player_hurt"@);
        let was = reading::spots_in(i, m - 1, p);
        let all = reading::spots_in(i, m, p);
        let x = damages::damages_in(lens, frames[i], clans, health, es.take(m - 1));
        let y = damages::damages_in(lens, frames[i], clans, health, es.take(m));
        if e.name@ == "player_hurt"@ {
            assert(damages::hurt_fits(before, e)) by {
                reveal(damages::tick_hurts_fit);
                assert(es[m - 1] == e);
            }
            reveal(damages::hurt_fits);
            lemma_takes_part(schema, names, frames, i, e, "attacker_pawn"@);
            lemma_takes_part(schema, names, frames, i, e, "userid_pawn"@);
            assert(is_hit(schema, names, frames, i, m - 1, y.last()));
        }
        assert forall|k: int| 0 <= k < y.len() implies is_hit(
            schema,
            names,
            frames,
            all[k].0,
            all[k].1,
            #[trigger] y[k],
        ) by {
            if k < x.len() {
                assert(y[k] == x[k]);
                assert(all[k] == was[k]);
            }
        }
    }
}

proof fn lemma_hits(schema: Schema, names: Names, frames: Seq<Frame>, n: int)
    requires
        0 <= n <= frames.len(),
        damages::hurts_fit(frames),
    ensures
        ({
            let rows = damages::damages_through(
                Lens::of(schema, &names, Scope::Events),
                TeamKeys::of(schema),
                frames.take(n),
            );
            let places = reading::spots(
                n,
                blinds::event_counts(frames),
                name_picks(frames, "player_hurt"@),
            );
            &&& healths_upto(frames, n, 0, damages::health_through(frames.take(n)))
            &&& rows.len() == places.len()
            &&& forall|k: int|
                0 <= k < rows.len() ==> is_hit(
                    schema,
                    names,
                    frames,
                    places[k].0,
                    places[k].1,
                    #[trigger] rows[k],
                )
        }),
    decreases n,
{
    let lens = Lens::of(schema, &names, Scope::Events);
    let tk = TeamKeys::of(schema);
    if n == 0 {
        assert(frames.take(0) =~= Seq::empty());
    } else {
        lemma_hits(schema, names, frames, n - 1);
        assert(frames.take(n).drop_last() =~= frames.take(n - 1));
        let f = frames[n - 1];
        assert(frames.take(n).last() == f);
        let es = f.events@;
        let m = es.len() as int;
        let health = damages::health_through(frames.take(n - 1));
        assert(damages::tick_hurts_fit(health, frames[n - 1].events@));
        lemma_hits_in(schema, names, frames, n - 1, m, health);
        assert(es.take(m) =~= es);
        let w = blinds::event_counts(frames);
        let now = damages::health_through(frames.take(n));
        assert forall|pawn: u32| #[trigger] damages::health_left(now, pawn) == health_before(
            frames,
            pawn,
            n,
            0,
        ) by {
            assert(damages::health_left(now, pawn) == health_before(frames, pawn, n - 1, m));
            reading::lemma_last_turn(n - 1, w, health_picks(frames, pawn));
        }
        let p = name_picks(frames, "player_hurt"@);
        let a = reading::spots(n - 1, w, p);
        let b = reading::spots_in(n - 1, m, p);
        let x = damages::damages_through(lens, tk, frames.take(n - 1));
        let y = damages::damages_in(lens, f, clans_at(schema, frames, n), health, es);
        assert forall|k: int| 0 <= k < (x + y).len() implies is_hit(
            schema,
            names,
            frames,
            (a + b)[k].0,
            (a + b)[k].1,
            #[trigger] (x + y)[k],
        ) by {
            if k < x.len() {
                assert((x + y)[k] == x[k]);
            } else {
                assert((x + y)[k] == y[k - x.len()]);
            }
        }
    }
}

/// Damage is the `player_hurt` events: there is one row for every one of them, in their order,
/// and each field of it says what the event, the pawns that it points at, the health that the
/// victim had and the rounds show.
pub proof fn law_damages_tell_hits(p: Parser)
    requires
        p.damage_rows() is Ok,
        p.hurts_fit(),
    ensures
        ({
            let frames = p.frames->Ok_0@;
            let places = events_named(frames, "player_hurt"@);
            let rows = p.damage_rows()->Ok_0;
            &&& rows.len() == places.len()
            &&& forall|k: int|
                0 <= k < rows.len() ==> is_hit(
                    p.schema,
                    p.names,
                    frames,
                    places[k].0,
                    places[k].1,
                    #[trigger] rows[k],
                ) && reading::is_round_of(
                    p.round_rows()->Ok_0,
                    rows[k].tick,
                    rows[k].round_num,
                )
        }),
{
    let frames = p.frames->Ok_0@;
    let n = frames.len() as int;
    let rounds = p.round_rows()->Ok_0;
    lemma_hits(p.schema, p.names, frames, n);
    assert(frames.take(n) =~= frames);
    let told = events::told_damages(p.schema, p.event_lens(), frames);
    let rows = p.damage_rows()->Ok_0;
    let places = events_named(frames, "player_hurt"@);
    assert forall|k: int| 0 <= k < rows.len() implies is_hit(
        p.schema,
        p.names,
        frames,
        places[k].0,
        places[k].1,
        #[trigger] rows[k],
    ) && reading::is_round_of(rounds, rows[k].tick, rows[k].round_num) by {
        assert(is_hit(p.schema, p.names, frames, places[k].0, places[k].1, told[k]));
        reading::law_round_of_tick(rounds, told[k].tick);
    }
}

/// The bomb action that a game event tells of.
pub open spec fn action_of(name: Seq<char>, action: Seq<char>) -> bool {
    ||| name == "bomb_pickup"@ && action == "pickup"@
    ||| name == "bomb_dropped"@ && action == "drop"@
    ||| name == "bomb_beginplant"@ && action == "start_plant"@
    ||| name == "bomb_abortplant"@ && action == "interrupt_plant"@
    ||| name == "bomb_planted"@ && action == "finish_plant"@
    ||| name == "bomb_defused"@ && action == "defuse"@
    ||| name == "bomb_begindefuse"@ && action == "start_defuse"@
    ||| name == "bomb_exploded"@ && action == "explode"@
}

/// Which events of which frames tell of bomb actions.
pub open spec fn bomb_picks(frames: Seq<Frame>) -> spec_fn(int, int) -> bool {
    |i: int, j: int|
        exists|action: Seq<char>| #[trigger] action_of(frames[i].events@[j].name@, action)
}

/// Whether an entity is a bomb that is planted.
pub open spec fn is_planted(e: Entity) -> bool {
    e.active && e.class_name@ == "CPlantedC4"@
}

/// Whether a site is that of the first bomb that is planted: `A` for 0, `B` for 1, and none for
/// other numbers, where there is no number, and where no bomb is planted.
pub open spec fn is_bomb_site(
    schema: Schema,
    entities: Seq<Entity>,
    site: Option<Seq<char>>,
) -> bool {
    let key = schema.key_of("CPlantedC4"@, "m_nBombSite"@);
    &&& (forall|k: int| 0 <= k < entities.len() ==> !is_planted(#[trigger] entities[k]))
        ==> site is None
    &&& forall|k: int|
        0 <= k < entities.len() && is_planted(#[trigger] entities[k]) && (forall|m: int|
            0 <= m < k ==> !is_planted(#[trigger] entities[m])) ==> site == (if entities[k].has(key)
            && entities[k].i64_at(key) == 0 {
            Some("A"@)
        } else if entities[k].has(key) && entities[k].i64_at(key) == 1 {
            Some("B"@)
        } else {
            None
        })
}

proof fn lemma_bomb_site(schema: Schema, entities: Seq<Entity>)
    ensures
        is_bomb_site(
            schema,
            entities,
            bomb::planted_site(entities, bomb::site_key(schema)),
        ),
{
    let p = |e: Entity| bomb::is_planted(e);
    let site = bomb::planted_site(entities, bomb::site_key(schema));
    if forall|k: int| 0 <= k < entities.len() ==> !is_planted(#[trigger] entities[k]) {
        order::lemma_first_match(entities, p, entities.len() as int);
    }
    assert forall|k: int|
        0 <= k < entities.len() && is_planted(#[trigger] entities[k]) && (forall|m: int|
            0 <= m < k ==> !is_planted(#[trigger] entities[m])) implies bomb::planted_bomb(entities)
        == Some(entities[k]) by {
        assert forall|m: int| 0 <= m < k implies !p(#[trigger] entities[m]) by {
            assert(!is_planted(entities[m]));
        }
        order::lemma_first_match(entities, p, k);
    }
}

/// Whether a row is the bomb action that event `j` of frame `i` tells of.
pub open spec fn is_bomb_action(
    schema: Schema,
    names: Names,
    frames: Seq<Frame>,
    i: int,
    j: int,
    row: BombEvent<Seq<char>>,
) -> bool {
    let e = frames[i].events@[j];
    &&& row.tick == e.tick
    &&& action_of(e.name@, row.event)
    &&& is_bomb_site(schema, frames[i].entities@, row.bombsite)
    &&& exists|p: ResolvedPlayer<Seq<char>>| #[trigger]
        participants::is_player_at(
            schema,
            names,
            Scope::Events,
            frames[i].entities@,
            handle_under(e, "userid_pawn"@),
            p,
        ) && row.steamid == p.steamid && row.name == p.name && row.x == p.x && row.y == p.y
            && row.z == p.z
}

/// Bomb actions are the events of the bomb: there is one row for every one of them, in their
/// order, and each field of it says what the event, the pawn that it points at and the planted
/// bomb show.
pub proof fn law_bomb_actions_tell_events(p: Parser)
    requires
        p.bomb_rows() is Ok,
    ensures
        ({
            let frames = p.frames->Ok_0@;
            let places = reading::spots(
                frames.len() as int,
                blinds::event_counts(frames),
                bomb_picks(frames),
            );
            let rows = p.bomb_rows()->Ok_0;
            &&& rows.len() == places.len()
            &&& forall|k: int|
                0 <= k < rows.len() ==> is_bomb_action(
                    p.schema,
                    p.names,
                    frames,
                    places[k].0,
                    places[k].1,
                    #[trigger] rows[k],
                )
        }),
{
    let frames = p.frames->Ok_0@;
    let n = frames.len() as int;
    let lens = p.event_lens();
    let key = bomb::site_key(p.schema);
    let rows = p.bomb_rows()->Ok_0;
    let row_of = |f: Frame, clans: Map<i64, Seq<char>>, e: GameEvent|
        bomb::bomb_of(lens, key, f, clans, e);
    assert forall|i: int, j: int|
        0 <= i < frames.len() && 0 <= j < frames[i].events@.len() implies #[trigger] bomb_picks(
        frames,
    )(i, j) == row_of(
        frames[i],
        clans_at(p.schema, frames, i + 1),
        frames[i].events@[j],
    ) is Some by {
        lemma_action(frames[i].events@[j].name@);
    }
    lemma_collected(p.schema, frames, row_of, bomb_picks(frames), n);
    assert(frames.take(n) =~= frames);
    let other = |f: Frame, clans: Map<i64, Seq<char>>, e: GameEvent|
        bomb::bomb_of(lens, bomb::site_key(p.schema), f, clans, e);
    assert(row_of =~= other);
    assert(rows == events::collected(TeamKeys::of(p.schema), frames, row_of));
    let places = reading::spots(n, blinds::event_counts(frames), bomb_picks(frames));
    assert forall|k: int| 0 <= k < rows.len() implies is_bomb_action(
        p.schema,
        p.names,
        frames,
        places[k].0,
        places[k].1,
        #[trigger] rows[k],
    ) by {
        let (i, j) = places[k];
        let e = frames[i].events@[j];
        assert(row_of(frames[i], clans_at(p.schema, frames, i + 1), e) == Some(rows[k]));
        lemma_action(e.name@);
        lemma_bomb_site(p.schema, frames[i].entities@);
        lemma_takes_part(p.schema, p.names, frames, i, e, "userid_pawn"@);
        let who = lens.player_of_handle(
            frames[i].entities@,
            keys::key_i64(e.keys@, "userid_pawn"@),
            clans_at(p.schema, frames, i + 1),
        );
        assert(participants::is_player_at(
            p.schema,
            p.names,
            Scope::Events,
            frames[i].entities@,
            handle_under(e, "userid_pawn"@),
            who,
        ));
    }
}

proof fn lemma_action(name: Seq<char>)
    ensures
        bomb::bomb_action(name) is Some <==> exists|action: Seq<char>| #[trigger]
            action_of(name, action),
        bomb::bomb_action(name) matches Some(a) ==> action_of(name, a),
{
    if let Some(a) = bomb::bomb_action(name) {
        assert(action_of(name, a));
    }
}

/// Whether a row is the shot that event `j` of frame `i` tells of.
pub open spec fn is_shot(
    schema: Schema,
    names: Names,
    frames: Seq<Frame>,
    i: int,
    j: int,
    row: Shot<Seq<char>>,
) -> bool {
    let f = frames[i];
    let e = f.events@[j];
    let shooter = ResolvedPlayer {
        steamid: row.steamid,
        name: row.name,
        side: row.side,
        x: row.x,
        y: row.y,
        z: row.z,
        team_clan_name: row.team_clan_name,
        cash_spent_this_round: row.cash_spent_this_round,
    };
    &&& row.tick == e.tick
    &&& row.weapon == keys::key_string(e.keys@, "weapon"@)
    &&& takes_part(schema, names, frames, i, e, "userid_pawn"@, shooter)
    &&& match demo::entity_at(
        f.entities@,
        Scope::Events,
        names,
        handle_under(e, "userid_pawn"@),
    ) {
        None => {
            &&& row.pitch is None
            &&& row.yaw is None
            &&& row.scoped is None
            &&& row.inaccuracy is None
            &&& row.num_bullets_remaining is None
        },
        Some(pawn) => {
            &&& row.pitch == Some(
                pawn.angles_at(states::pawn_key(schema, "m_angEyeAngles"@)).x,
            )
            &&& row.yaw == Some(pawn.angles_at(states::pawn_key(schema, "m_angEyeAngles"@)).y)
            &&& row.scoped == Some(pawn.bool_at(states::pawn_key(schema, "m_bIsScoped"@)))
            &&& match demo::linked(
                f.entities@,
                Scope::Events,
                names,
                pawn.handle_at(states::pawn_key(schema, "m_pWeaponServices.m_hActiveWeapon"@)),
            ) {
                Some(w) if schema.serializer_of(w.class_name@) is Some => {
                    &&& row.inaccuracy == Some(
                        w.real_at(schema.key_of(w.class_name@, "m_fAccuracyPenalty"@)),
                    )
                    &&& row.num_bullets_remaining == Some(
                        w.i64_at(schema.key_of(w.class_name@, "m_iClip1"@)) as i32,
                    )
                },
                _ => row.inaccuracy is None && row.num_bullets_remaining is None,
            }
        },
    }
}

/// Shots are the `weapon_fire` events: there is one row for every one of them, in their order,
/// and each field of it says what the event, the pawn that it points at, the weapon in its
/// hands and the rounds show.
pub proof fn law_shots_tell_events(p: Parser)
    requires
        p.shot_rows() is Ok,
    ensures
        ({
            let frames = p.frames->Ok_0@;
            let places = events_named(frames, "weapon_fire"@);
            let rows = p.shot_rows()->Ok_0;
            &&& rows.len() == places.len()
            &&& forall|k: int|
                0 <= k < rows.len() ==> is_shot(
                    p.schema,
                    p.names,
                    frames,
                    places[k].0,
                    places[k].1,
                    #[trigger] rows[k],
                ) && reading::is_round_of(
                    p.round_rows()->Ok_0,
                    rows[k].tick,
                    rows[k].round_num,
                )
        }),
{
    let frames = p.frames->Ok_0@;
    let n = frames.len() as int;
    let lens = p.event_lens();
    let rounds = p.round_rows()->Ok_0;
    let rows = p.shot_rows()->Ok_0;
    let schema = p.schema;
    let row_of = |f: Frame, clans: Map<i64, Seq<char>>, e: GameEvent|
        shots::shot_of(schema, lens, f, clans, e);
    lemma_collected(p.schema, frames, row_of, name_picks(frames, "weapon_fire"@), n);
    assert(frames.take(n) =~= frames);
    let told = events::told_shots(p.schema, lens, frames);
    let other = |f: Frame, clans: Map<i64, Seq<char>>, e: GameEvent|
        shots::shot_of(p.schema, lens, f, clans, e);
    assert(row_of =~= other);
    assert(told == events::collected(TeamKeys::of(p.schema), frames, row_of));
    let places = events_named(frames, "weapon_fire"@);
    assert forall|k: int| 0 <= k < rows.len() implies is_shot(
        p.schema,
        p.names,
        frames,
        places[k].0,
        places[k].1,
        #[trigger] rows[k],
    ) && reading::is_round_of(rounds, rows[k].tick, rows[k].round_num) by {
        let (i, j) = places[k];
        let e = frames[i].events@[j];
        assert(row_of(frames[i], clans_at(p.schema, frames, i + 1), e) == Some(told[k]));
        lemma_takes_part(p.schema, p.names, frames, i, e, "userid_pawn"@);
        reading::law_round_of_tick(rounds, told[k].tick);
    }
}

} // verus!
