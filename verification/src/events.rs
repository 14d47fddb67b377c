//! The datasets that game events give: kills, damage, bomb actions and shots, each with
//! its players resolved at the tick of the event, in one pass over the demo.
use crate::anchors;
use crate::anchors::{round_num_anchors, round_num_for_tick};
use crate::blinds::Blind;
use crate::bomb;
use crate::bomb::{bomb_site_key, take_bomb, BombEvent};
use crate::damages;
use crate::damages::{take_hurt, take_spawn, Damage};
use crate::demo::{Frame, GameEvent, Schema};
use crate::kills;
use crate::kills::{fill_kill, kill_event_fields, Kill};
use crate::resolve;
use crate::resolve::{update_clans, Lens, TeamKeys};
use crate::rounds::Round;
use crate::shots;
use crate::shots::{take_shot, Shot, ShotKeys};
use crate::text;
use crate::text::same_text;
use crate::trades;
use crate::trades::trade_flags;
use std::collections::HashMap;
use vstd::prelude::*;

verus! {

broadcast use crate::text::group_views;

/// The rows that events give, in their order.
pub open spec fn rows_of<R>(events: Seq<GameEvent>, row: spec_fn(GameEvent) -> Option<R>) -> Seq<R>
    decreases events.len(),
{
    if events.len() == 0 {
        Seq::empty()
    } else {
        let rest = rows_of(events.drop_last(), row);
        match row(events.last()) {
            Some(r) => rest.push(r),
            None => rest,
        }
    }
}

/// The rows that the events of a run of ticks give, in their order. What a row shows of
/// players it shows as of the event's tick, clan names included.
pub open spec fn collected<R>(
    tk: TeamKeys,
    frames: Seq<Frame>,
    row: spec_fn(Frame, Map<i64, Seq<char>>, GameEvent) -> Option<R>,
) -> Seq<R>
    decreases frames.len(),
{
    if frames.len() == 0 {
        Seq::empty()
    } else {
        let f = frames.last();
        let clans = resolve::clans_through(tk, frames);
        collected(tk, frames.drop_last(), row) + rows_of(
            f.events@,
            |e: GameEvent| row(f, clans, e),
        )
    }
}

/// Kills as the events tell them, before trades and rounds are known.
pub open spec fn told_kills(schema: Schema, lens: Lens, frames: Seq<Frame>) -> Seq<Kill<Seq<char>>> {
    collected(
        TeamKeys::of(schema),
        frames,
        |f: Frame, clans: Map<i64, Seq<char>>, e: GameEvent| kills::kill_of(lens, f, clans, e),
    )
}

/// Damage instances as the events tell them, before rounds are known.
pub open spec fn told_damages(schema: Schema, lens: Lens, frames: Seq<Frame>) -> Seq<
    Damage<Seq<char>>,
> {
    damages::damages_through(lens, TeamKeys::of(schema), frames)
}

/// Bomb actions.
pub open spec fn told_bomb(schema: Schema, lens: Lens, frames: Seq<Frame>) -> Seq<
    BombEvent<Seq<char>>,
> {
    collected(
        TeamKeys::of(schema),
        frames,
        |f: Frame, clans: Map<i64, Seq<char>>, e: GameEvent|
            bomb::bomb_of(lens, bomb::site_key(schema), f, clans, e),
    )
}

/// Shots as the events tell them, before rounds are known.
pub open spec fn told_shots(schema: Schema, lens: Lens, frames: Seq<Frame>) -> Seq<Shot<Seq<char>>> {
    collected(
        TeamKeys::of(schema),
        frames,
        |f: Frame, clans: Map<i64, Seq<char>>, e: GameEvent| shots::shot_of(schema, lens, f, clans, e),
    )
}

/// Kills with their trade flags and rounds.
pub open spec fn finished_kills(
    told: Seq<Kill<Seq<char>>>,
    trade_ticks: int,
    rounds: Seq<Round<Seq<char>>>,
) -> Seq<Kill<Seq<char>>> {
    told.map(
        |i: int, k: Kill<Seq<char>>|
            Kill {
                is_trade: trades::is_trade(told, trade_ticks, i),
                victim_traded: trades::is_traded(told, trade_ticks, i),
                round_num: anchors::round_num_at(rounds, k.tick),
                ..k
            },
    )
}

/// Damage instances with their rounds.
pub open spec fn finished_damages(told: Seq<Damage<Seq<char>>>, rounds: Seq<Round<Seq<char>>>) -> Seq<
    Damage<Seq<char>>,
> {
    told.map_values(
        |d: Damage<Seq<char>>| Damage { round_num: anchors::round_num_at(rounds, d.tick), ..d },
    )
}

/// Shots with their rounds.
pub open spec fn finished_shots(told: Seq<Shot<Seq<char>>>, rounds: Seq<Round<Seq<char>>>) -> Seq<
    Shot<Seq<char>>,
> {
    told.map_values(
        |s: Shot<Seq<char>>| Shot { round_num: anchors::round_num_at(rounds, s.tick), ..s },
    )
}

/// The player-enriched datasets that events give.
pub struct PlayerEvents {
    pub kills: Vec<Kill>,
    pub damages: Vec<Damage>,
    pub bomb: Vec<BombEvent>,
    pub shots: Vec<Shot>,
}

/// The player-enriched datasets that events and flash edges give.
pub struct EventDatasets {
    pub kills: Vec<Kill>,
    pub damages: Vec<Damage>,
    pub bomb: Vec<BombEvent>,
    pub blinds: Vec<Blind>,
    pub shots: Vec<Shot>,
}

/// Zero or one row.
pub open spec fn one<R>(r: Option<R>) -> Seq<R> {
    match r {
        Some(v) => seq![v],
        None => Seq::empty(),
    }
}

/// The names of the events that are told apart are all different.
proof fn lemma_event_names()
    ensures
        "player_death"@ != "player_hurt"@,
        "player_death"@ != "player_spawn"@,
        "player_death"@ != "weapon_fire"@,
        "player_hurt"@ != "player_spawn"@,
        "player_hurt"@ != "weapon_fire"@,
        "player_spawn"@ != "weapon_fire"@,
        bomb::bomb_action("player_death"@) is None,
        bomb::bomb_action("player_hurt"@) is None,
        bomb::bomb_action("player_spawn"@) is None,
        bomb::bomb_action("weapon_fire"@) is None,
{
    reveal_strlit("player_death");
    reveal_strlit("player_hurt");
    reveal_strlit("player_spawn");
    reveal_strlit("weapon_fire");
    reveal_strlit("bomb_pickup");
    reveal_strlit("bomb_dropped");
    reveal_strlit("bomb_beginplant");
    reveal_strlit("bomb_abortplant");
    reveal_strlit("bomb_planted");
    reveal_strlit("bomb_defused");
    reveal_strlit("bomb_begindefuse");
    reveal_strlit("bomb_exploded");
    assert("player_death"@[7] != "player_hurt"@[7]);
    assert("player_death"@[7] != "player_spawn"@[7]);
    assert("player_death"@[0] != "weapon_fire"@[0]);
    assert("player_hurt"@[7] != "player_spawn"@[7]);
    assert("player_hurt"@[0] != "weapon_fire"@[0]);
    assert("player_spawn"@[0] != "weapon_fire"@[0]);
    assert("bomb_pickup"@[0] == 'b');
    assert("bomb_dropped"@[0] == 'b');
    assert("bomb_beginplant"@[0] == 'b');
    assert("bomb_abortplant"@[0] == 'b');
    assert("bomb_planted"@[0] == 'b');
    assert("bomb_defused"@[0] == 'b');
    assert("bomb_begindefuse"@[0] == 'b');
    assert("bomb_exploded"@[0] == 'b');
    assert("player_death"@[0] == 'p');
    assert("player_hurt"@[0] == 'p');
    assert("player_spawn"@[0] == 'p');
    assert("weapon_fire"@[0] == 'w');
}

impl PlayerEvents {
    /// Take in one event of a tick.
    fn take_event(
        &mut self,
        schema: &Schema,
        lens: &Lens,
        site_key: Option<u64>,
        sk: &ShotKeys,
        f: &Frame,
        clans: &HashMap<i64, String>,
        health: &mut HashMap<u32, i32>,
        e: &GameEvent,
    )
        requires
            *sk == ShotKeys::of(*schema),
            damages::hurt_fits(old(health)@, *e),
        ensures
            final(health)@ == damages::health_step(old(health)@, *e),
            text::views(final(self).kills@) == text::views(old(self).kills@) + one(
                kills::kill_of(*lens, *f, resolve::clan_names(clans@), *e),
            ),
            text::views(final(self).damages@) == text::views(old(self).damages@) + one(
                damages::damage_of(*lens, *f, resolve::clan_names(clans@), old(health)@, *e),
            ),
            text::views(final(self).bomb@) == text::views(old(self).bomb@) + one(
                bomb::bomb_of(*lens, site_key, *f, resolve::clan_names(clans@), *e),
            ),
            text::views(final(self).shots@) == text::views(old(self).shots@) + one(
                shots::shot_of(*schema, *lens, *f, resolve::clan_names(clans@), *e),
            ),
    {
        proof {
            lemma_event_names();
        }
        let name = e.name.as_str();
        if same_text(name, "player_death") {
            let mut kill = kill_event_fields(e, lens.names);
            fill_kill(&mut kill, e, f, lens, clans);
            self.kills.push(kill);
        } else if same_text(name, "player_hurt") {
            self.damages.push(take_hurt(lens, f, clans, health, e));
        } else if same_text(name, "player_spawn") {
            take_spawn(health, e);
        } else if same_text(name, "weapon_fire") {
            self.shots.push(take_shot(schema, lens, sk, f, clans, e));
        } else if let Some(row) = take_bomb(lens, site_key, f, clans, e) {
            self.bomb.push(row);
        }
        proof {
            assert(text::views(self.kills@) =~= text::views(old(self).kills@) + one(
                kills::kill_of(*lens, *f, resolve::clan_names(clans@), *e),
            ));
            assert(text::views(self.damages@) =~= text::views(old(self).damages@) + one(
                damages::damage_of(*lens, *f, resolve::clan_names(clans@), old(health)@, *e),
            ));
            assert(text::views(self.bomb@) =~= text::views(old(self).bomb@) + one(
                bomb::bomb_of(*lens, site_key, *f, resolve::clan_names(clans@), *e),
            ));
            assert(text::views(self.shots@) =~= text::views(old(self).shots@) + one(
                shots::shot_of(*schema, *lens, *f, resolve::clan_names(clans@), *e),
            ));
        }
    }

    /// Take in every event of a tick.
    fn take_frame(
        &mut self,
        schema: &Schema,
        lens: &Lens,
        site_key: Option<u64>,
        sk: &ShotKeys,
        f: &Frame,
        clans: &HashMap<i64, String>,
        health: &mut HashMap<u32, i32>,
    )
        requires
            *sk == ShotKeys::of(*schema),
            damages::tick_hurts_fit(old(health)@, f.events@),
        ensures
            final(health)@ == damages::health_after(old(health)@, f.events@),
            text::views(final(self).kills@) == text::views(old(self).kills@) + rows_of(
                f.events@,
                |e: GameEvent| kills::kill_of(*lens, *f, resolve::clan_names(clans@), e),
            ),
            text::views(final(self).damages@) == text::views(old(self).damages@)
                + damages::damages_in(
                *lens,
                *f,
                resolve::clan_names(clans@),
                old(health)@,
                f.events@,
            ),
            text::views(final(self).bomb@) == text::views(old(self).bomb@) + rows_of(
                f.events@,
                |e: GameEvent| bomb::bomb_of(*lens, site_key, *f, resolve::clan_names(clans@), e),
            ),
            text::views(final(self).shots@) == text::views(old(self).shots@) + rows_of(
                f.events@,
                |e: GameEvent| shots::shot_of(*schema, *lens, *f, resolve::clan_names(clans@), e),
            ),
    {
        let n: usize = f.events.len();
        let ghost c = resolve::clan_names(clans@);
        let ghost h = health@;
        let ghost start = *self;
        let ghost kill_row = |e: GameEvent| kills::kill_of(*lens, *f, c, e);
        let ghost bomb_row = |e: GameEvent| bomb::bomb_of(*lens, site_key, *f, c, e);
        let ghost shot_row = |e: GameEvent| shots::shot_of(*schema, *lens, *f, c, e);
        let mut i: usize = 0;
        assert(f.events@.take(0) =~= Seq::<GameEvent>::empty());
        proof {
            lemma_add_empty(text::views(start.kills@));
            lemma_add_empty(text::views(start.damages@));
            lemma_add_empty(text::views(start.bomb@));
            lemma_add_empty(text::views(start.shots@));
        }
        while i < n
            invariant
                i <= n,
                n == f.events@.len(),
                c == resolve::clan_names(clans@),
                *sk == ShotKeys::of(*schema),
                damages::tick_hurts_fit(h, f.events@),
                kill_row == (|e: GameEvent| kills::kill_of(*lens, *f, c, e)),
                bomb_row == (|e: GameEvent| bomb::bomb_of(*lens, site_key, *f, c, e)),
                shot_row == (|e: GameEvent| shots::shot_of(*schema, *lens, *f, c, e)),
                health@ == damages::health_after(h, f.events@.take(i as int)),
                text::views(self.kills@) == text::views(start.kills@) + rows_of(
                    f.events@.take(i as int),
                    kill_row,
                ),
                text::views(self.damages@) == text::views(start.damages@) + damages::damages_in(
                    *lens,
                    *f,
                    c,
                    h,
                    f.events@.take(i as int),
                ),
                text::views(self.bomb@) == text::views(start.bomb@) + rows_of(
                    f.events@.take(i as int),
                    bomb_row,
                ),
                text::views(self.shots@) == text::views(start.shots@) + rows_of(
                    f.events@.take(i as int),
                    shot_row,
                ),
            decreases n - i,
        {
            let ghost next = f.events@.take(i + 1);
            assert(next.drop_last() =~= f.events@.take(i as int));
            assert(next.last() == f.events@[i as int]);
            proof {
                lemma_one_more(
                    text::views(start.kills@),
                    rows_of(next.drop_last(), kill_row),
                    kill_row(next.last()),
                );
                lemma_one_more(
                    text::views(start.damages@),
                    damages::damages_in(*lens, *f, c, h, next.drop_last()),
                    damages::damage_of(*lens, *f, c, health@, next.last()),
                );
                lemma_one_more(
                    text::views(start.bomb@),
                    rows_of(next.drop_last(), bomb_row),
                    bomb_row(next.last()),
                );
                lemma_one_more(
                    text::views(start.shots@),
                    rows_of(next.drop_last(), shot_row),
                    shot_row(next.last()),
                );
            }
            proof {
                reveal(damages::tick_hurts_fit);
            }
            self.take_event(schema, lens, site_key, sk, f, clans, health, &f.events[i]);
            i = i + 1;
        }
        assert(f.events@.take(n as int) =~= f.events@);
    }
}

/// Adding nothing changes nothing.
proof fn lemma_add_empty<R>(s: Seq<R>)
    ensures
        s + Seq::<R>::empty() == s,
{
    assert(s + Seq::<R>::empty() =~= s);
}

/// Adding a row to a sum adds it to what was added last.
pub proof fn lemma_one_more<R>(s: Seq<R>, t: Seq<R>, r: Option<R>)
    ensures
        s + t + one(r) == s + (match r {
            Some(v) => t.push(v),
            None => t,
        }),
{
    match r {
        Some(v) => assert(s + t + one(r) =~= s + t.push(v)),
        None => assert(s + t + one(r) =~= s + t),
    }
}

/// Gather what the events of a demo tell.
pub fn gather_events(schema: &Schema, lens: &Lens, frames: &Vec<Frame>) -> (told: PlayerEvents)
    requires
        damages::hurts_fit(frames@),
    ensures
        text::views(told.kills@) == told_kills(*schema, *lens, frames@),
        text::views(told.damages@) == told_damages(*schema, *lens, frames@),
        text::views(told.bomb@) == told_bomb(*schema, *lens, frames@),
        text::views(told.shots@) == told_shots(*schema, *lens, frames@),
{
    let tk = TeamKeys::resolve(schema);
    let site_key = bomb_site_key(schema);
    let sk = ShotKeys::resolve(schema);
    let mut told = PlayerEvents {
        kills: Vec::new(),
        damages: Vec::new(),
        bomb: Vec::new(),
        shots: Vec::new(),
    };
    let mut clans: HashMap<i64, String> = HashMap::new();
    let mut health: HashMap<u32, i32> = HashMap::new();
    let ghost kill_row = |f: Frame, c: Map<i64, Seq<char>>, e: GameEvent|
        kills::kill_of(*lens, f, c, e);
    let ghost bomb_row = |f: Frame, c: Map<i64, Seq<char>>, e: GameEvent|
        bomb::bomb_of(*lens, bomb::site_key(*schema), f, c, e);
    let ghost shot_row = |f: Frame, c: Map<i64, Seq<char>>, e: GameEvent|
        shots::shot_of(*schema, *lens, f, c, e);
    let n: usize = frames.len();
    let mut i: usize = 0;
    assert(frames@.take(0) =~= Seq::<Frame>::empty());
    assert(resolve::clan_names(clans@) =~= Map::empty());
    assert(health@ =~= Map::empty());
    while i < n
        invariant
            i <= n,
            n == frames@.len(),
            damages::hurts_fit(frames@),
            tk == TeamKeys::of(*schema),
            site_key == bomb::site_key(*schema),
            sk == ShotKeys::of(*schema),
            kill_row == (|f: Frame, c: Map<i64, Seq<char>>, e: GameEvent|
                kills::kill_of(*lens, f, c, e)),
            bomb_row == (|f: Frame, c: Map<i64, Seq<char>>, e: GameEvent|
                bomb::bomb_of(*lens, bomb::site_key(*schema), f, c, e)),
            shot_row == (|f: Frame, c: Map<i64, Seq<char>>, e: GameEvent|
                shots::shot_of(*schema, *lens, f, c, e)),
            resolve::clan_names(clans@) == resolve::clans_through(tk, frames@.take(i as int)),
            health@ == damages::health_through(frames@.take(i as int)),
            text::views(told.kills@) == collected(tk, frames@.take(i as int), kill_row),
            text::views(told.damages@) == damages::damages_through(
                *lens,
                tk,
                frames@.take(i as int),
            ),
            text::views(told.bomb@) == collected(tk, frames@.take(i as int), bomb_row),
            text::views(told.shots@) == collected(tk, frames@.take(i as int), shot_row),
        decreases n - i,
    {
        let f = &frames[i];
        let ghost next = frames@.take(i + 1);
        assert(next.drop_last() =~= frames@.take(i as int));
        assert(next.last() == *f);
        update_clans(f, &tk, &mut clans);
        assert(damages::tick_hurts_fit(
            damages::health_through(frames@.take(i as int)),
            frames@[i as int].events@,
        ));
        told.take_frame(schema, lens, site_key, &sk, f, &clans, &mut health);
        proof {
            let c = resolve::clan_names(clans@);
            assert((|e: GameEvent| kill_row(*f, c, e)) =~= (|e: GameEvent|
                kills::kill_of(*lens, *f, c, e)));
            assert((|e: GameEvent| bomb_row(*f, c, e)) =~= (|e: GameEvent|
                bomb::bomb_of(*lens, site_key, *f, c, e)));
            assert((|e: GameEvent| shot_row(*f, c, e)) =~= (|e: GameEvent|
                shots::shot_of(*schema, *lens, *f, c, e)));
        }
        i = i + 1;
    }
    assert(frames@.take(n as int) =~= frames@);
    told
}

/// Stamp kills with their trade flags and the rounds they fall in.
fn finish_kills(kills: &mut Vec<Kill>, trade_ticks: i32, rounds: &Vec<Round>, anchors: &Vec<(i32, i32)>)
    requires
        anchors::looks_up(text::views(rounds@), anchors@),
    ensures
        text::views(final(kills)@) == finished_kills(
            text::views(old(kills)@),
            trade_ticks as int,
            text::views(rounds@),
        ),
{
    let flags = trade_flags(kills.as_slice(), trade_ticks);
    let ghost told = text::views(kills@);
    let ghost done = finished_kills(told, trade_ticks as int, text::views(rounds@));
    let n: usize = kills.len();
    for i in 0..n
        invariant
            n == kills@.len(),
            n == told.len(),
            n == flags@.len(),
            done == finished_kills(told, trade_ticks as int, text::views(rounds@)),
            anchors::looks_up(text::views(rounds@), anchors@),
            forall|j: int|
                0 <= j < n ==> #[trigger] flags@[j] == (
                    trades::is_trade(told, trade_ticks as int, j),
                    trades::is_traded(told, trade_ticks as int, j),
                ),
            forall|j: int| 0 <= j < i ==> (#[trigger] kills@[j])@ == done[j],
            forall|j: int| i <= j < n ==> (#[trigger] kills@[j])@ == told[j],
    {
        let num = round_num_for_tick(anchors.as_slice(), kills[i].tick);
        proof {
            anchors::law_lookup_finds_round(text::views(rounds@), anchors@, told[i as int].tick);
        }
        kills[i].round_num = num;
        kills[i].is_trade = flags[i].0;
        kills[i].victim_traded = flags[i].1;
    }
    assert(text::views(kills@) =~= done);
}

/// Stamp damage instances with the rounds they fall in.
fn finish_damages(damages: &mut Vec<Damage>, rounds: &Vec<Round>, anchors: &Vec<(i32, i32)>)
    requires
        anchors::looks_up(text::views(rounds@), anchors@),
    ensures
        text::views(final(damages)@) == finished_damages(
            text::views(old(damages)@),
            text::views(rounds@),
        ),
{
    let ghost told = text::views(damages@);
    let ghost done = finished_damages(told, text::views(rounds@));
    let n: usize = damages.len();
    for i in 0..n
        invariant
            n == damages@.len(),
            n == told.len(),
            done == finished_damages(told, text::views(rounds@)),
            anchors::looks_up(text::views(rounds@), anchors@),
            forall|j: int| 0 <= j < i ==> (#[trigger] damages@[j])@ == done[j],
            forall|j: int| i <= j < n ==> (#[trigger] damages@[j])@ == told[j],
    {
        let num = round_num_for_tick(anchors.as_slice(), damages[i].tick);
        proof {
            anchors::law_lookup_finds_round(text::views(rounds@), anchors@, told[i as int].tick);
        }
        damages[i].round_num = num;
    }
    assert(text::views(damages@) =~= done);
}

/// Stamp shots with the rounds they fall in.
fn finish_shots(shots: &mut Vec<Shot>, rounds: &Vec<Round>, anchors: &Vec<(i32, i32)>)
    requires
        anchors::looks_up(text::views(rounds@), anchors@),
    ensures
        text::views(final(shots)@) == finished_shots(
            text::views(old(shots)@),
            text::views(rounds@),
        ),
{
    let ghost told = text::views(shots@);
    let ghost done = finished_shots(told, text::views(rounds@));
    let n: usize = shots.len();
    for i in 0..n
        invariant
            n == shots@.len(),
            n == told.len(),
            done == finished_shots(told, text::views(rounds@)),
            anchors::looks_up(text::views(rounds@), anchors@),
            forall|j: int| 0 <= j < i ==> (#[trigger] shots@[j])@ == done[j],
            forall|j: int| i <= j < n ==> (#[trigger] shots@[j])@ == told[j],
    {
        let num = round_num_for_tick(anchors.as_slice(), shots[i].tick);
        proof {
            anchors::law_lookup_finds_round(text::views(rounds@), anchors@, told[i as int].tick);
        }
        shots[i].round_num = num;
    }
    assert(text::views(shots@) =~= done);
}

/// Stamp what the events tell: trades, which need every kill's sides, and round
/// numbers, which are a join against the rounds.
pub fn finish_events(told: PlayerEvents, trade_ticks: i32, rounds: &Vec<Round>) -> (done: PlayerEvents)
    ensures
        text::views(done.kills@) == finished_kills(
            text::views(told.kills@),
            trade_ticks as int,
            text::views(rounds@),
        ),
        text::views(done.damages@) == finished_damages(
            text::views(told.damages@),
            text::views(rounds@),
        ),
        done.bomb == told.bomb,
        text::views(done.shots@) == finished_shots(
            text::views(told.shots@),
            text::views(rounds@),
        ),
{
    let anchors = round_num_anchors(rounds.as_slice());
    let mut done = told;
    finish_kills(&mut done.kills, trade_ticks, rounds, &anchors);
    finish_damages(&mut done.damages, rounds, &anchors);
    finish_shots(&mut done.shots, rounds, &anchors);
    done
}

/// How many events of a name a run of frames has.
pub open spec fn count_named(events: Seq<GameEvent>, name: Seq<char>) -> nat
    decreases events.len(),
{
    if events.len() == 0 {
        0
    } else {
        count_named(events.drop_last(), name) + (if events.last().name@ == name {
            1nat
        } else {
            0
        })
    }
}

/// How many events of a name a run of frames has.
pub open spec fn count_through(frames: Seq<Frame>, name: Seq<char>) -> nat
    decreases frames.len(),
{
    if frames.len() == 0 {
        0
    } else {
        count_through(frames.drop_last(), name) + count_named(frames.last().events@, name)
    }
}

/// Rows that exactly the events of one name give are as many as those.
proof fn lemma_rows_counted<R>(
    events: Seq<GameEvent>,
    row: spec_fn(GameEvent) -> Option<R>,
    name: Seq<char>,
)
    requires
        forall|e: GameEvent| #[trigger] row(e) is Some <==> e.name@ == name,
    ensures
        rows_of(events, row).len() == count_named(events, name),
    decreases events.len(),
{
    if events.len() > 0 {
        lemma_rows_counted(events.drop_last(), row, name);
    }
}

proof fn lemma_collected_counted<R>(
    tk: TeamKeys,
    frames: Seq<Frame>,
    row: spec_fn(Frame, Map<i64, Seq<char>>, GameEvent) -> Option<R>,
    name: Seq<char>,
)
    requires
        forall|f: Frame, c: Map<i64, Seq<char>>, e: GameEvent| #[trigger]
            row(f, c, e) is Some <==> e.name@ == name,
    ensures
        collected(tk, frames, row).len() == count_through(frames, name),
    decreases frames.len(),
{
    if frames.len() > 0 {
        lemma_collected_counted(tk, frames.drop_last(), row, name);
        let f = frames.last();
        let clans = resolve::clans_through(tk, frames);
        lemma_rows_counted(f.events@, |e: GameEvent| row(f, clans, e), name);
    }
}

proof fn lemma_damages_counted(
    lens: Lens,
    f: Frame,
    clans: Map<i64, Seq<char>>,
    health: Map<u32, i32>,
    events: Seq<GameEvent>,
)
    ensures
        damages::damages_in(lens, f, clans, health, events).len() == count_named(
            events,
            "player_hurt"@,
        ),
    decreases events.len(),
{
    if events.len() > 0 {
        lemma_damages_counted(lens, f, clans, health, events.drop_last());
    }
}

proof fn lemma_damages_through_counted(lens: Lens, tk: TeamKeys, frames: Seq<Frame>)
    ensures
        damages::damages_through(lens, tk, frames).len() == count_through(
            frames,
            "player_hurt"@,
        ),
    decreases frames.len(),
{
    if frames.len() > 0 {
        lemma_damages_through_counted(lens, tk, frames.drop_last());
        lemma_damages_counted(
            lens,
            frames.last(),
            resolve::clans_through(tk, frames),
            damages::health_through(frames.drop_last()),
            frames.last().events@,
        );
    }
}

/// One row per event, none lost and none added: kills are as many as `player_death` events,
/// damage instances as many as `player_hurt` events, shots as many as `weapon_fire` events.
pub proof fn law_one_row_per_event(
    schema: Schema,
    lens: Lens,
    frames: Seq<Frame>,
    trade_ticks: int,
    rounds: Seq<Round<Seq<char>>>,
)
    ensures
        finished_kills(told_kills(schema, lens, frames), trade_ticks, rounds).len()
            == count_through(frames, "player_death"@),
        finished_damages(told_damages(schema, lens, frames), rounds).len() == count_through(
            frames,
            "player_hurt"@,
        ),
        finished_shots(told_shots(schema, lens, frames), rounds).len() == count_through(
            frames,
            "weapon_fire"@,
        ),
{
    let tk = TeamKeys::of(schema);
    lemma_collected_counted(
        tk,
        frames,
        |f: Frame, clans: Map<i64, Seq<char>>, e: GameEvent| kills::kill_of(lens, f, clans, e),
        "player_death"@,
    );
    lemma_collected_counted(
        tk,
        frames,
        |f: Frame, clans: Map<i64, Seq<char>>, e: GameEvent|
            shots::shot_of(schema, lens, f, clans, e),
        "weapon_fire"@,
    );
    lemma_damages_through_counted(lens, tk, frames);
}

} // verus!
