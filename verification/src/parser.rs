//! A decoded demo and the datasets it gives.
use crate::blinds;
use crate::blinds::{
    find_blinds, find_candidates, sums_are_complete, Blind, FlashCandidate, FlashSum,
};
use crate::bomb::BombEvent;
use crate::chat;
use crate::chat::{collect_chat, ChatMessage};
use crate::damages;
use crate::damages::{can_reckon_hurts, Damage};
use crate::demo;
use crate::demo::{is_listed, DemoError, Frame, GameEvent, Schema};
use crate::economy;
use crate::economy::{can_add_up, find_buy_ticks, reckon_economy, RoundEconomy};
use crate::events;
use crate::events::{finish_events, gather_events, EventDatasets, PlayerEvents};
use crate::float::Vector;
use crate::items;
use crate::items::{find_items, ItemEvent};
use crate::kills::Kill;
use crate::marks;
use crate::marks::{mark_extended_freeze, mark_knife_rounds};
use crate::names::{Names, Scope};
use crate::order;
use crate::players;
use crate::players::{find_players, Player};
use crate::projectiles;
use crate::projectiles::{find_projectiles, Fire, Grenade, GrenadeThrow, Projectiles, Smoke};
use crate::resolve::{Lens, TeamKeys};
use crate::rounds;
use crate::rounds::{can_measure_freezes, find_rounds, Round};
use crate::segments;
use crate::segments::Keyframe;
use crate::shots::Shot;
use crate::snapshots;
use crate::snapshots::{
    can_collect, can_read, collect_run, finish_states, read_frame, seek_frame, stride_ticks,
    PlayerState, Query,
};
use crate::text;
use crate::timeouts;
use crate::timeouts::{can_count_rounds, find_timeouts, Timeout};
use std::collections::HashSet;
use vstd::prelude::*;

verus! {

broadcast use {vstd::std_specs::hash::group_hash_axioms, crate::text::group_views};

/// A demo, decoded: what each of the decoder's passes gives, or why it gave up.
#[derive(Debug)]
pub struct Parser {
    pub schema: Schema,
    pub names: Names,
    /// The state of the demo at every tick, in tick order.
    pub frames: Result<Vec<Frame>, DemoError>,
    /// Every event and user message, in order.
    pub events: Result<Vec<GameEvent>, DemoError>,
    /// Every full packet.
    pub keyframes: Result<Vec<Keyframe>, DemoError>,
    /// The trade window: five seconds at the demo's tick rate, in whole ticks.
    pub trade_ticks: i32,
}

/// A dataset as its rows' views.
pub open spec fn rows<T: View>(r: Result<Vec<T>, DemoError>) -> Result<Seq<T::V>, DemoError> {
    match r {
        Ok(v) => Ok(text::views(v@)),
        Err(e) => Err(e),
    }
}

impl Parser {
    /// Whether the freeze period of every round has a length that a tick count can say.
    pub open spec fn freezes_fit(self) -> bool {
        self.frames matches Ok(frames) ==> rounds::freezes_fit(
            self.names,
            rounds::all_rules(self.schema, frames@),
        )
    }

    /// Whether the freeze period of every round has a length that a tick count can say.
    pub fn has_countable_freezes(&self) -> (b: bool)
        ensures
            b == self.freezes_fit(),
    {
        match &self.frames {
            Ok(frames) => can_measure_freezes(&self.schema, &self.names, frames),
            Err(_) => true,
        }
    }

    /// The rounds of the demo. Kills are looked at only where there are rounds.
    pub open spec fn round_rows(self) -> Result<Seq<Round<Seq<char>>>, DemoError> {
        match self.frames {
            Err(e) => Err(e),
            Ok(frames) => {
                let bare = rounds::bare_rounds(self.schema, self.names, frames@);
                if bare.len() == 0 {
                    Ok(bare)
                } else {
                    match self.events {
                        Err(e) => Err(e),
                        Ok(events) => Ok(
                            marks::with_freeze_marks(marks::with_knife_marks(bare, events@)),
                        ),
                    }
                }
            },
        }
    }

    /// Reconstruct per-round information from game-rules state.
    ///
    /// A round is emitted each time the count of rounds played goes up by one outside
    /// warmup; winner and reason are read at that tick, the freeze ticks from the
    /// surrounding freeze transitions. A count that goes back is a match restart and
    /// discards what came before.
    pub fn rounds(&self) -> (r: Result<Vec<Round>, DemoError>)
        requires
            self.freezes_fit(),
        ensures
            rows(r) == self.round_rows(),
    {
        match &self.frames {
            Err(e) => Err(*e),
            Ok(frames) => {
                let mut rounds = find_rounds(&self.schema, &self.names, frames);
                if rounds.len() == 0 {
                    return Ok(rounds);
                }
                match &self.events {
                    Err(e) => Err(*e),
                    Ok(events) => {
                        mark_knife_rounds(&mut rounds, events);
                        mark_extended_freeze(&mut rounds);
                        Ok(rounds)
                    },
                }
            },
        }
    }

    /// The ticks on which any of the named game events fired.
    pub fn event_ticks(&self, names: &Vec<String>) -> (r: Result<HashSet<i32>, DemoError>)
        ensures
            match self.events {
                Err(e) => r == Err::<HashSet<i32>, DemoError>(e),
                Ok(events) => r is Ok && forall|t: i32| #[trigger]
                    r->Ok_0@.contains(t) <==> exists|i: int|
                        0 <= i < events@.len() && (#[trigger] events@[i]).tick == t && demo::lists(
                            names@,
                            events@[i].name@,
                        ),
            },
    {
        match &self.events {
            Err(e) => Err(*e),
            Ok(events) => {
                let mut ticks: HashSet<i32> = HashSet::new();
                let n: usize = events.len();
                let mut i: usize = 0;
                while i < n
                    invariant
                        i <= n,
                        n == events@.len(),
                        forall|t: i32| #[trigger]
                            ticks@.contains(t) <==> exists|j: int|
                                0 <= j < i && (#[trigger] events@[j]).tick == t && demo::lists(
                                    names@,
                                    events@[j].name@,
                                ),
                    decreases n - i,
                {
                    let ghost before = ticks@;
                    if is_listed(names, events[i].name.as_str()) {
                        ticks.insert(events[i].tick);
                    }
                    proof {
                        assert forall|t: i32| #[trigger] ticks@.contains(t) <==> exists|j: int|
                            0 <= j < i + 1 && (#[trigger] events@[j]).tick == t && demo::lists(
                                names@,
                                events@[j].name@,
                            ) by {
                            if before.contains(t) {
                                let j = choose|j: int|
                                    0 <= j < i && (#[trigger] events@[j]).tick == t && demo::lists(
                                        names@,
                                        events@[j].name@,
                                    );
                                assert(events@[j].tick == t);
                            }
                            if demo::lists(names@, events@[i as int].name@) && events@[i as int].tick
                                == t {
                                assert(ticks@.contains(t));
                            }
                        }
                    }
                    i = i + 1;
                }
                Ok(ticks)
            },
        }
    }

    /// Chat messages, in tick order.
    pub fn chat(&self) -> (r: Result<Vec<ChatMessage>, DemoError>)
        ensures
            rows(r) == (match self.events {
                Ok(events) => Ok(chat::chat_rows(events@)),
                Err(e) => Err(e),
            }),
    {
        match &self.events {
            Ok(events) => Ok(collect_chat(events)),
            Err(e) => Err(*e),
        }
    }

    /// Whether the count of completed rounds leaves room for one more at every tick.
    pub open spec fn counts_fit(self) -> bool {
        self.frames matches Ok(frames) ==> timeouts::counts_fit(
            timeouts::all_clocks(self.schema, frames@),
        )
    }

    /// Whether the count of completed rounds leaves room for one more at every tick.
    pub fn has_countable_rounds(&self) -> (b: bool)
        ensures
            b == self.counts_fit(),
    {
        match &self.frames {
            Ok(frames) => can_count_rounds(&self.schema, frames),
            Err(_) => true,
        }
    }

    /// Reconstruct tactical and technical timeouts from the state of the game rules:
    /// each team's timeout flag and countdown, and the flag of an admin pause. Rows come
    /// in the order of their start ticks.
    pub fn timeouts(&self) -> (r: Result<Vec<Timeout>, DemoError>)
        requires
            self.counts_fit(),
        ensures
            match self.frames {
                Err(e) => rows(r) == Err::<Seq<Timeout<Seq<char>>>, DemoError>(e),
                Ok(frames) => {
                    let all = timeouts::all_timeouts(timeouts::all_clocks(self.schema, frames@));
                    r is Ok && order::stably_sorted(
                        all,
                        text::views(r->Ok_0@),
                        timeouts::start_ticks(all),
                    )
                },
            },
    {
        match &self.frames {
            Err(e) => Err(*e),
            Ok(frames) => Ok(find_timeouts(&self.schema, frames)),
        }
    }

    /// How the pass over game events looks at players.
    pub open spec fn event_lens<'a>(&'a self) -> Lens<'a> {
        Lens::of(self.schema, &self.names, Scope::Events)
    }

    /// Whether every hit's numbers can be reckoned with in 32 bits.
    pub open spec fn hurts_fit(self) -> bool {
        self.frames matches Ok(frames) ==> damages::hurts_fit(frames@)
    }

    /// Whether every hit's numbers can be reckoned with in 32 bits.
    pub fn has_countable_hurts(&self) -> (b: bool)
        ensures
            b == self.hurts_fit(),
    {
        match &self.frames {
            Ok(frames) => can_reckon_hurts(frames),
            Err(_) => true,
        }
    }

    /// The kills of the demo.
    pub open spec fn kill_rows(self) -> Result<Seq<Kill<Seq<char>>>, DemoError> {
        match self.round_rows() {
            Err(e) => Err(e),
            Ok(rounds) => Ok(
                events::finished_kills(
                    events::told_kills(self.schema, self.event_lens(), self.frames->Ok_0@),
                    self.trade_ticks as int,
                    rounds,
                ),
            ),
        }
    }

    /// The damage instances of the demo.
    pub open spec fn damage_rows(self) -> Result<Seq<Damage<Seq<char>>>, DemoError> {
        match self.round_rows() {
            Err(e) => Err(e),
            Ok(rounds) => Ok(
                events::finished_damages(
                    events::told_damages(self.schema, self.event_lens(), self.frames->Ok_0@),
                    rounds,
                ),
            ),
        }
    }

    /// The bomb actions of the demo.
    pub open spec fn bomb_rows(self) -> Result<Seq<BombEvent<Seq<char>>>, DemoError> {
        match self.round_rows() {
            Err(e) => Err(e),
            Ok(_) => Ok(events::told_bomb(self.schema, self.event_lens(), self.frames->Ok_0@)),
        }
    }

    /// The shots of the demo.
    pub open spec fn shot_rows(self) -> Result<Seq<Shot<Seq<char>>>, DemoError> {
        match self.round_rows() {
            Err(e) => Err(e),
            Ok(rounds) => Ok(
                events::finished_shots(
                    events::told_shots(self.schema, self.event_lens(), self.frames->Ok_0@),
                    rounds,
                ),
            ),
        }
    }

    /// The flash onsets of the demo.
    pub open spec fn onsets(self) -> Seq<blinds::Onset> {
        match self.frames {
            Err(_) => Seq::empty(),
            Ok(frames) => blinds::onsets_through(
                blinds::flash_key(self.schema),
                TeamKeys::of(self.schema),
                frames@,
            ),
        }
    }

    /// The blinds of the demo, given what was reckoned for its flash onsets.
    pub open spec fn blind_rows(self, sums: Seq<FlashSum>) -> Result<Seq<Blind<Seq<char>>>, DemoError> {
        match self.round_rows() {
            Err(e) => Err(e),
            Ok(_) => Ok(blinds::blinds_of(self.event_lens(), self.onsets(), sums)),
        }
    }

    /// Build kills, damage, bomb actions and shots in one pass.
    fn player_events(&self) -> (r: Result<PlayerEvents, DemoError>)
        requires
            self.freezes_fit(),
            self.hurts_fit(),
        ensures
            match r {
                Err(e) => self.round_rows() == Err::<Seq<Round<Seq<char>>>, DemoError>(e),
                Ok(p) => {
                    &&& self.kill_rows() == Ok::<_, DemoError>(text::views(p.kills@))
                    &&& self.damage_rows() == Ok::<_, DemoError>(text::views(p.damages@))
                    &&& self.bomb_rows() == Ok::<_, DemoError>(text::views(p.bomb@))
                    &&& self.shot_rows() == Ok::<_, DemoError>(text::views(p.shots@))
                },
            },
    {
        match &self.frames {
            Err(e) => Err(*e),
            Ok(frames) => {
                let lens = Lens::new(&self.schema, &self.names, Scope::Events);
                let told = gather_events(&self.schema, &lens, frames);
                match self.rounds() {
                    Err(e) => Err(e),
                    Ok(rounds) => Ok(finish_events(told, self.trade_ticks, &rounds)),
                }
            },
        }
    }

    /// What has to be reckoned in single precision before blinds can be told: for every
    /// pawn whose flash duration is above the noise floor on a tick with detonations, the
    /// duration before, the position and the blast sites.
    pub fn flash_candidates(&self) -> (r: Result<Vec<FlashCandidate>, DemoError>)
        ensures
            match self.frames {
                Err(e) => rows(r) == Err::<Seq<FlashCandidate<Seq<Option<Vector>>>>, DemoError>(e),
                Ok(_) => rows(r) == Ok::<_, DemoError>(
                    blinds::candidates(self.event_lens(), self.onsets()),
                ),
            },
    {
        match &self.frames {
            Err(e) => Err(*e),
            Ok(frames) => {
                let lens = Lens::new(&self.schema, &self.names, Scope::Events);
                Ok(find_candidates(&self.schema, &lens, frames))
            },
        }
    }

    /// Whether there is one reckoning for every flash candidate, with a distance for every
    /// blast site.
    pub fn has_all_sums(&self, sums: &Vec<FlashSum>) -> (b: bool)
        ensures
            b == blinds::sums_match(self.onsets(), sums@),
    {
        match &self.frames {
            Ok(frames) => {
                let lens = Lens::new(&self.schema, &self.names, Scope::Events);
                sums_are_complete(&self.schema, &lens, frames, sums)
            },
            Err(_) => sums.len() == 0,
        }
    }

    /// Build kills, damage, bomb actions, blinds and shots together, given what was
    /// reckoned for each of the flash candidates.
    pub fn event_datasets(&self, sums: &Vec<FlashSum>) -> (r: Result<EventDatasets, DemoError>)
        requires
            self.freezes_fit(),
            self.hurts_fit(),
            blinds::sums_match(self.onsets(), sums@),
        ensures
            match r {
                Err(e) => self.round_rows() == Err::<Seq<Round<Seq<char>>>, DemoError>(e),
                Ok(d) => {
                    &&& self.kill_rows() == Ok::<_, DemoError>(text::views(d.kills@))
                    &&& self.damage_rows() == Ok::<_, DemoError>(text::views(d.damages@))
                    &&& self.bomb_rows() == Ok::<_, DemoError>(text::views(d.bomb@))
                    &&& self.blind_rows(sums@) == Ok::<_, DemoError>(text::views(d.blinds@))
                    &&& self.shot_rows() == Ok::<_, DemoError>(text::views(d.shots@))
                },
            },
    {
        match self.player_events() {
            Err(e) => Err(e),
            Ok(p) => {
                let blinds = match &self.frames {
                    Ok(frames) => {
                        let lens = Lens::new(&self.schema, &self.names, Scope::Events);
                        find_blinds(&self.schema, &lens, frames, sums)
                    },
                    Err(e) => return Err(*e),
                };
                Ok(
                    EventDatasets {
                        kills: p.kills,
                        damages: p.damages,
                        bomb: p.bomb,
                        blinds,
                        shots: p.shots,
                    },
                )
            },
        }
    }

    /// Every kill, enriched with each participant's Steam id, name, side and world
    /// position at the kill tick.
    pub fn kills(&self) -> (r: Result<Vec<Kill>, DemoError>)
        requires
            self.freezes_fit(),
            self.hurts_fit(),
        ensures
            rows(r) == self.kill_rows(),
    {
        match self.player_events() {
            Err(e) => Err(e),
            Ok(p) => Ok(p.kills),
        }
    }

    /// Every damage instance, enriched with the resolved attacker and victim and the
    /// victim's health and armor before and after the hit.
    pub fn damages(&self) -> (r: Result<Vec<Damage>, DemoError>)
        requires
            self.freezes_fit(),
            self.hurts_fit(),
        ensures
            rows(r) == self.damage_rows(),
    {
        match self.player_events() {
            Err(e) => Err(e),
            Ok(p) => Ok(p.damages),
        }
    }

    /// Bomb actions with the acting player and, while the bomb is planted, its site.
    pub fn bomb(&self) -> (r: Result<Vec<BombEvent>, DemoError>)
        requires
            self.freezes_fit(),
            self.hurts_fit(),
        ensures
            rows(r) == self.bomb_rows(),
    {
        match self.player_events() {
            Err(e) => Err(e),
            Ok(p) => Ok(p.bomb),
        }
    }

    /// Every shot fired, enriched with the shooter's state and view angles and the active
    /// weapon's scoped state, accuracy penalty and remaining clip.
    pub fn shots(&self) -> (r: Result<Vec<Shot>, DemoError>)
        requires
            self.freezes_fit(),
            self.hurts_fit(),
        ensures
            rows(r) == self.shot_rows(),
    {
        match self.player_events() {
            Err(e) => Err(e),
            Ok(p) => Ok(p.shots),
        }
    }

    /// Flash events: one row per player blinded, with the thrower, the victim and the
    /// blind duration, given what was reckoned for each of the flash candidates.
    pub fn blinds(&self, sums: &Vec<FlashSum>) -> (r: Result<Vec<Blind>, DemoError>)
        requires
            self.freezes_fit(),
            self.hurts_fit(),
            blinds::sums_match(self.onsets(), sums@),
        ensures
            rows(r) == self.blind_rows(sums@),
    {
        match self.event_datasets(sums) {
            Err(e) => Err(e),
            Ok(d) => Ok(d.blinds),
        }
    }

    /// How the pass over projectiles looks at players.
    pub open spec fn projectile_lens<'a>(&'a self) -> Lens<'a> {
        Lens::of(self.schema, &self.names, Scope::Projectiles)
    }

    /// Why projectiles cannot be told, if they cannot: the events are read first.
    pub open spec fn projectile_error(self) -> Option<DemoError> {
        match (self.events, self.frames) {
            (Err(e), _) => Some(e),
            (Ok(_), Err(e)) => Some(e),
            (Ok(_), Ok(_)) => None,
        }
    }

    /// The trajectories of thrown grenades.
    pub open spec fn grenade_rows(self) -> Result<Seq<Grenade<Seq<char>>>, DemoError> {
        match self.projectile_error() {
            Some(e) => Err(e),
            None => Ok(
                projectiles::grenade_rows(
                    self.schema,
                    self.projectile_lens(),
                    self.frames->Ok_0@,
                ),
            ),
        }
    }

    /// The thrown grenades.
    pub open spec fn throw_rows(self) -> Result<Seq<GrenadeThrow<Seq<char>>>, DemoError> {
        match self.projectile_error() {
            Some(e) => Err(e),
            None => Ok(
                projectiles::throw_rows(
                    self.schema,
                    self.projectile_lens(),
                    self.frames->Ok_0@,
                    self.events->Ok_0@,
                ),
            ),
        }
    }

    /// The fires.
    pub open spec fn fire_rows(self) -> Result<Seq<Fire<Seq<char>>>, DemoError> {
        match self.projectile_error() {
            Some(e) => Err(e),
            None => Ok(
                projectiles::fire_rows(
                    self.schema,
                    self.projectile_lens(),
                    self.frames->Ok_0@,
                    self.events->Ok_0@,
                ),
            ),
        }
    }

    /// The smokes.
    pub open spec fn smoke_rows(self) -> Result<Seq<Smoke<Seq<char>>>, DemoError> {
        match self.projectile_error() {
            Some(e) => Err(e),
            None => Ok(
                projectiles::smoke_rows(
                    self.schema,
                    self.projectile_lens(),
                    self.frames->Ok_0@,
                    self.events->Ok_0@,
                ),
            ),
        }
    }

    /// Build the projectile datasets in one pass: grenades, fires, smokes and throws.
    pub fn projectiles(&self) -> (r: Result<Projectiles, DemoError>)
        ensures
            match r {
                Err(e) => self.projectile_error() == Some(e),
                Ok(p) => {
                    &&& self.grenade_rows() == Ok::<_, DemoError>(text::views(p.grenades@))
                    &&& self.fire_rows() == Ok::<_, DemoError>(text::views(p.fires@))
                    &&& self.smoke_rows() == Ok::<_, DemoError>(text::views(p.smokes@))
                    &&& self.throw_rows() == Ok::<_, DemoError>(text::views(p.grenade_throws@))
                },
            },
    {
        match (&self.events, &self.frames) {
            (Err(e), _) => Err(*e),
            (Ok(_), Err(e)) => Err(*e),
            (Ok(events), Ok(frames)) => {
                let lens = Lens::new(&self.schema, &self.names, Scope::Projectiles);
                Ok(find_projectiles(&self.schema, &lens, frames, events))
            },
        }
    }

    /// Trajectories of thrown grenades: one row per tick each projectile is live, with its
    /// position and resolved thrower.
    pub fn grenades(&self) -> (r: Result<Vec<Grenade>, DemoError>)
        ensures
            rows(r) == self.grenade_rows(),
    {
        match self.projectiles() {
            Err(e) => Err(e),
            Ok(p) => Ok(p.grenades),
        }
    }

    /// Thrown grenades, one row each: the throw (first tracked position) and the land
    /// (last tracked position or, for HE, that of its detonation).
    pub fn grenade_throws(&self) -> (r: Result<Vec<GrenadeThrow>, DemoError>)
        ensures
            rows(r) == self.throw_rows(),
    {
        match self.projectiles() {
            Err(e) => Err(e),
            Ok(p) => Ok(p.grenade_throws),
        }
    }

    /// Burning infernos, one row each, with position, thrower and the burn window that
    /// the start and expiry events bound.
    pub fn fires(&self) -> (r: Result<Vec<Fire>, DemoError>)
        ensures
            rows(r) == self.fire_rows(),
    {
        match self.projectiles() {
            Err(e) => Err(e),
            Ok(p) => Ok(p.fires),
        }
    }

    /// Deployed smoke clouds, one row each, with position, thrower and the active window
    /// that the detonation and expiry events bound.
    pub fn smokes(&self) -> (r: Result<Vec<Smoke>, DemoError>)
        ensures
            rows(r) == self.smoke_rows(),
    {
        match self.projectiles() {
            Err(e) => Err(e),
            Ok(p) => Ok(p.smokes),
        }
    }

    /// Every player seen in the demo: Steam id, name, last observed side and the team name
    /// they were playing under. Bots appear too, with Steam id 0. A reconnecting player has
    /// one row, with the freshest state.
    pub fn players(&self) -> (r: Result<Vec<Player>, DemoError>)
        ensures
            rows(r) == (match self.frames {
                Ok(frames) => Ok(players::player_rows(self.schema, self.names, frames@)),
                Err(e) => Err(e),
            }),
    {
        match &self.frames {
            Ok(frames) => Ok(find_players(&self.schema, &self.names, frames)),
            Err(e) => Err(*e),
        }
    }

    /// How a pass over inventories and player states looks at players.
    pub open spec fn snapshot_lens<'a>(&'a self) -> Lens<'a> {
        Lens::of(self.schema, &self.names, Scope::Snapshots)
    }

    /// Weapon transactions: purchases, pickups and drops, told from the inventories, so that
    /// they work on demos that omit the purchase events.
    pub fn item_events(&self) -> (r: Result<Vec<ItemEvent>, DemoError>)
        ensures
            rows(r) == (match self.frames {
                Ok(frames) => Ok(
                    items::item_rows(self.schema, self.snapshot_lens(), frames@),
                ),
                Err(e) => Err(e),
            }),
    {
        match &self.frames {
            Ok(frames) => {
                let lens = Lens::new(&self.schema, &self.names, Scope::Snapshots);
                Ok(find_items(&self.schema, &lens, frames))
            },
            Err(e) => Err(*e),
        }
    }

    /// How a look at one tick sees players: nothing is left out.
    pub open spec fn full_lens<'a>(&'a self) -> Lens<'a> {
        Lens::of(self.schema, &self.names, Scope::All)
    }

    /// Whether the flashbangs of every pawn at a tick can be counted in 32 bits.
    pub open spec fn tick_fits(self, tick: i32) -> bool {
        self.frames matches Ok(frames) ==> (snapshots::frame_at(frames@, tick) matches Some(f)
            ==> snapshots::frame_fits(f, snapshots::snapshot_keys(self.schema), self.full_lens()))
    }

    /// Whether the flashbangs of every pawn at a tick can be counted in 32 bits.
    pub fn can_snapshot(&self, tick: i32) -> (b: bool)
        ensures
            b == self.tick_fits(tick),
    {
        match &self.frames {
            Ok(frames) => {
                let lens = Lens::new(&self.schema, &self.names, Scope::All);
                match seek_frame(frames, tick) {
                    Some(f) => can_read(&self.schema, &lens, f),
                    None => true,
                }
            },
            Err(_) => true,
        }
    }

    /// The player states at a tick.
    pub open spec fn tick_rows(self, tick: i32) -> Result<Seq<PlayerState<Seq<char>>>, DemoError> {
        match self.round_rows() {
            Err(e) => Err(e),
            Ok(rounds) => Ok(
                snapshots::finished_states(
                    match snapshots::frame_at(self.frames->Ok_0@, tick) {
                        Some(f) => snapshots::frame_states(self.schema, self.full_lens(), f),
                        None => Seq::empty(),
                    },
                    rounds,
                ),
            ),
        }
    }

    /// Every player's state at a single tick: that of the last frame at or before it. There
    /// are no earlier ticks to know a dead player's identity from.
    pub fn snapshot(&self, tick: i32) -> (r: Result<Vec<PlayerState>, DemoError>)
        requires
            self.freezes_fit(),
            self.tick_fits(tick),
        ensures
            rows(r) == self.tick_rows(tick),
    {
        match &self.frames {
            Err(e) => Err(*e),
            Ok(frames) => {
                let lens = Lens::new(&self.schema, &self.names, Scope::All);
                let mut states = match seek_frame(frames, tick) {
                    Some(f) => read_frame(&self.schema, &lens, f),
                    None => Vec::new(),
                };
                match self.rounds() {
                    Err(e) => Err(e),
                    Ok(rounds) => {
                        finish_states(&mut states, &rounds);
                        Ok(states)
                    },
                }
            },
        }
    }

    /// The ticks of the keyframes.
    pub open spec fn keyframe_ticks(self) -> Seq<i32> {
        match self.keyframes {
            Ok(k) => snapshots::ticks_of(k@),
            Err(_) => Seq::empty(),
        }
    }

    /// The player states at the ticks that are wanted.
    pub open spec fn state_rows(self, wants: spec_fn(i32) -> bool) -> Result<
        Seq<PlayerState<Seq<char>>>,
        DemoError,
    > {
        match (self.keyframes, self.round_rows()) {
            (Err(e), _) => Err(e),
            (Ok(_), Err(e)) => Err(e),
            (Ok(_), Ok(rounds)) => Ok(
                snapshots::finished_states(
                    snapshots::states_through(
                        self.schema,
                        self.snapshot_lens(),
                        self.keyframe_ticks(),
                        wants,
                        self.frames->Ok_0@,
                    ).rows,
                    rounds,
                ),
            ),
        }
    }

    /// Player states do not depend on how many segments a demo is decoded in: within any
    /// budget, they are the finished states of all planned segments, one after the other, as
    /// long as every segment shows its clan names by itself.
    pub proof fn law_states_in_segments(self, wants: spec_fn(i32) -> bool, budget: int)
        requires
            self.frames is Ok,
            forall|a: int, b: int|
                0 <= a <= b < self.frames->Ok_0@.len() ==> (#[trigger] self.frames->Ok_0@[a]).tick
                    <= (#[trigger] self.frames->Ok_0@[b]).tick,
            self.keyframes matches Ok(k) ==> segments::in_tick_order(k@)
                && snapshots::segments_show_clans(
                self.schema,
                self.snapshot_lens(),
                k@,
                wants,
                self.frames->Ok_0@,
                segments::segments_within(budget, k@.len() as int),
            ),
        ensures
            match (self.keyframes, self.round_rows()) {
                (Err(e), _) => self.state_rows(wants) == Err::<
                    Seq<PlayerState<Seq<char>>>,
                    DemoError,
                >(e),
                (Ok(_), Err(e)) => self.state_rows(wants) == Err::<
                    Seq<PlayerState<Seq<char>>>,
                    DemoError,
                >(e),
                (Ok(k), Ok(rounds)) => {
                    let n = segments::segments_within(budget, k@.len() as int);
                    self.state_rows(wants) == Ok::<Seq<PlayerState<Seq<char>>>, DemoError>(
                        snapshots::finished_states(
                            snapshots::segments_through(
                                self.schema,
                                self.snapshot_lens(),
                                k@,
                                wants,
                                self.frames->Ok_0@,
                                n,
                                n,
                            ),
                            rounds,
                        ),
                    )
                },
            },
    {
        if let Ok(k) = self.keyframes {
            snapshots::law_planned_segments_stitch(
                self.schema,
                self.snapshot_lens(),
                k@,
                wants,
                self.frames->Ok_0@,
                budget,
            );
        }
    }

    /// Collect the player states at the ticks that are wanted.
    fn collect_states(&self, query: &Query) -> (r: Result<Vec<PlayerState>, DemoError>)
        requires
            self.freezes_fit(),
            self.frames matches Ok(frames) ==> snapshots::frames_fit(
                self.schema,
                self.snapshot_lens(),
                query.picks(),
                frames@,
            ),
        ensures
            rows(r) == self.state_rows(query.picks()),
    {
        let keyframes = match &self.keyframes {
            Err(e) => return Err(*e),
            Ok(k) => k,
        };
        let frames = match &self.frames {
            Err(e) => return Err(*e),
            Ok(frames) => frames,
        };
        let mut ticks: Vec<i32> = Vec::new();
        let n: usize = keyframes.len();
        for i in 0..n
            invariant
                n == keyframes@.len(),
                ticks@.len() == i,
                forall|j: int| 0 <= j < i ==> #[trigger] ticks@[j] == keyframes@[j].tick,
        {
            ticks.push(keyframes[i].tick);
        }
        assert(ticks@ =~= self.keyframe_ticks());
        let lens = Lens::new(&self.schema, &self.names, Scope::Snapshots);
        let mut states = collect_run(&self.schema, &lens, &ticks, query, frames);
        match self.rounds() {
            Err(e) => Err(e),
            Ok(rounds) => {
                finish_states(&mut states, &rounds);
                Ok(states)
            },
        }
    }

    /// The ticks that a query takes.
    pub open spec fn sampled_ticks(
        self,
        every: Option<i32>,
        ticks: Set<i32>,
        start_tick: i32,
        end_tick: i32,
    ) -> spec_fn(i32) -> bool {
        snapshots::sampled(
            every,
            ticks,
            start_tick,
            end_tick,
            match self.frames {
                Ok(frames) => frames@,
                Err(_) => Seq::empty(),
            },
        )
    }

    /// Whether the flashbangs of every pawn at the ticks that a query takes can be counted in
    /// 32 bits.
    pub open spec fn query_fits(
        self,
        every: Option<i32>,
        ticks: Set<i32>,
        start_tick: i32,
        end_tick: i32,
    ) -> bool {
        self.frames matches Ok(frames) ==> snapshots::frames_fit(
            self.schema,
            self.snapshot_lens(),
            self.sampled_ticks(every, ticks, start_tick, end_tick),
            frames@,
        )
    }

    /// Whether the flashbangs of every pawn at the ticks that a query takes can be counted in
    /// 32 bits.
    pub fn can_query(
        &self,
        every: Option<i32>,
        ticks: &HashSet<i32>,
        start_tick: i32,
        end_tick: i32,
    ) -> (b: bool)
        ensures
            b == self.query_fits(every, ticks@, start_tick, end_tick),
    {
        match &self.frames {
            Ok(frames) => {
                let query = Query {
                    all: every.is_none() && ticks.is_empty(),
                    ticks,
                    strided: match every {
                        Some(step) => stride_ticks(frames, step),
                        None => HashSet::new(),
                    },
                    start: start_tick,
                    end: end_tick,
                };
                proof {
                    assert(query.picks() =~= self.sampled_ticks(
                        every,
                        ticks@,
                        start_tick,
                        end_tick,
                    ));
                }
                let lens = Lens::new(&self.schema, &self.names, Scope::Snapshots);
                can_collect(&self.schema, &lens, &query, frames)
            },
            Err(_) => true,
        }
    }

    /// Every player's state at a queried set of ticks.
    ///
    /// The sampled ticks are the union of a periodic stride (`every`: a tick is taken once
    /// at least that many have gone by since the last one taken, so that demos that skip
    /// ticks still yield about one row per stride) and the explicit `ticks`, all within
    /// `[start_tick, end_tick]`. Where neither is given, every tick in the window is taken.
    /// Rows come out in tick order.
    pub fn snapshots_query(
        &self,
        every: Option<i32>,
        ticks: &HashSet<i32>,
        start_tick: i32,
        end_tick: i32,
    ) -> (r: Result<Vec<PlayerState>, DemoError>)
        requires
            self.freezes_fit(),
            self.query_fits(every, ticks@, start_tick, end_tick),
        ensures
            match (every, self.frames) {
                (Some(_), Err(e)) => rows(r) == Err::<Seq<PlayerState<Seq<char>>>, DemoError>(e),
                _ => rows(r) == self.state_rows(
                    self.sampled_ticks(every, ticks@, start_tick, end_tick),
                ),
            },
    {
        let strided = match every {
            Some(step) => match &self.frames {
                Err(e) => return Err(*e),
                Ok(frames) => stride_ticks(frames, step),
            },
            None => HashSet::new(),
        };
        let query = Query {
            all: every.is_none() && ticks.is_empty(),
            ticks,
            strided,
            start: start_tick,
            end: end_tick,
        };
        proof {
            assert(query.picks() =~= self.sampled_ticks(every, ticks@, start_tick, end_tick));
        }
        self.collect_states(&query)
    }

    /// The states that the economy is read from: those at the ticks at which buys are read.
    pub open spec fn buy_states(self) -> Result<Seq<PlayerState<Seq<char>>>, DemoError> {
        match self.round_rows() {
            Err(e) => Err(e),
            Ok(rounds) => self.state_rows(
                self.sampled_ticks(None, economy::buy_ticks(rounds), i32::MIN, i32::MAX),
            ),
        }
    }

    /// Whether the numbers that the economy is reckoned with fit 32 bits.
    pub open spec fn economy_fits(self) -> bool {
        self.round_rows() matches Ok(rounds) ==> {
            &&& self.query_fits(None, economy::buy_ticks(rounds), i32::MIN, i32::MAX)
            &&& self.buy_states() matches Ok(states) ==> economy::sums_fit(rounds, states)
        }
    }

    /// Whether the numbers that the economy is reckoned with fit 32 bits.
    pub fn has_countable_economy(&self) -> (b: bool)
        requires
            self.freezes_fit(),
        ensures
            b == self.economy_fits(),
    {
        match self.rounds() {
            Err(_) => true,
            Ok(rounds) => {
                let ticks = find_buy_ticks(&rounds);
                if !self.can_query(None, &ticks, i32::MIN, i32::MAX) {
                    return false;
                }
                match self.snapshots_query(None, &ticks, i32::MIN, i32::MAX) {
                    Err(_) => true,
                    Ok(states) => can_add_up(&rounds, &states),
                }
            },
        }
    }

    /// Per-team economy and buy type for each round: one row per round and side, with the
    /// side's total equipment value once the buy is locked. Knife rounds are left out.
    pub fn round_economy(&self) -> (r: Result<Vec<RoundEconomy>, DemoError>)
        requires
            self.freezes_fit(),
            self.economy_fits(),
        ensures
            match (self.round_rows(), self.buy_states()) {
                (Err(e), _) => rows(r) == Err::<Seq<RoundEconomy<Seq<char>>>, DemoError>(e),
                (Ok(_), Err(e)) => rows(r) == Err::<Seq<RoundEconomy<Seq<char>>>, DemoError>(e),
                (Ok(rounds), Ok(states)) => r is Ok && economy::economy_of(
                    rounds,
                    states,
                    text::views(r->Ok_0@),
                ),
            },
    {
        match self.rounds() {
            Err(e) => Err(e),
            Ok(rounds) => {
                proof {
                    law_rounds_numbered(*self);
                }
                let ticks = find_buy_ticks(&rounds);
                match self.snapshots_query(None, &ticks, i32::MIN, i32::MAX) {
                    Err(e) => Err(e),
                    Ok(states) => Ok(reckon_economy(&rounds, &states)),
                }
            },
        }
    }
}

/// Rounds are numbered upwards, whatever the ticks of the demo.
pub proof fn law_rounds_numbered(p: Parser)
    requires
        p.round_rows() is Ok,
    ensures
        rounds::numbered(p.round_rows()->Ok_0),
{
    let frames = p.frames->Ok_0@;
    let rules = rounds::all_rules(p.schema, frames);
    rounds::lemma_numbered(p.names, rules);
    let raw = rounds::rounds_run(p.names, rules).rounds;
    let marked = p.round_rows()->Ok_0;
    assert forall|i: int| 0 <= i < marked.len() implies (#[trigger] marked[i]).round_num
        == raw[i].round_num by {}
}

/// In a demo in tick order, each round begins, unfreezes, is decided and officially ends in
/// that order, and none begins before the last was decided; rounds are numbered upwards.
pub proof fn law_rounds_in_order(p: Parser)
    requires
        p.frames matches Ok(frames) ==> rounds::frames_in_order(frames@),
        p.round_rows() is Ok,
    ensures
        rounds::rounds_ordered(p.round_rows()->Ok_0, i32::MAX as int),
{
    let frames = p.frames->Ok_0@;
    let rules = rounds::all_rules(p.schema, frames);
    rounds::lemma_rules_in_order(p.schema, frames);
    rounds::lemma_rounds_run(p.names, rules);
    let raw = rounds::rounds_run(p.names, rules).rounds;
    let now = if rules.len() > 0 {
        rules.last().tick as int
    } else {
        0
    };
    assert(rounds::rounds_ordered(raw, now));
    rounds::lemma_settled_ordered(raw, now);
    let bare = rounds::settled(raw);
    let marked = p.round_rows()->Ok_0;
    assert forall|i: int| 0 <= i < marked.len() implies rounds::round_ordered(
        #[trigger] marked[i],
        i32::MAX as int,
    ) && marked[i].round_num == bare[i].round_num && marked[i].end_tick == bare[i].end_tick
        && rounds::anchor(marked[i]) == rounds::anchor(bare[i]) by {
        assert(rounds::round_ordered(bare[i], now));
    }
    assert forall|i: int, j: int| 0 <= i < j < marked.len() implies (#[trigger] marked[i]).round_num < (
    #[trigger] marked[j]).round_num && marked[i].end_tick <= rounds::anchor(marked[j]) by {
        assert(bare[i].round_num < bare[j].round_num);
    }
}

/// A freeze is extended only if its length is known, and a round is a knife round only by a
/// kill with a knife.
pub proof fn law_marks_have_grounds(p: Parser, k: int)
    requires
        p.round_rows() is Ok,
        0 <= k < p.round_rows()->Ok_0.len(),
    ensures
        ({
            let rounds = p.round_rows()->Ok_0;
            &&& rounds[k].extended_freeze ==> rounds[k].freeze_ticks is Some
            &&& rounds[k].is_knife_round ==> p.events is Ok && exists|i: int|
                0 <= i < p.events->Ok_0@.len() && (#[trigger] p.events->Ok_0@[i]).name@
                    == "player_death"@ && marks::is_melee(marks::weapon_of(p.events->Ok_0@[i]))
        }),
{
    rounds::lemma_unmarked(p.names, rounds::all_rules(p.schema, p.frames->Ok_0@));
    let bare = rounds::bare_rounds(p.schema, p.names, p.frames->Ok_0@);
    assert(!bare[k].extended_freeze);
    let events = p.events->Ok_0@;
    let marked = marks::with_knife_marks(bare, events);
    if p.round_rows()->Ok_0[k].is_knife_round {
        assert(marked[k].is_knife_round);
        let i = choose|i: int| #[trigger]
            marks::death_in(bare, events, i, k) && marks::is_melee(marks::weapon_of(events[i]));
        assert(events[i].name@ == "player_death"@);
    }
}

} // verus!
