//! Rounds, reconstructed from the state of the game rules.
use crate::demo::{Entity, Frame, Schema, Serializer};
use crate::demo;
use crate::names::Names;
use crate::text;
use vstd::prelude::*;

verus! {

broadcast use crate::text::group_views;

/// The game-rules entity whose state delimits rounds and timeouts.
pub const GAME_RULES_CLASS: &'static str = "CCSGameRulesProxy";

/// A single round, reconstructed from game-rules state transitions.
#[derive(Clone, Debug, Default)]
pub struct Round<T = String> {
    /// 1-indexed round number (the count of rounds played at round end).
    pub round_num: i32,
    /// Tick the round's freeze time began (`None` if not observed).
    pub start_tick: Option<i32>,
    /// Tick freeze time ended and play began (`None` if not observed).
    pub freeze_end_tick: Option<i32>,
    /// Tick the round was decided.
    pub end_tick: i32,
    /// Tick the round officially ended: the start of the next round's freeze time.
    /// `None` for the final round, which no round follows.
    pub official_end_tick: Option<i32>,
    /// Winning team number.
    pub winner: i32,
    /// Winning side name.
    pub winner_side: T,
    /// Raw round-end reason code.
    pub reason: i32,
    /// Human-readable round-end reason.
    pub reason_name: T,
    /// Whether every kill of the round is a melee kill, and there is one.
    pub is_knife_round: bool,
    /// Whether the freeze period ran unusually long for this demo.
    pub extended_freeze: bool,
    /// Length of the freeze period in ticks, when both its ends are known.
    pub freeze_ticks: Option<i32>,
}

impl View for Round {
    type V = Round<Seq<char>>;

    open spec fn view(&self) -> Round<Seq<char>> {
        Round {
            round_num: self.round_num,
            start_tick: self.start_tick,
            freeze_end_tick: self.freeze_end_tick,
            end_tick: self.end_tick,
            official_end_tick: self.official_end_tick,
            winner: self.winner,
            winner_side: self.winner_side@,
            reason: self.reason,
            reason_name: self.reason_name@,
            is_knife_round: self.is_knife_round,
            extended_freeze: self.extended_freeze,
            freeze_ticks: self.freeze_ticks,
        }
    }
}

/// Field keys of the game-rules entity.
#[derive(Clone, Copy, Debug)]
pub struct GameRulesKeys {
    pub warmup: Option<u64>,
    pub freeze: Option<u64>,
    pub total_rounds: Option<u64>,
    pub win_status: Option<u64>,
    pub win_reason: Option<u64>,
}

impl GameRulesKeys {
    pub open spec fn of(ser: Serializer) -> GameRulesKeys {
        GameRulesKeys {
            warmup: ser.key_of("m_pGameRules.m_bWarmupPeriod"@),
            freeze: ser.key_of("m_pGameRules.m_bFreezePeriod"@),
            total_rounds: ser.key_of("m_pGameRules.m_totalRoundsPlayed"@),
            win_status: ser.key_of("m_pGameRules.m_iRoundWinStatus"@),
            win_reason: ser.key_of("m_pGameRules.m_eRoundWinReason"@),
        }
    }

    pub fn resolve(ser: &Serializer) -> (keys: GameRulesKeys)
        ensures
            keys == GameRulesKeys::of(*ser),
    {
        GameRulesKeys {
            warmup: ser.resolve_field_key("m_pGameRules.m_bWarmupPeriod"),
            freeze: ser.resolve_field_key("m_pGameRules.m_bFreezePeriod"),
            total_rounds: ser.resolve_field_key("m_pGameRules.m_totalRoundsPlayed"),
            win_status: ser.resolve_field_key("m_pGameRules.m_iRoundWinStatus"),
            win_reason: ser.resolve_field_key("m_pGameRules.m_eRoundWinReason"),
        }
    }
}

/// What the game rules say at one tick.
#[derive(Clone, Copy, Debug)]
pub struct Rules {
    pub tick: i32,
    pub warmup: bool,
    pub freeze: bool,
    pub total: i32,
    pub win_status: i64,
    pub win_reason: i32,
}

impl Rules {
    pub open spec fn of(tick: i32, e: Entity, k: GameRulesKeys) -> Rules {
        Rules {
            tick,
            warmup: e.bool_at(k.warmup),
            freeze: e.bool_at(k.freeze),
            total: e.i64_at(k.total_rounds) as i32,
            win_status: e.i64_at(k.win_status),
            win_reason: e.i64_at(k.win_reason) as i32,
        }
    }

    /// Read the rules off the game-rules entity.
    pub fn read(tick: i32, e: &Entity, k: &GameRulesKeys) -> (r: Rules)
        ensures
            r == Rules::of(tick, *e, *k),
    {
        Rules {
            tick,
            warmup: e.get_bool(k.warmup),
            freeze: e.get_bool(k.freeze),
            total: #[verifier::truncate]
            (e.get_i64(k.total_rounds) as i32),
            win_status: e.get_i64(k.win_status),
            win_reason: #[verifier::truncate]
            (e.get_i64(k.win_reason) as i32),
        }
    }
}

/// What the rules say in a frame, if the game-rules entity is there and its fields
/// are known.
pub open spec fn rules_at(schema: Schema, f: Frame) -> Option<Rules> {
    match (
        demo::first_of_class(f.entities@, GAME_RULES_CLASS@),
        schema.serializer_of(GAME_RULES_CLASS@),
    ) {
        (Some(e), Some(ser)) => Some(Rules::of(f.tick, e, GameRulesKeys::of(ser))),
        _ => None,
    }
}

/// What the rules say over a run of frames.
pub open spec fn all_rules(schema: Schema, frames: Seq<Frame>) -> Seq<Rules>
    decreases frames.len(),
{
    if frames.len() == 0 {
        Seq::empty()
    } else {
        let rest = all_rules(schema, frames.drop_last());
        match rules_at(schema, frames.last()) {
            Some(r) => rest.push(r),
            None => rest,
        }
    }
}

/// The rounds found so far, and what is known of the round in progress.
pub struct RoundsState {
    pub rounds: Seq<Round<Seq<char>>>,
    pub start_tick: Option<i32>,
    pub freeze_end_tick: Option<i32>,
    pub prev_freeze: bool,
    pub prev_total: i32,
}

/// Before the first tick nothing is known.
pub open spec fn rounds_begin() -> RoundsState {
    RoundsState {
        rounds: Seq::empty(),
        start_tick: None,
        freeze_end_tick: None,
        prev_freeze: false,
        prev_total: 0,
    }
}

/// The length of a freeze period, when both ends are known.
pub open spec fn freeze_length(start: Option<i32>, end: Option<i32>) -> Option<i32> {
    match (start, end) {
        (Some(s), Some(e)) => Some((e - s) as i32),
        _ => None,
    }
}

/// The row of a round that is decided now.
pub open spec fn round_row(names: Names, s: RoundsState, r: Rules) -> Round<Seq<char>> {
    Round {
        round_num: r.total,
        start_tick: s.start_tick,
        freeze_end_tick: s.freeze_end_tick,
        end_tick: r.tick,
        official_end_tick: None,
        winner: r.win_status as i32,
        winner_side: names.teams.name(r.win_status),
        reason: r.win_reason,
        reason_name: names.round_end_reasons.name(r.win_reason as i64),
        is_knife_round: false,
        extended_freeze: false,
        freeze_ticks: freeze_length(s.start_tick, s.freeze_end_tick),
    }
}

/// A counter that went back is a match restart: what came before is discarded.
pub open spec fn after_restart(s: RoundsState, r: Rules) -> RoundsState {
    if r.total < s.prev_total {
        RoundsState { rounds: Seq::empty(), start_tick: None, freeze_end_tick: None, ..s }
    } else {
        s
    }
}

/// A counter that went up by one outside warmup completes a round.
pub open spec fn after_round(names: Names, s: RoundsState, r: Rules) -> RoundsState {
    if !r.warmup && r.total == s.prev_total + 1 {
        RoundsState {
            rounds: s.rounds.push(round_row(names, s, r)),
            start_tick: None,
            freeze_end_tick: None,
            ..s
        }
    } else {
        s
    }
}

/// The last round, officially ended at `tick` unless it already was.
pub open spec fn officially_ended(rounds: Seq<Round<Seq<char>>>, tick: i32) -> Seq<Round<Seq<char>>> {
    if rounds.len() > 0 && rounds.last().official_end_tick is None {
        rounds.drop_last().push(Round { official_end_tick: Some(tick), ..rounds.last() })
    } else {
        rounds
    }
}

/// Outside warmup, a freeze that begins starts the next round and officially ends
/// the last; a freeze that ends is remembered.
pub open spec fn after_freeze(s: RoundsState, r: Rules) -> RoundsState {
    if r.warmup {
        s
    } else if r.freeze && !s.prev_freeze {
        RoundsState {
            rounds: officially_ended(s.rounds, r.tick),
            start_tick: Some(r.tick),
            freeze_end_tick: None,
            ..s
        }
    } else if !r.freeze && s.prev_freeze {
        RoundsState { freeze_end_tick: Some(r.tick), ..s }
    } else {
        s
    }
}

/// One tick. A completed round comes before this tick's freeze transition: the
/// match-deciding round turns the freeze back on with the very same tick.
pub open spec fn rounds_step(names: Names, s: RoundsState, r: Rules) -> RoundsState {
    let t = after_freeze(after_round(names, after_restart(s, r), r), r);
    RoundsState { prev_freeze: r.freeze, prev_total: r.total, ..t }
}

/// A run of ticks.
pub open spec fn rounds_run(names: Names, rules: Seq<Rules>) -> RoundsState
    decreases rules.len(),
{
    if rules.len() == 0 {
        rounds_begin()
    } else {
        rounds_step(names, rounds_run(names, rules.drop_last()), rules.last())
    }
}

/// A freeze that began with the tick that decided the last round is the post-match
/// one: no round follows, so the round has no official end.
pub open spec fn settled(rounds: Seq<Round<Seq<char>>>) -> Seq<Round<Seq<char>>> {
    if rounds.len() > 0 && rounds.last().official_end_tick == Some(rounds.last().end_tick) {
        rounds.drop_last().push(Round { official_end_tick: None, ..rounds.last() })
    } else {
        rounds
    }
}

/// Whether the freeze period of a round that is decided now, if one is, has a length that a
/// tick count can say.
pub open spec fn freeze_fits(s: RoundsState, r: Rules) -> bool {
    (!r.warmup && r.total == s.prev_total + 1 && s.start_tick is Some && s.freeze_end_tick is Some)
        ==> i32::MIN <= s.freeze_end_tick->0 - s.start_tick->0 <= i32::MAX
}

/// Whether the freeze period of every round has a length that a tick count can say.
pub open spec fn freezes_fit(names: Names, rules: Seq<Rules>) -> bool
    decreases rules.len(),
{
    rules.len() > 0 ==> {
        &&& freezes_fit(names, rules.drop_last())
        &&& freeze_fits(rounds_run(names, rules.drop_last()), rules.last())
    }
}

/// Whether ticks never go back, and lie no further apart than a tick count can say.
pub open spec fn in_tick_order(rules: Seq<Rules>) -> bool {
    forall|i: int, j: int|
        0 <= i <= j < rules.len() ==> 0 <= (#[trigger] rules[j]).tick - (#[trigger] rules[i]).tick
            <= i32::MAX
}

/// Whether frames are in tick order, and no further apart than a tick count can say.
pub open spec fn frames_in_order(frames: Seq<Frame>) -> bool {
    forall|i: int, j: int|
        0 <= i <= j < frames.len() ==> 0 <= (#[trigger] frames[j]).tick - (
        #[trigger] frames[i]).tick <= i32::MAX
}

/// The rules of frames in order are in order.
pub proof fn lemma_rules_in_order(schema: Schema, frames: Seq<Frame>)
    requires
        frames_in_order(frames),
    ensures
        in_tick_order(all_rules(schema, frames)),
        all_rules(schema, frames).len() > 0 ==> frames.len() > 0,
        forall|i: int|
            0 <= i < all_rules(schema, frames).len() ==> exists|k: int|
                0 <= k < frames.len() && (#[trigger] all_rules(schema, frames)[i]).tick == (
                #[trigger] frames[k]).tick,
    decreases frames.len(),
{
    if frames.len() > 0 {
        let init = frames.drop_last();
        assert forall|i: int, j: int| 0 <= i <= j < init.len() implies 0 <= (#[trigger] init[j]).tick - (
        #[trigger] init[i]).tick <= i32::MAX by {
            assert(init[i] == frames[i] && init[j] == frames[j]);
        }
        lemma_rules_in_order(schema, init);
        let rest = all_rules(schema, init);
        let all = all_rules(schema, frames);
        assert forall|i: int| 0 <= i < all.len() implies exists|k: int|
            0 <= k < frames.len() && (#[trigger] all[i]).tick == (#[trigger] frames[k]).tick by {
            if i < rest.len() {
                assert(all[i] == rest[i]);
                let k = choose|k: int| 0 <= k < init.len() && rest[i].tick == (#[trigger] init[k]).tick;
                assert(frames[k] == init[k]);
            } else {
                assert(all[i].tick == frames[frames.len() - 1].tick);
            }
        }
        assert forall|i: int, j: int| 0 <= i <= j < all.len() implies 0 <= (#[trigger] all[j]).tick - (
        #[trigger] all[i]).tick <= i32::MAX by {
            if j < rest.len() {
                assert(all[i] == rest[i] && all[j] == rest[j]);
            } else {
                let k = choose|k: int| 0 <= k < frames.len() && all[i].tick == (#[trigger] frames[k]).tick;
                assert(all[j].tick == frames[frames.len() - 1].tick);
            }
        }
    }
}

/// What every run of ticks in order keeps, up to the tick `now`: rounds are numbered
/// upwards, each begins, unfreezes, is decided and officially ends in that order, and
/// none begins before the last was decided.
pub open spec fn rounds_ordered(rounds: Seq<Round<Seq<char>>>, now: int) -> bool {
    &&& forall|i: int| 0 <= i < rounds.len() ==> round_ordered(#[trigger] rounds[i], now)
    &&& forall|i: int, j: int|
        0 <= i < j < rounds.len() ==> (#[trigger] rounds[i]).round_num < (#[trigger] rounds[j]).round_num
            && rounds[i].end_tick <= anchor(rounds[j])
}

/// One round's ticks in order.
pub open spec fn round_ordered(r: Round<Seq<char>>, now: int) -> bool {
    &&& r.end_tick <= now
    &&& r.start_tick matches Some(s) ==> s <= r.end_tick
    &&& r.freeze_end_tick matches Some(f) ==> f <= r.end_tick
    &&& r.official_end_tick matches Some(o) ==> r.end_tick <= o
    &&& r.freeze_ticks == freeze_length(r.start_tick, r.freeze_end_tick)
    &&& (r.start_tick is Some && r.freeze_end_tick is Some) ==> 0 <= r.freeze_end_tick->0
        - r.start_tick->0 <= i32::MAX
}

/// The earliest known boundary of a round: its start, else its freeze end, else
/// its end.
pub open spec fn anchor(r: Round<Seq<char>>) -> i32 {
    match (r.start_tick, r.freeze_end_tick) {
        (Some(s), _) => s,
        (None, Some(f)) => f,
        (None, None) => r.end_tick,
    }
}

/// What a run of ticks keeps, state by state.
pub open spec fn rounds_inv(s: RoundsState, first: int, now: int) -> bool {
    &&& rounds_ordered(s.rounds, now)
    &&& s.start_tick matches Some(t) ==> first <= t <= now
    &&& s.freeze_end_tick matches Some(t) ==> first <= t <= now
    &&& (s.start_tick is Some && s.freeze_end_tick is Some) ==> s.start_tick->0
        <= s.freeze_end_tick->0
    &&& s.rounds.len() > 0 ==> {
        &&& s.rounds.last().round_num <= s.prev_total
        &&& s.start_tick matches Some(t) ==> s.rounds.last().end_tick <= t
        &&& s.freeze_end_tick matches Some(t) ==> s.rounds.last().end_tick <= t
    }
}

/// A tick keeps what a run keeps.
proof fn lemma_rounds_step(names: Names, s: RoundsState, r: Rules, first: int, now: int)
    requires
        rounds_inv(s, first, now),
        first <= now <= r.tick,
        r.tick - first <= i32::MAX,
    ensures
        rounds_inv(rounds_step(names, s, r), first, r.tick as int),
{
    let a = after_restart(s, r);
    let b = after_round(names, a, r);
    let c = after_freeze(b, r);
    assert(rounds_inv(RoundsState { prev_total: r.total, ..b }, first, r.tick as int)) by {
        if b.rounds.len() > a.rounds.len() {
            let row = round_row(names, a, r);
            assert(b.rounds == a.rounds.push(row));
            assert(round_ordered(row, r.tick as int));
            assert forall|i: int, j: int| 0 <= i < j < b.rounds.len() implies (
            #[trigger] b.rounds[i]).round_num < (#[trigger] b.rounds[j]).round_num
                && b.rounds[i].end_tick <= anchor(b.rounds[j]) by {
                if j == a.rounds.len() {
                    assert(round_ordered(a.rounds[i], now));
                    if i < a.rounds.len() - 1 {
                        let l = a.rounds.len() - 1;
                        assert(a.rounds[i].end_tick <= anchor(a.rounds[l]));
                        assert(round_ordered(a.rounds[l], now));
                    }
                }
            }
        }
    }
    if c.rounds != b.rounds {
        let l = b.rounds.len() - 1;
        assert(round_ordered(b.rounds[l], r.tick as int));
        assert(c.rounds[l] == (Round { official_end_tick: Some(r.tick), ..b.rounds[l] }));
        assert forall|i: int| 0 <= i < l implies c.rounds[i] == b.rounds[i] by {}
        assert(anchor(c.rounds[l]) == anchor(b.rounds[l]));
    }
}

/// A run of ticks in order keeps it from the first tick to the last.
pub proof fn lemma_rounds_run(names: Names, rules: Seq<Rules>)
    requires
        in_tick_order(rules),
    ensures
        rules.len() == 0 ==> rounds_run(names, rules) == rounds_begin(),
        rules.len() > 0 ==> rounds_inv(
            rounds_run(names, rules),
            rules[0].tick as int,
            rules.last().tick as int,
        ),
    decreases rules.len(),
{
    if rules.len() > 0 {
        let init = rules.drop_last();
        assert forall|i: int, j: int| 0 <= i <= j < init.len() implies 0 <= (#[trigger] init[j]).tick - (
        #[trigger] init[i]).tick <= i32::MAX by {
            assert(init[i] == rules[i] && init[j] == rules[j]);
        }
        lemma_rounds_run(names, init);
        let first = rules[0].tick as int;
        let now = if init.len() > 0 {
            init.last().tick as int
        } else {
            first
        };
        assert(rules[0].tick <= rules[rules.len() - 1].tick);
        if init.len() > 0 {
            assert(init[0] == rules[0]);
            assert(init.last() == rules[rules.len() - 2]);
        }
        lemma_rounds_step(names, rounds_run(names, init), rules.last(), first, now);
    }
}

/// Settling the last round keeps the order of rounds.
pub proof fn lemma_settled_ordered(rounds: Seq<Round<Seq<char>>>, now: int)
    requires
        rounds_ordered(rounds, now),
    ensures
        rounds_ordered(settled(rounds), now),
        settled(rounds).len() == rounds.len(),
{
    let after = settled(rounds);
    if after != rounds {
        let l = rounds.len() - 1;
        assert(round_ordered(rounds[l], now));
        assert(after[l] == (Round { official_end_tick: None::<i32>, ..rounds[l] }));
        assert forall|i: int| 0 <= i < l implies after[i] == rounds[i] by {}
        assert(anchor(after[l]) == anchor(rounds[l]));
    }
}

/// The pass that finds rounds, one tick at a time.
pub struct RoundsPass {
    pub rounds: Vec<Round>,
    pub start_tick: Option<i32>,
    pub freeze_end_tick: Option<i32>,
    pub prev_freeze: bool,
    pub prev_total: i32,
}

impl View for RoundsPass {
    type V = RoundsState;

    open spec fn view(&self) -> RoundsState {
        RoundsState {
            rounds: text::views(self.rounds@),
            start_tick: self.start_tick,
            freeze_end_tick: self.freeze_end_tick,
            prev_freeze: self.prev_freeze,
            prev_total: self.prev_total,
        }
    }
}

/// Set the official end of the last round.
fn set_official_end(rounds: &mut Vec<Round>, tick: Option<i32>)
    requires
        old(rounds)@.len() > 0,
    ensures
        text::views(final(rounds)@) == text::views(old(rounds)@).drop_last().push(
            Round { official_end_tick: tick, ..text::views(old(rounds)@).last() },
        ),
{
    let ghost before = rounds@;
    if let Some(last) = rounds.pop() {
        let mut last = last;
        last.official_end_tick = tick;
        rounds.push(last);
    }
    assert(text::views(rounds@) =~= text::views(before).drop_last().push(
        Round { official_end_tick: tick, ..text::views(before).last() },
    ));
}

impl RoundsPass {
    pub fn new() -> (p: RoundsPass)
        ensures
            p@ == rounds_begin(),
    {
        RoundsPass {
            rounds: Vec::new(),
            start_tick: None,
            freeze_end_tick: None,
            prev_freeze: false,
            prev_total: 0,
        }
    }

    /// Take in what the rules say at the next tick.
    pub fn step(&mut self, names: &Names, r: &Rules)
        requires
            freeze_fits(old(self)@, *r),
        ensures
            final(self)@ == rounds_step(*names, old(self)@, *r),
    {
        if r.total < self.prev_total {
            self.rounds = Vec::new();
            self.start_tick = None;
            self.freeze_end_tick = None;
        }
        assert(self@ == after_restart(old(self)@, *r));
        if !r.warmup && r.total as i64 == self.prev_total as i64 + 1 {
            let freeze_ticks = match (self.start_tick, self.freeze_end_tick) {
                (Some(s), Some(e)) => Some(e - s),
                _ => None,
            };
            self.rounds.push(
                Round {
                    round_num: r.total,
                    start_tick: self.start_tick,
                    freeze_end_tick: self.freeze_end_tick,
                    end_tick: r.tick,
                    official_end_tick: None,
                    winner: #[verifier::truncate]
                    (r.win_status as i32),
                    winner_side: names.teams.name_of(r.win_status),
                    reason: r.win_reason,
                    reason_name: names.round_end_reasons.name_of(r.win_reason as i64),
                    is_knife_round: false,
                    extended_freeze: false,
                    freeze_ticks,
                },
            );
            self.start_tick = None;
            self.freeze_end_tick = None;
        }
        assert(self@ == after_round(*names, after_restart(old(self)@, *r), *r));
        if !r.warmup {
            if r.freeze && !self.prev_freeze {
                let n: usize = self.rounds.len();
                if n > 0 && self.rounds[n - 1].official_end_tick.is_none() {
                    set_official_end(&mut self.rounds, Some(r.tick));
                }
                self.start_tick = Some(r.tick);
                self.freeze_end_tick = None;
            } else if !r.freeze && self.prev_freeze {
                self.freeze_end_tick = Some(r.tick);
            }
        }
        self.prev_freeze = r.freeze;
        self.prev_total = r.total;
    }

    /// The rounds, once the last tick is in.
    pub fn finish(self) -> (rounds: Vec<Round>)
        ensures
            text::views(rounds@) == settled(self@.rounds),
    {
        let mut rounds = self.rounds;
        let n: usize = rounds.len();
        if n > 0 {
            match rounds[n - 1].official_end_tick {
                Some(t) => {
                    if t == rounds[n - 1].end_tick {
                        set_official_end(&mut rounds, None);
                    }
                },
                None => {},
            }
        }
        rounds
    }
}

/// The rounds that a run of frames gives, before kills and freeze lengths are
/// weighed.
pub open spec fn bare_rounds(schema: Schema, names: Names, frames: Seq<Frame>) -> Seq<Round<Seq<char>>> {
    settled(rounds_run(names, all_rules(schema, frames)).rounds)
}

/// What fits over all frames fits over the first ones.
proof fn lemma_freezes_prefix(schema: Schema, names: Names, frames: Seq<Frame>, n: int)
    requires
        0 <= n <= frames.len(),
        freezes_fit(names, all_rules(schema, frames)),
    ensures
        freezes_fit(names, all_rules(schema, frames.take(n))),
    decreases frames.len(),
{
    if n < frames.len() {
        let init = frames.drop_last();
        let rest = all_rules(schema, init);
        if let Some(r) = rules_at(schema, frames.last()) {
            assert(rest.push(r).drop_last() =~= rest);
        }
        lemma_freezes_prefix(schema, names, init, n);
        assert(init.take(n) =~= frames.take(n));
    } else {
        assert(frames.take(n) =~= frames);
    }
}

impl RoundsPass {
    /// Whether the freeze period of a round that is decided now, if one is, has a length that
    /// a tick count can say.
    fn can_step(&self, r: &Rules) -> (b: bool)
        ensures
            b == freeze_fits(self@, *r),
    {
        if !r.warmup && r.total as i64 == self.prev_total as i64 + 1 {
            match (self.start_tick, self.freeze_end_tick) {
                (Some(s), Some(e)) => {
                    let length: i64 = e as i64 - s as i64;
                    i32::MIN as i64 <= length && length <= i32::MAX as i64
                },
                _ => true,
            }
        } else {
            true
        }
    }
}

/// Whether the freeze period of every round has a length that a tick count can say.
pub fn can_measure_freezes(schema: &Schema, names: &Names, frames: &Vec<Frame>) -> (b: bool)
    ensures
        b == freezes_fit(*names, all_rules(*schema, frames@)),
{
    let mut pass = RoundsPass::new();
    let n: usize = frames.len();
    match schema.serializer(GAME_RULES_CLASS) {
        Some(ser) => {
            let keys = GameRulesKeys::resolve(ser);
            let mut i: usize = 0;
            assert(frames@.take(0) =~= Seq::<Frame>::empty());
            while i < n
                invariant
                    i <= n,
                    n == frames@.len(),
                    schema.serializer_of(GAME_RULES_CLASS@) == Some(*ser),
                    keys == GameRulesKeys::of(*ser),
                    pass@ == rounds_run(*names, all_rules(*schema, frames@.take(i as int))),
                    freezes_fit(*names, all_rules(*schema, frames@.take(i as int))),
                decreases n - i,
            {
                let ghost seen = frames@.take(i as int);
                let ghost next = frames@.take(i + 1);
                assert(next.drop_last() =~= seen);
                assert(next.last() == frames@[i as int]);
                if let Some(e) = frames[i].find_class(GAME_RULES_CLASS) {
                    let r = Rules::read(frames[i].tick, e, &keys);
                    proof {
                        let rules = all_rules(*schema, seen);
                        assert(all_rules(*schema, next) == rules.push(r));
                        assert(rules.push(r).drop_last() =~= rules);
                    }
                    if !pass.can_step(&r) {
                        proof {
                            if freezes_fit(*names, all_rules(*schema, frames@)) {
                                lemma_freezes_prefix(*schema, *names, frames@, i + 1);
                            }
                        }
                        return false;
                    }
                    pass.step(names, &r);
                }
                i = i + 1;
            }
            assert(frames@.take(n as int) =~= frames@);
        },
        None => {
            proof {
                lemma_no_rules(*schema, frames@);
            }
        },
    }
    true
}

/// Find the rounds of a run of frames.
pub fn find_rounds(schema: &Schema, names: &Names, frames: &Vec<Frame>) -> (rounds: Vec<Round>)
    requires
        freezes_fit(*names, all_rules(*schema, frames@)),
    ensures
        text::views(rounds@) == bare_rounds(*schema, *names, frames@),
{
    let mut pass = RoundsPass::new();
    let n: usize = frames.len();
    match schema.serializer(GAME_RULES_CLASS) {
        Some(ser) => {
            let keys = GameRulesKeys::resolve(ser);
            let mut i: usize = 0;
            assert(frames@.take(0) =~= Seq::<Frame>::empty());
            while i < n
                invariant
                    i <= n,
                    n == frames@.len(),
                    freezes_fit(*names, all_rules(*schema, frames@)),
                    schema.serializer_of(GAME_RULES_CLASS@) == Some(*ser),
                    keys == GameRulesKeys::of(*ser),
                    pass@ == rounds_run(*names, all_rules(*schema, frames@.take(i as int))),
                decreases n - i,
            {
                let ghost seen = frames@.take(i as int);
                let ghost next = frames@.take(i + 1);
                assert(next.drop_last() =~= seen);
                assert(next.last() == frames@[i as int]);
                if let Some(e) = frames[i].find_class(GAME_RULES_CLASS) {
                    let r = Rules::read(frames[i].tick, e, &keys);
                    proof {
                        let rules = all_rules(*schema, seen);
                        assert(all_rules(*schema, next) == rules.push(r));
                        assert(rules.push(r).drop_last() =~= rules);
                        lemma_freezes_prefix(*schema, *names, frames@, i + 1);
                    }
                    pass.step(names, &r);
                }
                i = i + 1;
            }
            assert(frames@.take(n as int) =~= frames@);
        },
        None => {
            proof {
                lemma_no_rules(*schema, frames@);
            }
        },
    }
    pass.finish()
}

/// Without the game-rules fields nothing is said.
proof fn lemma_no_rules(schema: Schema, frames: Seq<Frame>)
    requires
        schema.serializer_of(GAME_RULES_CLASS@) is None,
    ensures
        all_rules(schema, frames).len() == 0,
    decreases frames.len(),
{
    if frames.len() > 0 {
        lemma_no_rules(schema, frames.drop_last());
    }
}

/// A demo in tick order has freeze periods that a tick count can measure.
pub proof fn law_ordered_freezes_fit(schema: Schema, names: Names, frames: Seq<Frame>)
    requires
        frames_in_order(frames),
    ensures
        freezes_fit(names, all_rules(schema, frames)),
{
    lemma_rules_in_order(schema, frames);
    lemma_freezes_fit(names, all_rules(schema, frames));
}

/// Rules in tick order have freeze periods that a tick count can measure.
proof fn lemma_freezes_fit(names: Names, rules: Seq<Rules>)
    requires
        in_tick_order(rules),
    ensures
        freezes_fit(names, rules),
    decreases rules.len(),
{
    if rules.len() > 0 {
        let init = rules.drop_last();
        assert forall|i: int, j: int| 0 <= i <= j < init.len() implies 0 <= (#[trigger] init[j]).tick - (
        #[trigger] init[i]).tick <= i32::MAX by {
            assert(init[i] == rules[i] && init[j] == rules[j]);
        }
        lemma_freezes_fit(names, init);
        lemma_rounds_run(names, init);
        if init.len() > 0 {
            assert(init.last().tick - init[0].tick <= i32::MAX);
        }
    }
}

/// Rounds bear no marks until kills and freeze lengths are weighed.
pub proof fn lemma_unmarked(names: Names, rules: Seq<Rules>)
    ensures
        forall|i: int|
            0 <= i < rounds_run(names, rules).rounds.len() ==> !(#[trigger] rounds_run(
                names,
                rules,
            ).rounds[i]).extended_freeze && !rounds_run(names, rules).rounds[i].is_knife_round,
    decreases rules.len(),
{
    if rules.len() > 0 {
        lemma_unmarked(names, rules.drop_last());
    }
}

/// Whether rounds are numbered upwards.
pub open spec fn numbered(rounds: Seq<Round<Seq<char>>>) -> bool {
    forall|i: int, j: int|
        0 <= i < j < rounds.len() ==> (#[trigger] rounds[i]).round_num < (
        #[trigger] rounds[j]).round_num
}

/// Whatever the rules say, rounds are numbered upwards.
pub proof fn lemma_numbered(names: Names, rules: Seq<Rules>)
    ensures
        numbered(rounds_run(names, rules).rounds),
        rounds_run(names, rules).rounds.len() > 0 ==> rounds_run(
            names,
            rules,
        ).rounds.last().round_num <= rounds_run(names, rules).prev_total,
    decreases rules.len(),
{
    if rules.len() > 0 {
        lemma_numbered(names, rules.drop_last());
    }
}

/// Rounds are counted one by one: a tick adds a round exactly when, outside warmup, the count
/// of rounds played goes up by one. A demo that joins a match late makes up no rounds, and
/// warmup gives none. The round that is added has the freeze ticks known before this tick,
/// even where the freeze turns on with it.
pub proof fn law_rounds_are_counted(names: Names, s: RoundsState, r: Rules)
    requires
        r.total >= s.prev_total,
    ensures
        ({
            let next = rounds_step(names, s, r).rounds;
            let counted = !r.warmup && r.total == s.prev_total + 1;
            &&& next.len() == s.rounds.len() + (if counted {
                1int
            } else {
                0
            })
            &&& counted ==> {
                &&& next.last().round_num == r.total
                &&& next.last().end_tick == r.tick
                &&& next.last().start_tick == s.start_tick
                &&& next.last().freeze_end_tick == s.freeze_end_tick
            }
        }),
{
}

/// A match restart discards everything: whatever rounds came before, none is left.
pub proof fn law_restart_discards(names: Names, s: RoundsState, r: Rules)
    requires
        r.total < s.prev_total,
    ensures
        rounds_step(names, s, r).rounds.len() == 0,
{
}

/// What comes before a match restart makes no difference to the rounds after it: two runs
/// that go on with the same restart, both frozen or both not, come to the same rounds.
pub proof fn law_restart_forgets(names: Names, a: Seq<Rules>, b: Seq<Rules>, rest: Seq<Rules>)
    requires
        rest.len() > 0,
        rest[0].total < rounds_run(names, a).prev_total,
        rest[0].total < rounds_run(names, b).prev_total,
        rounds_run(names, a).prev_freeze == rounds_run(names, b).prev_freeze,
    ensures
        rounds_run(names, a + rest) == rounds_run(names, b + rest),
    decreases rest.len(),
{
    let init = rest.drop_last();
    assert((a + rest).drop_last() =~= a + init);
    assert((b + rest).drop_last() =~= b + init);
    if init.len() > 0 {
        law_restart_forgets(names, a, b, init);
    } else {
        assert(a + init =~= a);
        assert(b + init =~= b);
    }
}

} // verus!
