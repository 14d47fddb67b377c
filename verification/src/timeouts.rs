//! Tactical and technical timeouts, reconstructed from the state of the game rules.
use crate::demo;
use crate::demo::{Entity, Frame, Schema, Serializer};
use crate::float::Float;
use crate::order;
use crate::order::stable_sort;
use crate::rounds::GAME_RULES_CLASS;
use crate::text;
use vstd::prelude::*;

verus! {

broadcast use {vstd::string::group_string_axioms, crate::text::group_views};

/// A technical or tactical timeout.
#[derive(Clone, Debug)]
pub struct Timeout<T = String> {
    /// Side that called the timeout. `None` for a technical (admin) pause.
    pub side: Option<T>,
    /// `tactical` (called by a team) or `technical` (an admin pause).
    pub kind: T,
    pub start_tick: i32,
    /// `None` if the timeout was still active when the demo ended.
    pub end_tick: Option<i32>,
    /// The countdown at the timeout's start, in seconds. `None` for technical
    /// timeouts, which have none.
    pub remaining_at_start: Option<Float>,
    /// 1-indexed number of the round in progress when the timeout started.
    pub round_num: i32,
}

impl View for Timeout {
    type V = Timeout<Seq<char>>;

    open spec fn view(&self) -> Timeout<Seq<char>> {
        Timeout {
            side: text::of(self.side),
            kind: self.kind@,
            start_tick: self.start_tick,
            end_tick: self.end_tick,
            remaining_at_start: self.remaining_at_start,
            round_num: self.round_num,
        }
    }
}

/// Field keys of the game-rules entity that timeouts are read from.
#[derive(Clone, Copy, Debug)]
pub struct TimeoutKeys {
    pub t_active: Option<u64>,
    pub ct_active: Option<u64>,
    pub t_remaining: Option<u64>,
    pub ct_remaining: Option<u64>,
    pub paused: Option<u64>,
    pub total_rounds: Option<u64>,
}

impl TimeoutKeys {
    pub open spec fn of(ser: Serializer) -> TimeoutKeys {
        TimeoutKeys {
            t_active: ser.key_of("m_pGameRules.m_bTerroristTimeOutActive"@),
            ct_active: ser.key_of("m_pGameRules.m_bCTTimeOutActive"@),
            t_remaining: ser.key_of("m_pGameRules.m_flTerroristTimeOutRemaining"@),
            ct_remaining: ser.key_of("m_pGameRules.m_flCTTimeOutRemaining"@),
            paused: ser.key_of("m_pGameRules.m_bGamePaused"@),
            total_rounds: ser.key_of("m_pGameRules.m_totalRoundsPlayed"@),
        }
    }

    pub fn resolve(ser: &Serializer) -> (keys: TimeoutKeys)
        ensures
            keys == TimeoutKeys::of(*ser),
    {
        TimeoutKeys {
            t_active: ser.resolve_field_key("m_pGameRules.m_bTerroristTimeOutActive"),
            ct_active: ser.resolve_field_key("m_pGameRules.m_bCTTimeOutActive"),
            t_remaining: ser.resolve_field_key("m_pGameRules.m_flTerroristTimeOutRemaining"),
            ct_remaining: ser.resolve_field_key("m_pGameRules.m_flCTTimeOutRemaining"),
            paused: ser.resolve_field_key("m_pGameRules.m_bGamePaused"),
            total_rounds: ser.resolve_field_key("m_pGameRules.m_totalRoundsPlayed"),
        }
    }
}

/// What the game rules say of timeouts at one tick.
#[derive(Clone, Copy, Debug)]
pub struct Clock {
    pub tick: i32,
    pub t_active: bool,
    pub ct_active: bool,
    pub paused: bool,
    pub t_remaining: Float,
    pub ct_remaining: Float,
    /// Rounds completed.
    pub total: i32,
}

impl Clock {
    pub open spec fn of(tick: i32, e: Entity, k: TimeoutKeys) -> Clock {
        Clock {
            tick,
            t_active: e.bool_at(k.t_active),
            ct_active: e.bool_at(k.ct_active),
            paused: e.bool_at(k.paused),
            t_remaining: e.real_at(k.t_remaining),
            ct_remaining: e.real_at(k.ct_remaining),
            total: e.i64_at(k.total_rounds) as i32,
        }
    }

    /// Read the timeout state off the game-rules entity.
    pub fn read(tick: i32, e: &Entity, k: &TimeoutKeys) -> (c: Clock)
        ensures
            c == Clock::of(tick, *e, *k),
    {
        Clock {
            tick,
            t_active: e.get_bool(k.t_active),
            ct_active: e.get_bool(k.ct_active),
            paused: e.get_bool(k.paused),
            t_remaining: e.get_real(k.t_remaining),
            ct_remaining: e.get_real(k.ct_remaining),
            total: #[verifier::truncate]
            (e.get_i64(k.total_rounds) as i32),
        }
    }
}

/// What the rules say of timeouts in a frame.
pub open spec fn clock_at(schema: Schema, f: Frame) -> Option<Clock> {
    match (
        demo::first_of_class(f.entities@, GAME_RULES_CLASS@),
        schema.serializer_of(GAME_RULES_CLASS@),
    ) {
        (Some(e), Some(ser)) => Some(Clock::of(f.tick, e, TimeoutKeys::of(ser))),
        _ => None,
    }
}

/// What the rules say of timeouts over a run of frames.
pub open spec fn all_clocks(schema: Schema, frames: Seq<Frame>) -> Seq<Clock>
    decreases frames.len(),
{
    if frames.len() == 0 {
        Seq::empty()
    } else {
        let rest = all_clocks(schema, frames.drop_last());
        match clock_at(schema, frames.last()) {
            Some(c) => rest.push(c),
            None => rest,
        }
    }
}

/// Who stops the game.
#[derive(Clone, Copy, Debug, PartialEq, Eq, Structural)]
pub enum Caller {
    Terrorist,
    CounterTerrorist,
    Admin,
}

/// Whether a caller's timeout is on.
pub open spec fn is_on(who: Caller, c: Clock) -> bool {
    match who {
        Caller::Terrorist => c.t_active,
        Caller::CounterTerrorist => c.ct_active,
        Caller::Admin => c.paused,
    }
}

/// A timeout that began at the tick of `c`.
pub open spec fn timeout_row(who: Caller, c: Clock, end_tick: Option<i32>) -> Timeout<Seq<char>> {
    Timeout {
        side: match who {
            Caller::Terrorist => Some("terrorist"@),
            Caller::CounterTerrorist => Some("counter-terrorist"@),
            Caller::Admin => None,
        },
        kind: match who {
            Caller::Admin => "technical"@,
            _ => "tactical"@,
        },
        start_tick: c.tick,
        end_tick,
        remaining_at_start: match who {
            Caller::Terrorist => Some(c.t_remaining),
            Caller::CounterTerrorist => Some(c.ct_remaining),
            Caller::Admin => None,
        },
        round_num: (c.total + 1) as i32,
    }
}

/// One caller's timeout in progress, by the tick it began at.
pub open spec fn channel_next(open: Option<Clock>, who: Caller, c: Clock) -> Option<Clock> {
    if !is_on(who, c) {
        None
    } else if open is Some {
        open
    } else {
        Some(c)
    }
}

/// The timeout that ends with this tick, if one does.
pub open spec fn channel_closed(open: Option<Clock>, who: Caller, c: Clock) -> Seq<
    Timeout<Seq<char>>,
> {
    if !is_on(who, c) && open is Some {
        seq![timeout_row(who, open->0, Some(c.tick))]
    } else {
        Seq::empty()
    }
}

/// The timeouts that are over, and those in progress.
pub struct TimeoutsState {
    pub rows: Seq<Timeout<Seq<char>>>,
    pub terrorist: Option<Clock>,
    pub counter_terrorist: Option<Clock>,
    pub admin: Option<Clock>,
}

/// Before the first tick there are none.
pub open spec fn timeouts_begin() -> TimeoutsState {
    TimeoutsState { rows: Seq::empty(), terrorist: None, counter_terrorist: None, admin: None }
}

/// One tick: a flag that rises opens a timeout, one that falls closes it.
pub open spec fn timeouts_step(s: TimeoutsState, c: Clock) -> TimeoutsState {
    TimeoutsState {
        rows: s.rows + channel_closed(s.terrorist, Caller::Terrorist, c) + channel_closed(
            s.counter_terrorist,
            Caller::CounterTerrorist,
            c,
        ) + channel_closed(s.admin, Caller::Admin, c),
        terrorist: channel_next(s.terrorist, Caller::Terrorist, c),
        counter_terrorist: channel_next(s.counter_terrorist, Caller::CounterTerrorist, c),
        admin: channel_next(s.admin, Caller::Admin, c),
    }
}

/// A run of ticks.
pub open spec fn timeouts_run(clocks: Seq<Clock>) -> TimeoutsState
    decreases clocks.len(),
{
    if clocks.len() == 0 {
        timeouts_begin()
    } else {
        timeouts_step(timeouts_run(clocks.drop_last()), clocks.last())
    }
}

/// A timeout that is still on when the demo ends.
pub open spec fn channel_left(open: Option<Clock>, who: Caller) -> Seq<Timeout<Seq<char>>> {
    match open {
        Some(c) => seq![timeout_row(who, c, None)],
        None => Seq::empty(),
    }
}

/// Every timeout, in the order in which they end.
pub open spec fn all_timeouts(clocks: Seq<Clock>) -> Seq<Timeout<Seq<char>>> {
    let s = timeouts_run(clocks);
    s.rows + channel_left(s.terrorist, Caller::Terrorist) + channel_left(
        s.counter_terrorist,
        Caller::CounterTerrorist,
    ) + channel_left(s.admin, Caller::Admin)
}

/// The start tick of every timeout.
pub open spec fn start_ticks(rows: Seq<Timeout<Seq<char>>>) -> Seq<int> {
    rows.map_values(|t: Timeout<Seq<char>>| t.start_tick as int)
}

/// Whether the count of completed rounds leaves room for one more.
pub open spec fn counts_fit(clocks: Seq<Clock>) -> bool {
    forall|i: int| 0 <= i < clocks.len() ==> (#[trigger] clocks[i]).total < i32::MAX
}

/// The row of a timeout.
fn make_timeout(who: Caller, c: &Clock, end_tick: Option<i32>) -> (row: Timeout)
    requires
        c.total < i32::MAX,
    ensures
        row@ == timeout_row(who, *c, end_tick),
{
    Timeout {
        side: match who {
            Caller::Terrorist => Some("terrorist".to_string()),
            Caller::CounterTerrorist => Some("counter-terrorist".to_string()),
            Caller::Admin => None,
        },
        kind: match who {
            Caller::Admin => "technical".to_string(),
            _ => "tactical".to_string(),
        },
        start_tick: c.tick,
        end_tick,
        remaining_at_start: match who {
            Caller::Terrorist => Some(c.t_remaining),
            Caller::CounterTerrorist => Some(c.ct_remaining),
            Caller::Admin => None,
        },
        round_num: c.total + 1,
    }
}

/// The pass that finds timeouts, one tick at a time.
pub struct TimeoutsPass {
    pub rows: Vec<Timeout>,
    pub terrorist: Option<Clock>,
    pub counter_terrorist: Option<Clock>,
    pub admin: Option<Clock>,
}

impl View for TimeoutsPass {
    type V = TimeoutsState;

    open spec fn view(&self) -> TimeoutsState {
        TimeoutsState {
            rows: text::views(self.rows@),
            terrorist: self.terrorist,
            counter_terrorist: self.counter_terrorist,
            admin: self.admin,
        }
    }
}

/// Take one caller's flag in; a timeout that ends goes to `rows`.
fn channel_step(
    open: &mut Option<Clock>,
    rows: &mut Vec<Timeout>,
    who: Caller,
    on: bool,
    c: &Clock,
)
    requires
        on == is_on(who, *c),
        *old(open) matches Some(o) ==> o.total < i32::MAX,
    ensures
        *final(open) == channel_next(*old(open), who, *c),
        text::views(final(rows)@) == text::views(old(rows)@) + channel_closed(*old(open), who, *c),
{
    let ghost before = rows@;
    if on {
        if open.is_none() {
            *open = Some(*c);
        }
        assert(text::views(before) =~= text::views(before) + Seq::empty());
    } else {
        let was = *open;
        if let Some(o) = was {
            rows.push(make_timeout(who, &o, Some(c.tick)));
            assert(text::views(rows@) =~= text::views(before) + channel_closed(was, who, *c));
        } else {
            assert(text::views(before) =~= text::views(before) + Seq::empty());
        }
        *open = None;
    }
}

/// Close one caller's timeout when the demo ends.
fn channel_flush(open: &Option<Clock>, rows: &mut Vec<Timeout>, who: Caller)
    requires
        *open matches Some(o) ==> o.total < i32::MAX,
    ensures
        text::views(final(rows)@) == text::views(old(rows)@) + channel_left(*open, who),
{
    let ghost before = rows@;
    match open {
        Some(o) => {
            rows.push(make_timeout(who, o, None));
            assert(text::views(rows@) =~= text::views(before) + channel_left(*open, who));
        },
        None => {
            assert(text::views(before) =~= text::views(before) + Seq::empty());
        },
    }
}

impl TimeoutsPass {
    pub open spec fn room(self) -> bool {
        &&& self.terrorist matches Some(o) ==> o.total < i32::MAX
        &&& self.counter_terrorist matches Some(o) ==> o.total < i32::MAX
        &&& self.admin matches Some(o) ==> o.total < i32::MAX
    }

    pub fn new() -> (p: TimeoutsPass)
        ensures
            p@ == timeouts_begin(),
            p.room(),
    {
        TimeoutsPass { rows: Vec::new(), terrorist: None, counter_terrorist: None, admin: None }
    }

    /// Take in what the rules say at the next tick.
    pub fn step(&mut self, c: &Clock)
        requires
            old(self).room(),
            c.total < i32::MAX,
        ensures
            final(self)@ == timeouts_step(old(self)@, *c),
            final(self).room(),
    {
        channel_step(&mut self.terrorist, &mut self.rows, Caller::Terrorist, c.t_active, c);
        channel_step(
            &mut self.counter_terrorist,
            &mut self.rows,
            Caller::CounterTerrorist,
            c.ct_active,
            c,
        );
        channel_step(&mut self.admin, &mut self.rows, Caller::Admin, c.paused, c);
    }

    /// Every timeout, once the last tick is in: those still on have no end, and all are
    /// sorted by start tick.
    pub fn finish(self) -> (rows: Vec<Timeout>)
        requires
            self.room(),
        ensures
            order::stably_sorted(
                self@.rows + channel_left(self@.terrorist, Caller::Terrorist) + channel_left(
                    self@.counter_terrorist,
                    Caller::CounterTerrorist,
                ) + channel_left(self@.admin, Caller::Admin),
                text::views(rows@),
                start_ticks(
                    self@.rows + channel_left(self@.terrorist, Caller::Terrorist) + channel_left(
                        self@.counter_terrorist,
                        Caller::CounterTerrorist,
                    ) + channel_left(self@.admin, Caller::Admin),
                ),
            ),
    {
        let mut rows = self.rows;
        channel_flush(&self.terrorist, &mut rows, Caller::Terrorist);
        channel_flush(&self.counter_terrorist, &mut rows, Caller::CounterTerrorist);
        channel_flush(&self.admin, &mut rows, Caller::Admin);
        let mut ticks: Vec<i64> = Vec::new();
        let n: usize = rows.len();
        for i in 0..n
            invariant
                n == rows@.len(),
                ticks@.len() == i,
                forall|j: int| 0 <= j < i ==> #[trigger] ticks@[j] == rows@[j].start_tick,
        {
            ticks.push(rows[i].start_tick as i64);
        }
        let ghost before = rows@;
        let ghost all = text::views(before);
        assert(order::ints(ticks@) =~= start_ticks(all));
        let sorted = stable_sort(rows, &ticks);
        proof {
            let keys = start_ticks(all);
            let o = choose|o: Seq<int>|
                #[trigger] order::is_stable_order(keys, o) && sorted@ == order::arranged(before, o);
            assert(text::views(sorted@) =~= order::arranged(all, o));
        }
        sorted
    }
}

/// Whether the count of completed rounds leaves room for one more at every tick.
pub fn can_count_rounds(schema: &Schema, frames: &Vec<Frame>) -> (b: bool)
    ensures
        b == counts_fit(all_clocks(*schema, frames@)),
{
    let n: usize = frames.len();
    match schema.serializer(GAME_RULES_CLASS) {
        Some(ser) => {
            let keys = TimeoutKeys::resolve(ser);
            let mut i: usize = 0;
            assert(frames@.take(0) =~= Seq::<Frame>::empty());
            while i < n
                invariant
                    i <= n,
                    n == frames@.len(),
                    schema.serializer_of(GAME_RULES_CLASS@) == Some(*ser),
                    keys == TimeoutKeys::of(*ser),
                    counts_fit(all_clocks(*schema, frames@.take(i as int))),
                decreases n - i,
            {
                let ghost seen = frames@.take(i as int);
                let ghost next = frames@.take(i + 1);
                assert(next.drop_last() =~= seen);
                assert(next.last() == frames@[i as int]);
                if let Some(e) = frames[i].find_class(GAME_RULES_CLASS) {
                    let c = Clock::read(frames[i].tick, e, &keys);
                    let ghost clocks = all_clocks(*schema, seen);
                    assert(all_clocks(*schema, next) == clocks.push(c));
                    if c.total == i32::MAX {
                        proof {
                            lemma_clock_prefix(*schema, frames@, i + 1);
                            assert(all_clocks(*schema, next)[clocks.len() as int] == c);
                            assert(all_clocks(*schema, frames@)[clocks.len() as int] == c);
                        }
                        return false;
                    }
                    assert forall|j: int| 0 <= j < clocks.len() + 1 implies (
                    #[trigger] clocks.push(c)[j]).total < i32::MAX by {
                        if j < clocks.len() {
                            assert(clocks[j].total < i32::MAX);
                        }
                    }
                }
                i = i + 1;
            }
            assert(frames@.take(n as int) =~= frames@);
        },
        None => {
            proof {
                lemma_no_clocks(*schema, frames@);
            }
        },
    }
    true
}

/// Find the timeouts of a run of frames.
pub fn find_timeouts(schema: &Schema, frames: &Vec<Frame>) -> (rows: Vec<Timeout>)
    requires
        counts_fit(all_clocks(*schema, frames@)),
    ensures
        order::stably_sorted(
            all_timeouts(all_clocks(*schema, frames@)),
            text::views(rows@),
            start_ticks(all_timeouts(all_clocks(*schema, frames@))),
        ),
{
    let mut pass = TimeoutsPass::new();
    let n: usize = frames.len();
    match schema.serializer(GAME_RULES_CLASS) {
        Some(ser) => {
            let keys = TimeoutKeys::resolve(ser);
            let mut i: usize = 0;
            assert(frames@.take(0) =~= Seq::<Frame>::empty());
            while i < n
                invariant
                    i <= n,
                    n == frames@.len(),
                    counts_fit(all_clocks(*schema, frames@)),
                    schema.serializer_of(GAME_RULES_CLASS@) == Some(*ser),
                    keys == TimeoutKeys::of(*ser),
                    pass.room(),
                    pass@ == timeouts_run(all_clocks(*schema, frames@.take(i as int))),
                decreases n - i,
            {
                let ghost seen = frames@.take(i as int);
                let ghost next = frames@.take(i + 1);
                assert(next.drop_last() =~= seen);
                assert(next.last() == frames@[i as int]);
                if let Some(e) = frames[i].find_class(GAME_RULES_CLASS) {
                    let c = Clock::read(frames[i].tick, e, &keys);
                    proof {
                        let clocks = all_clocks(*schema, seen);
                        assert(all_clocks(*schema, next) == clocks.push(c));
                        assert(clocks.push(c).drop_last() =~= clocks);
                        lemma_clock_prefix(*schema, frames@, i + 1);
                        assert(all_clocks(*schema, next)[clocks.len() as int] == c);
                        assert(all_clocks(*schema, frames@)[clocks.len() as int].total < i32::MAX);
                    }
                    pass.step(&c);
                }
                i = i + 1;
            }
            assert(frames@.take(n as int) =~= frames@);
        },
        None => {
            proof {
                lemma_no_clocks(*schema, frames@);
            }
        },
    }
    pass.finish()
}

/// What the rules say over the first frames begins what they say over all.
proof fn lemma_clock_prefix(schema: Schema, frames: Seq<Frame>, n: int)
    requires
        0 <= n <= frames.len(),
    ensures
        all_clocks(schema, frames.take(n)).len() <= all_clocks(schema, frames).len(),
        forall|i: int|
            0 <= i < all_clocks(schema, frames.take(n)).len() ==> #[trigger] all_clocks(
                schema,
                frames.take(n),
            )[i] == all_clocks(schema, frames)[i],
    decreases frames.len(),
{
    if n == frames.len() {
        assert(frames.take(n) =~= frames);
    } else {
        lemma_clock_prefix(schema, frames.drop_last(), n);
        assert(frames.drop_last().take(n) =~= frames.take(n));
    }
}

/// Without the game-rules fields nothing is said.
proof fn lemma_no_clocks(schema: Schema, frames: Seq<Frame>)
    requires
        schema.serializer_of(GAME_RULES_CLASS@) is None,
    ensures
        all_clocks(schema, frames).len() == 0,
    decreases frames.len(),
{
    if frames.len() > 0 {
        lemma_no_clocks(schema, frames.drop_last());
    }
}

/// Whether a caller's timeout begins at position `i`: the flag is on there and was not
/// before.
pub open spec fn begins_at(clocks: Seq<Clock>, who: Caller, i: int) -> bool {
    0 <= i < clocks.len() && is_on(who, clocks[i]) && (i == 0 || !is_on(who, clocks[i - 1]))
}

/// Whether a caller's flag stays on from position `i` up to position `j`.
pub open spec fn stays_on(clocks: Seq<Clock>, who: Caller, i: int, j: int) -> bool {
    forall|k: int| i <= k < j ==> is_on(who, #[trigger] clocks[k])
}

/// Whether `row` is the timeout that begins at position `i`: it ends with the first
/// position where the flag is off again, or not at all.
pub open spec fn is_timeout_from(
    clocks: Seq<Clock>,
    who: Caller,
    i: int,
    row: Timeout<Seq<char>>,
) -> bool {
    &&& begins_at(clocks, who, i)
    &&& {
        ||| exists|j: int|
            i < j < clocks.len() && stays_on(clocks, who, i, j) && !is_on(who, #[trigger] clocks[j]) && row
                == timeout_row(who, clocks[i], Some(clocks[j].tick))
        ||| stays_on(clocks, who, i, clocks.len() as int) && row == timeout_row(who, clocks[i], None)
    }
}

/// A caller's timeout in progress.
pub open spec fn open_of(s: TimeoutsState, who: Caller) -> Option<Clock> {
    match who {
        Caller::Terrorist => s.terrorist,
        Caller::CounterTerrorist => s.counter_terrorist,
        Caller::Admin => s.admin,
    }
}

/// A caller's timeout that is over, by its first position and the one that ended it.
pub open spec fn is_over(
    clocks: Seq<Clock>,
    who: Caller,
    i: int,
    j: int,
    row: Timeout<Seq<char>>,
) -> bool {
    &&& begins_at(clocks, who, i)
    &&& i < j < clocks.len()
    &&& stays_on(clocks, who, i, j)
    &&& !is_on(who, clocks[j])
    &&& row == timeout_row(who, clocks[i], Some(clocks[j].tick))
}

/// A run of ticks has in progress what is on, since it was turned on, and behind it
/// what was turned on and off.
proof fn lemma_timeouts_run(clocks: Seq<Clock>)
    ensures
        forall|who: Caller| #[trigger]
            open_of(timeouts_run(clocks), who) is Some <==> clocks.len() > 0 && is_on(
                who,
                clocks.last(),
            ),
        forall|who: Caller| #[trigger]
            open_of(timeouts_run(clocks), who) is Some ==> exists|i: int| #[trigger]
                begins_at(clocks, who, i) && stays_on(clocks, who, i, clocks.len() as int) && open_of(
                    timeouts_run(clocks),
                    who,
                ) == Some(clocks[i]),
        forall|row: Timeout<Seq<char>>| #[trigger]
            timeouts_run(clocks).rows.contains(row) <==> exists|who: Caller, i: int, j: int|
                is_over(clocks, who, i, j, row),
    decreases clocks.len(),
{
    if clocks.len() == 0 {
        assert forall|row: Timeout<Seq<char>>| #[trigger] timeouts_run(clocks).rows.contains(row) <==> exists|
            who: Caller,
            i: int,
            j: int,
        | is_over(clocks, who, i, j, row) by {}
    } else {
        let init = clocks.drop_last();
        let c = clocks.last();
        let n = clocks.len() - 1;
        lemma_timeouts_run(init);
        let s = timeouts_run(init);
        let t = timeouts_run(clocks);
        assert forall|who: Caller| #[trigger] open_of(t, who) == channel_next(open_of(s, who), who, c) by {}
        assert forall|who: Caller, i: int| begins_at(init, who, i) implies #[trigger] begins_at(
            clocks,
            who,
            i,
        ) by {
            assert(init[i] == clocks[i]);
            if i > 0 {
                assert(init[i - 1] == clocks[i - 1]);
            }
        }
        assert forall|who: Caller, i: int| begins_at(clocks, who, i) && i < n implies #[trigger] begins_at(
            init,
            who,
            i,
        ) by {
            assert(init[i] == clocks[i]);
            if i > 0 {
                assert(init[i - 1] == clocks[i - 1]);
            }
        }
        assert forall|who: Caller| #[trigger] open_of(t, who) is Some implies exists|i: int| #[trigger]
            begins_at(clocks, who, i) && stays_on(clocks, who, i, clocks.len() as int) && open_of(t, who)
                == Some(clocks[i]) by {
            if open_of(s, who) is Some {
                let i = choose|i: int| #[trigger]
                    begins_at(init, who, i) && stays_on(init, who, i, init.len() as int) && open_of(s, who)
                        == Some(init[i]);
                assert(begins_at(clocks, who, i));
                assert forall|k: int| i <= k < clocks.len() implies is_on(who, #[trigger] clocks[k]) by {
                    if k < n {
                        assert(init[k] == clocks[k]);
                    }
                }
                assert(clocks[i] == init[i]);
            } else {
                if n > 0 {
                    assert(clocks[n - 1] == init.last());
                }
                assert(begins_at(clocks, who, n));
            }
        }
        let a = channel_closed(s.terrorist, Caller::Terrorist, c);
        let b = channel_closed(s.counter_terrorist, Caller::CounterTerrorist, c);
        let d = channel_closed(s.admin, Caller::Admin, c);
        assert(t.rows == s.rows + a + b + d);
        assert forall|row: Timeout<Seq<char>>| #[trigger] t.rows.contains(row) <==> exists|
            who: Caller,
            i: int,
            j: int,
        | is_over(clocks, who, i, j, row) by {
            lemma_contains_concat(s.rows, a, b, d, row);
            assert forall|who: Caller, i: int, j: int| is_over(init, who, i, j, row) implies #[trigger] is_over(
                clocks,
                who,
                i,
                j,
                row,
            ) by {
                assert(init[i] == clocks[i] && init[j] == clocks[j]);
                assert(begins_at(clocks, who, i));
                assert forall|k: int| i <= k < j implies is_on(who, #[trigger] clocks[k]) by {
                    assert(init[k] == clocks[k]);
                }
            }
            assert forall|who: Caller| #[trigger]
                channel_closed(open_of(s, who), who, c).contains(row) implies exists|i: int, j: int|
                is_over(clocks, who, i, j, row) by {
                let i = choose|i: int| #[trigger]
                    begins_at(init, who, i) && stays_on(init, who, i, init.len() as int) && open_of(s, who)
                        == Some(init[i]);
                assert(begins_at(clocks, who, i));
                assert(init[i] == clocks[i]);
                assert forall|k: int| i <= k < n implies is_on(who, #[trigger] clocks[k]) by {
                    assert(init[k] == clocks[k]);
                }
                assert(is_over(clocks, who, i, n, row));
            }
            if t.rows.contains(row) {
                if s.rows.contains(row) {
                    let (who, i, j) = choose|who: Caller, i: int, j: int| is_over(init, who, i, j, row);
                    assert(is_over(clocks, who, i, j, row));
                } else if a.contains(row) {
                    assert(channel_closed(open_of(s, Caller::Terrorist), Caller::Terrorist, c).contains(
                        row,
                    ));
                } else if b.contains(row) {
                    assert(channel_closed(
                        open_of(s, Caller::CounterTerrorist),
                        Caller::CounterTerrorist,
                        c,
                    ).contains(row));
                } else {
                    assert(channel_closed(open_of(s, Caller::Admin), Caller::Admin, c).contains(row));
                }
            }
            if exists|who: Caller, i: int, j: int| is_over(clocks, who, i, j, row) {
                let (who, i, j) = choose|who: Caller, i: int, j: int| is_over(clocks, who, i, j, row);
                assert(begins_at(init, who, i));
                assert(init[i] == clocks[i]);
                assert forall|k: int| i <= k < j implies is_on(who, #[trigger] init[k]) by {
                    assert(init[k] == clocks[k]);
                }
                if j < n {
                    assert(init[j] == clocks[j]);
                    assert(is_over(init, who, i, j, row));
                } else {
                    assert(init.last() == clocks[n - 1]);
                    assert(open_of(s, who) is Some);
                    let h = choose|h: int| #[trigger]
                        begins_at(init, who, h) && stays_on(init, who, h, init.len() as int) && open_of(
                            s,
                            who,
                        ) == Some(init[h]);
                    if h < i {
                        assert(is_on(who, init[i - 1]));
                    }
                    if i < h {
                        assert(is_on(who, init[h - 1]));
                    }
                    assert(channel_closed(open_of(s, who), who, c)[0] == row);
                    assert(channel_closed(open_of(s, who), who, c).contains(row));
                }
            }
        }
    }
}

/// What four sequences one after another contain.
proof fn lemma_contains_concat<T>(s: Seq<T>, a: Seq<T>, b: Seq<T>, c: Seq<T>, t: T)
    ensures
        (s + a + b + c).contains(t) <==> s.contains(t) || a.contains(t) || b.contains(t) || c.contains(
            t,
        ),
{
    let all = s + a + b + c;
    if s.contains(t) {
        let i = choose|i: int| 0 <= i < s.len() && s[i] == t;
        assert(all[i] == t);
    }
    if a.contains(t) {
        let i = choose|i: int| 0 <= i < a.len() && a[i] == t;
        assert(all[s.len() + i] == t);
    }
    if b.contains(t) {
        let i = choose|i: int| 0 <= i < b.len() && b[i] == t;
        assert(all[s.len() + a.len() + i] == t);
    }
    if c.contains(t) {
        let i = choose|i: int| 0 <= i < c.len() && c[i] == t;
        assert(all[s.len() + a.len() + b.len() + i] == t);
    }
    if all.contains(t) {
        let i = choose|i: int| 0 <= i < all.len() && all[i] == t;
        if i < s.len() {
            assert(s[i] == t);
        } else if i < s.len() + a.len() {
            assert(a[i - s.len()] == t);
        } else if i < s.len() + a.len() + b.len() {
            assert(b[i - s.len() - a.len()] == t);
        } else {
            assert(c[i - s.len() - a.len() - b.len()] == t);
        }
    }
}

/// The timeouts are the stretches during which a flag is on, no more and no fewer: each
/// starts where its flag rises, is numbered for the round in progress there, and ends
/// where the flag first falls again, or not at all if it never does.
pub proof fn law_timeouts_are_stretches(clocks: Seq<Clock>, row: Timeout<Seq<char>>)
    ensures
        all_timeouts(clocks).contains(row) <==> exists|who: Caller, i: int| #[trigger]
            is_timeout_from(clocks, who, i, row),
{
    let s = timeouts_run(clocks);
    lemma_timeouts_run(clocks);
    let a = channel_left(s.terrorist, Caller::Terrorist);
    let b = channel_left(s.counter_terrorist, Caller::CounterTerrorist);
    let c = channel_left(s.admin, Caller::Admin);
    lemma_contains_concat(s.rows, a, b, c, row);
    assert forall|who: Caller| #[trigger] channel_left(open_of(s, who), who).contains(row) implies exists|
        i: int,
    | is_timeout_from(clocks, who, i, row) by {
        let i = choose|i: int| #[trigger]
            begins_at(clocks, who, i) && stays_on(clocks, who, i, clocks.len() as int) && open_of(s, who)
                == Some(clocks[i]);
        assert(is_timeout_from(clocks, who, i, row));
    }
    if all_timeouts(clocks).contains(row) {
        if s.rows.contains(row) {
            let (who, i, j) = choose|who: Caller, i: int, j: int| is_over(clocks, who, i, j, row);
            assert(!is_on(who, clocks[j]));
            assert(is_timeout_from(clocks, who, i, row));
        } else if a.contains(row) {
            assert(channel_left(open_of(s, Caller::Terrorist), Caller::Terrorist).contains(row));
        } else if b.contains(row) {
            assert(channel_left(open_of(s, Caller::CounterTerrorist), Caller::CounterTerrorist).contains(
                row,
            ));
        } else {
            assert(channel_left(open_of(s, Caller::Admin), Caller::Admin).contains(row));
        }
    }
    if exists|who: Caller, i: int| #[trigger] is_timeout_from(clocks, who, i, row) {
        let (who, i) = choose|who: Caller, i: int| #[trigger] is_timeout_from(clocks, who, i, row);
        if exists|j: int|
            i < j < clocks.len() && stays_on(clocks, who, i, j) && !is_on(who, #[trigger] clocks[j]) && row
                == timeout_row(who, clocks[i], Some(clocks[j].tick)) {
            let j = choose|j: int|
                i < j < clocks.len() && stays_on(clocks, who, i, j) && !is_on(who, #[trigger] clocks[j])
                    && row == timeout_row(who, clocks[i], Some(clocks[j].tick));
            assert(is_over(clocks, who, i, j, row));
        } else {
            assert(is_on(who, clocks[clocks.len() - 1]));
            assert(open_of(s, who) is Some);
            let h = choose|h: int| #[trigger]
                begins_at(clocks, who, h) && stays_on(clocks, who, h, clocks.len() as int) && open_of(
                    s,
                    who,
                ) == Some(clocks[h]);
            if h < i {
                assert(is_on(who, clocks[i - 1]));
            }
            if i < h {
                assert(is_on(who, clocks[h - 1]));
            }
            assert(channel_left(open_of(s, who), who)[0] == row);
            assert(channel_left(open_of(s, who), who).contains(row));
        }
    }
}

/// A technical timeout has no side and no countdown; a tactical one has both.
pub proof fn law_timeout_kinds(clocks: Seq<Clock>, row: Timeout<Seq<char>>)
    requires
        all_timeouts(clocks).contains(row),
    ensures
        row.kind == "technical"@ || row.kind == "tactical"@,
        row.kind == "technical"@ <==> row.side is None,
        row.kind == "technical"@ <==> row.remaining_at_start is None,
{
    law_timeouts_are_stretches(clocks, row);
    let (who, i) = choose|who: Caller, i: int| #[trigger] is_timeout_from(clocks, who, i, row);
    assert("technical"@ != "tactical"@) by {
        reveal_strlit("technical");
        reveal_strlit("tactical");
        assert("technical"@[1] != "tactical"@[1]);
    }
}

/// Timeouts come in the order of their start ticks, none lost and none added.
pub proof fn law_timeouts_sorted(clocks: Seq<Clock>, rows: Seq<Timeout<Seq<char>>>)
    requires
        order::stably_sorted(all_timeouts(clocks), rows, start_ticks(all_timeouts(clocks))),
    ensures
        forall|i: int, j: int|
            0 <= i <= j < rows.len() ==> (#[trigger] rows[i]).start_tick <= (
            #[trigger] rows[j]).start_tick,
        forall|row: Timeout<Seq<char>>| rows.contains(row) <==> all_timeouts(clocks).contains(row),
        rows.len() == all_timeouts(clocks).len(),
{
    let all = all_timeouts(clocks);
    let key = |t: Timeout<Seq<char>>| t.start_tick as int;
    assert(start_ticks(all) =~= all.map_values(key));
    order::law_stable_sort(all, rows, start_ticks(all));
    assert forall|i: int, j: int| 0 <= i <= j < rows.len() implies (#[trigger] rows[i]).start_tick <= (
    #[trigger] rows[j]).start_tick by {
        order::law_sort_ascends(all, rows, key, i, j);
    }
}

} // verus!
