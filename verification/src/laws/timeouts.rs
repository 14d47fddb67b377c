//! Timeouts: one row for every stretch of ticks over which a flag of the game rules is set.
use crate::demo;
use crate::demo::{Frame, Schema};
use crate::laws::basics;
use crate::laws::reading;
use crate::laws::rounds::{rules_key, rules_picks};
use crate::order;
use crate::timeouts;
use crate::timeouts::{Clock, Timeout};
use vstd::prelude::*;

verus! {

/// Whether a clock is what a frame shows.
pub open spec fn shows_clock(schema: Schema, f: Frame, c: Clock) -> bool {
    let e = demo::first_of_class(f.entities@, "CCSGameRulesProxy"@)->0;
    &&& c.tick == f.tick
    &&& c.t_active == e.bool_at(rules_key(schema, "m_pGameRules.m_bTerroristTimeOutActive"@))
    &&& c.ct_active == e.bool_at(rules_key(schema, "m_pGameRules.m_bCTTimeOutActive"@))
    &&& c.paused == e.bool_at(rules_key(schema, "m_pGameRules.m_bGamePaused"@))
    &&& c.t_remaining == e.real_at(
        rules_key(schema, "m_pGameRules.m_flTerroristTimeOutRemaining"@),
    )
    &&& c.ct_remaining == e.real_at(rules_key(schema, "m_pGameRules.m_flCTTimeOutRemaining"@))
    &&& c.total == e.i64_at(rules_key(schema, "m_pGameRules.m_totalRoundsPlayed"@)) as i32
}

/// The clocks of a demo are those of its frames that have game rules, one for one and in their
/// order, and each says what its frame shows.
pub proof fn law_clocks_show_frames(schema: Schema, frames: Seq<Frame>)
    ensures
        ({
            let clocks = timeouts::all_clocks(schema, frames);
            let places = reading::picks(frames.len() as int, rules_picks(schema, frames));
            &&& clocks.len() == places.len()
            &&& forall|k: int|
                0 <= k < clocks.len() ==> shows_clock(
                    schema,
                    frames[places[k]],
                    #[trigger] clocks[k],
                )
        }),
{
    lemma_clocks(schema, frames, frames.len() as int);
    assert(frames.take(frames.len() as int) =~= frames);
}

proof fn lemma_clocks(schema: Schema, frames: Seq<Frame>, n: int)
    requires
        0 <= n <= frames.len(),
    ensures
        ({
            let clocks = timeouts::all_clocks(schema, frames.take(n));
            let places = reading::picks(n, rules_picks(schema, frames));
            &&& clocks.len() == places.len()
            &&& forall|k: int|
                0 <= k < clocks.len() ==> shows_clock(
                    schema,
                    frames[places[k]],
                    #[trigger] clocks[k],
                )
        }),
    decreases n,
{
    if n == 0 {
        assert(frames.take(0) =~= Seq::empty());
    } else {
        lemma_clocks(schema, frames, n - 1);
        assert(frames.take(n).drop_last() =~= frames.take(n - 1));
        assert(frames.take(n).last() == frames[n - 1]);
        let was = timeouts::all_clocks(schema, frames.take(n - 1));
        let now = timeouts::all_clocks(schema, frames.take(n));
        let before = reading::picks(n - 1, rules_picks(schema, frames));
        let all = reading::picks(n, rules_picks(schema, frames));
        assert forall|k: int| 0 <= k < now.len() implies shows_clock(
            schema,
            frames[all[k]],
            #[trigger] now[k],
        ) by {
            if k < was.len() {
                assert(now[k] == was[k]);
                assert(all[k] == before[k]);
            }
        }
    }
}

/// Whether a flag is set at a tick: 0 is the terrorists', 1 the counter-terrorists' and 2 the
/// pause of an admin.
pub open spec fn is_set(clocks: Seq<Clock>, k: int, flag: int) -> bool {
    if flag == 0 {
        clocks[k].t_active
    } else if flag == 1 {
        clocks[k].ct_active
    } else {
        clocks[k].paused
    }
}

/// Whether a stretch of a flag begins at tick `a` and is still on before tick `b`.
pub open spec fn is_stretch(clocks: Seq<Clock>, flag: int, a: int, b: int) -> bool {
    &&& 0 <= a < b <= clocks.len()
    &&& a > 0 ==> !is_set(clocks, a - 1, flag)
    &&& forall|k: int| a <= k < b ==> #[trigger] is_set(clocks, k, flag)
}

/// Where stretches end: the flag is set before tick `b` and not at it, or there is no such
/// tick.
pub open spec fn stretch_ends(clocks: Seq<Clock>) -> spec_fn(int, int) -> bool {
    |b: int, flag: int|
        b > 0 && is_set(clocks, b - 1, flag) && (b == clocks.len() || !is_set(clocks, b, flag))
}

/// There are three flags.
pub open spec fn flags() -> spec_fn(int) -> int {
    |b: int| 3
}

/// Whether a row is the timeout of the stretch of a flag from tick `a` to tick `b`.
pub open spec fn is_timeout_of(
    clocks: Seq<Clock>,
    flag: int,
    a: int,
    b: int,
    row: Timeout<Seq<char>>,
) -> bool {
    &&& row.start_tick == clocks[a].tick
    &&& row.end_tick == (if b < clocks.len() {
        Some(clocks[b].tick)
    } else {
        None
    })
    &&& row.round_num == (clocks[a].total + 1) as i32
    &&& flag == 0 ==> row.side == Some("terrorist"@) && row.kind == "tactical"@
        && row.remaining_at_start == Some(clocks[a].t_remaining)
    &&& flag == 1 ==> row.side == Some("counter-terrorist"@) && row.kind == "tactical"@
        && row.remaining_at_start == Some(clocks[a].ct_remaining)
    &&& flag == 2 ==> row.side is None && row.kind == "technical"@ && row.remaining_at_start is None
}

/// Whether a row is the timeout that ends at a place.
pub open spec fn is_timeout(
    clocks: Seq<Clock>,
    place: (int, int),
    row: Timeout<Seq<char>>,
) -> bool {
    exists|a: int| #[trigger]
        is_stretch(clocks, place.1, a, place.0) && is_timeout_of(
            clocks,
            place.1,
            a,
            place.0,
            row,
        )
}

/// Whether a clock is that of the tick where a stretch that is on before tick `n` began, and
/// none where none is on.
spec fn is_open(clocks: Seq<Clock>, flag: int, n: int, open: Option<Clock>) -> bool {
    match open {
        Some(c) => exists|a: int| #[trigger] is_stretch(clocks, flag, a, n) && clocks[a] == c,
        None => n == 0 || !is_set(clocks, n - 1, flag),
    }
}

spec fn are_timeouts(clocks: Seq<Clock>, n: int, s: timeouts::TimeoutsState) -> bool {
    let places = reading::spots(n, flags(), stretch_ends(clocks));
    &&& is_open(clocks, 0, n, s.terrorist)
    &&& is_open(clocks, 1, n, s.counter_terrorist)
    &&& is_open(clocks, 2, n, s.admin)
    &&& s.rows.len() == places.len()
    &&& forall|k: int|
        0 <= k < s.rows.len() ==> is_timeout(clocks, places[k], #[trigger] s.rows[k])
}

/// What one tick does to one flag.
proof fn lemma_flag(
    clocks: Seq<Clock>,
    who: timeouts::Caller,
    flag: int,
    n: int,
    open: Option<Clock>,
)
    requires
        0 <= n < clocks.len(),
        0 <= flag < 3,
        who == (if flag == 0 {
            timeouts::Caller::Terrorist
        } else if flag == 1 {
            timeouts::Caller::CounterTerrorist
        } else {
            timeouts::Caller::Admin
        }),
        is_open(clocks, flag, n, open),
    ensures
        is_open(clocks, flag, n + 1, timeouts::channel_next(open, who, clocks[n])),
        ({
            let closed = timeouts::channel_closed(open, who, clocks[n]);
            &&& closed.len() == (if stretch_ends(clocks)(n, flag) {
                1int
            } else {
                0
            })
            &&& closed.len() == 1 ==> is_timeout(clocks, (n, flag), closed[0])
        }),
{
    let now = timeouts::channel_next(open, who, clocks[n]);
    if is_set(clocks, n, flag) {
        if open is Some {
            let a = choose|a: int| #[trigger]
                is_stretch(clocks, flag, a, n) && clocks[a] == open->0;
            assert(is_stretch(clocks, flag, a, n + 1));
        } else {
            assert(is_stretch(clocks, flag, n, n + 1));
        }
    }
    if open is Some {
        let a = choose|a: int| #[trigger] is_stretch(clocks, flag, a, n) && clocks[a] == open->0;
        assert(is_set(clocks, n - 1, flag));
        if !is_set(clocks, n, flag) {
            let closed = timeouts::channel_closed(open, who, clocks[n]);
            let place = (n, flag);
            assert(is_stretch(clocks, place.1, a, place.0));
            assert(is_timeout_of(clocks, place.1, a, place.0, closed[0]));
        }
    }
}

/// What is left of one flag when the demo ends.
proof fn lemma_flag_left(
    clocks: Seq<Clock>,
    who: timeouts::Caller,
    flag: int,
    open: Option<Clock>,
)
    requires
        0 <= flag < 3,
        who == (if flag == 0 {
            timeouts::Caller::Terrorist
        } else if flag == 1 {
            timeouts::Caller::CounterTerrorist
        } else {
            timeouts::Caller::Admin
        }),
        is_open(clocks, flag, clocks.len() as int, open),
    ensures
        ({
            let n = clocks.len() as int;
            let left = timeouts::channel_left(open, who);
            &&& left.len() == (if stretch_ends(clocks)(n, flag) {
                1int
            } else {
                0
            })
            &&& left.len() == 1 ==> is_timeout(clocks, (n, flag), left[0])
        }),
{
    let n = clocks.len() as int;
    if open is Some {
        let a = choose|a: int| #[trigger] is_stretch(clocks, flag, a, n) && clocks[a] == open->0;
        assert(is_set(clocks, n - 1, flag));
        let left = timeouts::channel_left(open, who);
        let place = (n, flag);
        assert(is_stretch(clocks, place.1, a, place.0));
        assert(is_timeout_of(clocks, place.1, a, place.0, left[0]));
    }
}

/// Rows that are added for the three flags stand at the places that they add.
proof fn lemma_row_of_places(
    clocks: Seq<Clock>,
    n: int,
    was: Seq<Timeout<Seq<char>>>,
    t: Seq<Timeout<Seq<char>>>,
    ct: Seq<Timeout<Seq<char>>>,
    admin: Seq<Timeout<Seq<char>>>,
)
    requires
        n >= 0,
        ({
            let places = reading::spots(n, flags(), stretch_ends(clocks));
            let p = stretch_ends(clocks);
            &&& was.len() == places.len()
            &&& forall|k: int|
                0 <= k < was.len() ==> is_timeout(clocks, places[k], #[trigger] was[k])
            &&& t.len() == if p(n, 0) {
                1int
            } else {
                0
            }
            &&& ct.len() == if p(n, 1) {
                1int
            } else {
                0
            }
            &&& admin.len() == if p(n, 2) {
                1int
            } else {
                0
            }
        }),
        t.len() == 1 ==> is_timeout(clocks, (n, 0), t[0]),
        ct.len() == 1 ==> is_timeout(clocks, (n, 1), ct[0]),
        admin.len() == 1 ==> is_timeout(clocks, (n, 2), admin[0]),
    ensures
        ({
            let places = reading::spots(n + 1, flags(), stretch_ends(clocks));
            let rows = was + t + ct + admin;
            &&& rows.len() == places.len()
            &&& forall|k: int|
                0 <= k < rows.len() ==> is_timeout(clocks, places[k], #[trigger] rows[k])
        }),
{
    let p = stretch_ends(clocks);
    reveal_with_fuel(reading::spots_in, 4);
    let before = reading::spots(n, flags(), p);
    let own = reading::spots_in(n, 3, p);
    let places = reading::spots(n + 1, flags(), p);
    assert(places == before + own);
    let rows = was + t + ct + admin;
    let a = t.len();
    let b = ct.len();
    assert(own.len() == t.len() + ct.len() + admin.len());
    if a == 1 {
        assert(own[0] == (n, 0int));
    }
    if b == 1 {
        assert(own[a as int] == (n, 1int));
    }
    if admin.len() == 1 {
        assert(own[(a + b) as int] == (n, 2int));
    }
    assert forall|k: int| 0 <= k < rows.len() implies is_timeout(
        clocks,
        places[k],
        #[trigger] rows[k],
    ) by {
        let q = k - was.len();
        if q < 0 {
            assert(rows[k] == was[k]);
            assert(places[k] == before[k]);
        } else {
            assert(places[k] == own[q]);
            if q < a {
                assert(rows[k] == t[q]);
            } else if q < a + b {
                assert(rows[k] == ct[q - a]);
            } else {
                assert(rows[k] == admin[q - a - b]);
            }
        }
    }
}

proof fn lemma_timeouts(clocks: Seq<Clock>, n: int)
    requires
        0 <= n <= clocks.len(),
    ensures
        are_timeouts(clocks, n, timeouts::timeouts_run(clocks.take(n))),
    decreases n,
{
    if n == 0 {
        assert(clocks.take(0) =~= Seq::empty());
    } else {
        lemma_timeouts(clocks, n - 1);
        assert(clocks.take(n).drop_last() =~= clocks.take(n - 1));
        let c = clocks[n - 1];
        assert(clocks.take(n).last() == c);
        let s = timeouts::timeouts_run(clocks.take(n - 1));
        lemma_flag(clocks, timeouts::Caller::Terrorist, 0, n - 1, s.terrorist);
        lemma_flag(clocks, timeouts::Caller::CounterTerrorist, 1, n - 1, s.counter_terrorist);
        lemma_flag(clocks, timeouts::Caller::Admin, 2, n - 1, s.admin);
        lemma_row_of_places(
            clocks,
            n - 1,
            s.rows,
            timeouts::channel_closed(s.terrorist, timeouts::Caller::Terrorist, c),
            timeouts::channel_closed(s.counter_terrorist, timeouts::Caller::CounterTerrorist, c),
            timeouts::channel_closed(s.admin, timeouts::Caller::Admin, c),
        );
    }
}

/// Timeouts are the stretches over which a flag is set: there is one for each, in the order in
/// which they end, those of one tick by flag. A timeout begins with the first tick of its
/// stretch and ends with the first tick after it, and has no end where there is none; side,
/// kind, countdown and round are those of the flag at its first tick.
pub proof fn law_timeouts_are_stretches(clocks: Seq<Clock>)
    ensures
        ({
            let rows = timeouts::all_timeouts(clocks);
            let places = reading::spots(clocks.len() as int + 1, flags(), stretch_ends(clocks));
            &&& rows.len() == places.len()
            &&& forall|k: int|
                0 <= k < rows.len() ==> is_timeout(clocks, places[k], #[trigger] rows[k])
        }),
{
    let n = clocks.len() as int;
    lemma_timeouts(clocks, n);
    assert(clocks.take(n) =~= clocks);
    let s = timeouts::timeouts_run(clocks);
    lemma_flag_left(clocks, timeouts::Caller::Terrorist, 0, s.terrorist);
    lemma_flag_left(clocks, timeouts::Caller::CounterTerrorist, 1, s.counter_terrorist);
    lemma_flag_left(clocks, timeouts::Caller::Admin, 2, s.admin);
    lemma_row_of_places(
        clocks,
        n,
        s.rows,
        timeouts::channel_left(s.terrorist, timeouts::Caller::Terrorist),
        timeouts::channel_left(s.counter_terrorist, timeouts::Caller::CounterTerrorist),
        timeouts::channel_left(s.admin, timeouts::Caller::Admin),
    );
}

/// Timeouts are sorted by the tick at which they start.
pub proof fn law_timeouts_by_start(all: Seq<Timeout<Seq<char>>>, rows: Seq<Timeout<Seq<char>>>)
    requires
        order::stably_sorted(all, rows, timeouts::start_ticks(all)),
    ensures
        forall|i: int, j: int|
            0 <= i <= j < rows.len() ==> (#[trigger] rows[i]).start_tick <= (
            #[trigger] rows[j]).start_tick,
        exists|order: Seq<int>| #[trigger]
            basics::is_arrangement(order, all.len() as int) && rows.len() == all.len() && forall|
                i: int,
            |
                0 <= i < rows.len() ==> #[trigger] rows[i] == all[order[i]],
{
    let keys = timeouts::start_ticks(all);
    basics::law_sorting(all, rows, keys);
    let order = choose|order: Seq<int>| #[trigger]
        basics::is_arrangement(order, all.len() as int) && rows.len() == all.len() && (forall|
            i: int,
        |
            0 <= i < rows.len() ==> #[trigger] rows[i] == all[order[i]]) && (forall|
            i: int,
            j: int,
        |
            0 <= i < j < rows.len() ==> keys[#[trigger] order[i]] <= keys[#[trigger] order[j]] && (
            keys[order[i]] == keys[order[j]] ==> order[i] < order[j]));
    assert(basics::is_arrangement(order, all.len() as int));
    assert forall|i: int, j: int| 0 <= i <= j < rows.len() implies (#[trigger] rows[i]).start_tick
        <= (#[trigger] rows[j]).start_tick by {
        assert(rows[i] == all[order[i]] && rows[j] == all[order[j]]);
        assert(order.contains(order[i]) && order.contains(order[j]));
        if i < j {
            assert(keys[order[i]] <= keys[order[j]]);
        }
    }
}

} // verus!
