//! Rounds: one row for every round that the counter of the game rules completes since the last
//! match restart.
use crate::demo;
use crate::demo::{Frame, Schema};
use crate::laws::reading;
use crate::names::Names;
use crate::rounds;
use crate::rounds::{Round, Rules};
use vstd::prelude::*;

verus! {

/// The key of a field of the game rules.
pub open spec fn rules_key(schema: Schema, path: Seq<char>) -> Option<u64> {
    schema.key_of("CCSGameRulesProxy"@, path)
}

/// Whether a frame has game rules whose fields are known.
pub open spec fn has_rules(schema: Schema, f: Frame) -> bool {
    &&& demo::first_of_class(f.entities@, "CCSGameRulesProxy"@) is Some
    &&& schema.serializer_of("CCSGameRulesProxy"@) is Some
}

/// Which frames have game rules.
pub open spec fn rules_picks(schema: Schema, frames: Seq<Frame>) -> spec_fn(int) -> bool {
    |i: int| has_rules(schema, frames[i])
}

/// Whether rules are what a frame shows.
pub open spec fn shows_rules(schema: Schema, f: Frame, r: Rules) -> bool {
    let e = demo::first_of_class(f.entities@, "CCSGameRulesProxy"@)->0;
    &&& r.tick == f.tick
    &&& r.warmup == e.bool_at(rules_key(schema, "m_pGameRules.m_bWarmupPeriod"@))
    &&& r.freeze == e.bool_at(rules_key(schema, "m_pGameRules.m_bFreezePeriod"@))
    &&& r.total == e.i64_at(rules_key(schema, "m_pGameRules.m_totalRoundsPlayed"@)) as i32
    &&& r.win_status == e.i64_at(rules_key(schema, "m_pGameRules.m_iRoundWinStatus"@))
    &&& r.win_reason == e.i64_at(rules_key(schema, "m_pGameRules.m_eRoundWinReason"@)) as i32
}

/// The rules of a demo are those of its frames that have any, one for one and in their order,
/// and each says what its frame shows.
pub proof fn law_rules_show_frames(schema: Schema, frames: Seq<Frame>)
    ensures
        ({
            let rules = rounds::all_rules(schema, frames);
            let places = reading::picks(frames.len() as int, rules_picks(schema, frames));
            &&& rules.len() == places.len()
            &&& forall|k: int|
                0 <= k < rules.len() ==> shows_rules(
                    schema,
                    frames[places[k]],
                    #[trigger] rules[k],
                )
        }),
{
    lemma_rules(schema, frames, frames.len() as int);
    assert(frames.take(frames.len() as int) =~= frames);
}

proof fn lemma_rules(schema: Schema, frames: Seq<Frame>, n: int)
    requires
        0 <= n <= frames.len(),
    ensures
        ({
            let rules = rounds::all_rules(schema, frames.take(n));
            let places = reading::picks(n, rules_picks(schema, frames));
            &&& rules.len() == places.len()
            &&& forall|k: int|
                0 <= k < rules.len() ==> shows_rules(
                    schema,
                    frames[places[k]],
                    #[trigger] rules[k],
                )
        }),
    decreases n,
{
    if n == 0 {
        assert(frames.take(0) =~= Seq::empty());
    } else {
        lemma_rules(schema, frames, n - 1);
        assert(frames.take(n).drop_last() =~= frames.take(n - 1));
        assert(frames.take(n).last() == frames[n - 1]);
        let was = rounds::all_rules(schema, frames.take(n - 1));
        let now = rounds::all_rules(schema, frames.take(n));
        let before = reading::picks(n - 1, rules_picks(schema, frames));
        let all = reading::picks(n, rules_picks(schema, frames));
        assert forall|k: int| 0 <= k < now.len() implies shows_rules(
            schema,
            frames[all[k]],
            #[trigger] now[k],
        ) by {
            if k < was.len() {
                assert(now[k] == was[k]);
                assert(all[k] == before[k]);
            }
        }
    }
}

/// The count of rounds played before tick `k` of the rules; nothing before the first.
pub open spec fn count_before(rules: Seq<Rules>, k: int) -> int {
    if k <= 0 {
        0
    } else {
        rules[k - 1].total as int
    }
}

/// Whether the freeze period is on before tick `k` of the rules; it is off before the first.
pub open spec fn frozen_before(rules: Seq<Rules>, k: int) -> bool {
    k > 0 && rules[k - 1].freeze
}

/// Whether the match restarts at tick `k` of the rules: the count goes back.
pub open spec fn restarts(rules: Seq<Rules>, k: int) -> bool {
    0 <= k < rules.len() && rules[k].total < count_before(rules, k)
}

/// Whether a round is decided at tick `k` of the rules: outside warmup, the count goes up by
/// one.
pub open spec fn decides(rules: Seq<Rules>, k: int) -> bool {
    0 <= k < rules.len() && !rules[k].warmup && rules[k].total == count_before(rules, k) + 1
}

/// Whether a freeze period begins at tick `k` of the rules, outside warmup.
pub open spec fn freezes(rules: Seq<Rules>, k: int) -> bool {
    0 <= k < rules.len() && !rules[k].warmup && rules[k].freeze && !frozen_before(rules, k)
}

/// Whether a freeze period ends at tick `k` of the rules, outside warmup.
pub open spec fn thaws(rules: Seq<Rules>, k: int) -> bool {
    0 <= k < rules.len() && !rules[k].warmup && !rules[k].freeze && frozen_before(rules, k)
}

/// Whether tick `k` of the rules neither begins a freeze period, nor decides a round, nor
/// restarts the match.
pub open spec fn goes_on(rules: Seq<Rules>, k: int) -> bool {
    !freezes(rules, k) && !decides(rules, k) && !restarts(rules, k)
}

/// Whether the freeze period of the round in progress at tick `n` began at tick `j`.
pub open spec fn began_at(rules: Seq<Rules>, n: int, j: int) -> bool {
    &&& 0 <= j < n
    &&& freezes(rules, j)
    &&& forall|m: int| j < m < n ==> #[trigger] goes_on(rules, m)
}

/// Whether the freeze period of the round in progress at tick `n` ended at tick `j`.
pub open spec fn thawed_at(rules: Seq<Rules>, n: int, j: int) -> bool {
    &&& 0 <= j < n
    &&& thaws(rules, j)
    &&& forall|m: int| j < m < n ==> #[trigger] goes_on(rules, m) && !thaws(rules, m)
}

/// Whether a round that is decided at tick `k` officially ends at tick `j`, as far as the
/// first `n` ticks show: a freeze period begins there, the first since, and no other round is
/// decided until then.
pub open spec fn ended_at(rules: Seq<Rules>, n: int, k: int, j: int) -> bool {
    &&& k <= j < n
    &&& freezes(rules, j)
    &&& forall|m: int| k <= m < j ==> !(#[trigger] freezes(rules, m))
    &&& forall|m: int| k < m <= j ==> !(#[trigger] decides(rules, m))
}

/// Whether a known tick is the one where something happened, and an unknown one says that it
/// did not happen.
pub open spec fn is_tick_of(rules: Seq<Rules>, t: Option<i32>, at: spec_fn(int) -> bool) -> bool {
    match t {
        Some(tick) => exists|j: int| #[trigger] at(j) && rules[j].tick == tick,
        None => forall|j: int| !(#[trigger] at(j)),
    }
}

/// Where the freeze period of the round in progress began.
pub open spec fn beginnings(rules: Seq<Rules>, n: int) -> spec_fn(int) -> bool {
    |j: int| began_at(rules, n, j)
}

/// Where the freeze period of the round in progress ended.
pub open spec fn thawings(rules: Seq<Rules>, n: int) -> spec_fn(int) -> bool {
    |j: int| thawed_at(rules, n, j)
}

/// Where a round officially ended.
pub open spec fn endings(rules: Seq<Rules>, n: int, k: int) -> spec_fn(int) -> bool {
    |j: int| ended_at(rules, n, k, j)
}

/// The last restart among the first `n` ticks; 0 where there is none.
pub open spec fn last_restart(rules: Seq<Rules>, n: int) -> int
    decreases n,
{
    if n <= 0 {
        0
    } else if restarts(rules, n - 1) {
        n - 1
    } else {
        last_restart(rules, n - 1)
    }
}

/// Which ticks decide a round of the match that began at tick `from`.
pub open spec fn decisions(rules: Seq<Rules>, from: int) -> spec_fn(int) -> bool {
    |k: int| k >= from && decides(rules, k)
}

/// Whether a row is the round that is decided at tick `k` of the rules, but for its official
/// end.
pub open spec fn is_round(
    names: Names,
    rules: Seq<Rules>,
    k: int,
    row: Round<Seq<char>>,
) -> bool {
    &&& row.round_num == rules[k].total
    &&& row.end_tick == rules[k].tick
    &&& row.winner == rules[k].win_status as i32
    &&& row.winner_side == names.teams.name(rules[k].win_status)
    &&& row.reason == rules[k].win_reason
    &&& row.reason_name == names.round_end_reasons.name(rules[k].win_reason as i64)
    &&& is_tick_of(rules, row.start_tick, beginnings(rules, k))
    &&& is_tick_of(rules, row.freeze_end_tick, thawings(rules, k))
    &&& row.freeze_ticks == (if row.start_tick is Some && row.freeze_end_tick is Some {
        Some((row.freeze_end_tick->0 - row.start_tick->0) as i32)
    } else {
        None
    })
}

spec fn are_rounds(names: Names, rules: Seq<Rules>, n: int, s: rounds::RoundsState) -> bool {
    let places = reading::picks(n, decisions(rules, last_restart(rules, n)));
    &&& s.prev_total == count_before(rules, n)
    &&& s.prev_freeze == frozen_before(rules, n)
    &&& is_tick_of(rules, s.start_tick, beginnings(rules, n))
    &&& is_tick_of(rules, s.freeze_end_tick, thawings(rules, n))
    &&& s.rounds.len() == places.len()
    &&& forall|q: int|
        0 <= q < s.rounds.len() ==> is_round(names, rules, places[q], #[trigger] s.rounds[q])
            && is_tick_of(rules, s.rounds[q].official_end_tick, endings(rules, n, places[q]))
}

proof fn lemma_none_picked(n: int, p: spec_fn(int) -> bool)
    requires
        forall|k: int| 0 <= k < n ==> !(#[trigger] p(k)),
    ensures
        reading::picks(n, p).len() == 0,
    decreases n,
{
    if n > 0 {
        assert(!p(n - 1));
        lemma_none_picked(n - 1, p);
    }
}

pub proof fn lemma_picked(n: int, p: spec_fn(int) -> bool)
    ensures
        forall|q: int|
            0 <= q < reading::picks(n, p).len() ==> 0 <= #[trigger] reading::picks(n, p)[q] < n
                && p(reading::picks(n, p)[q]),
        forall|k: int| 0 <= k < n && #[trigger] p(k) ==> reading::picks(n, p).contains(k),
        forall|a: int, b: int|
            0 <= a < b < reading::picks(n, p).len() ==> #[trigger] reading::picks(n, p)[a]
                < #[trigger] reading::picks(n, p)[b],
    decreases n,
{
    if n > 0 {
        lemma_picked(n - 1, p);
        let was = reading::picks(n - 1, p);
        let now = reading::picks(n, p);
        assert forall|k: int| 0 <= k < n && #[trigger] p(k) implies now.contains(k) by {
            if k < n - 1 {
                assert(was.contains(k));
                let q = choose|q: int| 0 <= q < was.len() && was[q] == k;
                assert(now[q] == k);
            } else {
                assert(now[was.len() as int] == k);
            }
        }
    }
}

proof fn lemma_beginning(rules: Seq<Rules>, n: int, was: Option<i32>, now: Option<i32>)
    requires
        0 <= n < rules.len(),
        is_tick_of(rules, was, beginnings(rules, n)),
        now == (if freezes(rules, n) {
            Some(rules[n].tick)
        } else if decides(rules, n) || restarts(rules, n) {
            None
        } else {
            was
        }),
    ensures
        is_tick_of(rules, now, beginnings(rules, n + 1)),
{
    let at = beginnings(rules, n);
    let next = beginnings(rules, n + 1);
    if freezes(rules, n) {
        assert(next(n));
    } else if decides(rules, n) || restarts(rules, n) {
        assert forall|j: int| !(#[trigger] next(j)) by {
            if next(j) {
                assert(j != n);
                assert(goes_on(rules, n));
            }
        }
    } else {
        assert forall|j: int| #[trigger] next(j) == at(j) by {
            if next(j) {
                assert(j != n);
                assert forall|m: int| j < m < n implies #[trigger] goes_on(rules, m) by {}
            }
            if at(j) {
                assert forall|m: int| j < m < n + 1 implies #[trigger] goes_on(rules, m) by {}
            }
        }
        if now is Some {
            let j = choose|j: int| #[trigger] at(j) && rules[j].tick == now->0;
            assert(next(j));
        }
    }
}

proof fn lemma_thawing(rules: Seq<Rules>, n: int, was: Option<i32>, now: Option<i32>)
    requires
        0 <= n < rules.len(),
        is_tick_of(rules, was, thawings(rules, n)),
        now == (if thaws(rules, n) {
            Some(rules[n].tick)
        } else if freezes(rules, n) || decides(rules, n) || restarts(rules, n) {
            None
        } else {
            was
        }),
    ensures
        is_tick_of(rules, now, thawings(rules, n + 1)),
{
    let at = thawings(rules, n);
    let next = thawings(rules, n + 1);
    if thaws(rules, n) {
        assert(next(n));
    } else if !goes_on(rules, n) {
        assert forall|j: int| !(#[trigger] next(j)) by {
            if next(j) {
                assert(j != n);
                assert(goes_on(rules, n));
            }
        }
    } else {
        assert forall|j: int| #[trigger] next(j) == at(j) by {
            if next(j) {
                assert(j != n);
                assert forall|m: int| j < m < n implies #[trigger] goes_on(rules, m) && !thaws(
                    rules,
                    m,
                ) by {}
            }
            if at(j) {
                assert forall|m: int| j < m < n + 1 implies #[trigger] goes_on(rules, m) && !thaws(
                    rules,
                    m,
                ) by {}
            }
        }
        if now is Some {
            let j = choose|j: int| #[trigger] at(j) && rules[j].tick == now->0;
            assert(next(j));
        }
    }
}

/// What a tick does to the official end of a round that is decided at tick `k`, the last of
/// them or an earlier one.
proof fn lemma_ending(
    rules: Seq<Rules>,
    n: int,
    k: int,
    last: bool,
    was: Option<i32>,
    now: Option<i32>,
)
    requires
        0 <= k <= n < rules.len(),
        k < n ==> is_tick_of(rules, was, endings(rules, n, k)),
        k == n ==> was is None,
        last ==> forall|m: int| k < m <= n ==> !(#[trigger] decides(rules, m)),
        !last ==> exists|m: int| k < m <= n && #[trigger] decides(rules, m),
        now == (if last && freezes(rules, n) && was is None {
            Some(rules[n].tick)
        } else {
            was
        }),
    ensures
        is_tick_of(rules, now, endings(rules, n + 1, k)),
{
    let at = endings(rules, n, k);
    let next = endings(rules, n + 1, k);
    assert forall|j: int| j < n implies #[trigger] next(j) == at(j) by {}
    if was is Some {
        let j = choose|j: int| #[trigger] at(j) && rules[j].tick == was->0;
        assert(next(j));
    } else {
        assert forall|j: int| k <= j < n implies !(#[trigger] at(j)) by {}
        if last {
            assert forall|m: int| k <= m < n implies !(#[trigger] freezes(rules, m)) by {
                if freezes(rules, m) {
                    lemma_first_freeze(rules, n, k, m);
                }
            }
            if freezes(rules, n) {
                assert(next(n));
            } else {
                assert forall|j: int| !(#[trigger] next(j)) by {
                    if next(j) {
                        assert(j != n);
                        assert(at(j));
                    }
                }
            }
        } else {
            let m = choose|m: int| k < m <= n && #[trigger] decides(rules, m);
            assert forall|j: int| !(#[trigger] next(j)) by {
                if next(j) {
                    if j == n {
                        assert(decides(rules, m));
                    } else {
                        assert(at(j));
                    }
                }
            }
        }
    }
}

/// Where a freeze period begins before another round is decided, a first one does.
proof fn lemma_first_freeze(rules: Seq<Rules>, n: int, k: int, m: int)
    requires
        0 <= k <= m < n,
        n <= rules.len(),
        freezes(rules, m),
        forall|m: int| k < m < n ==> !(#[trigger] decides(rules, m)),
    ensures
        exists|j: int| #[trigger] endings(rules, n, k)(j),
    decreases m,
{
    if forall|x: int| k <= x < m ==> !(#[trigger] freezes(rules, x)) {
        assert(endings(rules, n, k)(m));
    } else {
        let x = choose|x: int| k <= x < m && #[trigger] freezes(rules, x);
        lemma_first_freeze(rules, n, k, x);
    }
}

proof fn lemma_rounds_tick(
    names: Names,
    rules: Seq<Rules>,
    n: int,
    s: rounds::RoundsState,
    t: rounds::RoundsState,
)
    requires
        0 <= n < rules.len(),
        are_rounds(names, rules, n, s),
        t == rounds::rounds_step(names, s, rules[n]),
    ensures
        are_rounds(names, rules, n + 1, t),
{
    let r = rules[n];
    lemma_beginning(rules, n, s.start_tick, t.start_tick);
    lemma_thawing(rules, n, s.freeze_end_tick, t.freeze_end_tick);
    let from = last_restart(rules, n + 1);
    let places = reading::picks(n, decisions(rules, last_restart(rules, n)));
    let now = reading::picks(n + 1, decisions(rules, from));
    lemma_picked(n, decisions(rules, last_restart(rules, n)));
    if restarts(rules, n) {
        lemma_none_picked(n + 1, decisions(rules, from));
    } else {
        let a = rounds::after_round(names, s, r);
        assert(a == rounds::after_round(names, rounds::after_restart(s, r), r));
        assert(now == (if decides(rules, n) {
            places.push(n)
        } else {
            places
        })) by {
            lemma_restart_bound(rules, n);
        }
        lemma_restart_bound(rules, n);
        assert forall|q: int| 0 <= q < t.rounds.len() implies is_round(
            names,
            rules,
            now[q],
            #[trigger] t.rounds[q],
        ) && is_tick_of(rules, t.rounds[q].official_end_tick, endings(rules, n + 1, now[q])) by {
            let k = now[q];
            let last = q == t.rounds.len() - 1;
            if q < places.len() {
                assert(places[q] == k);
                assert(a.rounds[q] == s.rounds[q]);
                assert(is_round(names, rules, places[q], s.rounds[q]));
            } else {
                assert(k == n);
                assert(is_round(names, rules, n, a.rounds[q]));
            }
            assert(t.rounds[q] == (Round {
                official_end_tick: t.rounds[q].official_end_tick,
                ..a.rounds[q]
            }));
            if last {
                assert forall|m: int| k < m <= n implies !(#[trigger] decides(rules, m)) by {
                    if decides(rules, m) && m < n {
                        assert(decisions(rules, last_restart(rules, n))(m));
                        assert(places.contains(m));
                        let x = choose|x: int| 0 <= x < places.len() && places[x] == m;
                        assert(places[x] <= places[q]);
                    }
                }
            } else {
                let x = now[q + 1];
                assert(decides(rules, x) && k < x <= n);
            }
            lemma_ending(
                rules,
                n,
                k,
                last,
                a.rounds[q].official_end_tick,
                t.rounds[q].official_end_tick,
            );
        }
    }
}

proof fn lemma_restart_bound(rules: Seq<Rules>, n: int)
    requires
        n >= 0,
    ensures
        0 <= last_restart(rules, n) <= n,
    decreases n,
{
    if n > 0 {
        lemma_restart_bound(rules, n - 1);
    }
}

proof fn lemma_rounds(names: Names, rules: Seq<Rules>, n: int)
    requires
        0 <= n <= rules.len(),
    ensures
        are_rounds(names, rules, n, rounds::rounds_run(names, rules.take(n))),
    decreases n,
{
    if n == 0 {
        assert(rules.take(0) =~= Seq::empty());
        assert forall|j: int| !(#[trigger] beginnings(rules, 0)(j)) by {}
        assert forall|j: int| !(#[trigger] thawings(rules, 0)(j)) by {}
    } else {
        lemma_rounds(names, rules, n - 1);
        assert(rules.take(n).drop_last() =~= rules.take(n - 1));
        assert(rules.take(n).last() == rules[n - 1]);
        lemma_rounds_tick(
            names,
            rules,
            n - 1,
            rounds::rounds_run(names, rules.take(n - 1)),
            rounds::rounds_run(names, rules.take(n)),
        );
    }
}

/// Rounds are what the count of the game rules completes: there is one row for every round that
/// is decided since the last restart of the match, in their order. A row has the count, tick,
/// winner and reason of the tick that decides the round. Its start and the end of its freeze
/// period are those of the last freeze period before, if that belongs to the round. It
/// officially ends where the next freeze period begins, unless another round is decided first,
/// and unless it is the last one and would end with the very tick that decides it.
pub proof fn law_rounds_are_decided(names: Names, rules: Seq<Rules>)
    ensures
        ({
            let n = rules.len() as int;
            let places = reading::picks(n, decisions(rules, last_restart(rules, n)));
            let rows = rounds::settled(rounds::rounds_run(names, rules).rounds);
            &&& rows.len() == places.len()
            &&& forall|q: int|
                0 <= q < rows.len() ==> is_round(names, rules, places[q], #[trigger] rows[q])
                    && is_official_end(
                    rules,
                    places[q],
                    q == rows.len() - 1,
                    rows[q].official_end_tick,
                )
        }),
{
    let n = rules.len() as int;
    lemma_rounds(names, rules, n);
    assert(rules.take(n) =~= rules);
    let raw = rounds::rounds_run(names, rules).rounds;
    let rows = rounds::settled(raw);
    let places = reading::picks(n, decisions(rules, last_restart(rules, n)));
    assert forall|q: int| 0 <= q < rows.len() implies is_round(
        names,
        rules,
        places[q],
        #[trigger] rows[q],
    ) && is_official_end(rules, places[q], q == rows.len() - 1, rows[q].official_end_tick) by {
        assert(is_round(names, rules, places[q], raw[q]));
        let at = endings(rules, n, places[q]);
        if q == rows.len() - 1 && rows[q].official_end_tick is None && raw[q].official_end_tick
            is Some {
            let j = choose|j: int| #[trigger] at(j) && rules[j].tick
                == raw[q].official_end_tick->0;
            assert(at(j));
            assert(rules[j].tick == rules[places[q]].tick);
            assert forall|i: int| #[trigger] at(i) implies rules[i].tick
                == rules[places[q]].tick by {
                if i < j {
                    assert(freezes(rules, i));
                } else if j < i {
                    assert(freezes(rules, j));
                }
            }
        } else {
            assert(rows[q].official_end_tick == raw[q].official_end_tick);
        }
    }
}

/// Whether a tick is the official end of a round that is decided at tick `k` of the rules.
pub open spec fn is_official_end(rules: Seq<Rules>, k: int, last: bool, t: Option<i32>) -> bool {
    match t {
        Some(tick) => {
            &&& exists|j: int| #[trigger]
                endings(rules, rules.len() as int, k)(j) && rules[j].tick == tick
            &&& last ==> tick != rules[k].tick
        },
        None => forall|j: int| #[trigger]
            endings(rules, rules.len() as int, k)(j) ==> last && rules[j].tick == rules[k].tick,
    }
}

} // verus!
