//! The marks on rounds: knife rounds and extended freeze periods.
use crate::anchors;
use crate::demo::GameEvent;
use crate::keys;
use crate::laws::reading;
use crate::laws::rounds::{
    decisions, is_official_end, is_round, last_restart, law_rounds_are_decided, lemma_picked,
};
use crate::marks;
use crate::order;
use crate::parser::Parser;
use crate::rounds;
use crate::rounds::Round;
use crate::text;
use vstd::prelude::*;

verus! {

/// Whether a text has a part in it.
pub open spec fn has_part(whole: Seq<char>, part: Seq<char>) -> bool {
    exists|before: Seq<char>, after: Seq<char>| #[trigger] (before + part + after) == whole
}

proof fn lemma_has_part(whole: Seq<char>, part: Seq<char>)
    ensures
        text::holds_text(whole, part) == has_part(whole, part),
{
    if text::holds_text(whole, part) {
        let at = choose|at: int| text::stands_at(whole, part, at);
        let before = whole.take(at);
        let after = whole.skip(at + part.len());
        assert(before + part + after =~= whole);
    }
    if has_part(whole, part) {
        let (before, after) = choose|before: Seq<char>, after: Seq<char>|
            #[trigger] (before + part + after) == whole;
        let at = before.len() as int;
        assert(whole.subrange(at, at + part.len()) =~= part);
        assert(text::stands_at(whole, part, at));
    }
}

/// Whether a tick is in round `k`: that round began last, at or before the tick. Of two that
/// begin together, it is the later one.
pub open spec fn is_in_round(rounds: Seq<Round<Seq<char>>>, tick: i32, k: int) -> bool {
    &&& 0 <= k < rounds.len()
    &&& reading::first_tick(rounds[k]) <= tick
    &&& forall|j: int|
        0 <= j < rounds.len() && reading::first_tick(#[trigger] rounds[j]) <= tick
            ==> reading::first_tick(rounds[j]) < reading::first_tick(rounds[k]) || (
        reading::first_tick(rounds[j]) == reading::first_tick(rounds[k]) && j <= k)
}

/// Whether event `i` is a death in round `k`.
pub open spec fn dies_in(
    rounds: Seq<Round<Seq<char>>>,
    events: Seq<GameEvent>,
    i: int,
    k: int,
) -> bool {
    &&& 0 <= i < events.len()
    &&& events[i].name@ == "player_death"@
    &&& is_in_round(rounds, events[i].tick, k)
}

/// Whether the weapon of an event is a knife or a bayonet.
pub open spec fn is_cut(e: GameEvent) -> bool {
    let weapon = keys::key_string(e.keys@, "weapon"@);
    has_part(weapon, "knife"@) || has_part(weapon, "bayonet"@)
}

/// Whether the weapon of an event is neither a melee weapon nor the world, and is known.
pub open spec fn is_shot_or_blown(e: GameEvent) -> bool {
    let weapon = keys::key_string(e.keys@, "weapon"@);
    !is_cut(e) && weapon != "world"@ && weapon.len() > 0
}

/// Whether round `k` is fought with knives: someone dies by one, and nobody by a firearm or a
/// grenade.
pub open spec fn is_fought_with_knives(
    rounds: Seq<Round<Seq<char>>>,
    events: Seq<GameEvent>,
    k: int,
) -> bool {
    &&& exists|i: int| #[trigger] dies_in(rounds, events, i, k) && is_cut(events[i])
    &&& forall|i: int| #[trigger] dies_in(rounds, events, i, k) ==> !is_shot_or_blown(events[i])
}

proof fn lemma_knives(
    bare: Seq<Round<Seq<char>>>,
    rows: Seq<Round<Seq<char>>>,
    events: Seq<GameEvent>,
    k: int,
)
    requires
        rows.len() == bare.len(),
        forall|j: int|
            0 <= j < rows.len() ==> reading::first_tick(#[trigger] rows[j]) == rounds::anchor(
                bare[j],
            ),
    ensures
        marks::is_knife_round(bare, events, k) == is_fought_with_knives(rows, events, k),
{
    assert forall|i: int| 0 <= i < events.len() implies #[trigger] is_cut(events[i])
        == marks::is_melee(marks::weapon_of(events[i])) by {
        lemma_has_part(marks::weapon_of(events[i]), "knife"@);
        lemma_has_part(marks::weapon_of(events[i]), "bayonet"@);
    }
    assert forall|i: int| #[trigger] dies_in(rows, events, i, k) == marks::death_in(
        bare,
        events,
        i,
        k,
    ) by {
        if 0 <= i < events.len() {
            let tick = events[i].tick;
            if is_in_round(rows, tick, k) {
                assert forall|j: int|
                    0 <= j < bare.len() && rounds::anchor(#[trigger] bare[j])
                        <= tick implies rounds::anchor(bare[j]) < rounds::anchor(bare[k]) || (
                rounds::anchor(bare[j]) == rounds::anchor(bare[k]) && j <= k) by {
                    assert(reading::first_tick(rows[j]) <= tick);
                }
            }
            if anchors::falls_in(bare, tick, k) {
                assert forall|j: int|
                    0 <= j < rows.len() && reading::first_tick(#[trigger] rows[j])
                        <= tick implies reading::first_tick(rows[j]) < reading::first_tick(rows[k])
                    || (reading::first_tick(rows[j]) == reading::first_tick(rows[k]) && j <= k) by {
                    assert(rounds::anchor(bare[j]) <= tick);
                }
            }
        }
    }
    if marks::is_knife_round(bare, events, k) {
        let i = choose|i: int| #[trigger]
            marks::death_in(bare, events, i, k) && marks::is_melee(marks::weapon_of(events[i]));
        assert(dies_in(rows, events, i, k) && is_cut(events[i]));
    }
    if is_fought_with_knives(rows, events, k) {
        let i = choose|i: int| #[trigger] dies_in(rows, events, i, k) && is_cut(events[i]);
        assert(marks::death_in(bare, events, i, k));
        assert forall|i: int| #[trigger] marks::death_in(
            bare,
            events,
            i,
            k,
        ) implies !marks::is_armed(marks::weapon_of(events[i])) by {
            assert(dies_in(rows, events, i, k));
            assert(is_cut(events[i]) == marks::is_melee(marks::weapon_of(events[i])));
        }
    }
}

/// Which rounds have a known freeze length.
pub open spec fn measured(rounds: Seq<Round<Seq<char>>>) -> spec_fn(int) -> bool {
    |k: int| rounds[k].freeze_ticks is Some
}

/// The rounds with a known freeze length below a value.
pub open spec fn shorter(rounds: Seq<Round<Seq<char>>>, m: int) -> Set<int> {
    Set::new(|k: int| 0 <= k < rounds.len() && measured(rounds)(k) && rounds[k].freeze_ticks->0 < m)
}

/// The rounds with a known freeze length up to a value.
pub open spec fn no_longer(rounds: Seq<Round<Seq<char>>>, m: int) -> Set<int> {
    Set::new(
        |k: int| 0 <= k < rounds.len() && measured(rounds)(k) && rounds[k].freeze_ticks->0 <= m,
    )
}

/// Whether a value is the middle of the `count` known freeze lengths, the upper one of two: at
/// most half of them are below it, and more than half are not above it.
pub open spec fn is_middle(rounds: Seq<Round<Seq<char>>>, count: int, m: int) -> bool {
    &&& shorter(rounds, m).len() <= count / 2
    &&& no_longer(rounds, m).len() > count / 2
}

/// Whether a freeze period is more than one and a half times as long as a value, which counts
/// as one tick at least.
pub open spec fn runs_long(r: Round<Seq<char>>, m: int) -> bool {
    r.freeze_ticks is Some && 2 * r.freeze_ticks->0 > 3 * (if m < 1 {
        1
    } else {
        m
    })
}

proof fn lemma_lengths(rounds: Seq<Round<Seq<char>>>, n: int)
    requires
        0 <= n <= rounds.len(),
    ensures
        marks::freeze_lengths(rounds.take(n)) == reading::picks(n, measured(rounds)).map_values(
            |k: int| rounds[k].freeze_ticks->0 as int,
        ),
    decreases n,
{
    let f = |k: int| rounds[k].freeze_ticks->0 as int;
    if n == 0 {
        assert(rounds.take(0) =~= Seq::empty());
    } else {
        lemma_lengths(rounds, n - 1);
        assert(rounds.take(n).drop_last() =~= rounds.take(n - 1));
        assert(rounds.take(n).last() == rounds[n - 1]);
        assert(measured(rounds)(n - 1) == rounds[n - 1].freeze_ticks is Some);
        let was = reading::picks(n - 1, measured(rounds));
        if measured(rounds)(n - 1) {
            assert(was.push(n - 1).map_values(f) =~= was.map_values(f).push(f(n - 1)));
        }
    }
}

/// Keys have a stable order.
proof fn lemma_has_order(keys: Seq<int>) -> (order: Seq<int>)
    ensures
        order::is_stable_order(keys, order),
    decreases keys.len(),
{
    if keys.len() == 0 {
        Seq::empty()
    } else {
        let n = keys.len() - 1;
        let init = keys.drop_last();
        let was = lemma_has_order(init);
        let at = lemma_place(keys, was, n, 0);
        let now = was.insert(at, n);
        assert forall|i: int| 0 <= i < now.len() implies 0 <= #[trigger] now[i] < keys.len() by {
            if i < at {
                assert(now[i] == was[i]);
            } else if i > at {
                assert(now[i] == was[i - 1]);
            }
        }
        assert forall|i: int, j: int| 0 <= i < j < now.len() implies order::comes_before(
            keys,
            #[trigger] now[i],
            #[trigger] now[j],
        ) by {
            let a = if i < at {
                i
            } else {
                i - 1
            };
            let b = if j < at {
                j
            } else {
                j - 1
            };
            if i != at {
                assert(now[i] == was[a]);
            }
            if j != at {
                assert(now[j] == was[b]);
            }
            if i != at && j != at {
                assert(order::comes_before(init, was[a], was[b]));
            }
        }
        now
    }
}

/// Where the last key goes among the others: behind all that are no larger.
proof fn lemma_place(keys: Seq<int>, was: Seq<int>, n: int, from: int) -> (at: int)
    requires
        n == keys.len() - 1,
        was.len() == n,
        0 <= from <= n,
        order::is_stable_order(keys.drop_last(), was),
        forall|i: int| 0 <= i < from ==> keys[#[trigger] was[i]] <= keys[n],
    ensures
        0 <= at <= n,
        forall|i: int| 0 <= i < at ==> keys[#[trigger] was[i]] <= keys[n],
        forall|i: int| at <= i < n ==> keys[#[trigger] was[i]] > keys[n],
    decreases n - from,
{
    if from < n && keys[was[from]] <= keys[n] {
        lemma_place(keys, was, n, from + 1)
    } else {
        assert forall|i: int| from <= i < n implies keys[#[trigger] was[i]] > keys[n] by {
            if from < i {
                assert(order::comes_before(keys.drop_last(), was[from], was[i]));
            }
        }
        from
    }
}

proof fn lemma_middle(rounds: Seq<Round<Seq<char>>>)
    requires
        marks::freeze_lengths(rounds).len() > 0,
    ensures
        ({
            let count = reading::picks(rounds.len() as int, measured(rounds)).len() as int;
            &&& count == marks::freeze_lengths(rounds).len()
            &&& is_middle(rounds, count, marks::median(marks::freeze_lengths(rounds)))
        }),
{
    let n = rounds.len() as int;
    let known = reading::picks(n, measured(rounds));
    lemma_lengths(rounds, n);
    assert(rounds.take(n) =~= rounds);
    lemma_picked(n, measured(rounds));
    let lengths = marks::freeze_lengths(rounds);
    let count = lengths.len() as int;
    let some = lemma_has_order(lengths);
    let order = choose|order: Seq<int>| order::is_stable_order(lengths, order);
    assert(order::is_stable_order(lengths, order));
    let h = count / 2;
    let m = marks::median(lengths);
    assert(m == lengths[order[h]]);
    let f = |q: int| known[order[q]];
    assert forall|a: int, b: int| 0 <= a < count && 0 <= b < count && a != b implies #[trigger] f(a)
        != #[trigger] f(b) by {
        if a < b {
            assert(order::comes_before(lengths, order[a], order[b]));
        } else {
            assert(order::comes_before(lengths, order[b], order[a]));
        }
        assert(order[a] != order[b]);
        if order[a] < order[b] {
            assert(known[order[a]] < known[order[b]]);
        } else {
            assert(known[order[b]] < known[order[a]]);
        }
    }
    let low = vstd::set_lib::set_int_range(0, h);
    let up = vstd::set_lib::set_int_range(0, h + 1);
    vstd::set_lib::lemma_int_range(0, h);
    vstd::set_lib::lemma_int_range(0, h + 1);
    vstd::set_lib::lemma_map_size(low, low.map(f), f);
    vstd::set_lib::lemma_map_size(up, up.map(f), f);
    assert forall|k: int| #[trigger] shorter(rounds, m).contains(k) implies low.map(f).contains(
        k,
    ) by {
        assert(known.contains(k));
        let x = choose|x: int| 0 <= x < known.len() && known[x] == k;
        order::lemma_order_covers(lengths, order, x);
        let q = choose|q: int| 0 <= q < order.len() && order[q] == x;
        assert(lengths[x] < m);
        if h < q {
            assert(order::comes_before(lengths, order[h], order[q]));
        }
        assert(low.contains(q) && f(q) == k);
    }
    assert(shorter(rounds, m).subset_of(low.map(f)));
    vstd::set_lib::lemma_len_subset(shorter(rounds, m), low.map(f));
    let all = vstd::set_lib::set_int_range(0, n);
    vstd::set_lib::lemma_int_range(0, n);
    assert(no_longer(rounds, m).subset_of(all));
    vstd::set_lib::lemma_len_subset(no_longer(rounds, m), all);
    assert forall|k: int| #[trigger] up.map(f).contains(k) implies no_longer(rounds, m).contains(
        k,
    ) by {
        let q = choose|q: int| up.contains(q) && f(q) == k;
        let x = order[q];
        assert(known[x] == k && lengths[x] == rounds[k].freeze_ticks->0);
        if q < h {
            assert(order::comes_before(lengths, order[q], order[h]));
        }
    }
    assert(up.map(f).subset_of(no_longer(rounds, m)));
    vstd::set_lib::lemma_len_subset(up.map(f), no_longer(rounds, m));
}

proof fn lemma_same_sets(a: Seq<Round<Seq<char>>>, b: Seq<Round<Seq<char>>>, m: int)
    requires
        a.len() == b.len(),
        forall|k: int|
            0 <= k < a.len() ==> (#[trigger] a[k]).freeze_ticks == (#[trigger] b[k]).freeze_ticks,
    ensures
        shorter(a, m) == shorter(b, m),
        no_longer(a, m) == no_longer(b, m),
        reading::picks(a.len() as int, measured(a)) == reading::picks(
            b.len() as int,
            measured(b),
        ),
{
    assert(shorter(a, m) =~= shorter(b, m));
    assert(no_longer(a, m) =~= no_longer(b, m));
    lemma_same_picks(a.len() as int, measured(a), measured(b));
}

proof fn lemma_same_picks(n: int, p: spec_fn(int) -> bool, q: spec_fn(int) -> bool)
    requires
        forall|k: int| 0 <= k < n ==> #[trigger] p(k) == q(k),
    ensures
        reading::picks(n, p) == reading::picks(n, q),
    decreases n,
{
    if n > 0 {
        assert(p(n - 1) == q(n - 1));
        lemma_same_picks(n - 1, p, q);
    }
}

/// Marking knife rounds marks the rounds that are fought with knives, and changes nothing else.
pub proof fn law_knife_marks(rows: Seq<Round<Seq<char>>>, events: Seq<GameEvent>, k: int)
    requires
        0 <= k < rows.len(),
    ensures
        marks::with_knife_marks(rows, events).len() == rows.len(),
        marks::with_knife_marks(rows, events)[k] == (Round {
            is_knife_round: is_fought_with_knives(rows, events, k),
            ..rows[k]
        }),
{
    lemma_knives(rows, rows, events, k);
}

/// Marking extended freeze periods marks those that run longer than the middle one allows, and
/// changes nothing else. With fewer than two known lengths it changes nothing.
pub proof fn law_freeze_marks(rows: Seq<Round<Seq<char>>>)
    ensures
        ({
            let count = reading::picks(rows.len() as int, measured(rows)).len() as int;
            let marked = marks::with_freeze_marks(rows);
            &&& count < 2 ==> marked == rows
            &&& count >= 2 ==> marked.len() == rows.len() && exists|m: int| #[trigger]
                is_middle(rows, count, m) && forall|q: int|
                    0 <= q < rows.len() ==> #[trigger] marked[q] == (Round {
                        extended_freeze: runs_long(rows[q], m),
                        ..rows[q]
                    })
        }),
{
    let lengths = marks::freeze_lengths(rows);
    lemma_lengths(rows, rows.len() as int);
    assert(rows.take(rows.len() as int) =~= rows);
    if lengths.len() >= 2 {
        lemma_middle(rows);
        let count = reading::picks(rows.len() as int, measured(rows)).len() as int;
        let m = marks::median(lengths);
        assert(is_middle(rows, count, m));
        let marked = marks::with_freeze_marks(rows);
        assert forall|q: int| 0 <= q < rows.len() implies #[trigger] marked[q] == (Round {
            extended_freeze: runs_long(rows[q], m),
            ..rows[q]
        }) by {}
    }
}

/// The rounds of a demo are those that its game rules decide. A round is a knife round where
/// someone dies by a knife and nobody by a firearm or a grenade. Its freeze period is extended
/// where it is more than one and a half times as long as the middle one of at least two.
pub proof fn law_rounds_of_demo(p: Parser)
    requires
        p.round_rows() is Ok,
    ensures
        ({
            let rules = rounds::all_rules(p.schema, p.frames->Ok_0@);
            let n = rules.len() as int;
            let places = reading::picks(n, decisions(rules, last_restart(rules, n)));
            let rows = p.round_rows()->Ok_0;
            let count = reading::picks(rows.len() as int, measured(rows)).len() as int;
            &&& rows.len() == places.len()
            &&& forall|q: int|
                0 <= q < rows.len() ==> is_round(p.names, rules, places[q], #[trigger] rows[q])
                    && is_official_end(
                    rules,
                    places[q],
                    q == rows.len() - 1,
                    rows[q].official_end_tick,
                ) && rows[q].is_knife_round == is_fought_with_knives(rows, p.events->Ok_0@, q)
            &&& count < 2 ==> forall|q: int|
                0 <= q < rows.len() ==> !(#[trigger] rows[q]).extended_freeze
            &&& count >= 2 ==> exists|m: int| #[trigger]
                is_middle(rows, count, m) && forall|q: int|
                    0 <= q < rows.len() ==> (#[trigger] rows[q]).extended_freeze == runs_long(
                        rows[q],
                        m,
                    )
        }),
{
    let frames = p.frames->Ok_0@;
    let rules = rounds::all_rules(p.schema, frames);
    let n = rules.len() as int;
    let places = reading::picks(n, decisions(rules, last_restart(rules, n)));
    law_rounds_are_decided(p.names, rules);
    let bare = rounds::bare_rounds(p.schema, p.names, frames);
    let rows = p.round_rows()->Ok_0;
    rounds::lemma_unmarked(p.names, rules);
    if bare.len() > 0 {
        let events = p.events->Ok_0@;
        let knives = marks::with_knife_marks(bare, events);
        assert(rows == marks::with_freeze_marks(knives));
        assert forall|q: int| 0 <= q < rows.len() implies is_round(
            p.names,
            rules,
            places[q],
            #[trigger] rows[q],
        ) && is_official_end(rules, places[q], q == rows.len() - 1, rows[q].official_end_tick)
            && rows[q].is_knife_round == is_fought_with_knives(rows, events, q) by {
            assert(is_round(p.names, rules, places[q], bare[q]));
            lemma_knives(bare, rows, events, q);
        }
        let lengths = marks::freeze_lengths(knives);
        let m = marks::median(lengths);
        lemma_same_sets(knives, rows, m);
        if lengths.len() > 0 {
            lemma_middle(knives);
            if lengths.len() >= 2 {
                let count = reading::picks(rows.len() as int, measured(rows)).len() as int;
                assert(is_middle(rows, count, m));
            }
        } else {
            lemma_lengths(knives, knives.len() as int);
            assert(knives.take(knives.len() as int) =~= knives);
        }
        if lengths.len() < 2 {
            assert forall|q: int| 0 <= q < rows.len() implies !(
            #[trigger] rows[q]).extended_freeze by {
                assert(!bare[q].extended_freeze);
            }
        }
    }
}

} // verus!
