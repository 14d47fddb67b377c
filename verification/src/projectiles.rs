//! Thrown grenades, fires and smokes: projectile entities tracked tick by tick.
use crate::demo::{Entity, Frame, GameEvent, Schema};
use crate::float::{Float, Vector};
use crate::events;
use crate::keys;
use crate::keys::Keys;
use crate::names::{Names, INFERNO_CLASS, SMOKE_CLASS};
use crate::order;
use crate::resolve;
use crate::resolve::{Lens, PositionKeys, ResolvedPlayer};
use crate::text;
use crate::text::{copy_text, same_text};
use std::collections::{HashMap, HashSet};
use vstd::prelude::*;

verus! {

broadcast use {
    vstd::std_specs::hash::group_hash_axioms,
    vstd::string::group_string_axioms,
    crate::text::group_views,
};

/// One sample of a projectile: an instance of it, by entity index and start tick, at one
/// tick.
#[derive(Clone, Debug)]
pub struct TrackedRow<T = String> {
    pub tick: i32,
    pub entity_id: i32,
    pub class_name: T,
    pub at: Vector,
    pub thrower: ResolvedPlayer<T>,
    pub start_tick: i32,
    pub end_tick: i32,
    /// Position at `end_tick`.
    pub end_at: Vector,
}

impl View for TrackedRow {
    type V = TrackedRow<Seq<char>>;

    open spec fn view(&self) -> TrackedRow<Seq<char>> {
        TrackedRow {
            tick: self.tick,
            entity_id: self.entity_id,
            class_name: self.class_name@,
            at: self.at,
            thrower: self.thrower@,
            start_tick: self.start_tick,
            end_tick: self.end_tick,
            end_at: self.end_at,
        }
    }
}

impl TrackedRow {
    /// A copy of the row.
    fn copy(&self) -> (r: TrackedRow)
        ensures
            r == *self,
    {
        TrackedRow {
            tick: self.tick,
            entity_id: self.entity_id,
            class_name: self.class_name.clone(),
            at: self.at,
            thrower: self.thrower.copy(),
            start_tick: self.start_tick,
            end_tick: self.end_tick,
            end_at: self.end_at,
        }
    }
}

/// Whether two rows are of the same instance.
pub open spec fn same_instance(a: TrackedRow<Seq<char>>, b: TrackedRow<Seq<char>>) -> bool {
    a.entity_id == b.entity_id && a.start_tick == b.start_tick
}

/// An instance's row once another of its rows is seen: the end is the latest seen, the
/// thrower the first one that was resolved.
pub open spec fn merged(kept: TrackedRow<Seq<char>>, row: TrackedRow<Seq<char>>) -> TrackedRow<
    Seq<char>,
> {
    TrackedRow {
        end_tick: if row.end_tick > kept.end_tick {
            row.end_tick
        } else {
            kept.end_tick
        },
        end_at: if row.end_tick > kept.end_tick {
            row.end_at
        } else {
            kept.end_at
        },
        thrower: if kept.thrower.steamid is None && row.thrower.steamid is Some {
            row.thrower
        } else {
            kept.thrower
        },
        ..kept
    }
}

/// Whether an instance has a row already.
pub open spec fn is_kept(kept: Seq<TrackedRow<Seq<char>>>, row: TrackedRow<Seq<char>>) -> bool {
    exists|k: int| 0 <= k < kept.len() && same_instance(#[trigger] kept[k], row)
}

/// The instances once another row is seen.
pub open spec fn collapse_step(kept: Seq<TrackedRow<Seq<char>>>, row: TrackedRow<Seq<char>>) -> Seq<
    TrackedRow<Seq<char>>,
> {
    if is_kept(kept, row) {
        kept.map_values(
            |k: TrackedRow<Seq<char>>|
                if same_instance(k, row) {
                    merged(k, row)
                } else {
                    k
                },
        )
    } else {
        kept.push(row)
    }
}

/// One row per instance, in the order in which they are first seen.
pub open spec fn collapsed(rows: Seq<TrackedRow<Seq<char>>>) -> Seq<TrackedRow<Seq<char>>>
    decreases rows.len(),
{
    if rows.len() == 0 {
        Seq::empty()
    } else {
        collapse_step(collapsed(rows.drop_last()), rows.last())
    }
}

/// An entity index and a start tick in one number.
pub open spec fn instance_key(entity_id: i32, start_tick: i32) -> int {
    (entity_id + 0x8000_0000) * 0x1_0000_0000 + (start_tick + 0x8000_0000)
}

/// Different instances have different keys.
proof fn lemma_instance_key(a: i32, b: i32, c: i32, d: i32)
    ensures
        0 <= instance_key(a, b) <= u64::MAX,
        instance_key(a, b) == instance_key(c, d) ==> a == c && b == d,
{
}

fn pack_instance(entity_id: i32, start_tick: i32) -> (key: u64)
    ensures
        key == instance_key(entity_id, start_tick),
{
    let high: u64 = (entity_id as i64 + 0x8000_0000) as u64;
    let low: u64 = (start_tick as i64 + 0x8000_0000) as u64;
    high * 0x1_0000_0000 + low
}

/// Where a row's instance stands among rows.
pub open spec fn key_of_row(r: TrackedRow<Seq<char>>) -> int {
    instance_key(r.entity_id, r.start_tick)
}

/// Whether a table tells of every instance where its one row stands.
spec fn indexes(table: Map<u64, usize>, kept: Seq<TrackedRow<Seq<char>>>) -> bool {
    &&& forall|k: int|
        0 <= k < kept.len() ==> table.contains_key(key_of_row(#[trigger] kept[k]) as u64)
            && table[key_of_row(kept[k]) as u64] == k
    &&& forall|key: u64| #[trigger]
        table.contains_key(key) ==> table[key] < kept.len() && key_of_row(kept[table[key] as int])
            == key
}

/// Collapse per-tick samples to one row per instance.
///
/// The thrower is resolved every tick and can be lost on the way, so the first row with
/// a resolved Steam id wins; the end is the latest seen. Instances keep the order in
/// which they are first seen.
pub fn collapse_instances(rows: &Vec<TrackedRow>) -> (kept: Vec<TrackedRow>)
    ensures
        text::views(kept@) == collapsed(text::views(rows@)),
{
    let mut kept: Vec<TrackedRow> = Vec::new();
    let mut table: HashMap<u64, usize> = HashMap::new();
    let ghost all = text::views(rows@);
    let n: usize = rows.len();
    let mut i: usize = 0;
    assert(all.take(0) =~= Seq::empty());
    while i < n
        invariant
            i <= n,
            n == rows@.len(),
            all == text::views(rows@),
            text::views(kept@) == collapsed(all.take(i as int)),
            indexes(table@, text::views(kept@)),
        decreases n - i,
    {
        let row = &rows[i];
        let ghost next = all.take(i + 1);
        let ghost was = text::views(kept@);
        let ghost seen = table@;
        assert(next.drop_last() =~= all.take(i as int));
        assert(next.last() == row@);
        let key = pack_instance(row.entity_id, row.start_tick);
        proof {
            assert forall|k: int| 0 <= k < was.len() implies same_instance(#[trigger] was[k], row@)
                == (key_of_row(was[k]) == key) by {
                lemma_instance_key(
                    was[k].entity_id,
                    was[k].start_tick,
                    row.entity_id,
                    row.start_tick,
                );
            }
        }
        let found: Option<usize> = match table.get(&key) {
            Some(k) => Some(*k),
            None => None,
        };
        match found {
            None => {
                proof {
                    if is_kept(was, row@) {
                        let k = choose|k: int|
                            0 <= k < was.len() && same_instance(#[trigger] was[k], row@);
                        assert(table@.contains_key(key_of_row(was[k]) as u64));
                    }
                }
                let place: usize = kept.len();
                table.insert(key, place);
                kept.push(row.copy());
                proof {
                    let now = text::views(kept@);
                    assert(now == was.push(row@));
                    assert forall|k: int| 0 <= k < now.len() implies table@.contains_key(
                        key_of_row(#[trigger] now[k]) as u64,
                    ) && table@[key_of_row(now[k]) as u64] == k by {
                        if k < was.len() {
                            assert(now[k] == was[k]);
                            lemma_instance_key(
                                was[k].entity_id,
                                was[k].start_tick,
                                row.entity_id,
                                row.start_tick,
                            );
                            assert(!same_instance(was[k], row@));
                        }
                    }
                    assert forall|other: u64| #[trigger] table@.contains_key(other) implies table@[other]
                        < now.len() && key_of_row(now[table@[other] as int]) == other by {
                        if other != key {
                            assert(seen.contains_key(other));
                            assert(now[table@[other] as int] == was[table@[other] as int]);
                        }
                    }
                }
            },
            Some(k) => {
                assert(seen.contains_key(key));
                assert(same_instance(was[k as int], row@));
                if row.end_tick > kept[k].end_tick {
                    kept[k].end_tick = row.end_tick;
                    kept[k].end_at = row.end_at;
                }
                if kept[k].thrower.steamid.is_none() && row.thrower.steamid.is_some() {
                    kept[k].thrower = row.thrower.copy();
                }
                proof {
                    let now = text::views(kept@);
                    assert(now[k as int] == merged(was[k as int], row@));
                    assert forall|j: int| 0 <= j < was.len() implies #[trigger] now[j] == (
                    if same_instance(was[j], row@) {
                        merged(was[j], row@)
                    } else {
                        was[j]
                    }) by {
                        if j != k {
                            if same_instance(was[j], row@) {
                                assert(table@[key_of_row(was[j]) as u64] == j);
                            }
                            assert(kept@[j]@ == was[j]);
                        }
                    }
                    assert(now =~= collapse_step(was, row@));
                    assert forall|j: int| 0 <= j < now.len() implies table@.contains_key(
                        key_of_row(#[trigger] now[j]) as u64,
                    ) && table@[key_of_row(now[j]) as u64] == j by {
                        assert(key_of_row(now[j]) == key_of_row(was[j]));
                    }
                    assert forall|other: u64| #[trigger] table@.contains_key(other) implies table@[other]
                        < now.len() && key_of_row(now[table@[other] as int]) == other by {
                        let j = table@[other] as int;
                        assert(key_of_row(now[j]) == key_of_row(was[j]));
                    }
                }
            },
        }
        i = i + 1;
    }
    assert(all.take(n as int) =~= all);
    kept
}

/// The tick and position at which an instance was seen last: of its rows, the one with
/// the latest tick.
pub open spec fn end_of(rows: Seq<TrackedRow<Seq<char>>>, entity_id: i32, start_tick: i32) -> Option<
    (i32, Vector),
>
    decreases rows.len(),
{
    if rows.len() == 0 {
        None
    } else {
        let before = end_of(rows.drop_last(), entity_id, start_tick);
        let r = rows.last();
        if r.entity_id == entity_id && r.start_tick == start_tick {
            match before {
                Some(e) => if r.tick >= e.0 {
                    Some((r.tick, r.at))
                } else {
                    before
                },
                None => Some((r.tick, r.at)),
            }
        } else {
            before
        }
    }
}

/// The rows with the end of each one's instance.
pub open spec fn with_ends(rows: Seq<TrackedRow<Seq<char>>>) -> Seq<TrackedRow<Seq<char>>> {
    rows.map_values(
        |r: TrackedRow<Seq<char>>|
            match end_of(rows, r.entity_id, r.start_tick) {
                Some(e) => TrackedRow { end_tick: e.0, end_at: e.1, ..r },
                None => r,
            },
    )
}

/// Whether a table tells the end of every instance.
spec fn tells_ends(table: Map<u64, (i32, Vector)>, rows: Seq<TrackedRow<Seq<char>>>) -> bool {
    forall|id: i32, start: i32| #[trigger]
        end_of(rows, id, start) == (if table.contains_key(instance_key(id, start) as u64) {
            Some(table[instance_key(id, start) as u64])
        } else {
            None
        })
}

/// Fill each instance's end from the last tick it was seen: grenades have no event window
/// to bound them.
pub fn fill_trajectory_ends(rows: &mut Vec<TrackedRow>)
    ensures
        text::views(final(rows)@) == with_ends(text::views(old(rows)@)),
{
    let mut table: HashMap<u64, (i32, Vector)> = HashMap::new();
    let ghost all = text::views(rows@);
    let n: usize = rows.len();
    let mut i: usize = 0;
    assert(all.take(0) =~= Seq::empty());
    while i < n
        invariant
            i <= n,
            n == rows@.len(),
            all == text::views(rows@),
            tells_ends(table@, all.take(i as int)),
        decreases n - i,
    {
        let ghost next = all.take(i + 1);
        assert(next.drop_last() =~= all.take(i as int));
        let r = &rows[i];
        assert(next.last() == r@);
        assert(end_of(next.drop_last(), r.entity_id, r.start_tick) == end_of(
            all.take(i as int),
            r.entity_id,
            r.start_tick,
        ));
        let key = pack_instance(r.entity_id, r.start_tick);
        let later = match table.get(&key) {
            Some(e) => r.tick >= e.0,
            None => true,
        };
        if later {
            table.insert(key, (r.tick, r.at));
        }
        proof {
            assert forall|id: i32, start: i32| #[trigger] end_of(next, id, start) == (
            if table@.contains_key(instance_key(id, start) as u64) {
                Some(table@[instance_key(id, start) as u64])
            } else {
                None
            }) by {
                lemma_instance_key(id, start, r.entity_id, r.start_tick);
                lemma_instance_key(r.entity_id, r.start_tick, id, start);
                assert(end_of(next.drop_last(), id, start) == end_of(all.take(i as int), id, start));
            }
        }
        i = i + 1;
    }
    assert(all.take(n as int) =~= all);
    let ghost done = with_ends(all);
    let mut k: usize = 0;
    while k < n
        invariant
            k <= n,
            n == rows@.len(),
            n == all.len(),
            done == with_ends(all),
            tells_ends(table@, all),
            forall|j: int| 0 <= j < k ==> (#[trigger] rows@[j])@ == done[j],
            forall|j: int| k <= j < n ==> (#[trigger] rows@[j])@ == all[j],
        decreases n - k,
    {
        let key = pack_instance(rows[k].entity_id, rows[k].start_tick);
        assert(rows@[k as int]@ == all[k as int]);
        assert(end_of(all, all[k as int].entity_id, all[k as int].start_tick) == end_of(
            all,
            rows@[k as int].entity_id,
            rows@[k as int].start_tick,
        ));
        if let Some(e) = table.get(&key) {
            let (end_tick, end_at) = *e;
            rows[k].end_tick = end_tick;
            rows[k].end_at = end_at;
        }
        k = k + 1;
    }
    assert(text::views(rows@) =~= done);
}

/// A stretch of ticks during which a fire burns or a smoke stands, by entity index.
#[derive(Clone, Copy, Debug, PartialEq, Eq, Structural)]
pub struct Window {
    pub entity_id: i32,
    pub start: i32,
    pub end: i32,
}

/// The windows that are over, and the start ticks of those still open.
pub struct WindowsState {
    pub open: Map<i32, i32>,
    pub over: Seq<Window>,
}

/// The entity that an event is about.
pub open spec fn entity_of(e: GameEvent) -> i32 {
    keys::key_i32(e.keys@, "entityid"@)
}

/// The windows once another event is seen: a start opens one, an end closes it.
pub open spec fn windows_step(
    s: WindowsState,
    start_event: Seq<char>,
    end_event: Seq<char>,
    e: GameEvent,
) -> WindowsState {
    let id = entity_of(e);
    if e.name@ == start_event {
        WindowsState { open: s.open.insert(id, e.tick), over: s.over }
    } else if e.name@ == end_event && s.open.contains_key(id) {
        WindowsState {
            open: s.open.remove(id),
            over: s.over.push(Window { entity_id: id, start: s.open[id], end: e.tick }),
        }
    } else {
        s
    }
}

/// The windows of a run of events.
pub open spec fn windows_run(start_event: Seq<char>, end_event: Seq<char>, events: Seq<GameEvent>) -> WindowsState
    decreases events.len(),
{
    if events.len() == 0 {
        WindowsState { open: Map::empty(), over: Seq::empty() }
    } else {
        windows_step(
            windows_run(start_event, end_event, events.drop_last()),
            start_event,
            end_event,
            events.last(),
        )
    }
}

/// The windows that start and end events of the same entity bound.
pub open spec fn windows_of(start_event: Seq<char>, end_event: Seq<char>, events: Seq<GameEvent>) -> Seq<
    Window,
> {
    windows_run(start_event, end_event, events).over
}

/// Pair start and end events, by the entity they name, into active windows.
pub fn burn_intervals(start_event: &str, end_event: &str, events: &Vec<GameEvent>) -> (over: Vec<Window>)
    ensures
        over@ == windows_of(start_event@, end_event@, events@),
{
    let mut open: HashMap<i32, i32> = HashMap::new();
    let mut over: Vec<Window> = Vec::new();
    let n: usize = events.len();
    let mut i: usize = 0;
    assert(events@.take(0) =~= Seq::<GameEvent>::empty());
    assert(open@ =~= Map::empty());
    while i < n
        invariant
            i <= n,
            n == events@.len(),
            open@ == windows_run(start_event@, end_event@, events@.take(i as int)).open,
            over@ == windows_run(start_event@, end_event@, events@.take(i as int)).over,
        decreases n - i,
    {
        assert(events@.take(i + 1).drop_last() =~= events@.take(i as int));
        let e = &events[i];
        let name = e.name.as_str();
        if same_text(name, start_event) {
            open.insert(Keys(&e.keys).i32("entityid"), e.tick);
        } else if same_text(name, end_event) {
            let id = Keys(&e.keys).i32("entityid");
            if let Some(start) = open.remove(&id) {
                over.push(Window { entity_id: id, start, end: e.tick });
            }
        }
        i = i + 1;
    }
    assert(events@.take(n as int) =~= events@);
    over
}

/// The first window of an entity that a tick falls in.
pub open spec fn window_at(windows: Seq<Window>, entity_id: i32, tick: i32) -> Option<Window> {
    order::first_match(
        windows,
        |w: Window| w.entity_id == entity_id && w.start <= tick <= w.end,
    )
}

fn find_window(windows: &Vec<Window>, entity_id: i32, tick: i32) -> (w: Option<Window>)
    ensures
        w == window_at(windows@, entity_id, tick),
{
    let n: usize = windows.len();
    let ghost p = |w: Window| w.entity_id == entity_id && w.start <= tick <= w.end;
    let mut i: usize = 0;
    while i < n
        invariant
            i <= n,
            n == windows@.len(),
            p == (|w: Window| w.entity_id == entity_id && w.start <= tick <= w.end),
            forall|j: int| 0 <= j < i ==> !p(#[trigger] windows@[j]),
        decreases n - i,
    {
        let w = windows[i];
        if w.entity_id == entity_id && w.start <= tick && tick <= w.end {
            proof {
                order::lemma_first_match(windows@, p, i as int);
            }
            return Some(w);
        }
        i = i + 1;
    }
    proof {
        order::lemma_first_match(windows@, p, n as int);
    }
    None
}

/// Where an HE grenade went off, if the event says so in full.
pub open spec fn blast_of(e: GameEvent) -> Option<Vector> {
    if e.name@ == "hegrenade_detonate"@ {
        match (
            keys::key_number(e.keys@, "x"@),
            keys::key_number(e.keys@, "y"@),
            keys::key_number(e.keys@, "z"@),
        ) {
            (Some(x), Some(y), Some(z)) => Some(Vector { x, y, z }),
            _ => None,
        }
    } else {
        None
    }
}

/// A detonation of an HE grenade: the index of the entity that went off, the tick and the
/// place.
#[derive(Clone, Copy, Debug, PartialEq, Eq, Structural)]
pub struct Blast {
    pub entity_id: i32,
    pub tick: i32,
    pub at: Vector,
}

/// The HE detonations among events, in their order.
pub open spec fn he_blasts(events: Seq<GameEvent>) -> Seq<Blast>
    decreases events.len(),
{
    if events.len() == 0 {
        Seq::empty()
    } else {
        let rest = he_blasts(events.drop_last());
        let e = events.last();
        match blast_of(e) {
            Some(at) => rest.push(Blast { entity_id: entity_of(e), tick: e.tick, at }),
            None => rest,
        }
    }
}

/// The HE detonations among events, each with the index of the entity that went off.
pub fn hegrenade_detonations(events: &Vec<GameEvent>) -> (out: Vec<Blast>)
    ensures
        out@ == he_blasts(events@),
{
    let mut out: Vec<Blast> = Vec::new();
    let n: usize = events.len();
    let mut i: usize = 0;
    assert(events@.take(0) =~= Seq::<GameEvent>::empty());
    while i < n
        invariant
            i <= n,
            n == events@.len(),
            out@ == he_blasts(events@.take(i as int)),
        decreases n - i,
    {
        assert(events@.take(i + 1).drop_last() =~= events@.take(i as int));
        let e = &events[i];
        if same_text(e.name.as_str(), "hegrenade_detonate") {
            let k = Keys(&e.keys);
            if let (Some(x), Some(y), Some(z)) = (k.number("x"), k.number("y"), k.number("z")) {
                out.push(
                    Blast { entity_id: k.i32("entityid"), tick: e.tick, at: Vector { x, y, z } },
                );
            }
        }
        i = i + 1;
    }
    assert(events@.take(n as int) =~= events@);
    out
}

/// Whether a tick lies in a stretch: from its first tick on and, if the stretch has an end,
/// before that.
pub open spec fn in_stretch(tick: i32, from: i32, until: Option<i32>) -> bool {
    from <= tick && match until {
        Some(end) => tick < end,
        None => true,
    }
}

/// Where HE grenades went off during a stretch, by entity index; the last one counts.
pub open spec fn blasts_within(blasts: Seq<Blast>, from: i32, until: Option<i32>) -> Map<i32, Vector>
    decreases blasts.len(),
{
    if blasts.len() == 0 {
        Map::empty()
    } else {
        let rest = blasts_within(blasts.drop_last(), from, until);
        let b = blasts.last();
        if in_stretch(b.tick, from, until) {
            rest.insert(b.entity_id, b.at)
        } else {
            rest
        }
    }
}

/// Where HE grenades went off during a stretch, by entity index.
fn table_within(blasts: &Vec<Blast>, from: i32, until: Option<i32>) -> (table: HashMap<i32, Vector>)
    ensures
        table@ == blasts_within(blasts@, from, until),
{
    let mut table: HashMap<i32, Vector> = HashMap::new();
    let n: usize = blasts.len();
    let mut i: usize = 0;
    assert(blasts@.take(0) =~= Seq::<Blast>::empty());
    assert(table@ =~= Map::empty());
    while i < n
        invariant
            i <= n,
            n == blasts@.len(),
            table@ == blasts_within(blasts@.take(i as int), from, until),
        decreases n - i,
    {
        assert(blasts@.take(i + 1).drop_last() =~= blasts@.take(i as int));
        let b = blasts[i];
        let over = match until {
            Some(end) => b.tick >= end,
            None => false,
        };
        if from <= b.tick && !over {
            table.insert(b.entity_id, b.at);
        }
        i = i + 1;
    }
    assert(blasts@.take(n as int) =~= blasts@);
    table
}

/// The start of the next instance under an entity index: the earliest after `start`.
pub open spec fn next_start(rows: Seq<TrackedRow<Seq<char>>>, entity_id: i32, start: i32) -> Option<i32>
    decreases rows.len(),
{
    if rows.len() == 0 {
        None
    } else {
        let rest = next_start(rows.drop_last(), entity_id, start);
        let r = rows.last();
        if r.entity_id == entity_id && r.start_tick > start {
            match rest {
                Some(t) => if r.start_tick < t {
                    Some(r.start_tick)
                } else {
                    rest
                },
                None => Some(r.start_tick),
            }
        } else {
            rest
        }
    }
}

/// The start of the next instance under an entity index.
fn find_next_start(rows: &Vec<TrackedRow>, entity_id: i32, start: i32) -> (next: Option<i32>)
    ensures
        next == next_start(text::views(rows@), entity_id, start),
{
    let ghost all = text::views(rows@);
    let mut next: Option<i32> = None;
    let n: usize = rows.len();
    let mut i: usize = 0;
    assert(all.take(0) =~= Seq::empty());
    while i < n
        invariant
            i <= n,
            n == rows@.len(),
            all == text::views(rows@),
            next == next_start(all.take(i as int), entity_id, start),
        decreases n - i,
    {
        assert(all.take(i + 1).drop_last() =~= all.take(i as int));
        assert(all.take(i + 1).last() == rows@[i as int]@);
        let r = &rows[i];
        if r.entity_id == entity_id && r.start_tick > start {
            let sooner = match next {
                Some(t) => r.start_tick < t,
                None => true,
            };
            if sooner {
                next = Some(r.start_tick);
            }
        }
        i = i + 1;
    }
    assert(all.take(n as int) =~= all);
    next
}

/// Where HE grenades went off while an instance had its entity index: from its start up to
/// the start of the next instance under the index.
pub open spec fn own_blasts(
    instances: Seq<TrackedRow<Seq<char>>>,
    blasts: Seq<Blast>,
    r: TrackedRow<Seq<char>>,
) -> Map<i32, Vector> {
    blasts_within(blasts, r.start_tick, next_start(instances, r.entity_id, r.start_tick))
}

/// The player that an entity says threw it: grenade projectiles name a thrower, infernos
/// an owner.
pub open spec fn thrower_of(schema: Schema, lens: Lens, f: Frame, e: Entity) -> ResolvedPlayer<
    Seq<char>,
> {
    let handle = match e.handle_at(schema.key_of(e.class_name@, "m_hThrower"@)) {
        Some(h) => Some(h),
        None => e.handle_at(schema.key_of(e.class_name@, "m_hOwnerEntity"@)),
    };
    match handle {
        Some(h) => lens.player_of_handle(f.entities@, h as i64, Map::empty()),
        None => resolve::no_player(),
    }
}

/// Where an entity is, and who threw it, if it is in use and has a position.
pub open spec fn sample_of(schema: Schema, lens: Lens, f: Frame, e: Entity) -> Option<
    (Vector, ResolvedPlayer<Seq<char>>),
> {
    if e.active && schema.serializer_of(e.class_name@) is Some {
        match PositionKeys::in_class(schema, e.class_name@).position(e) {
            Some(at) => Some((at, thrower_of(schema, lens, f, e))),
            None => None,
        }
    } else {
        None
    }
}

fn sample(schema: &Schema, lens: &Lens, f: &Frame, e: &Entity) -> (s: Option<(Vector, ResolvedPlayer)>)
    ensures
        match s {
            Some(v) => sample_of(*schema, *lens, *f, *e) == Some((v.0, v.1@)),
            None => sample_of(*schema, *lens, *f, *e) is None,
        },
{
    if !e.active {
        return None;
    }
    match schema.serializer(e.class_name.as_str()) {
        None => None,
        Some(ser) => match PositionKeys::resolve(ser).world(e) {
            None => None,
            Some(at) => {
                let handle = match e.get_handle(ser.resolve_field_key("m_hThrower")) {
                    Some(h) => Some(h),
                    None => e.get_handle(ser.resolve_field_key("m_hOwnerEntity")),
                };
                let thrower = match handle {
                    Some(h) => {
                        let no_clans: HashMap<i64, String> = HashMap::new();
                        assert(resolve::clan_names(no_clans@) =~= Map::empty());
                        lens.resolve_player(f, h as i64, &no_clans)
                    },
                    None => ResolvedPlayer::nobody(),
                };
                Some((at, thrower))
            },
        },
    }
}

/// A sample of an entity inside an event window.
pub open spec fn windowed_row(
    schema: Schema,
    lens: Lens,
    class: Seq<char>,
    windows: Seq<Window>,
    f: Frame,
    e: Entity,
) -> Option<TrackedRow<Seq<char>>> {
    if e.class_name@ == class {
        match (sample_of(schema, lens, f, e), window_at(windows, e.index, f.tick)) {
            (Some((at, thrower)), Some(w)) => Some(
                TrackedRow {
                    tick: f.tick,
                    entity_id: e.index,
                    class_name: class,
                    at,
                    thrower,
                    start_tick: w.start,
                    end_tick: w.end,
                    end_at: at,
                },
            ),
            _ => None,
        }
    } else {
        None
    }
}

/// The samples of a class inside event windows, among the entities of a tick.
pub open spec fn windowed_in(
    schema: Schema,
    lens: Lens,
    class: Seq<char>,
    windows: Seq<Window>,
    f: Frame,
    entities: Seq<Entity>,
) -> Seq<TrackedRow<Seq<char>>>
    decreases entities.len(),
{
    if entities.len() == 0 {
        Seq::empty()
    } else {
        let rest = windowed_in(schema, lens, class, windows, f, entities.drop_last());
        match windowed_row(schema, lens, class, windows, f, entities.last()) {
            Some(r) => rest.push(r),
            None => rest,
        }
    }
}

/// The samples of a class inside event windows, over a run of ticks.
pub open spec fn windowed_through(
    schema: Schema,
    lens: Lens,
    class: Seq<char>,
    windows: Seq<Window>,
    frames: Seq<Frame>,
) -> Seq<TrackedRow<Seq<char>>>
    decreases frames.len(),
{
    if frames.len() == 0 {
        Seq::empty()
    } else {
        windowed_through(schema, lens, class, windows, frames.drop_last()) + windowed_in(
            schema,
            lens,
            class,
            windows,
            frames.last(),
            frames.last().entities@,
        )
    }
}

/// Thrown grenades as they are followed: the samples so far; the entity indices seen on
/// the tick before and on this one; the start tick of each.
pub struct Flights {
    pub rows: Seq<TrackedRow<Seq<char>>>,
    pub prev: Set<i32>,
    pub current: Set<i32>,
    pub starts: Map<i32, i32>,
}

/// Before the first tick there are none.
pub open spec fn no_flights() -> Flights {
    Flights {
        rows: Seq::empty(),
        prev: Set::empty(),
        current: Set::empty(),
        starts: Map::empty(),
    }
}

/// One entity: a grenade gives a sample on every tick, and an index not seen on the tick
/// before starts an instance.
pub open spec fn flights_step(
    s: Flights,
    schema: Schema,
    lens: Lens,
    f: Frame,
    e: Entity,
) -> Flights {
    match (lens.names.grenade(e.class_name@), sample_of(schema, lens, f, e)) {
        (Some(_), Some((at, thrower))) => {
            let starts = if s.prev.contains(e.index) {
                s.starts
            } else {
                s.starts.insert(e.index, f.tick)
            };
            let start = if starts.contains_key(e.index) {
                starts[e.index]
            } else {
                f.tick
            };
            Flights {
                rows: s.rows.push(
                    TrackedRow {
                        tick: f.tick,
                        entity_id: e.index,
                        class_name: e.class_name@,
                        at,
                        thrower,
                        start_tick: start,
                        end_tick: 0,
                        end_at: at,
                    },
                ),
                prev: s.prev,
                current: s.current.insert(e.index),
                starts,
            }
        },
        _ => s,
    }
}

/// The entities of a tick.
pub open spec fn flights_in(
    s: Flights,
    schema: Schema,
    lens: Lens,
    f: Frame,
    entities: Seq<Entity>,
) -> Flights
    decreases entities.len(),
{
    if entities.len() == 0 {
        s
    } else {
        flights_step(
            flights_in(s, schema, lens, f, entities.drop_last()),
            schema,
            lens,
            f,
            entities.last(),
        )
    }
}

/// The next tick begins: what was seen on this one was seen on the one before.
pub open spec fn flights_turn(s: Flights) -> Flights {
    Flights { prev: s.current, current: Set::empty(), ..s }
}

/// A run of ticks.
pub open spec fn flights_through(schema: Schema, lens: Lens, frames: Seq<Frame>) -> Flights
    decreases frames.len(),
{
    if frames.len() == 0 {
        no_flights()
    } else {
        let f = frames.last();
        flights_turn(
            flights_in(
                flights_through(schema, lens, frames.drop_last()),
                schema,
                lens,
                f,
                f.entities@,
            ),
        )
    }
}

/// The samples of the three projectile datasets, as they are gathered.
pub struct Tracks {
    pub grenades: Vec<TrackedRow>,
    pub fires: Vec<TrackedRow>,
    pub smokes: Vec<TrackedRow>,
}

/// The pass over a demo that follows projectiles.
struct TrackPass {
    tracks: Tracks,
    prev: HashSet<i32>,
    current: HashSet<i32>,
    starts: HashMap<i32, i32>,
}

impl TrackPass {
    spec fn flights(self) -> Flights {
        Flights {
            rows: text::views(self.tracks.grenades@),
            prev: self.prev@,
            current: self.current@,
            starts: self.starts@,
        }
    }

    /// Take in a sample of a grenade.
    fn take_grenade(&mut self, f: &Frame, e: &Entity, at: Vector, thrower: &ResolvedPlayer, Ghost(
        given,
    ): Ghost<(Schema, Lens)>)
        requires
            given.1.names.grenade(e.class_name@) is Some,
            sample_of(given.0, given.1, *f, *e) == Some((at, thrower@)),
        ensures
            final(self).flights() == flights_step(old(self).flights(), given.0, given.1, *f, *e),
            final(self).tracks.fires == old(self).tracks.fires,
            final(self).tracks.smokes == old(self).tracks.smokes,
    {
        let index = e.index;
        self.current.insert(index);
        if !self.prev.contains(&index) {
            self.starts.insert(index, f.tick);
        }
        let start_tick = match self.starts.get(&index) {
            Some(t) => *t,
            None => f.tick,
        };
        self.tracks.grenades.push(
            TrackedRow {
                tick: f.tick,
                entity_id: index,
                class_name: e.class_name.clone(),
                at,
                thrower: thrower.copy(),
                start_tick,
                end_tick: 0,
                end_at: at,
            },
        );
    }
}

/// A sample of an entity inside an event window.
fn take_windowed(
    rows: &mut Vec<TrackedRow>,
    windows: &Vec<Window>,
    f: &Frame,
    e: &Entity,
    at: Vector,
    thrower: &ResolvedPlayer,
    Ghost(given): Ghost<(Schema, Lens)>,
)
    requires
        sample_of(given.0, given.1, *f, *e) == Some((at, thrower@)),
    ensures
        text::views(final(rows)@) == text::views(old(rows)@) + events::one(
            windowed_row(given.0, given.1, e.class_name@, windows@, *f, *e),
        ),
{
    let ghost before = text::views(rows@);
    match find_window(windows, e.index, f.tick) {
        Some(w) => {
            rows.push(
                TrackedRow {
                    tick: f.tick,
                    entity_id: e.index,
                    class_name: e.class_name.clone(),
                    at,
                    thrower: thrower.copy(),
                    start_tick: w.start,
                    end_tick: w.end,
                    end_at: at,
                },
            );
        },
        None => {},
    }
    assert(text::views(rows@) =~= before + events::one(
        windowed_row(given.0, given.1, e.class_name@, windows@, *f, *e),
    ));
}

impl TrackPass {
    /// Take in one entity of a tick.
    fn take_entity(
        &mut self,
        schema: &Schema,
        lens: &Lens,
        fire_windows: &Vec<Window>,
        smoke_windows: &Vec<Window>,
        f: &Frame,
        e: &Entity,
    )
        ensures
            final(self).flights() == flights_step(old(self).flights(), *schema, *lens, *f, *e),
            text::views(final(self).tracks.fires@) == text::views(old(self).tracks.fires@)
                + events::one(
                windowed_row(*schema, *lens, INFERNO_CLASS@, fire_windows@, *f, *e),
            ),
            text::views(final(self).tracks.smokes@) == text::views(old(self).tracks.smokes@)
                + events::one(
                windowed_row(*schema, *lens, SMOKE_CLASS@, smoke_windows@, *f, *e),
            ),
    {
        let class = e.class_name.as_str();
        let grenade = lens.names.grenade_type(class).is_some();
        let fire = same_text(class, INFERNO_CLASS);
        let smoke = same_text(class, SMOKE_CLASS);
        let ghost fires = text::views(self.tracks.fires@);
        let ghost smokes = text::views(self.tracks.smokes@);
        assert(fires + Seq::empty() =~= fires);
        assert(smokes + Seq::empty() =~= smokes);
        if grenade || fire || smoke {
            if let Some((at, thrower)) = sample(schema, lens, f, e) {
                if grenade {
                    self.take_grenade(f, e, at, &thrower, Ghost((*schema, *lens)));
                }
                if fire {
                    take_windowed(
                        &mut self.tracks.fires,
                        fire_windows,
                        f,
                        e,
                        at,
                        &thrower,
                        Ghost((*schema, *lens)),
                    );
                }
                if smoke {
                    take_windowed(
                        &mut self.tracks.smokes,
                        smoke_windows,
                        f,
                        e,
                        at,
                        &thrower,
                        Ghost((*schema, *lens)),
                    );
                }
            }
        }
    }

    /// Take in every entity of a tick.
    fn take_frame(
        &mut self,
        schema: &Schema,
        lens: &Lens,
        fire_windows: &Vec<Window>,
        smoke_windows: &Vec<Window>,
        f: &Frame,
    )
        ensures
            final(self).flights() == flights_in(
                old(self).flights(),
                *schema,
                *lens,
                *f,
                f.entities@,
            ),
            text::views(final(self).tracks.fires@) == text::views(old(self).tracks.fires@)
                + windowed_in(*schema, *lens, INFERNO_CLASS@, fire_windows@, *f, f.entities@),
            text::views(final(self).tracks.smokes@) == text::views(old(self).tracks.smokes@)
                + windowed_in(*schema, *lens, SMOKE_CLASS@, smoke_windows@, *f, f.entities@),
    {
        let n: usize = f.entities.len();
        let ghost start = *self;
        let ghost fires = text::views(self.tracks.fires@);
        let ghost smokes = text::views(self.tracks.smokes@);
        let mut i: usize = 0;
        assert(f.entities@.take(0) =~= Seq::<Entity>::empty());
        assert(fires + Seq::empty() =~= fires);
        assert(smokes + Seq::empty() =~= smokes);
        while i < n
            invariant
                i <= n,
                n == f.entities@.len(),
                self.flights() == flights_in(
                    start.flights(),
                    *schema,
                    *lens,
                    *f,
                    f.entities@.take(i as int),
                ),
                text::views(self.tracks.fires@) == fires + windowed_in(
                    *schema,
                    *lens,
                    INFERNO_CLASS@,
                    fire_windows@,
                    *f,
                    f.entities@.take(i as int),
                ),
                text::views(self.tracks.smokes@) == smokes + windowed_in(
                    *schema,
                    *lens,
                    SMOKE_CLASS@,
                    smoke_windows@,
                    *f,
                    f.entities@.take(i as int),
                ),
            decreases n - i,
        {
            let ghost next = f.entities@.take(i + 1);
            assert(next.drop_last() =~= f.entities@.take(i as int));
            proof {
                events::lemma_one_more(
                    fires,
                    windowed_in(*schema, *lens, INFERNO_CLASS@, fire_windows@, *f, next.drop_last()),
                    windowed_row(*schema, *lens, INFERNO_CLASS@, fire_windows@, *f, next.last()),
                );
                events::lemma_one_more(
                    smokes,
                    windowed_in(*schema, *lens, SMOKE_CLASS@, smoke_windows@, *f, next.drop_last()),
                    windowed_row(*schema, *lens, SMOKE_CLASS@, smoke_windows@, *f, next.last()),
                );
            }
            self.take_entity(schema, lens, fire_windows, smoke_windows, f, &f.entities[i]);
            i = i + 1;
        }
        assert(f.entities@.take(n as int) =~= f.entities@);
    }
}

/// Track projectile entities tick by tick in one pass, sampling each one's world position
/// and resolved thrower. A smoke projectile feeds two datasets: the grenades by its throw,
/// the smokes by its cloud.
pub fn track_projectiles(
    schema: &Schema,
    lens: &Lens,
    fire_windows: &Vec<Window>,
    smoke_windows: &Vec<Window>,
    frames: &Vec<Frame>,
) -> (tracks: Tracks)
    ensures
        text::views(tracks.grenades@) == flights_through(*schema, *lens, frames@).rows,
        text::views(tracks.fires@) == windowed_through(
            *schema,
            *lens,
            INFERNO_CLASS@,
            fire_windows@,
            frames@,
        ),
        text::views(tracks.smokes@) == windowed_through(
            *schema,
            *lens,
            SMOKE_CLASS@,
            smoke_windows@,
            frames@,
        ),
{
    let mut pass = TrackPass {
        tracks: Tracks { grenades: Vec::new(), fires: Vec::new(), smokes: Vec::new() },
        prev: HashSet::new(),
        current: HashSet::new(),
        starts: HashMap::new(),
    };
    let n: usize = frames.len();
    let mut i: usize = 0;
    assert(frames@.take(0) =~= Seq::<Frame>::empty());
    assert(pass.prev@ =~= Set::empty());
    assert(pass.starts@ =~= Map::empty());
    while i < n
        invariant
            i <= n,
            n == frames@.len(),
            pass.flights() == flights_through(*schema, *lens, frames@.take(i as int)),
            text::views(pass.tracks.fires@) == windowed_through(
                *schema,
                *lens,
                INFERNO_CLASS@,
                fire_windows@,
                frames@.take(i as int),
            ),
            text::views(pass.tracks.smokes@) == windowed_through(
                *schema,
                *lens,
                SMOKE_CLASS@,
                smoke_windows@,
                frames@.take(i as int),
            ),
        decreases n - i,
    {
        assert(frames@.take(i + 1).drop_last() =~= frames@.take(i as int));
        pass.take_frame(schema, lens, fire_windows, smoke_windows, &frames[i]);
        let mut seen: HashSet<i32> = HashSet::new();
        std::mem::swap(&mut seen, &mut pass.current);
        pass.prev = seen;
        assert(pass.current@ =~= Set::empty());
        i = i + 1;
    }
    assert(frames@.take(n as int) =~= frames@);
    pass.tracks
}

/// One sample of a thrown grenade's trajectory.
#[derive(Clone, Debug)]
pub struct Grenade<T = String> {
    pub tick: i32,
    pub thrower_name: Option<T>,
    pub thrower_steamid: Option<u64>,
    pub thrower_side: Option<T>,
    pub grenade_type: T,
    pub entity_id: i32,
    pub x: Float,
    pub y: Float,
    pub z: Float,
}

impl View for Grenade {
    type V = Grenade<Seq<char>>;

    open spec fn view(&self) -> Grenade<Seq<char>> {
        Grenade {
            tick: self.tick,
            thrower_name: text::of(self.thrower_name),
            thrower_steamid: self.thrower_steamid,
            thrower_side: text::of(self.thrower_side),
            grenade_type: self.grenade_type@,
            entity_id: self.entity_id,
            x: self.x,
            y: self.y,
            z: self.z,
        }
    }
}

/// One thrown grenade: the throw (first tracked position) and the land (last tracked
/// position or, for HE, the position of its detonation when there is one).
#[derive(Clone, Debug)]
pub struct GrenadeThrow<T = String> {
    pub thrower_name: Option<T>,
    pub thrower_steamid: Option<u64>,
    pub thrower_side: Option<T>,
    pub grenade_type: T,
    pub entity_id: i32,
    pub throw_tick: i32,
    pub throw_x: Float,
    pub throw_y: Float,
    pub throw_z: Float,
    pub land_tick: i32,
    pub land_x: Float,
    pub land_y: Float,
    pub land_z: Float,
    /// Whether the land position is that of a detonation. HE only.
    pub land_is_precise: bool,
}

impl View for GrenadeThrow {
    type V = GrenadeThrow<Seq<char>>;

    open spec fn view(&self) -> GrenadeThrow<Seq<char>> {
        GrenadeThrow {
            thrower_name: text::of(self.thrower_name),
            thrower_steamid: self.thrower_steamid,
            thrower_side: text::of(self.thrower_side),
            grenade_type: self.grenade_type@,
            entity_id: self.entity_id,
            throw_tick: self.throw_tick,
            throw_x: self.throw_x,
            throw_y: self.throw_y,
            throw_z: self.throw_z,
            land_tick: self.land_tick,
            land_x: self.land_x,
            land_y: self.land_y,
            land_z: self.land_z,
            land_is_precise: self.land_is_precise,
        }
    }
}

/// A single burning inferno, with its position, thrower and burn window.
#[derive(Clone, Debug)]
pub struct Fire<T = String> {
    pub start_tick: i32,
    pub end_tick: i32,
    pub thrower_name: Option<T>,
    pub thrower_steamid: Option<u64>,
    pub thrower_side: Option<T>,
    pub fire_type: T,
    pub entity_id: i32,
    pub x: Float,
    pub y: Float,
    pub z: Float,
}

impl View for Fire {
    type V = Fire<Seq<char>>;

    open spec fn view(&self) -> Fire<Seq<char>> {
        Fire {
            start_tick: self.start_tick,
            end_tick: self.end_tick,
            thrower_name: text::of(self.thrower_name),
            thrower_steamid: self.thrower_steamid,
            thrower_side: text::of(self.thrower_side),
            fire_type: self.fire_type@,
            entity_id: self.entity_id,
            x: self.x,
            y: self.y,
            z: self.z,
        }
    }
}

/// A single deployed smoke cloud, with its position, thrower and active window.
#[derive(Clone, Debug)]
pub struct Smoke<T = String> {
    pub start_tick: i32,
    pub end_tick: i32,
    pub thrower_name: Option<T>,
    pub thrower_steamid: Option<u64>,
    pub thrower_side: Option<T>,
    pub entity_id: i32,
    pub x: Float,
    pub y: Float,
    pub z: Float,
}

impl View for Smoke {
    type V = Smoke<Seq<char>>;

    open spec fn view(&self) -> Smoke<Seq<char>> {
        Smoke {
            start_tick: self.start_tick,
            end_tick: self.end_tick,
            thrower_name: text::of(self.thrower_name),
            thrower_steamid: self.thrower_steamid,
            thrower_side: text::of(self.thrower_side),
            entity_id: self.entity_id,
            x: self.x,
            y: self.y,
            z: self.z,
        }
    }
}

/// The type of a grenade projectile class.
pub open spec fn type_of(names: Names, class: Seq<char>) -> Seq<char> {
    match names.grenade(class) {
        Some(t) => t,
        None => "grenade"@,
    }
}

/// A sample as a row of the grenade dataset.
pub open spec fn grenade_row(names: Names, r: TrackedRow<Seq<char>>) -> Grenade<Seq<char>> {
    Grenade {
        tick: r.tick,
        thrower_name: r.thrower.name,
        thrower_steamid: r.thrower.steamid,
        thrower_side: r.thrower.side,
        grenade_type: type_of(names, r.class_name),
        entity_id: r.entity_id,
        x: r.at.x,
        y: r.at.y,
        z: r.at.z,
    }
}

/// A throw with the position of its detonation, if there is one.
pub open spec fn refined(t: GrenadeThrow<Seq<char>>, blasts: Map<i32, Vector>) -> GrenadeThrow<
    Seq<char>,
> {
    if blasts.contains_key(t.entity_id) {
        let at = blasts[t.entity_id];
        GrenadeThrow { land_x: at.x, land_y: at.y, land_z: at.z, land_is_precise: true, ..t }
    } else {
        t
    }
}

/// An instance as a row of the throw dataset.
pub open spec fn throw_row(names: Names, blasts: Map<i32, Vector>, r: TrackedRow<Seq<char>>) -> GrenadeThrow<
    Seq<char>,
> {
    let t = GrenadeThrow {
        thrower_name: r.thrower.name,
        thrower_steamid: r.thrower.steamid,
        thrower_side: r.thrower.side,
        grenade_type: type_of(names, r.class_name),
        entity_id: r.entity_id,
        throw_tick: r.tick,
        throw_x: r.at.x,
        throw_y: r.at.y,
        throw_z: r.at.z,
        land_tick: r.end_tick,
        land_x: r.end_at.x,
        land_y: r.end_at.y,
        land_z: r.end_at.z,
        land_is_precise: false,
    };
    if t.grenade_type == "he"@ {
        refined(t, blasts)
    } else {
        t
    }
}

/// An instance as a row of the fire dataset.
pub open spec fn fire_row(r: TrackedRow<Seq<char>>) -> Fire<Seq<char>> {
    Fire {
        start_tick: r.start_tick,
        end_tick: r.end_tick,
        thrower_name: r.thrower.name,
        thrower_steamid: r.thrower.steamid,
        thrower_side: r.thrower.side,
        fire_type: "inferno"@,
        entity_id: r.entity_id,
        x: r.at.x,
        y: r.at.y,
        z: r.at.z,
    }
}

/// An instance as a row of the smoke dataset.
pub open spec fn smoke_row(r: TrackedRow<Seq<char>>) -> Smoke<Seq<char>> {
    Smoke {
        start_tick: r.start_tick,
        end_tick: r.end_tick,
        thrower_name: r.thrower.name,
        thrower_steamid: r.thrower.steamid,
        thrower_side: r.thrower.side,
        entity_id: r.entity_id,
        x: r.at.x,
        y: r.at.y,
        z: r.at.z,
    }
}

/// The four projectile datasets.
pub struct Projectiles {
    pub grenades: Vec<Grenade>,
    pub fires: Vec<Fire>,
    pub smokes: Vec<Smoke>,
    pub grenade_throws: Vec<GrenadeThrow>,
}

/// The samples of thrown grenades, each with the end of its instance.
pub open spec fn grenade_samples(schema: Schema, lens: Lens, frames: Seq<Frame>) -> Seq<
    TrackedRow<Seq<char>>,
> {
    with_ends(flights_through(schema, lens, frames).rows)
}

/// The trajectories of thrown grenades.
pub open spec fn grenade_rows(schema: Schema, lens: Lens, frames: Seq<Frame>) -> Seq<
    Grenade<Seq<char>>,
> {
    grenade_samples(schema, lens, frames).map_values(
        |r: TrackedRow<Seq<char>>| grenade_row(*lens.names, r),
    )
}

/// The thrown grenades.
pub open spec fn throw_rows(
    schema: Schema,
    lens: Lens,
    frames: Seq<Frame>,
    events: Seq<GameEvent>,
) -> Seq<GrenadeThrow<Seq<char>>> {
    let thrown = collapsed(grenade_samples(schema, lens, frames));
    thrown.map_values(
        |r: TrackedRow<Seq<char>>|
            throw_row(*lens.names, own_blasts(thrown, he_blasts(events), r), r),
    )
}

/// The windows during which fires burn.
pub open spec fn fire_windows(events: Seq<GameEvent>) -> Seq<Window> {
    windows_of("inferno_startburn"@, "inferno_expire"@, events)
}

/// The windows during which smokes stand.
pub open spec fn smoke_windows(events: Seq<GameEvent>) -> Seq<Window> {
    windows_of("smokegrenade_detonate"@, "smokegrenade_expired"@, events)
}

/// The fires.
pub open spec fn fire_rows(
    schema: Schema,
    lens: Lens,
    frames: Seq<Frame>,
    events: Seq<GameEvent>,
) -> Seq<Fire<Seq<char>>> {
    collapsed(
        windowed_through(schema, lens, INFERNO_CLASS@, fire_windows(events), frames),
    ).map_values(|r: TrackedRow<Seq<char>>| fire_row(r))
}

/// The smokes.
pub open spec fn smoke_rows(
    schema: Schema,
    lens: Lens,
    frames: Seq<Frame>,
    events: Seq<GameEvent>,
) -> Seq<Smoke<Seq<char>>> {
    collapsed(
        windowed_through(schema, lens, SMOKE_CLASS@, smoke_windows(events), frames),
    ).map_values(|r: TrackedRow<Seq<char>>| smoke_row(r))
}

fn grenade_kind(names: &Names, class: &str) -> (t: String)
    ensures
        t@ == type_of(*names, class@),
{
    match names.grenade_type(class) {
        Some(t) => t,
        None => "grenade".to_string(),
    }
}

/// Refine an HE throw's landing position to that of its detonation: the exact one, where
/// the last sample can lag by a tick. The land tick stays the last tracked one.
pub fn refine_he_land(throw: &mut GrenadeThrow, detonations: &HashMap<i32, Vector>)
    ensures
        final(throw)@ == refined(old(throw)@, detonations@),
{
    if let Some(at) = detonations.get(&throw.entity_id) {
        throw.land_x = at.x;
        throw.land_y = at.y;
        throw.land_z = at.z;
        throw.land_is_precise = true;
    }
}

fn make_throw(names: &Names, detonations: &HashMap<i32, Vector>, r: &TrackedRow) -> (t: GrenadeThrow)
    ensures
        t@ == throw_row(*names, detonations@, r@),
{
    let mut throw = GrenadeThrow {
        thrower_name: copy_text(&r.thrower.name),
        thrower_steamid: r.thrower.steamid,
        thrower_side: copy_text(&r.thrower.side),
        grenade_type: grenade_kind(names, r.class_name.as_str()),
        entity_id: r.entity_id,
        throw_tick: r.tick,
        throw_x: r.at.x,
        throw_y: r.at.y,
        throw_z: r.at.z,
        land_tick: r.end_tick,
        land_x: r.end_at.x,
        land_y: r.end_at.y,
        land_z: r.end_at.z,
        land_is_precise: false,
    };
    if same_text(throw.grenade_type.as_str(), "he") {
        refine_he_land(&mut throw, detonations);
    }
    throw
}

fn make_grenade(names: &Names, r: &TrackedRow) -> (g: Grenade)
    ensures
        g@ == grenade_row(*names, r@),
{
    Grenade {
        tick: r.tick,
        thrower_name: copy_text(&r.thrower.name),
        thrower_steamid: r.thrower.steamid,
        thrower_side: copy_text(&r.thrower.side),
        grenade_type: grenade_kind(names, r.class_name.as_str()),
        entity_id: r.entity_id,
        x: r.at.x,
        y: r.at.y,
        z: r.at.z,
    }
}

fn make_fire(r: &TrackedRow) -> (g: Fire)
    ensures
        g@ == fire_row(r@),
{
    Fire {
        start_tick: r.start_tick,
        end_tick: r.end_tick,
        thrower_name: copy_text(&r.thrower.name),
        thrower_steamid: r.thrower.steamid,
        thrower_side: copy_text(&r.thrower.side),
        fire_type: "inferno".to_string(),
        entity_id: r.entity_id,
        x: r.at.x,
        y: r.at.y,
        z: r.at.z,
    }
}

fn make_smoke(r: &TrackedRow) -> (g: Smoke)
    ensures
        g@ == smoke_row(r@),
{
    Smoke {
        start_tick: r.start_tick,
        end_tick: r.end_tick,
        thrower_name: copy_text(&r.thrower.name),
        thrower_steamid: r.thrower.steamid,
        thrower_side: copy_text(&r.thrower.side),
        entity_id: r.entity_id,
        x: r.at.x,
        y: r.at.y,
        z: r.at.z,
    }
}

/// Build the projectile datasets in one pass. Samples are split by dataset and finished
/// there: ends are filled in for grenades, instances collapsed for the others.
pub fn find_projectiles(
    schema: &Schema,
    lens: &Lens,
    frames: &Vec<Frame>,
    events: &Vec<GameEvent>,
) -> (p: Projectiles)
    ensures
        text::views(p.grenades@) == grenade_rows(*schema, *lens, frames@),
        text::views(p.fires@) == fire_rows(*schema, *lens, frames@, events@),
        text::views(p.smokes@) == smoke_rows(*schema, *lens, frames@, events@),
        text::views(p.grenade_throws@) == throw_rows(*schema, *lens, frames@, events@),
{
    let burning = burn_intervals("inferno_startburn", "inferno_expire", events);
    let standing = burn_intervals("smokegrenade_detonate", "smokegrenade_expired", events);
    let tracks = track_projectiles(schema, lens, &burning, &standing, frames);
    let mut samples = tracks.grenades;
    fill_trajectory_ends(&mut samples);
    let detonations = hegrenade_detonations(events);
    let thrown = collapse_instances(&samples);
    let mut grenade_throws: Vec<GrenadeThrow> = Vec::new();
    let throws: usize = thrown.len();
    for i in 0..throws
        invariant
            throws == thrown@.len(),
            grenade_throws@.len() == i,
            forall|j: int|
                0 <= j < i ==> (#[trigger] grenade_throws@[j])@ == throw_row(
                    *lens.names,
                    own_blasts(text::views(thrown@), detonations@, thrown@[j]@),
                    thrown@[j]@,
                ),
    {
        let r = &thrown[i];
        let until = find_next_start(&thrown, r.entity_id, r.start_tick);
        let own = table_within(&detonations, r.start_tick, until);
        grenade_throws.push(make_throw(lens.names, &own, r));
    }
    assert(text::views(grenade_throws@) =~= throw_rows(*schema, *lens, frames@, events@));
    let mut grenades: Vec<Grenade> = Vec::new();
    let n: usize = samples.len();
    for i in 0..n
        invariant
            n == samples@.len(),
            grenades@.len() == i,
            forall|j: int|
                0 <= j < i ==> (#[trigger] grenades@[j])@ == grenade_row(*lens.names, samples@[j]@),
    {
        grenades.push(make_grenade(lens.names, &samples[i]));
    }
    assert(text::views(grenades@) =~= grenade_rows(*schema, *lens, frames@));
    let burnt = collapse_instances(&tracks.fires);
    let mut fires: Vec<Fire> = Vec::new();
    let b: usize = burnt.len();
    for i in 0..b
        invariant
            b == burnt@.len(),
            fires@.len() == i,
            forall|j: int| 0 <= j < i ==> (#[trigger] fires@[j])@ == fire_row(burnt@[j]@),
    {
        fires.push(make_fire(&burnt[i]));
    }
    assert(text::views(fires@) =~= fire_rows(*schema, *lens, frames@, events@));
    let stood = collapse_instances(&tracks.smokes);
    let mut smokes: Vec<Smoke> = Vec::new();
    let m: usize = stood.len();
    for i in 0..m
        invariant
            m == stood@.len(),
            smokes@.len() == i,
            forall|j: int| 0 <= j < i ==> (#[trigger] smokes@[j])@ == smoke_row(stood@[j]@),
    {
        smokes.push(make_smoke(&stood[i]));
    }
    assert(text::views(smokes@) =~= smoke_rows(*schema, *lens, frames@, events@));
    Projectiles { grenades, fires, smokes, grenade_throws }
}

/// Whether a row begins as its instance does: as the first of the instance's rows.
pub open spec fn begins_as(rows: Seq<TrackedRow<Seq<char>>>, r: TrackedRow<Seq<char>>, i: int) -> bool {
    &&& 0 <= i < rows.len()
    &&& same_instance(rows[i], r)
    &&& r.tick == rows[i].tick
    &&& r.class_name == rows[i].class_name
    &&& r.at == rows[i].at
    &&& forall|j: int| 0 <= j < i ==> !same_instance(#[trigger] rows[j], r)
}

/// Whether a row ends as one of its instance's rows does.
pub open spec fn ends_as(rows: Seq<TrackedRow<Seq<char>>>, r: TrackedRow<Seq<char>>, i: int) -> bool {
    &&& 0 <= i < rows.len()
    &&& same_instance(rows[i], r)
    &&& r.end_tick == rows[i].end_tick
    &&& r.end_at == rows[i].end_at
}

/// Whether a row begins as its instance does.
pub open spec fn begins(rows: Seq<TrackedRow<Seq<char>>>, r: TrackedRow<Seq<char>>) -> bool {
    exists|i: int| begins_as(rows, r, i)
}

/// Whether a row ends as one of its instance's rows does.
pub open spec fn ends(rows: Seq<TrackedRow<Seq<char>>>, r: TrackedRow<Seq<char>>) -> bool {
    exists|i: int| ends_as(rows, r, i)
}

/// Whether no two rows are of the same instance.
pub open spec fn one_each(kept: Seq<TrackedRow<Seq<char>>>) -> bool {
    forall|a: int, b: int|
        0 <= a < b < kept.len() ==> !same_instance(#[trigger] kept[a], #[trigger] kept[b])
}

/// Whether every row's instance is kept.
pub open spec fn all_kept(rows: Seq<TrackedRow<Seq<char>>>, kept: Seq<TrackedRow<Seq<char>>>) -> bool {
    forall|i: int| 0 <= i < rows.len() ==> #[trigger] is_kept(kept, rows[i])
}

/// Whether every kept row begins as its instance does.
pub open spec fn all_begin(rows: Seq<TrackedRow<Seq<char>>>, kept: Seq<TrackedRow<Seq<char>>>) -> bool {
    forall|k: int| 0 <= k < kept.len() ==> #[trigger] begins(rows, kept[k])
}

/// Whether every kept row ends as one of its instance's rows does.
pub open spec fn all_end(rows: Seq<TrackedRow<Seq<char>>>, kept: Seq<TrackedRow<Seq<char>>>) -> bool {
    forall|k: int| 0 <= k < kept.len() ==> #[trigger] ends(rows, kept[k])
}

/// Whether no row ends later than what is kept of its instance, nor has a thrower that is
/// not kept.
pub open spec fn none_lost(rows: Seq<TrackedRow<Seq<char>>>, kept: Seq<TrackedRow<Seq<char>>>) -> bool {
    forall|k: int, i: int|
        0 <= k < kept.len() && 0 <= i < rows.len() && same_instance(
            #[trigger] kept[k],
            #[trigger] rows[i],
        ) ==> rows[i].end_tick <= kept[k].end_tick && (rows[i].thrower.steamid is Some
            ==> kept[k].thrower.steamid is Some)
}

/// A row of an instance that is kept already.
proof fn lemma_collapse_merges(
    init: Seq<TrackedRow<Seq<char>>>,
    row: TrackedRow<Seq<char>>,
    was: Seq<TrackedRow<Seq<char>>>,
)
    requires
        is_kept(was, row),
        one_each(was),
        all_kept(init, was),
        all_begin(init, was),
        all_end(init, was),
        none_lost(init, was),
    ensures
        one_each(collapse_step(was, row)),
        all_kept(init.push(row), collapse_step(was, row)),
        all_begin(init.push(row), collapse_step(was, row)),
        all_end(init.push(row), collapse_step(was, row)),
        none_lost(init.push(row), collapse_step(was, row)),
{
    let rows = init.push(row);
    let now = collapse_step(was, row);
    let n = init.len() as int;
    let m = choose|k: int| 0 <= k < was.len() && same_instance(#[trigger] was[k], row);
    assert forall|a: int, b: int| 0 <= a < b < now.len() implies !same_instance(
        #[trigger] now[a],
        #[trigger] now[b],
    ) by {
        assert(!same_instance(was[a], was[b]));
    }
    assert forall|i: int| 0 <= i < rows.len() implies #[trigger] is_kept(
        now,
        rows[i],
    ) by {
        if i < n {
            assert(is_kept(was, init[i]));
            let k = choose|k: int| 0 <= k < was.len() && same_instance(#[trigger] was[k], init[i]);
            assert(same_instance(now[k], rows[i]));
        } else {
            assert(same_instance(now[m], row));
        }
    }
    assert forall|k: int| 0 <= k < now.len() implies #[trigger] begins(rows, now[k]) by {
        assert(begins(init, was[k]));
        let i = choose|i: int| begins_as(init, was[k], i);
        assert(rows[i] == init[i]);
        assert forall|j: int| 0 <= j < i implies !same_instance(#[trigger] rows[j], now[k]) by {
            assert(rows[j] == init[j]);
        }
        assert(begins_as(rows, now[k], i));
    }
    assert forall|k: int| 0 <= k < now.len() implies #[trigger] ends(rows, now[k]) by {
        assert(ends(init, was[k]));
        let i = choose|i: int| ends_as(init, was[k], i);
        assert(rows[i] == init[i]);
        if same_instance(was[k], row) && row.end_tick > was[k].end_tick {
            assert(ends_as(rows, now[k], n));
        } else {
            assert(ends_as(rows, now[k], i));
        }
    }
    assert forall|k: int, i: int|
        0 <= k < now.len() && 0 <= i < rows.len() && same_instance(
            #[trigger] now[k],
            #[trigger] rows[i],
        ) implies rows[i].end_tick <= now[k].end_tick && (rows[i].thrower.steamid is Some
        ==> now[k].thrower.steamid is Some) by {
        if i < n {
            assert(same_instance(was[k], init[i]));
        }
    }
}

/// The first row of an instance.
proof fn lemma_collapse_adds(
    init: Seq<TrackedRow<Seq<char>>>,
    row: TrackedRow<Seq<char>>,
    was: Seq<TrackedRow<Seq<char>>>,
)
    requires
        !is_kept(was, row),
        one_each(was),
        all_kept(init, was),
        all_begin(init, was),
        all_end(init, was),
        none_lost(init, was),
    ensures
        one_each(was.push(row)),
        all_kept(init.push(row), was.push(row)),
        all_begin(init.push(row), was.push(row)),
        all_end(init.push(row), was.push(row)),
        none_lost(init.push(row), was.push(row)),
{
    let rows = init.push(row);
    let now = was.push(row);
    let n = init.len() as int;
    assert forall|a: int, b: int| 0 <= a < b < now.len() implies !same_instance(
        #[trigger] now[a],
        #[trigger] now[b],
    ) by {
        assert(now[a] == was[a]);
        if b < was.len() {
            assert(now[b] == was[b]);
        }
    }
    assert forall|i: int| 0 <= i < rows.len() implies #[trigger] is_kept(
        now,
        rows[i],
    ) by {
        if i < n {
            assert(is_kept(was, init[i]));
            let k = choose|k: int| 0 <= k < was.len() && same_instance(#[trigger] was[k], init[i]);
            assert(same_instance(now[k], rows[i]));
        } else {
            assert(same_instance(now[was.len() as int], row));
        }
    }
    assert forall|j: int| 0 <= j < n implies !same_instance(#[trigger] init[j], row) by {
        assert(is_kept(was, init[j]));
        let k = choose|k: int| 0 <= k < was.len() && same_instance(#[trigger] was[k], init[j]);
        assert(!same_instance(was[k], row));
    }
    assert forall|k: int| 0 <= k < now.len() implies #[trigger] begins(rows, now[k]) by {
        if k < was.len() {
            assert(begins(init, was[k]));
            let i = choose|i: int| begins_as(init, was[k], i);
            assert(rows[i] == init[i]);
            assert forall|j: int| 0 <= j < i implies !same_instance(#[trigger] rows[j], now[k]) by {
                assert(rows[j] == init[j]);
            }
            assert(begins_as(rows, now[k], i));
        } else {
            assert forall|j: int| 0 <= j < n implies !same_instance(#[trigger] rows[j], now[k]) by {
                assert(rows[j] == init[j]);
            }
            assert(begins_as(rows, now[k], n));
        }
    }
    assert forall|k: int| 0 <= k < now.len() implies #[trigger] ends(rows, now[k]) by {
        if k < was.len() {
            assert(ends(init, was[k]));
            let i = choose|i: int| ends_as(init, was[k], i);
            assert(rows[i] == init[i]);
            assert(ends_as(rows, now[k], i));
        } else {
            assert(ends_as(rows, now[k], n));
        }
    }
    assert forall|k: int, i: int|
        0 <= k < now.len() && 0 <= i < rows.len() && same_instance(
            #[trigger] now[k],
            #[trigger] rows[i],
        ) implies rows[i].end_tick <= now[k].end_tick && (rows[i].thrower.steamid is Some
        ==> now[k].thrower.steamid is Some) by {
        if k < was.len() {
            assert(now[k] == was[k]);
            assert(!same_instance(was[k], row));
            assert(rows[i] == init[i]);
        } else if i < n {
            assert(rows[i] == init[i]);
        }
    }
}

/// Collapsing keeps one row per instance: it begins as the instance's first row and ends
/// as one of its rows; none of them ends later, and it has a thrower if any of them has.
pub proof fn law_collapse(rows: Seq<TrackedRow<Seq<char>>>)
    ensures
        one_each(collapsed(rows)),
        all_kept(rows, collapsed(rows)),
        all_begin(rows, collapsed(rows)),
        all_end(rows, collapsed(rows)),
        none_lost(rows, collapsed(rows)),
    decreases rows.len(),
{
    if rows.len() > 0 {
        let init = rows.drop_last();
        let row = rows.last();
        law_collapse(init);
        assert(init.push(row) =~= rows);
        if is_kept(collapsed(init), row) {
            lemma_collapse_merges(init, row, collapsed(init));
        } else {
            lemma_collapse_adds(init, row, collapsed(init));
        }
    }
}

/// The end of an instance is one of its rows, and none of its rows is later.
proof fn lemma_end_of(rows: Seq<TrackedRow<Seq<char>>>, entity_id: i32, start_tick: i32)
    ensures
        end_of(rows, entity_id, start_tick) matches Some(e) ==> exists|j: int|
            0 <= j < rows.len() && (#[trigger] rows[j]).entity_id == entity_id && rows[j].start_tick
                == start_tick && rows[j].tick == e.0 && rows[j].at == e.1,
        forall|i: int|
            0 <= i < rows.len() && (#[trigger] rows[i]).entity_id == entity_id && rows[i].start_tick
                == start_tick ==> end_of(rows, entity_id, start_tick) is Some && rows[i].tick
                <= (end_of(rows, entity_id, start_tick)->0).0,
    decreases rows.len(),
{
    if rows.len() > 0 {
        let init = rows.drop_last();
        let r = rows.last();
        lemma_end_of(init, entity_id, start_tick);
        assert forall|i: int| 0 <= i < rows.len() - 1 implies #[trigger] rows[i] == init[i] by {}
        if let Some(e) = end_of(rows, entity_id, start_tick) {
            if r.entity_id == entity_id && r.start_tick == start_tick && r.tick == e.0 && r.at
                == e.1 {
                assert(rows[rows.len() - 1] == r);
            } else {
                let j = choose|j: int|
                    0 <= j < init.len() && (#[trigger] init[j]).entity_id == entity_id
                        && init[j].start_tick == start_tick && init[j].tick == e.0 && init[j].at
                        == e.1;
                assert(rows[j] == init[j]);
            }
        }
    }
}

/// Every thrown grenade is in the trajectories: its throw is a sample of it, and it lands
/// on the tick of a sample of it, at that sample's position unless a detonation tells it
/// exactly. It never lands before it is thrown, and is never seen after it has landed.
pub proof fn law_throws_are_tracked(
    schema: Schema,
    lens: Lens,
    frames: Seq<Frame>,
    events: Seq<GameEvent>,
    k: int,
)
    requires
        0 <= k < throw_rows(schema, lens, frames, events).len(),
    ensures
        ({
            let t = throw_rows(schema, lens, frames, events)[k];
            let samples = grenade_rows(schema, lens, frames);
            &&& exists|i: int|
                0 <= i < samples.len() && (#[trigger] samples[i]).entity_id == t.entity_id
                    && samples[i].tick == t.throw_tick && samples[i].x == t.throw_x && samples[i].y
                    == t.throw_y && samples[i].z == t.throw_z && samples[i].grenade_type
                    == t.grenade_type
            &&& exists|i: int|
                0 <= i < samples.len() && (#[trigger] samples[i]).entity_id == t.entity_id
                    && samples[i].tick == t.land_tick && (!t.land_is_precise ==> samples[i].x
                    == t.land_x && samples[i].y == t.land_y && samples[i].z == t.land_z)
            &&& t.throw_tick <= t.land_tick
            &&& forall|i: int|
                0 <= i < grenade_samples(schema, lens, frames).len() && same_instance(
                    #[trigger] grenade_samples(schema, lens, frames)[i],
                    collapsed(grenade_samples(schema, lens, frames))[k],
                ) ==> grenade_samples(schema, lens, frames)[i].tick <= t.land_tick
        }),
{
    let raw = flights_through(schema, lens, frames).rows;
    let rows = with_ends(raw);
    let kept = collapsed(rows);
    let t = throw_rows(schema, lens, frames, events)[k];
    let samples = grenade_rows(schema, lens, frames);
    law_collapse(rows);
    let r = kept[k];
    assert(begins(rows, kept[k]));
    assert(ends(rows, kept[k]));
    let i = choose|i: int| begins_as(rows, r, i);
    let j = choose|j: int| ends_as(rows, r, j);
    assert(samples[i].entity_id == t.entity_id);
    lemma_end_of(raw, r.entity_id, r.start_tick);
    assert(raw[i].entity_id == r.entity_id && raw[i].start_tick == r.start_tick);
    assert(raw[j].entity_id == r.entity_id && raw[j].start_tick == r.start_tick);
    let e = end_of(raw, r.entity_id, r.start_tick)->0;
    assert(rows[j].end_tick == e.0 && rows[j].end_at == e.1);
    let m = choose|m: int|
        0 <= m < raw.len() && (#[trigger] raw[m]).entity_id == r.entity_id && raw[m].start_tick
            == r.start_tick && raw[m].tick == e.0 && raw[m].at == e.1;
    assert(rows[m].tick == e.0 && rows[m].at == e.1);
    assert(samples[m].entity_id == t.entity_id && samples[m].tick == t.land_tick);
    assert forall|q: int| 0 <= q < rows.len() && same_instance(#[trigger] rows[q], r) implies rows[q].tick
        <= t.land_tick by {
        assert(raw[q].entity_id == r.entity_id && raw[q].start_tick == r.start_tick);
    }
}

/// Whether an event is an HE detonation of an entity during a stretch.
spec fn goes_off(e: GameEvent, entity_id: i32, from: i32, until: Option<i32>) -> bool {
    blast_of(e) is Some && entity_of(e) == entity_id && in_stretch(e.tick, from, until)
}

/// The place that counts for an entity is that of the last detonation during a stretch.
proof fn lemma_blasts_within(events: Seq<GameEvent>, entity_id: i32, from: i32, until: Option<i32>)
    ensures
        ({
            let table = blasts_within(he_blasts(events), from, until);
            &&& table.contains_key(entity_id) ==> exists|i: int|
                0 <= i < events.len() && goes_off(#[trigger] events[i], entity_id, from, until)
                    && blast_of(events[i]) == Some(table[entity_id]) && forall|j: int|
                    i < j < events.len() ==> !goes_off(#[trigger] events[j], entity_id, from, until)
            &&& !table.contains_key(entity_id) ==> forall|i: int|
                0 <= i < events.len() ==> !goes_off(#[trigger] events[i], entity_id, from, until)
        }),
    decreases events.len(),
{
    if events.len() > 0 {
        let init = events.drop_last();
        let e = events.last();
        let last = events.len() - 1;
        lemma_blasts_within(init, entity_id, from, until);
        assert forall|i: int| 0 <= i < last implies #[trigger] events[i] == init[i] by {}
        assert(events[last] == e);
        if let Some(at) = blast_of(e) {
            let b = Blast { entity_id: entity_of(e), tick: e.tick, at };
            assert(he_blasts(init).push(b).drop_last() =~= he_blasts(init));
        }
        let table = blasts_within(he_blasts(events), from, until);
        if table.contains_key(entity_id) && !goes_off(e, entity_id, from, until) {
            let i = choose|i: int|
                0 <= i < init.len() && goes_off(#[trigger] init[i], entity_id, from, until)
                    && blast_of(init[i]) == Some(table[entity_id]) && forall|j: int|
                    i < j < init.len() ==> !goes_off(#[trigger] init[j], entity_id, from, until);
            assert(goes_off(events[i], entity_id, from, until));
        }
    }
}

/// The next start is the earliest one later under the index, if there is one.
proof fn lemma_next_start(rows: Seq<TrackedRow<Seq<char>>>, entity_id: i32, start: i32)
    ensures
        next_start(rows, entity_id, start) matches Some(t) ==> exists|k: int|
            0 <= k < rows.len() && (#[trigger] rows[k]).entity_id == entity_id && rows[k].start_tick
                == t && t > start,
        forall|k: int|
            0 <= k < rows.len() && (#[trigger] rows[k]).entity_id == entity_id && rows[k].start_tick
                > start ==> (next_start(rows, entity_id, start) matches Some(t) && t
                <= rows[k].start_tick),
    decreases rows.len(),
{
    if rows.len() > 0 {
        let init = rows.drop_last();
        lemma_next_start(init, entity_id, start);
        assert forall|k: int| 0 <= k < rows.len() - 1 implies #[trigger] rows[k] == init[k] by {}
        assert(rows[rows.len() - 1] == rows.last());
        if let Some(t) = next_start(rows, entity_id, start) {
            if next_start(init, entity_id, start) == Some(t) {
                let k = choose|k: int|
                    0 <= k < init.len() && (#[trigger] init[k]).entity_id == entity_id
                        && init[k].start_tick == t && t > start;
                assert(rows[k] == init[k]);
            }
        }
    }
}

/// Whether an instance is among rows.
spec fn is_tracked(rows: Seq<TrackedRow<Seq<char>>>, entity_id: i32, start: i32) -> bool {
    exists|j: int|
        0 <= j < rows.len() && (#[trigger] rows[j]).entity_id == entity_id && rows[j].start_tick
            == start
}

/// Whether a row is on the start tick of its instance, or comes after another row of it.
spec fn has_begun(rows: Seq<TrackedRow<Seq<char>>>, i: int) -> bool {
    rows[i].tick == rows[i].start_tick || exists|j: int|
        0 <= j < i && same_instance(#[trigger] rows[j], rows[i])
}

/// What following grenades keeps: whatever was seen has a start, every start has a row, and
/// every instance begins on its start tick.
spec fn flights_kept(s: Flights) -> bool {
    &&& forall|x: i32| #[trigger] s.prev.contains(x) ==> s.starts.contains_key(x)
    &&& forall|x: i32| #[trigger] s.current.contains(x) ==> s.starts.contains_key(x)
    &&& forall|x: i32| #[trigger] s.starts.contains_key(x) ==> is_tracked(s.rows, x, s.starts[x])
    &&& forall|i: int| 0 <= i < s.rows.len() ==> #[trigger] has_begun(s.rows, i)
}

proof fn lemma_flights_step(s: Flights, schema: Schema, lens: Lens, f: Frame, e: Entity)
    requires
        flights_kept(s),
    ensures
        flights_kept(flights_step(s, schema, lens, f, e)),
{
    let next = flights_step(s, schema, lens, f, e);
    if next.rows.len() > s.rows.len() {
        let n = s.rows.len() as int;
        let row = next.rows[n];
        assert(next.rows == s.rows.push(row));
        assert forall|i: int| 0 <= i < n implies #[trigger] next.rows[i] == s.rows[i] by {}
        assert forall|x: i32| #[trigger] next.starts.contains_key(x) implies is_tracked(
            next.rows,
            x,
            next.starts[x],
        ) by {
            if x == e.index {
                assert(next.rows[n].entity_id == x && next.rows[n].start_tick == next.starts[x]);
            } else {
                assert(s.starts.contains_key(x));
                let j = choose|j: int|
                    0 <= j < s.rows.len() && (#[trigger] s.rows[j]).entity_id == x
                        && s.rows[j].start_tick == s.starts[x];
                assert(next.rows[j] == s.rows[j]);
            }
        }
        assert forall|i: int| 0 <= i < next.rows.len() implies #[trigger] has_begun(
            next.rows,
            i,
        ) by {
            if i < n {
                assert(has_begun(s.rows, i));
                if s.rows[i].tick != s.rows[i].start_tick {
                    let j = choose|j: int| 0 <= j < i && same_instance(#[trigger] s.rows[j], s.rows[i]);
                    assert(same_instance(next.rows[j], next.rows[i]));
                }
            } else if s.prev.contains(e.index) {
                assert(is_tracked(s.rows, e.index, s.starts[e.index]));
                let j = choose|j: int|
                    0 <= j < s.rows.len() && (#[trigger] s.rows[j]).entity_id == e.index
                        && s.rows[j].start_tick == s.starts[e.index];
                assert(same_instance(next.rows[j], next.rows[n]));
            }
        }
    }
}

proof fn lemma_flights_in(s: Flights, schema: Schema, lens: Lens, f: Frame, entities: Seq<Entity>)
    requires
        flights_kept(s),
    ensures
        flights_kept(flights_in(s, schema, lens, f, entities)),
    decreases entities.len(),
{
    if entities.len() > 0 {
        let init = entities.drop_last();
        lemma_flights_in(s, schema, lens, f, init);
        lemma_flights_step(
            flights_in(s, schema, lens, f, init),
            schema,
            lens,
            f,
            entities.last(),
        );
    }
}

proof fn lemma_flights_through(schema: Schema, lens: Lens, frames: Seq<Frame>)
    ensures
        flights_kept(flights_through(schema, lens, frames)),
    decreases frames.len(),
{
    if frames.len() > 0 {
        let init = frames.drop_last();
        lemma_flights_through(schema, lens, init);
        let f = frames.last();
        let s = flights_through(schema, lens, init);
        lemma_flights_in(s, schema, lens, f, f.entities@);
        let done = flights_in(s, schema, lens, f, f.entities@);
        assert(flights_turn(done).rows == done.rows);
    }
}

/// A grenade is thrown on the start tick of its instance.
pub proof fn law_thrown_at_start(schema: Schema, lens: Lens, frames: Seq<Frame>, k: int)
    requires
        0 <= k < collapsed(grenade_samples(schema, lens, frames)).len(),
    ensures
        collapsed(grenade_samples(schema, lens, frames))[k].tick == collapsed(
            grenade_samples(schema, lens, frames),
        )[k].start_tick,
{
    let raw = flights_through(schema, lens, frames).rows;
    let rows = with_ends(raw);
    lemma_flights_through(schema, lens, frames);
    law_collapse(rows);
    let r = collapsed(rows)[k];
    assert(begins(rows, collapsed(rows)[k]));
    let i = choose|i: int| begins_as(rows, r, i);
    assert(has_begun(raw, i));
    assert(rows[i].tick == raw[i].tick && rows[i].start_tick == raw[i].start_tick);
    if raw[i].tick != raw[i].start_tick {
        let j = choose|j: int| 0 <= j < i && same_instance(#[trigger] raw[j], raw[i]);
        assert(same_instance(rows[j], r));
    }
}

/// A throw is told once: no two throws have both the same entity index and the same throw tick.
pub proof fn law_throws_are_different(
    schema: Schema,
    lens: Lens,
    frames: Seq<Frame>,
    events: Seq<GameEvent>,
    a: int,
    b: int,
)
    requires
        0 <= a < b < throw_rows(schema, lens, frames, events).len(),
    ensures
        ({
            let throws = throw_rows(schema, lens, frames, events);
            throws[a].entity_id != throws[b].entity_id || throws[a].throw_tick
                != throws[b].throw_tick
        }),
{
    let thrown = collapsed(grenade_samples(schema, lens, frames));
    law_collapse(grenade_samples(schema, lens, frames));
    law_thrown_at_start(schema, lens, frames, a);
    law_thrown_at_start(schema, lens, frames, b);
    assert(!same_instance(thrown[a], thrown[b]));
}

/// Whether an event is the detonation of a thrown grenade: an HE detonation of its entity, not
/// before the throw and before any later throw under the same entity index.
pub open spec fn is_own_blast(
    throws: Seq<GrenadeThrow<Seq<char>>>,
    t: GrenadeThrow<Seq<char>>,
    e: GameEvent,
) -> bool {
    &&& blast_of(e) is Some
    &&& entity_of(e) == t.entity_id
    &&& t.throw_tick <= e.tick
    &&& forall|m: int|
        0 <= m < throws.len() && (#[trigger] throws[m]).entity_id == t.entity_id
            && throws[m].throw_tick > t.throw_tick ==> e.tick < throws[m].throw_tick
}

/// Only an HE grenade lands precisely: exactly where its own detonation was, however often its
/// entity index is used again. Where several events tell of it, the last one counts.
pub proof fn law_precise_landings(
    schema: Schema,
    lens: Lens,
    frames: Seq<Frame>,
    events: Seq<GameEvent>,
    k: int,
)
    requires
        0 <= k < throw_rows(schema, lens, frames, events).len(),
    ensures
        ({
            let throws = throw_rows(schema, lens, frames, events);
            let t = throws[k];
            &&& t.land_is_precise <==> t.grenade_type == "he"@ && exists|i: int|
                0 <= i < events.len() && is_own_blast(throws, t, #[trigger] events[i])
            &&& t.land_is_precise ==> exists|i: int|
                0 <= i < events.len() && is_own_blast(throws, t, #[trigger] events[i]) && blast_of(
                    events[i],
                ) == Some(Vector { x: t.land_x, y: t.land_y, z: t.land_z }) && forall|j: int|
                    i < j < events.len() ==> !is_own_blast(throws, t, #[trigger] events[j])
        }),
{
    let throws = throw_rows(schema, lens, frames, events);
    let t = throws[k];
    let thrown = collapsed(grenade_samples(schema, lens, frames));
    let r = thrown[k];
    let until = next_start(thrown, r.entity_id, r.start_tick);
    lemma_next_start(thrown, r.entity_id, r.start_tick);
    lemma_blasts_within(events, r.entity_id, r.start_tick, until);
    assert forall|m: int| 0 <= m < throws.len() implies (#[trigger] throws[m]).throw_tick
        == thrown[m].start_tick && throws[m].entity_id == thrown[m].entity_id by {
        law_thrown_at_start(schema, lens, frames, m);
    }
    assert(t.throw_tick == r.start_tick && t.entity_id == r.entity_id);
    assert forall|i: int| 0 <= i < events.len() implies is_own_blast(
        throws,
        t,
        #[trigger] events[i],
    ) == goes_off(events[i], r.entity_id, r.start_tick, until) by {
        let e = events[i];
        if goes_off(e, r.entity_id, r.start_tick, until) {
            assert forall|m: int|
                0 <= m < throws.len() && (#[trigger] throws[m]).entity_id == t.entity_id
                    && throws[m].throw_tick > t.throw_tick implies e.tick < throws[m].throw_tick by {
                assert(thrown[m].start_tick > r.start_tick);
            }
        }
        if is_own_blast(throws, t, e) {
            if let Some(end) = until {
                let m = choose|m: int|
                    0 <= m < thrown.len() && (#[trigger] thrown[m]).entity_id == r.entity_id
                        && thrown[m].start_tick == end && end > r.start_tick;
                assert(throws[m].throw_tick == end);
            }
        }
    }
    let own = own_blasts(thrown, he_blasts(events), r);
    if own.contains_key(r.entity_id) {
        let i = choose|i: int|
            0 <= i < events.len() && goes_off(
                #[trigger] events[i],
                r.entity_id,
                r.start_tick,
                until,
            ) && blast_of(events[i]) == Some(own[r.entity_id]) && forall|j: int|
                i < j < events.len() ==> !goes_off(
                    #[trigger] events[j],
                    r.entity_id,
                    r.start_tick,
                    until,
                );
        assert(is_own_blast(throws, t, events[i]));
    }
}

/// Whether rows have a sample of an entity index, on a tick, at a place.
spec fn has_sample(rows: Seq<TrackedRow<Seq<char>>>, tick: i32, entity_id: i32, at: Vector) -> bool {
    exists|k: int|
        0 <= k < rows.len() && (#[trigger] rows[k]).tick == tick && rows[k].entity_id == entity_id
            && rows[k].at == at
}

/// A tick keeps the samples there are, and adds one of every grenade in it.
proof fn lemma_sampled_in(
    s: Flights,
    schema: Schema,
    lens: Lens,
    f: Frame,
    entities: Seq<Entity>,
    tick: i32,
    entity_id: i32,
    at: Vector,
)
    requires
        has_sample(s.rows, tick, entity_id, at) || exists|j: int|
            0 <= j < entities.len() && is_sampled(
                schema,
                lens,
                f,
                #[trigger] entities[j],
                tick,
                entity_id,
                at,
            ),
    ensures
        has_sample(flights_in(s, schema, lens, f, entities).rows, tick, entity_id, at),
    decreases entities.len(),
{
    if entities.len() > 0 {
        let init = entities.drop_last();
        let e = entities.last();
        let before = flights_in(s, schema, lens, f, init);
        let next = flights_in(s, schema, lens, f, entities);
        if is_sampled(schema, lens, f, e, tick, entity_id, at) {
            assert(next.rows[next.rows.len() - 1].at == at);
        } else {
            if !has_sample(s.rows, tick, entity_id, at) {
                let j = choose|j: int|
                    0 <= j < entities.len() && is_sampled(
                        schema,
                        lens,
                        f,
                        #[trigger] entities[j],
                        tick,
                        entity_id,
                        at,
                    );
                assert(init[j] == entities[j]);
            }
            lemma_sampled_in(s, schema, lens, f, init, tick, entity_id, at);
            let k = choose|k: int|
                0 <= k < before.rows.len() && (#[trigger] before.rows[k]).tick == tick
                    && before.rows[k].entity_id == entity_id && before.rows[k].at == at;
            assert(next.rows[k] == before.rows[k]);
        }
    }
}

/// Whether an entity is a grenade in use, with a position, seen on a tick.
spec fn is_sampled(
    schema: Schema,
    lens: Lens,
    f: Frame,
    e: Entity,
    tick: i32,
    entity_id: i32,
    at: Vector,
) -> bool {
    &&& lens.names.grenade(e.class_name@) is Some
    &&& sample_of(schema, lens, f, e) matches Some(s) && s.0 == at
    &&& f.tick == tick
    &&& e.index == entity_id
}

proof fn lemma_sampled_through(
    schema: Schema,
    lens: Lens,
    frames: Seq<Frame>,
    i: int,
    j: int,
    at: Vector,
)
    requires
        0 <= i < frames.len(),
        0 <= j < frames[i].entities@.len(),
        is_sampled(
            schema,
            lens,
            frames[i],
            frames[i].entities@[j],
            frames[i].tick,
            frames[i].entities@[j].index,
            at,
        ),
    ensures
        has_sample(
            flights_through(schema, lens, frames).rows,
            frames[i].tick,
            frames[i].entities@[j].index,
            at,
        ),
    decreases frames.len(),
{
    let init = frames.drop_last();
    let f = frames.last();
    if i < init.len() {
        assert(init[i] == frames[i]);
        lemma_sampled_through(schema, lens, init, i, j, at);
    }
    lemma_sampled_in(
        flights_through(schema, lens, init),
        schema,
        lens,
        f,
        f.entities@,
        frames[i].tick,
        frames[i].entities@[j].index,
        at,
    );
}

/// A grenade has a row on every tick on which it is live, whether it moves or not: wherever a
/// grenade projectile in use has a position, the trajectories show it there on that tick.
pub proof fn law_grenades_on_every_tick(
    schema: Schema,
    lens: Lens,
    frames: Seq<Frame>,
    i: int,
    j: int,
)
    requires
        0 <= i < frames.len(),
        0 <= j < frames[i].entities@.len(),
        lens.names.grenade(frames[i].entities@[j].class_name@) is Some,
        sample_of(schema, lens, frames[i], frames[i].entities@[j]) is Some,
    ensures
        ({
            let e = frames[i].entities@[j];
            let at = (sample_of(schema, lens, frames[i], e)->0).0;
            let samples = grenade_rows(schema, lens, frames);
            exists|k: int|
                0 <= k < samples.len() && (#[trigger] samples[k]).tick == frames[i].tick
                    && samples[k].entity_id == e.index && samples[k].x == at.x && samples[k].y
                    == at.y && samples[k].z == at.z
        }),
{
    let e = frames[i].entities@[j];
    let at = (sample_of(schema, lens, frames[i], e)->0).0;
    lemma_sampled_through(schema, lens, frames, i, j, at);
    let raw = flights_through(schema, lens, frames).rows;
    let k = choose|k: int|
        0 <= k < raw.len() && (#[trigger] raw[k]).tick == frames[i].tick && raw[k].entity_id
            == e.index && raw[k].at == at;
    assert(grenade_rows(schema, lens, frames)[k].tick == frames[i].tick);
}

/// A sample inside an event window is inside one of the windows.
proof fn lemma_windowed_in(
    schema: Schema,
    lens: Lens,
    class: Seq<char>,
    windows: Seq<Window>,
    f: Frame,
    entities: Seq<Entity>,
    k: int,
)
    requires
        0 <= k < windowed_in(schema, lens, class, windows, f, entities).len(),
    ensures
        ({
            let r = windowed_in(schema, lens, class, windows, f, entities)[k];
            &&& windows.contains(
                Window { entity_id: r.entity_id, start: r.start_tick, end: r.end_tick },
            )
            &&& r.start_tick <= r.tick <= r.end_tick
        }),
    decreases entities.len(),
{
    let rest = windowed_in(schema, lens, class, windows, f, entities.drop_last());
    if k < rest.len() {
        lemma_windowed_in(schema, lens, class, windows, f, entities.drop_last(), k);
    } else {
        let e = entities.last();
        let p = |w: Window| w.entity_id == e.index && w.start <= f.tick <= w.end;
        order::lemma_first_match_holds(windows, p);
        let w = window_at(windows, e.index, f.tick)->0;
        assert(windows.contains(w));
    }
}

proof fn lemma_windowed_through(
    schema: Schema,
    lens: Lens,
    class: Seq<char>,
    windows: Seq<Window>,
    frames: Seq<Frame>,
    k: int,
)
    requires
        0 <= k < windowed_through(schema, lens, class, windows, frames).len(),
    ensures
        ({
            let r = windowed_through(schema, lens, class, windows, frames)[k];
            &&& windows.contains(
                Window { entity_id: r.entity_id, start: r.start_tick, end: r.end_tick },
            )
            &&& r.start_tick <= r.tick <= r.end_tick
        }),
    decreases frames.len(),
{
    let rest = windowed_through(schema, lens, class, windows, frames.drop_last());
    if k < rest.len() {
        lemma_windowed_through(schema, lens, class, windows, frames.drop_last(), k);
    } else {
        let f = frames.last();
        lemma_windowed_in(schema, lens, class, windows, f, f.entities@, k - rest.len());
    }
}

/// A fire burns for exactly one of the windows that its start and expiry events bound.
pub proof fn law_fires_fill_windows(
    schema: Schema,
    lens: Lens,
    frames: Seq<Frame>,
    events: Seq<GameEvent>,
    k: int,
)
    requires
        0 <= k < fire_rows(schema, lens, frames, events).len(),
    ensures
        ({
            let r = fire_rows(schema, lens, frames, events)[k];
            fire_windows(events).contains(
                Window { entity_id: r.entity_id, start: r.start_tick, end: r.end_tick },
            )
        }),
{
    let rows = windowed_through(schema, lens, INFERNO_CLASS@, fire_windows(events), frames);
    law_collapse(rows);
    let r = collapsed(rows)[k];
    assert(ends(rows, collapsed(rows)[k]));
    let j = choose|j: int| ends_as(rows, r, j);
    lemma_windowed_through(schema, lens, INFERNO_CLASS@, fire_windows(events), frames, j);
}

/// A smoke stands for exactly one of the windows that its detonation and expiry events
/// bound.
pub proof fn law_smokes_fill_windows(
    schema: Schema,
    lens: Lens,
    frames: Seq<Frame>,
    events: Seq<GameEvent>,
    k: int,
)
    requires
        0 <= k < smoke_rows(schema, lens, frames, events).len(),
    ensures
        ({
            let r = smoke_rows(schema, lens, frames, events)[k];
            smoke_windows(events).contains(
                Window { entity_id: r.entity_id, start: r.start_tick, end: r.end_tick },
            )
        }),
{
    let rows = windowed_through(schema, lens, SMOKE_CLASS@, smoke_windows(events), frames);
    law_collapse(rows);
    let r = collapsed(rows)[k];
    assert(ends(rows, collapsed(rows)[k]));
    let j = choose|j: int| ends_as(rows, r, j);
    lemma_windowed_through(schema, lens, SMOKE_CLASS@, smoke_windows(events), frames, j);
}

/// A fire is told once: no two fires have both the same entity index and the same start tick.
pub proof fn law_fires_are_different(
    schema: Schema,
    lens: Lens,
    frames: Seq<Frame>,
    events: Seq<GameEvent>,
    a: int,
    b: int,
)
    requires
        0 <= a < b < fire_rows(schema, lens, frames, events).len(),
    ensures
        ({
            let fires = fire_rows(schema, lens, frames, events);
            fires[a].entity_id != fires[b].entity_id || fires[a].start_tick != fires[b].start_tick
        }),
{
    let rows = windowed_through(schema, lens, INFERNO_CLASS@, fire_windows(events), frames);
    law_collapse(rows);
    assert(!same_instance(collapsed(rows)[a], collapsed(rows)[b]));
}

/// A smoke is told once: no two smokes have both the same entity index and the same start
/// tick.
pub proof fn law_smokes_are_different(
    schema: Schema,
    lens: Lens,
    frames: Seq<Frame>,
    events: Seq<GameEvent>,
    a: int,
    b: int,
)
    requires
        0 <= a < b < smoke_rows(schema, lens, frames, events).len(),
    ensures
        ({
            let smokes = smoke_rows(schema, lens, frames, events);
            smokes[a].entity_id != smokes[b].entity_id || smokes[a].start_tick
                != smokes[b].start_tick
        }),
{
    let rows = windowed_through(schema, lens, SMOKE_CLASS@, smoke_windows(events), frames);
    law_collapse(rows);
    assert(!same_instance(collapsed(rows)[a], collapsed(rows)[b]));
}

/// Whether an entity's window is open before event `n`, since event `i`: that one starts it,
/// and no event in between starts or ends one of the same entity.
pub open spec fn open_since(
    start_event: Seq<char>,
    end_event: Seq<char>,
    events: Seq<GameEvent>,
    id: i32,
    i: int,
    n: int,
) -> bool {
    &&& 0 <= i < n <= events.len()
    &&& events[i].name@ == start_event
    &&& entity_of(events[i]) == id
    &&& forall|m: int|
        i < m < n && entity_of(#[trigger] events[m]) == id ==> events[m].name@ != start_event
            && events[m].name@ != end_event
}

/// Whether two events bound a window: the first starts it, the second is the next one of the
/// same entity, and ends it.
pub open spec fn bound(
    start_event: Seq<char>,
    end_event: Seq<char>,
    events: Seq<GameEvent>,
    w: Window,
    i: int,
    j: int,
) -> bool {
    &&& open_since(start_event, end_event, events, w.entity_id, i, j)
    &&& j < events.len()
    &&& events[j].name@ == end_event
    &&& entity_of(events[j]) == w.entity_id
    &&& events[i].tick == w.start
    &&& events[j].tick == w.end
}

/// What is open is open since some event, from whose tick on it is.
proof fn lemma_open_since(
    start_event: Seq<char>,
    end_event: Seq<char>,
    events: Seq<GameEvent>,
    id: i32,
)
    requires
        start_event != end_event,
    ensures
        ({
            let open = windows_run(start_event, end_event, events).open;
            let n = events.len() as int;
            &&& open.contains_key(id) <==> exists|i: int| #[trigger]
                open_since(start_event, end_event, events, id, i, n)
            &&& forall|i: int| #[trigger]
                open_since(start_event, end_event, events, id, i, n) ==> open[id] == events[i].tick
        }),
    decreases events.len(),
{
    if events.len() > 0 {
        let init = events.drop_last();
        let e = events.last();
        let n = events.len() as int;
        lemma_open_since(start_event, end_event, init, id);
        assert forall|m: int| 0 <= m < init.len() implies init[m] == #[trigger] events[m] by {}
        assert(events[n - 1] == e);
        let own = entity_of(e) == id;
        if own && e.name@ == start_event {
            assert(open_since(start_event, end_event, events, id, n - 1, n));
            assert forall|i: int| #[trigger]
                open_since(start_event, end_event, events, id, i, n) implies i == n - 1 by {
                if i < n - 1 {
                    assert(events[n - 1].name@ != start_event);
                }
            }
        } else if own && e.name@ == end_event {
            assert forall|i: int| !#[trigger]
                open_since(start_event, end_event, events, id, i, n) by {
                if open_since(start_event, end_event, events, id, i, n) {
                    if i < n - 1 {
                        assert(events[n - 1].name@ != end_event);
                    }
                }
            }
        } else {
            assert forall|i: int| #[trigger]
                open_since(start_event, end_event, events, id, i, n) == open_since(
                    start_event,
                    end_event,
                    init,
                    id,
                    i,
                    n - 1,
                ) by {
                if open_since(start_event, end_event, events, id, i, n) {
                    assert(i < n - 1);
                    assert forall|m: int|
                        i < m < n - 1 && entity_of(#[trigger] init[m]) == id implies init[m].name@
                        != start_event && init[m].name@ != end_event by {
                        assert(events[m] == init[m]);
                    }
                }
            }
            let was = windows_run(start_event, end_event, init).open;
            if was.contains_key(id) {
                let i = choose|i: int| #[trigger]
                    open_since(start_event, end_event, init, id, i, n - 1);
                assert(open_since(start_event, end_event, events, id, i, n));
            }
        }
    }
}

/// Windows pair events: every window is bounded by a start event and the next event of the
/// same entity, which ends it, and every such pair of events bounds a window.
#[verifier::rlimit(50)]
pub proof fn law_windows_pair_events(
    start_event: Seq<char>,
    end_event: Seq<char>,
    events: Seq<GameEvent>,
    w: Window,
)
    requires
        start_event != end_event,
    ensures
        windows_of(start_event, end_event, events).contains(w) <==> exists|i: int, j: int| #[trigger]
            bound(start_event, end_event, events, w, i, j),
    decreases events.len(),
{
    if events.len() > 0 {
        let init = events.drop_last();
        let e = events.last();
        let n = events.len() as int;
        let before = windows_run(start_event, end_event, init);
        let over = windows_of(start_event, end_event, events);
        law_windows_pair_events(start_event, end_event, init, w);
        lemma_open_since(start_event, end_event, init, entity_of(e));
        assert forall|m: int| 0 <= m < init.len() implies init[m] == #[trigger] events[m] by {}
        assert(events[n - 1] == e);
        assert forall|id: i32, i: int, j: int| j < n implies #[trigger] open_since(
            start_event,
            end_event,
            events,
            id,
            i,
            j,
        ) == open_since(start_event, end_event, init, id, i, j) by {
            lemma_open_before(start_event, end_event, events, id, i, j);
        }
        if over.contains(w) {
            let k = choose|k: int| 0 <= k < over.len() && over[k] == w;
            if k < before.over.len() {
                assert(before.over[k] == w);
                assert(before.over.contains(w));
                let (i, j) = choose|i: int, j: int| #[trigger]
                    bound(start_event, end_event, init, w, i, j);
                assert(open_since(start_event, end_event, events, w.entity_id, i, j));
                assert(bound(start_event, end_event, events, w, i, j));
            } else {
                let i = choose|i: int| #[trigger]
                    open_since(start_event, end_event, init, entity_of(e), i, n - 1);
                assert(open_since(start_event, end_event, events, entity_of(e), i, n - 1));
                assert(bound(start_event, end_event, events, w, i, n - 1));
            }
        }
        if exists|i: int, j: int| #[trigger] bound(start_event, end_event, events, w, i, j) {
            let (i, j) = choose|i: int, j: int| #[trigger]
                bound(start_event, end_event, events, w, i, j);
            assert(open_since(start_event, end_event, events, w.entity_id, i, j));
            assert(open_since(start_event, end_event, init, w.entity_id, i, j));
            if j < n - 1 {
                assert(bound(start_event, end_event, init, w, i, j));
                let k = choose|k: int| 0 <= k < before.over.len() && before.over[k] == w;
                assert(over[k] == w);
            } else {
                assert(over[before.over.len() as int] == w);
            }
        }
    }
}

/// Later events change nothing about what is open before them.
proof fn lemma_open_before(
    start_event: Seq<char>,
    end_event: Seq<char>,
    events: Seq<GameEvent>,
    id: i32,
    i: int,
    j: int,
)
    requires
        j < events.len(),
    ensures
        open_since(start_event, end_event, events, id, i, j) == open_since(
            start_event,
            end_event,
            events.drop_last(),
            id,
            i,
            j,
        ),
{
    let init = events.drop_last();
    if open_since(start_event, end_event, events, id, i, j) {
        assert forall|m: int| i < m < j && entity_of(#[trigger] init[m]) == id implies init[m].name@
            != start_event && init[m].name@ != end_event by {
            assert(events[m] == init[m]);
        }
    }
    if open_since(start_event, end_event, init, id, i, j) {
        assert forall|m: int| i < m < j && entity_of(#[trigger] events[m]) == id implies events[m].name@
            != start_event && events[m].name@ != end_event by {
            assert(events[m] == init[m]);
        }
    }
}

} // verus!
