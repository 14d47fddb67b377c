//! Thrown grenades, fires and smokes.
use crate::demo::{Entity, Frame, GameEvent, Schema};
use crate::keys;
use crate::laws::participants;
use crate::laws::reading;
use crate::laws::states;
use crate::names::{Names, Scope};
use crate::parser::Parser;
use crate::projectiles;
use crate::projectiles::{Flights, Grenade, GrenadeThrow, Smoke, TrackedRow, Window};
use crate::resolve::{Lens, ResolvedPlayer};
use vstd::prelude::*;

verus! {

/// Whether an entity is in use and has a position.
pub open spec fn is_placed(schema: Schema, e: Entity) -> bool {
    e.active && e.has(
        schema.key_of(
            e.class_name@,
            "CBodyComponent.m_skeletonInstance.m_vecOrigin.m_vecX"@,
        ),
    )
}

/// Whether an entity is a grenade in the air or on the ground.
pub open spec fn is_grenade(schema: Schema, names: Names, e: Entity) -> bool {
    names.grenade(e.class_name@) is Some && is_placed(schema, e)
}

/// The handle to whoever threw an entity: its thrower, else its owner.
pub open spec fn hand_of(schema: Schema, e: Entity) -> Option<u32> {
    let thrower = e.handle_at(schema.key_of(e.class_name@, "m_hThrower"@));
    if thrower is Some {
        thrower
    } else {
        e.handle_at(schema.key_of(e.class_name@, "m_hOwnerEntity"@))
    }
}

/// Whether a player is the one who threw an entity.
pub open spec fn is_thrower(
    schema: Schema,
    names: Names,
    entities: Seq<Entity>,
    e: Entity,
    p: ResolvedPlayer<Seq<char>>,
) -> bool {
    match hand_of(schema, e) {
        Some(h) => participants::is_player_at(
            schema,
            names,
            Scope::Projectiles,
            entities,
            h,
            p,
        ),
        None => p.steamid is None && p.name is None && p.side is None,
    }
}

/// Which entities of which frames are grenades.
pub open spec fn grenade_picks(
    schema: Schema,
    names: Names,
    frames: Seq<Frame>,
) -> spec_fn(int, int) -> bool {
    |i: int, j: int| is_grenade(schema, names, frames[i].entities@[j])
}

/// The grenades of the first `n` frames, tick by tick and in the order of entities.
pub open spec fn grenade_places(
    schema: Schema,
    names: Names,
    frames: Seq<Frame>,
    n: int,
) -> Seq<(int, int)> {
    reading::spots(n, states::entity_counts(frames), grenade_picks(schema, names, frames))
}

/// Whether one of the first `m` entities of frame `i` is a grenade of an index.
pub open spec fn seen_in(
    schema: Schema,
    names: Names,
    frames: Seq<Frame>,
    i: int,
    m: int,
    index: i32,
) -> bool {
    exists|j: int|
        0 <= j < m && is_grenade(schema, names, #[trigger] frames[i].entities@[j])
            && frames[i].entities@[j].index == index
}

/// The tick since which a grenade of an index is seen, as of frame `i`: that of the first of
/// the frames, without a gap up to this one, that show it.
pub open spec fn seen_since(
    schema: Schema,
    names: Names,
    frames: Seq<Frame>,
    i: int,
    index: i32,
) -> i32
    decreases i,
{
    if i > 0 && seen_in(
        schema,
        names,
        frames,
        i - 1,
        frames[i - 1].entities@.len() as int,
        index,
    ) {
        seen_since(schema, names, frames, i - 1, index)
    } else {
        frames[i].tick
    }
}

/// Whether a row is a sample of entity `j` of frame `i`.
pub open spec fn is_sample(
    schema: Schema,
    names: Names,
    frames: Seq<Frame>,
    i: int,
    j: int,
    r: TrackedRow<Seq<char>>,
) -> bool {
    let e = frames[i].entities@[j];
    &&& r.tick == frames[i].tick
    &&& r.entity_id == e.index
    &&& r.class_name == e.class_name@
    &&& r.at == e.world
    &&& is_thrower(schema, names, frames[i].entities@, e, r.thrower)
}

/// What holds of grenades followed up to entity `j` of frame `i`.
spec fn flights_upto(
    schema: Schema,
    names: Names,
    frames: Seq<Frame>,
    i: int,
    j: int,
    places: Seq<(int, int)>,
    s: Flights,
) -> bool {
    &&& s.rows.len() == places.len()
    &&& forall|k: int|
        0 <= k < s.rows.len() ==> is_sample(
            schema,
            names,
            frames,
            places[k].0,
            places[k].1,
            #[trigger] s.rows[k],
        ) && s.rows[k].start_tick == seen_since(
            schema,
            names,
            frames,
            places[k].0,
            s.rows[k].entity_id,
        )
    &&& forall|index: i32| #[trigger]
        s.prev.contains(index) <==> i > 0 && seen_in(
            schema,
            names,
            frames,
            i - 1,
            frames[i - 1].entities@.len() as int,
            index,
        )
    &&& forall|index: i32| #[trigger]
        s.current.contains(index) <==> seen_in(schema, names, frames, i, j, index)
    &&& forall|index: i32| #[trigger]
        s.current.contains(index) ==> s.starts.contains_key(index) && s.starts[index]
            == seen_since(schema, names, frames, i, index)
    &&& forall|index: i32| #[trigger]
        s.prev.contains(index) ==> s.starts.contains_key(index) && s.starts[index]
            == seen_since(schema, names, frames, i - 1, index)
}

proof fn lemma_sample(schema: Schema, names: Names, f: Frame, e: Entity)
    ensures
        projectiles::sample_of(schema, Lens::of(schema, &names, Scope::Projectiles), f, e)
            is Some == is_placed(schema, e),
        is_placed(schema, e) ==> {
            let (at, p) = projectiles::sample_of(
                schema,
                Lens::of(schema, &names, Scope::Projectiles),
                f,
                e,
            )->0;
            at == e.world && is_thrower(schema, names, f.entities@, e, p)
        },
{
    let lens = Lens::of(schema, &names, Scope::Projectiles);
    if let Some(h) = hand_of(schema, e) {
        participants::law_player_of_handle(
            schema,
            names,
            Scope::Projectiles,
            f.entities@,
            h as i64,
            Map::empty(),
        );
        assert((h as i64) as u32 == h);
    }
}

proof fn lemma_seen_more(
    schema: Schema,
    names: Names,
    frames: Seq<Frame>,
    i: int,
    m: int,
    index: i32,
)
    requires
        m >= 0,
    ensures
        seen_in(schema, names, frames, i, m + 1, index) <==> seen_in(
            schema,
            names,
            frames,
            i,
            m,
            index,
        ) || (is_grenade(schema, names, frames[i].entities@[m]) && frames[i].entities@[m].index
            == index),
{
    let es = frames[i].entities@;
    if seen_in(schema, names, frames, i, m, index) {
        let j = choose|j: int|
            0 <= j < m && is_grenade(schema, names, #[trigger] es[j]) && es[j].index == index;
        assert(is_grenade(schema, names, es[j]));
    }
    if seen_in(schema, names, frames, i, m + 1, index) {
        let j = choose|j: int|
            0 <= j < m + 1 && is_grenade(schema, names, #[trigger] es[j]) && es[j].index == index;
        if j < m {
            assert(is_grenade(schema, names, es[j]));
        }
    }
}

proof fn lemma_flights_step(
    schema: Schema,
    names: Names,
    frames: Seq<Frame>,
    i: int,
    j: int,
    places: Seq<(int, int)>,
    s: Flights,
)
    requires
        0 <= i < frames.len(),
        0 <= j < frames[i].entities@.len(),
        flights_upto(schema, names, frames, i, j, places, s),
    ensures
        flights_upto(
            schema,
            names,
            frames,
            i,
            j + 1,
            (if grenade_picks(schema, names, frames)(i, j) {
                places.push((i, j))
            } else {
                places
            }),
            projectiles::flights_step(
                s,
                schema,
                Lens::of(schema, &names, Scope::Projectiles),
                frames[i],
                frames[i].entities@[j],
            ),
        ),
{
    let lens = Lens::of(schema, &names, Scope::Projectiles);
    let f = frames[i];
    let e = f.entities@[j];
    let now = projectiles::flights_step(s, schema, lens, f, e);
    lemma_sample(schema, names, f, e);
    assert forall|index: i32| #[trigger]
        now.current.contains(index) <==> seen_in(schema, names, frames, i, j + 1, index) by {
        lemma_seen_more(schema, names, frames, i, j, index);
        assert(s.current.contains(index) <==> seen_in(schema, names, frames, i, j, index));
    }
    if is_grenade(schema, names, e) {
        let all = places.push((i, j));
        assert(s.prev.contains(e.index) <==> i > 0 && seen_in(
            schema,
            names,
            frames,
            i - 1,
            frames[i - 1].entities@.len() as int,
            e.index,
        ));
        if s.prev.contains(e.index) {
            assert(s.starts[e.index] == seen_since(schema, names, frames, i - 1, e.index));
        }
        assert(now.rows.last().start_tick == seen_since(schema, names, frames, i, e.index));
        assert forall|k: int| 0 <= k < now.rows.len() implies is_sample(
            schema,
            names,
            frames,
            all[k].0,
            all[k].1,
            #[trigger] now.rows[k],
        ) && now.rows[k].start_tick == seen_since(
            schema,
            names,
            frames,
            all[k].0,
            now.rows[k].entity_id,
        ) by {
            if k < s.rows.len() {
                assert(now.rows[k] == s.rows[k]);
            }
        }
        assert forall|index: i32| #[trigger] now.current.contains(index) implies
            now.starts.contains_key(index) && now.starts[index] == seen_since(schema, names, frames, i, index) by {
            if index != e.index {
                assert(s.current.contains(index));
                assert(s.starts[index] == seen_since(schema, names, frames, i, index));
            }
        }
        assert forall|index: i32| #[trigger] now.prev.contains(index) implies now.starts.contains_key(index)
            && now.starts[index] == seen_since(schema, names, frames, i - 1, index) by {
            assert(s.prev.contains(index));
            assert(s.starts[index] == seen_since(schema, names, frames, i - 1, index));
        }
    }
}

proof fn lemma_flights_in(
    schema: Schema,
    names: Names,
    frames: Seq<Frame>,
    i: int,
    m: int,
    places: Seq<(int, int)>,
    s: Flights,
)
    requires
        0 <= i < frames.len(),
        0 <= m <= frames[i].entities@.len(),
        flights_upto(schema, names, frames, i, 0, places, s),
    ensures
        flights_upto(
            schema,
            names,
            frames,
            i,
            m,
            places + reading::spots_in(i, m, grenade_picks(schema, names, frames)),
            projectiles::flights_in(
                s,
                schema,
                Lens::of(schema, &names, Scope::Projectiles),
                frames[i],
                frames[i].entities@.take(m),
            ),
        ),
    decreases m,
{
    let es = frames[i].entities@;
    let p = grenade_picks(schema, names, frames);
    if m == 0 {
        assert(es.take(0) =~= Seq::empty());
        assert(places + Seq::empty() =~= places);
    } else {
        lemma_flights_in(schema, names, frames, i, m - 1, places, s);
        assert(es.take(m).drop_last() =~= es.take(m - 1));
        assert(es.take(m).last() == es[m - 1]);
        let so_far = places + reading::spots_in(i, m - 1, p);
        let then = projectiles::flights_in(
            s,
            schema,
            Lens::of(schema, &names, Scope::Projectiles),
            frames[i],
            es.take(m - 1),
        );
        lemma_flights_step(schema, names, frames, i, m - 1, so_far, then);
        assert(places + reading::spots_in(i, m - 1, p).push((i, m - 1)) =~= so_far.push(
            (i, m - 1),
        ));
    }
}

proof fn lemma_flights(schema: Schema, names: Names, frames: Seq<Frame>, n: int)
    requires
        0 <= n <= frames.len(),
    ensures
        flights_upto(
            schema,
            names,
            frames,
            n,
            0,
            grenade_places(schema, names, frames, n),
            projectiles::flights_through(
                schema,
                Lens::of(schema, &names, Scope::Projectiles),
                frames.take(n),
            ),
        ),
    decreases n,
{
    let lens = Lens::of(schema, &names, Scope::Projectiles);
    if n == 0 {
        assert(frames.take(0) =~= Seq::empty());
    } else {
        lemma_flights(schema, names, frames, n - 1);
        assert(frames.take(n).drop_last() =~= frames.take(n - 1));
        assert(frames.take(n).last() == frames[n - 1]);
        let was = projectiles::flights_through(schema, lens, frames.take(n - 1));
        let es = frames[n - 1].entities@;
        let m = es.len() as int;
        let before = grenade_places(schema, names, frames, n - 1);
        lemma_flights_in(schema, names, frames, n - 1, m, before, was);
        assert(es.take(m) =~= es);
        let done = projectiles::flights_in(was, schema, lens, frames[n - 1], es);
        let now = projectiles::flights_turn(done);
        assert forall|index: i32| #[trigger] now.prev.contains(index) implies now.starts.contains_key(index)
            && now.starts[index] == seen_since(schema, names, frames, n - 1, index) by {
            assert(done.current.contains(index));
            assert(done.starts[index] == seen_since(schema, names, frames, n - 1, index));
        }
        assert forall|index: i32| #[trigger]
            now.current.contains(index) <==> seen_in(schema, names, frames, n, 0, index) by {}
    }
}

/// Whether a row tells of entity `j` of frame `i`, a grenade.
pub open spec fn is_grenade_row(
    schema: Schema,
    names: Names,
    frames: Seq<Frame>,
    i: int,
    j: int,
    row: Grenade<Seq<char>>,
) -> bool {
    let e = frames[i].entities@[j];
    &&& row.tick == frames[i].tick
    &&& row.entity_id == e.index
    &&& names.grenade(e.class_name@) == Some(row.grenade_type)
    &&& row.x == e.world.x
    &&& row.y == e.world.y
    &&& row.z == e.world.z
    &&& exists|p: ResolvedPlayer<Seq<char>>| #[trigger]
        is_thrower(schema, names, frames[i].entities@, e, p) && p.steamid == row.thrower_steamid
            && p.name == row.thrower_name && p.side == row.thrower_side
}

/// Trajectories are the grenades that are seen: there is one row for every grenade with a
/// position on every tick, in the order of ticks and entities, and each field of it says what
/// the grenade and its thrower show.
pub proof fn law_trajectories_show_grenades(schema: Schema, names: Names, frames: Seq<Frame>)
    ensures
        ({
            let rows = projectiles::grenade_rows(
                schema,
                Lens::of(schema, &names, Scope::Projectiles),
                frames,
            );
            let places = grenade_places(schema, names, frames, frames.len() as int);
            &&& rows.len() == places.len()
            &&& forall|k: int|
                0 <= k < rows.len() ==> is_grenade_row(
                    schema,
                    names,
                    frames,
                    places[k].0,
                    places[k].1,
                    #[trigger] rows[k],
                )
        }),
{
    let lens = Lens::of(schema, &names, Scope::Projectiles);
    let n = frames.len() as int;
    lemma_flights(schema, names, frames, n);
    assert(frames.take(n) =~= frames);
    let raw = projectiles::flights_through(schema, lens, frames).rows;
    let rows = projectiles::grenade_rows(schema, lens, frames);
    let places = grenade_places(schema, names, frames, n);
    reading::law_spots(n, states::entity_counts(frames), grenade_picks(schema, names, frames));
    assert forall|k: int| 0 <= k < rows.len() implies is_grenade_row(
        schema,
        names,
        frames,
        places[k].0,
        places[k].1,
        #[trigger] rows[k],
    ) by {
        assert(is_sample(schema, names, frames, places[k].0, places[k].1, raw[k]));
        assert(places.contains(places[k]));
        assert(places.contains((places[k].0, places[k].1)));
        assert(is_grenade(schema, names, frames[places[k].0].entities@[places[k].1]));
        assert(is_thrower(
            schema,
            names,
            frames[places[k].0].entities@,
            frames[places[k].0].entities@[places[k].1],
            raw[k].thrower,
        ));
    }
}

/// Whether two samples are of one instance: of one entity index, and begun on one tick.
pub open spec fn one_instance(a: TrackedRow<Seq<char>>, b: TrackedRow<Seq<char>>) -> bool {
    a.entity_id == b.entity_id && a.start_tick == b.start_tick
}

/// Which samples are the first of their instances.
pub open spec fn first_picks(rows: Seq<TrackedRow<Seq<char>>>) -> spec_fn(int) -> bool {
    |k: int| forall|m: int| 0 <= m < k ==> !one_instance(#[trigger] rows[m], rows[k])
}

/// Whether sample `m` is the first with the latest end among the first `n` of an instance.
pub open spec fn ends_it(
    rows: Seq<TrackedRow<Seq<char>>>,
    n: int,
    c: TrackedRow<Seq<char>>,
    m: int,
) -> bool {
    &&& 0 <= m < n
    &&& one_instance(rows[m], c)
    &&& forall|x: int|
        0 <= x < n && one_instance(#[trigger] rows[x], c) ==> rows[x].end_tick <= rows[m].end_tick
            && (x < m ==> rows[x].end_tick < rows[m].end_tick)
}

/// Whether sample `m` is the one whose thrower counts, among the first `n` of an instance that
/// begins with sample `f`: the first whose thrower has a Steam id, else the first of all.
pub open spec fn names_thrower(
    rows: Seq<TrackedRow<Seq<char>>>,
    n: int,
    f: int,
    c: TrackedRow<Seq<char>>,
    m: int,
) -> bool {
    &&& 0 <= m < n
    &&& one_instance(rows[m], c)
    &&& forall|x: int|
        0 <= x < (if rows[m].thrower.steamid is Some {
            m
        } else {
            n
        }) && one_instance(#[trigger] rows[x], c) ==> rows[x].thrower.steamid is None
    &&& rows[m].thrower.steamid is None ==> m == f
}

/// Whether a row sums up the instance that begins with sample `f`, among the first `n`: it
/// begins as the first sample does, ends as the one with the latest end does, and has the
/// first thrower that is known.
pub open spec fn sums_up(
    rows: Seq<TrackedRow<Seq<char>>>,
    n: int,
    f: int,
    c: TrackedRow<Seq<char>>,
) -> bool {
    &&& 0 <= f < n
    &&& one_instance(rows[f], c)
    &&& c.tick == rows[f].tick
    &&& c.class_name == rows[f].class_name
    &&& c.at == rows[f].at
    &&& exists|m: int| #[trigger]
        ends_it(rows, n, c, m) && c.end_tick == rows[m].end_tick && c.end_at == rows[m].end_at
    &&& exists|m: int| #[trigger]
        names_thrower(rows, n, f, c, m) && c.thrower == rows[m].thrower
}

proof fn lemma_sums_up_step(
    rows: Seq<TrackedRow<Seq<char>>>,
    n: int,
    f: int,
    c: TrackedRow<Seq<char>>,
)
    requires
        0 <= n < rows.len(),
        sums_up(rows, n, f, c),
    ensures
        sums_up(
            rows,
            n + 1,
            f,
            (if one_instance(c, rows[n]) {
                projectiles::merged(c, rows[n])
            } else {
                c
            }),
        ),
{
    let e = choose|m: int| #[trigger]
        ends_it(rows, n, c, m) && c.end_tick == rows[m].end_tick && c.end_at == rows[m].end_at;
    let t = choose|m: int| #[trigger]
        names_thrower(rows, n, f, c, m) && c.thrower == rows[m].thrower;
    let row = rows[n];
    if one_instance(c, row) {
        let now = projectiles::merged(c, row);
        if row.end_tick > c.end_tick {
            assert(ends_it(rows, n + 1, now, n));
        } else {
            assert(ends_it(rows, n + 1, now, e));
        }
        if c.thrower.steamid is None && row.thrower.steamid is Some {
            assert(names_thrower(rows, n + 1, f, now, n));
        } else {
            assert(names_thrower(rows, n + 1, f, now, t));
        }
    } else {
        assert(ends_it(rows, n + 1, c, e));
        assert(names_thrower(rows, n + 1, f, c, t));
    }
}

/// Collapsing sums up instances: there is one row for every instance, in the order in which
/// they begin.
pub proof fn law_collapse_sums_up(rows: Seq<TrackedRow<Seq<char>>>, n: int)
    requires
        0 <= n <= rows.len(),
    ensures
        ({
            let kept = projectiles::collapsed(rows.take(n));
            let firsts = reading::picks(n, first_picks(rows));
            &&& kept.len() == firsts.len()
            &&& forall|k: int|
                0 <= k < kept.len() ==> sums_up(rows, n, firsts[k], #[trigger] kept[k])
        }),
    decreases n,
{
    if n == 0 {
        assert(rows.take(0) =~= Seq::empty());
    } else {
        law_collapse_sums_up(rows, n - 1);
        let init = rows.take(n - 1);
        assert(rows.take(n).drop_last() =~= init);
        let row = rows[n - 1];
        assert(rows.take(n).last() == row);
        let was = projectiles::collapsed(init);
        let now = projectiles::collapsed(rows.take(n));
        let before = reading::picks(n - 1, first_picks(rows));
        let firsts = reading::picks(n, first_picks(rows));
        projectiles::law_collapse(init);
        if projectiles::is_kept(was, row) {
            let k = choose|k: int|
                0 <= k < was.len() && projectiles::same_instance(#[trigger] was[k], row);
            assert(sums_up(rows, n - 1, before[k], was[k]));
            assert(one_instance(rows[before[k]], row));
            assert(!first_picks(rows)(n - 1));
            assert forall|q: int| 0 <= q < now.len() implies sums_up(
                rows,
                n,
                firsts[q],
                #[trigger] now[q],
            ) by {
                assert(sums_up(rows, n - 1, before[q], was[q]));
                lemma_sums_up_step(rows, n - 1, before[q], was[q]);
            }
        } else {
            assert(first_picks(rows)(n - 1)) by {
                assert forall|m: int| 0 <= m < n - 1 implies !one_instance(#[trigger] rows[m], row) by {
                    assert(init[m] == rows[m]);
                    assert(projectiles::is_kept(was, init[m]));
                    if one_instance(rows[m], row) {
                        let k = choose|k: int|
                            0 <= k < was.len() && projectiles::same_instance(
                                #[trigger] was[k],
                                init[m],
                            );
                        assert(projectiles::same_instance(was[k], row));
                    }
                }
            }
            assert forall|q: int| 0 <= q < now.len() implies sums_up(
                rows,
                n,
                firsts[q],
                #[trigger] now[q],
            ) by {
                if q < was.len() {
                    assert(now[q] == was[q]);
                    assert(sums_up(rows, n - 1, before[q], was[q]));
                    assert(!projectiles::same_instance(was[q], row));
                    lemma_sums_up_step(rows, n - 1, before[q], was[q]);
                } else {
                    assert(ends_it(rows, n, row, n - 1));
                    assert(names_thrower(rows, n, n - 1, row, n - 1)) by {
                        assert forall|x: int|
                            0 <= x < n && one_instance(#[trigger] rows[x], row) implies x == n - 1 by {}
                    }
                }
            }
        }
    }
}

/// Whether sample `m` is the last of its instance: the one with the latest tick, and of several
/// with that tick the last.
pub open spec fn is_last_sample(
    rows: Seq<TrackedRow<Seq<char>>>,
    id: i32,
    start: i32,
    m: int,
) -> bool {
    &&& 0 <= m < rows.len()
    &&& rows[m].entity_id == id
    &&& rows[m].start_tick == start
    &&& forall|x: int|
        0 <= x < rows.len() && (#[trigger] rows[x]).entity_id == id && rows[x].start_tick == start
            ==> rows[x].tick <= rows[m].tick && (x > m ==> rows[x].tick < rows[m].tick)
}

proof fn lemma_end_of(rows: Seq<TrackedRow<Seq<char>>>, id: i32, start: i32)
    ensures
        match projectiles::end_of(rows, id, start) {
            Some(e) => exists|m: int| #[trigger]
                is_last_sample(rows, id, start, m) && e == (rows[m].tick, rows[m].at),
            None => forall|x: int|
                0 <= x < rows.len() ==> !((#[trigger] rows[x]).entity_id == id
                    && rows[x].start_tick == start),
        },
    decreases rows.len(),
{
    if rows.len() > 0 {
        let init = rows.drop_last();
        let n = rows.len() - 1;
        lemma_end_of(init, id, start);
        assert forall|x: int| 0 <= x < init.len() implies init[x] == #[trigger] rows[x] by {}
        assert(rows[n] == rows.last());
        let before = projectiles::end_of(init, id, start);
        let own = rows[n].entity_id == id && rows[n].start_tick == start;
        if let Some(e) = before {
            let m = choose|m: int| #[trigger]
                is_last_sample(init, id, start, m) && e == (init[m].tick, init[m].at);
            if own && rows[n].tick >= e.0 {
                assert(is_last_sample(rows, id, start, n));
            } else {
                assert(is_last_sample(rows, id, start, m));
            }
        } else if own {
            assert(is_last_sample(rows, id, start, n));
        }
    }
}

/// The Steam id of whoever threw entity `j` of frame `i`.
pub open spec fn thrower_id(
    schema: Schema,
    names: Names,
    frames: Seq<Frame>,
    i: int,
    j: int,
) -> Option<u64> {
    let es = frames[i].entities@;
    match hand_of(schema, es[j]) {
        None => None,
        Some(h) => match participants::pawn_of(names, Scope::Projectiles, es, h) {
            None => None,
            Some(pawn) => match states::controller_of(
                schema,
                names,
                Scope::Projectiles,
                es,
                pawn,
            ) {
                None => None,
                Some(c) => c.u64_at(states::controller_key(schema, "m_steamID"@)),
            },
        },
    }
}

/// Whether two of the places of grenades are of one throw: of one entity index, and seen since
/// one tick without a gap.
pub open spec fn one_throw(
    schema: Schema,
    names: Names,
    frames: Seq<Frame>,
    a: (int, int),
    b: (int, int),
) -> bool {
    let x = frames[a.0].entities@[a.1].index;
    let y = frames[b.0].entities@[b.1].index;
    x == y && seen_since(schema, names, frames, a.0, x) == seen_since(
        schema,
        names,
        frames,
        b.0,
        y,
    )
}

/// Which places of grenades are the first of their throws.
pub open spec fn throw_picks(
    schema: Schema,
    names: Names,
    frames: Seq<Frame>,
    places: Seq<(int, int)>,
) -> spec_fn(int) -> bool {
    |k: int|
        forall|m: int|
            0 <= m < k ==> !one_throw(schema, names, frames, #[trigger] places[m], places[k])
}

/// Whether place `m` is where the throw that begins at place `f` is seen last.
pub open spec fn is_landing(
    schema: Schema,
    names: Names,
    frames: Seq<Frame>,
    places: Seq<(int, int)>,
    f: int,
    m: int,
) -> bool {
    &&& 0 <= m < places.len()
    &&& one_throw(schema, names, frames, places[m], places[f])
    &&& forall|x: int|
        0 <= x < places.len() && one_throw(
            schema,
            names,
            frames,
            #[trigger] places[x],
            places[f],
        ) ==> frames[places[x].0].tick <= frames[places[m].0].tick && (x > m
            ==> frames[places[x].0].tick < frames[places[m].0].tick)
}

/// Whether the thrower at place `m` is that of the throw that begins at place `f`: the first
/// who has a Steam id, else that at the first place.
pub open spec fn is_throwing(
    schema: Schema,
    names: Names,
    frames: Seq<Frame>,
    places: Seq<(int, int)>,
    f: int,
    m: int,
) -> bool {
    let known = thrower_id(schema, names, frames, places[m].0, places[m].1) is Some;
    &&& 0 <= m < places.len()
    &&& one_throw(schema, names, frames, places[m], places[f])
    &&& forall|x: int|
        0 <= x < (if known {
            m
        } else {
            places.len() as int
        }) && one_throw(schema, names, frames, #[trigger] places[x], places[f]) ==> thrower_id(
            schema,
            names,
            frames,
            places[x].0,
            places[x].1,
        ) is None
    &&& !known ==> m == f
}

/// Whether an event says where an HE grenade of an entity index went off.
pub open spec fn tells_blast(e: GameEvent, id: i32) -> bool {
    &&& e.name@ == "hegrenade_detonate"@
    &&& keys::key_i32(e.keys@, "entityid"@) == id
    &&& keys::key_number(e.keys@, "x"@) is Some
    &&& keys::key_number(e.keys@, "y"@) is Some
    &&& keys::key_number(e.keys@, "z"@) is Some
}

/// Whether an event tells of the detonation of a throw: it says where a grenade of the same
/// index went off, not before the throw, and before any later throw of the index.
pub open spec fn tells_own_blast(
    throws: Seq<GrenadeThrow<Seq<char>>>,
    t: GrenadeThrow<Seq<char>>,
    e: GameEvent,
) -> bool {
    &&& tells_blast(e, t.entity_id)
    &&& t.throw_tick <= e.tick
    &&& forall|m: int|
        0 <= m < throws.len() && (#[trigger] throws[m]).entity_id == t.entity_id
            && t.throw_tick < throws[m].throw_tick ==> e.tick < throws[m].throw_tick
}

/// Whether a row tells of the throw that begins at place `f`.
pub open spec fn is_throw(
    schema: Schema,
    names: Names,
    frames: Seq<Frame>,
    places: Seq<(int, int)>,
    f: int,
    t: GrenadeThrow<Seq<char>>,
) -> bool {
    let (i, j) = places[f];
    let e = frames[i].entities@[j];
    &&& t.entity_id == e.index
    &&& t.throw_tick == frames[i].tick
    &&& t.throw_x == e.world.x
    &&& t.throw_y == e.world.y
    &&& t.throw_z == e.world.z
    &&& names.grenade(e.class_name@) == Some(t.grenade_type)
    &&& exists|m: int| #[trigger]
        is_throwing(schema, names, frames, places, f, m) && exists|p: ResolvedPlayer<Seq<char>>|
            #[trigger]
            is_thrower(
                schema,
                names,
                frames[places[m].0].entities@,
                frames[places[m].0].entities@[places[m].1],
                p,
            ) && p.steamid == t.thrower_steamid && p.name == t.thrower_name && p.side
                == t.thrower_side
    &&& exists|m: int| #[trigger]
        is_landing(schema, names, frames, places, f, m) && t.land_tick
            == frames[places[m].0].tick && (!t.land_is_precise ==> t.land_x
            == frames[places[m].0].entities@[places[m].1].world.x && t.land_y
            == frames[places[m].0].entities@[places[m].1].world.y && t.land_z
            == frames[places[m].0].entities@[places[m].1].world.z)
}

/// Whether a throw lands precisely where, and only if, an event tells of its detonation.
pub open spec fn lands_precisely(
    throws: Seq<GrenadeThrow<Seq<char>>>,
    events: Seq<GameEvent>,
    t: GrenadeThrow<Seq<char>>,
) -> bool {
    &&& t.land_is_precise <==> t.grenade_type == "he"@ && exists|i: int|
        0 <= i < events.len() && tells_own_blast(throws, t, #[trigger] events[i])
    &&& t.land_is_precise ==> exists|i: int|
        0 <= i < events.len() && tells_own_blast(throws, t, #[trigger] events[i])
            && keys::key_number(events[i].keys@, "x"@) == Some(t.land_x) && keys::key_number(
            events[i].keys@,
            "y"@,
        ) == Some(t.land_y) && keys::key_number(events[i].keys@, "z"@) == Some(t.land_z) && forall|
            x: int,
        |
            i < x < events.len() ==> !tells_own_blast(throws, t, #[trigger] events[x])
}

#[verifier::rlimit(50)]
proof fn lemma_throw(
    schema: Schema,
    names: Names,
    frames: Seq<Frame>,
    events: Seq<GameEvent>,
    q: int,
)
    requires
        0 <= q < projectiles::throw_rows(
            schema,
            Lens::of(schema, &names, Scope::Projectiles),
            frames,
            events,
        ).len(),
    ensures
        ({
            let throws = projectiles::throw_rows(
                schema,
                Lens::of(schema, &names, Scope::Projectiles),
                frames,
                events,
            );
            let places = grenade_places(schema, names, frames, frames.len() as int);
            let firsts = reading::picks(
                places.len() as int,
                throw_picks(schema, names, frames, places),
            );
            &&& throws.len() == firsts.len()
            &&& is_throw(schema, names, frames, places, firsts[q], throws[q])
        }),
{
    let lens = Lens::of(schema, &names, Scope::Projectiles);
    let n = frames.len() as int;
    lemma_flights(schema, names, frames, n);
    assert(frames.take(n) =~= frames);
    let raw = projectiles::flights_through(schema, lens, frames).rows;
    let rows = projectiles::grenade_samples(schema, lens, frames);
    let throws = projectiles::throw_rows(schema, lens, frames, events);
    let places = grenade_places(schema, names, frames, n);
    reading::law_spots(n, states::entity_counts(frames), grenade_picks(schema, names, frames));
    let len = places.len() as int;
    law_collapse_sums_up(rows, len);
    assert(rows.take(len) =~= rows);
    let kept = projectiles::collapsed(rows);
    let firsts = reading::picks(len, throw_picks(schema, names, frames, places));
    assert forall|a: int, b: int| 0 <= a < len && 0 <= b < len implies #[trigger] one_instance(
        rows[a],
        rows[b],
    ) == one_throw(schema, names, frames, places[a], places[b]) by {
        assert(is_sample(schema, names, frames, places[a].0, places[a].1, raw[a]));
        assert(is_sample(schema, names, frames, places[b].0, places[b].1, raw[b]));
    }
    lemma_picks_agree(len, first_picks(rows), throw_picks(schema, names, frames, places), rows,
        schema, names, frames, places);
    assert(firsts == reading::picks(len, first_picks(rows)));
    let f = firsts[q];
    let c = kept[q];
    let t = throws[q];
    assert(sums_up(rows, len, f, c));
    assert(is_sample(schema, names, frames, places[f].0, places[f].1, raw[f]));
    assert(places.contains((places[f].0, places[f].1))) by {
        assert(places.contains(places[f]));
    }
    assert(is_grenade(schema, names, frames[places[f].0].entities@[places[f].1]));
    // Who threw it.
    let m = choose|m: int| #[trigger] names_thrower(rows, len, f, c, m) && c.thrower
        == rows[m].thrower;
    assert(is_sample(schema, names, frames, places[m].0, places[m].1, raw[m]));
    assert forall|x: int| 0 <= x < len implies (#[trigger] rows[x]).thrower.steamid == thrower_id(
        schema,
        names,
        frames,
        places[x].0,
        places[x].1,
    ) by {
        assert(is_sample(schema, names, frames, places[x].0, places[x].1, raw[x]));
    }
    assert(is_throwing(schema, names, frames, places, f, m)) by {
        assert(one_instance(rows[m], rows[f]));
        assert forall|x: int|
            0 <= x < (if thrower_id(schema, names, frames, places[m].0, places[m].1) is Some {
                m
            } else {
                len
            }) && one_throw(schema, names, frames, #[trigger] places[x], places[f]) implies thrower_id(
            schema,
            names,
            frames,
            places[x].0,
            places[x].1,
        ) is None by {
            assert(one_instance(rows[x], rows[f]));
        }
    }
    assert(is_thrower(
        schema,
        names,
        frames[places[m].0].entities@,
        frames[places[m].0].entities@[places[m].1],
        rows[m].thrower,
    ));
    // Where it landed.
    let e = choose|e: int| #[trigger] ends_it(rows, len, c, e) && c.end_tick == rows[e].end_tick
        && c.end_at == rows[e].end_at;
    lemma_end_of(raw, raw[e].entity_id, raw[e].start_tick);
    assert(raw[e].entity_id == rows[e].entity_id);
    let l = choose|l: int| #[trigger]
        is_last_sample(raw, raw[e].entity_id, raw[e].start_tick, l) && (
        c.end_tick,
        c.end_at,
    ) == (raw[l].tick, raw[l].at);
    assert(is_last_sample(raw, raw[e].entity_id, raw[e].start_tick, l));
    assert(is_sample(schema, names, frames, places[l].0, places[l].1, raw[l]));
    assert(is_landing(schema, names, frames, places, f, l)) by {
        assert(one_instance(rows[l], rows[f]));
        assert forall|x: int|
            0 <= x < len && one_throw(
                schema,
                names,
                frames,
                #[trigger] places[x],
                places[f],
            ) implies frames[places[x].0].tick <= frames[places[l].0].tick && (x > l
            ==> frames[places[x].0].tick < frames[places[l].0].tick) by {
            assert(one_instance(rows[x], rows[f]));
            assert(is_sample(schema, names, frames, places[x].0, places[x].1, raw[x]));
            assert(raw[x].entity_id == raw[e].entity_id);
        }
    }
}

proof fn lemma_picks_agree(
    n: int,
    p: spec_fn(int) -> bool,
    r: spec_fn(int) -> bool,
    rows: Seq<TrackedRow<Seq<char>>>,
    schema: Schema,
    names: Names,
    frames: Seq<Frame>,
    places: Seq<(int, int)>,
)
    requires
        p == first_picks(rows),
        r == throw_picks(schema, names, frames, places),
        n <= rows.len(),
        forall|a: int, b: int|
            0 <= a < n && 0 <= b < n ==> #[trigger] one_instance(rows[a], rows[b]) == one_throw(
                schema,
                names,
                frames,
                places[a],
                places[b],
            ),
    ensures
        reading::picks(n, p) == reading::picks(n, r),
    decreases n,
{
    if n > 0 {
        lemma_picks_agree(n - 1, p, r, rows, schema, names, frames, places);
        if p(n - 1) {
            assert forall|m: int| 0 <= m < n - 1 implies !one_throw(
                schema,
                names,
                frames,
                #[trigger] places[m],
                places[n - 1],
            ) by {
                assert(!one_instance(rows[m], rows[n - 1]));
            }
        }
        if r(n - 1) {
            assert forall|m: int| 0 <= m < n - 1 implies !one_instance(
                #[trigger] rows[m],
                rows[n - 1],
            ) by {
                assert(!one_throw(schema, names, frames, places[m], places[n - 1]));
            }
        }
    }
}

/// Throws are the grenades that are seen, each once: there is one row for every stretch of
/// frames, without a gap, that shows a grenade of an index, in the order in which they begin.
/// It says where and when the grenade was seen first and last, and who threw it, as far as any
/// of its trajectory tells; an HE grenade lands where its detonation was.
pub proof fn law_throws_sum_up_trajectories(
    schema: Schema,
    names: Names,
    frames: Seq<Frame>,
    events: Seq<GameEvent>,
)
    ensures
        ({
            let throws = projectiles::throw_rows(
                schema,
                Lens::of(schema, &names, Scope::Projectiles),
                frames,
                events,
            );
            let places = grenade_places(schema, names, frames, frames.len() as int);
            let firsts = reading::picks(
                places.len() as int,
                throw_picks(schema, names, frames, places),
            );
            &&& throws.len() == firsts.len()
            &&& forall|q: int|
                0 <= q < throws.len() ==> is_throw(
                    schema,
                    names,
                    frames,
                    places,
                    firsts[q],
                    #[trigger] throws[q],
                ) && lands_precisely(throws, events, throws[q])
        }),
{
    let lens = Lens::of(schema, &names, Scope::Projectiles);
    let throws = projectiles::throw_rows(schema, lens, frames, events);
    let places = grenade_places(schema, names, frames, frames.len() as int);
    let firsts = reading::picks(
        places.len() as int,
        throw_picks(schema, names, frames, places),
    );
    if throws.len() > 0 {
        lemma_throw(schema, names, frames, events, 0);
    } else {
        lemma_no_throws(schema, names, frames, events);
    }
    assert forall|q: int| 0 <= q < throws.len() implies is_throw(
        schema,
        names,
        frames,
        places,
        firsts[q],
        #[trigger] throws[q],
    ) && lands_precisely(throws, events, throws[q]) by {
        lemma_throw(schema, names, frames, events, q);
        projectiles::law_precise_landings(schema, lens, frames, events, q);
        let t = throws[q];
        assert forall|i: int| 0 <= i < events.len() implies tells_own_blast(
            throws,
            t,
            #[trigger] events[i],
        ) == projectiles::is_own_blast(throws, t, events[i]) by {}
        if t.land_is_precise {
            let i = choose|i: int|
                0 <= i < events.len() && projectiles::is_own_blast(throws, t, #[trigger] events[i])
                    && projectiles::blast_of(events[i]) == Some(
                    crate::float::Vector { x: t.land_x, y: t.land_y, z: t.land_z },
                ) && forall|j: int|
                    i < j < events.len() ==> !projectiles::is_own_blast(
                        throws,
                        t,
                        #[trigger] events[j],
                    );
            assert(tells_own_blast(throws, t, events[i]));
        }
    }
}

proof fn lemma_no_throws(
    schema: Schema,
    names: Names,
    frames: Seq<Frame>,
    events: Seq<GameEvent>,
)
    requires
        projectiles::throw_rows(
            schema,
            Lens::of(schema, &names, Scope::Projectiles),
            frames,
            events,
        ).len() == 0,
    ensures
        grenade_places(schema, names, frames, frames.len() as int).len() == 0,
{
    let lens = Lens::of(schema, &names, Scope::Projectiles);
    let n = frames.len() as int;
    lemma_flights(schema, names, frames, n);
    assert(frames.take(n) =~= frames);
    let rows = projectiles::grenade_samples(schema, lens, frames);
    projectiles::law_collapse(rows);
    if rows.len() > 0 {
        assert(projectiles::is_kept(projectiles::collapsed(rows), rows[0]));
    }
}

/// Whether a window is one of an entity that a tick falls in.
pub open spec fn is_open(w: Window, id: i32, tick: i32) -> bool {
    w.entity_id == id && w.start <= tick && tick <= w.end
}

/// The window that an entity is in on a tick is the first of its windows, by their ends, that
/// the tick falls in.
pub proof fn law_window_is_first(windows: Seq<Window>, id: i32, tick: i32)
    ensures
        match projectiles::window_at(windows, id, tick) {
            Some(w) => exists|k: int|
                0 <= k < windows.len() && #[trigger] windows[k] == w && is_open(w, id, tick)
                    && forall|m: int| 0 <= m < k ==> !is_open(#[trigger] windows[m], id, tick),
            None => forall|m: int|
                0 <= m < windows.len() ==> !is_open(#[trigger] windows[m], id, tick),
        },
{
    let p = |w: Window| w.entity_id == id && w.start <= tick <= w.end;
    lemma_first_match_place(windows, p);
    if let Some(w) = projectiles::window_at(windows, id, tick) {
        let k = choose|k: int|
            0 <= k < windows.len() && #[trigger] windows[k] == w && p(w) && forall|m: int|
                0 <= m < k ==> !p(#[trigger] windows[m]);
        assert(windows[k] == w);
        assert forall|m: int| 0 <= m < k implies !is_open(#[trigger] windows[m], id, tick) by {
            assert(!p(windows[m]));
        }
    } else {
        assert forall|m: int| 0 <= m < windows.len() implies !is_open(
            #[trigger] windows[m],
            id,
            tick,
        ) by {
            assert(!p(windows[m]));
        }
    }
}

proof fn lemma_first_match_place(windows: Seq<Window>, p: spec_fn(Window) -> bool)
    ensures
        match crate::order::first_match(windows, p) {
            Some(w) => exists|k: int|
                0 <= k < windows.len() && #[trigger] windows[k] == w && p(w) && forall|m: int|
                    0 <= m < k ==> !p(#[trigger] windows[m]),
            None => forall|m: int| 0 <= m < windows.len() ==> !p(#[trigger] windows[m]),
        },
    decreases windows.len(),
{
    if windows.len() > 0 {
        if p(windows[0]) {
            assert(windows[0] == windows[0]);
        } else {
            let rest = windows.drop_first();
            lemma_first_match_place(rest, p);
            if let Some(w) = crate::order::first_match(rest, p) {
                let k = choose|k: int|
                    0 <= k < rest.len() && #[trigger] rest[k] == w && p(w) && forall|m: int|
                        0 <= m < k ==> !p(#[trigger] rest[m]);
                assert(windows[k + 1] == w);
                assert forall|m: int| 0 <= m < k + 1 implies !p(#[trigger] windows[m]) by {
                    if m > 0 {
                        assert(rest[m - 1] == windows[m]);
                    }
                }
            } else {
                assert forall|m: int| 0 <= m < windows.len() implies !p(#[trigger] windows[m]) by {
                    if m > 0 {
                        assert(rest[m - 1] == windows[m]);
                    }
                }
            }
        }
    }
}

/// Which entities of which frames are of a class, have a position and are in a window.
pub open spec fn active_picks(
    schema: Schema,
    class: Seq<char>,
    windows: Seq<Window>,
    frames: Seq<Frame>,
) -> spec_fn(int, int) -> bool {
    |i: int, j: int|
        {
            let e = frames[i].entities@[j];
            &&& e.class_name@ == class
            &&& is_placed(schema, e)
            &&& projectiles::window_at(windows, e.index, frames[i].tick) is Some
        }
}

/// The entities of a class that are in a window, in the first `n` frames.
pub open spec fn active_places(
    schema: Schema,
    class: Seq<char>,
    windows: Seq<Window>,
    frames: Seq<Frame>,
    n: int,
) -> Seq<(int, int)> {
    reading::spots(
        n,
        states::entity_counts(frames),
        active_picks(schema, class, windows, frames),
    )
}

/// The window that entity `j` of frame `i` is in.
pub open spec fn window_of(windows: Seq<Window>, frames: Seq<Frame>, at: (int, int)) -> Window {
    projectiles::window_at(windows, frames[at.0].entities@[at.1].index, frames[at.0].tick)->0
}

spec fn are_samples(
    schema: Schema,
    names: Names,
    windows: Seq<Window>,
    frames: Seq<Frame>,
    places: Seq<(int, int)>,
    rows: Seq<TrackedRow<Seq<char>>>,
) -> bool {
    &&& rows.len() == places.len()
    &&& forall|k: int|
        0 <= k < rows.len() ==> is_sample(
            schema,
            names,
            frames,
            places[k].0,
            places[k].1,
            #[trigger] rows[k],
        ) && rows[k].start_tick == window_of(windows, frames, places[k]).start && rows[k].end_tick
            == window_of(windows, frames, places[k]).end && rows[k].end_at == rows[k].at
}

proof fn lemma_windowed_in(
    schema: Schema,
    names: Names,
    class: Seq<char>,
    windows: Seq<Window>,
    frames: Seq<Frame>,
    i: int,
    m: int,
)
    requires
        0 <= i < frames.len(),
        0 <= m <= frames[i].entities@.len(),
    ensures
        are_samples(
            schema,
            names,
            windows,
            frames,
            reading::spots_in(i, m, active_picks(schema, class, windows, frames)),
            projectiles::windowed_in(
                schema,
                Lens::of(schema, &names, Scope::Projectiles),
                class,
                windows,
                frames[i],
                frames[i].entities@.take(m),
            ),
        ),
    decreases m,
{
    let lens = Lens::of(schema, &names, Scope::Projectiles);
    let es = frames[i].entities@;
    let p = active_picks(schema, class, windows, frames);
    if m == 0 {
        assert(es.take(0) =~= Seq::empty());
    } else {
        lemma_windowed_in(schema, names, class, windows, frames, i, m - 1);
        assert(es.take(m).drop_last() =~= es.take(m - 1));
        let e = es[m - 1];
        assert(es.take(m).last() == e);
        lemma_sample(schema, names, frames[i], e);
        let was = projectiles::windowed_in(schema, lens, class, windows, frames[i], es.take(m - 1));
        let now = projectiles::windowed_in(schema, lens, class, windows, frames[i], es.take(m));
        let before = reading::spots_in(i, m - 1, p);
        let all = reading::spots_in(i, m, p);
        assert forall|k: int| 0 <= k < now.len() implies is_sample(
            schema,
            names,
            frames,
            all[k].0,
            all[k].1,
            #[trigger] now[k],
        ) && now[k].start_tick == window_of(windows, frames, all[k]).start && now[k].end_tick
            == window_of(windows, frames, all[k]).end && now[k].end_at == now[k].at by {
            if k < was.len() {
                assert(now[k] == was[k]);
                assert(all[k] == before[k]);
            }
        }
    }
}

proof fn lemma_windowed(
    schema: Schema,
    names: Names,
    class: Seq<char>,
    windows: Seq<Window>,
    frames: Seq<Frame>,
    n: int,
)
    requires
        0 <= n <= frames.len(),
    ensures
        are_samples(
            schema,
            names,
            windows,
            frames,
            active_places(schema, class, windows, frames, n),
            projectiles::windowed_through(
                schema,
                Lens::of(schema, &names, Scope::Projectiles),
                class,
                windows,
                frames.take(n),
            ),
        ),
    decreases n,
{
    let lens = Lens::of(schema, &names, Scope::Projectiles);
    if n == 0 {
        assert(frames.take(0) =~= Seq::empty());
    } else {
        lemma_windowed(schema, names, class, windows, frames, n - 1);
        assert(frames.take(n).drop_last() =~= frames.take(n - 1));
        assert(frames.take(n).last() == frames[n - 1]);
        let es = frames[n - 1].entities@;
        let m = es.len() as int;
        lemma_windowed_in(schema, names, class, windows, frames, n - 1, m);
        assert(es.take(m) =~= es);
        let was = projectiles::windowed_through(schema, lens, class, windows, frames.take(n - 1));
        let own = projectiles::windowed_in(schema, lens, class, windows, frames[n - 1], es);
        let now = was + own;
        let all = active_places(schema, class, windows, frames, n);
        assert forall|k: int| 0 <= k < now.len() implies is_sample(
            schema,
            names,
            frames,
            all[k].0,
            all[k].1,
            #[trigger] now[k],
        ) && now[k].start_tick == window_of(windows, frames, all[k]).start && now[k].end_tick
            == window_of(windows, frames, all[k]).end && now[k].end_at == now[k].at by {
            if k < was.len() {
                assert(now[k] == was[k]);
            } else {
                assert(now[k] == own[k - was.len()]);
            }
        }
    }
}

/// Whether two places are of one fire or smoke: of one entity index, in windows with one start.
pub open spec fn one_cloud(
    windows: Seq<Window>,
    frames: Seq<Frame>,
    a: (int, int),
    b: (int, int),
) -> bool {
    frames[a.0].entities@[a.1].index == frames[b.0].entities@[b.1].index && window_of(
        windows,
        frames,
        a,
    ).start == window_of(windows, frames, b).start
}

/// Which places are the first of their fires or smokes.
pub open spec fn cloud_picks(
    windows: Seq<Window>,
    frames: Seq<Frame>,
    places: Seq<(int, int)>,
) -> spec_fn(int) -> bool {
    |k: int|
        forall|m: int| 0 <= m < k ==> !one_cloud(windows, frames, #[trigger] places[m], places[k])
}

/// Whether the thrower at place `m` is that of the fire or smoke that begins at place `f`: the
/// first who has a Steam id, else that at the first place.
pub open spec fn is_cloud_thrower(
    schema: Schema,
    names: Names,
    windows: Seq<Window>,
    frames: Seq<Frame>,
    places: Seq<(int, int)>,
    f: int,
    m: int,
) -> bool {
    let known = thrower_id(schema, names, frames, places[m].0, places[m].1) is Some;
    &&& 0 <= m < places.len()
    &&& one_cloud(windows, frames, places[m], places[f])
    &&& forall|x: int|
        0 <= x < (if known {
            m
        } else {
            places.len() as int
        }) && one_cloud(windows, frames, #[trigger] places[x], places[f]) ==> thrower_id(
            schema,
            names,
            frames,
            places[x].0,
            places[x].1,
        ) is None
    &&& !known ==> m == f
}

/// Whether a fire or smoke begins at place `f`: it is where it is seen first, its window is
/// the latest to end that it is in, and its thrower the first who is known.
pub open spec fn is_cloud(
    schema: Schema,
    names: Names,
    windows: Seq<Window>,
    frames: Seq<Frame>,
    places: Seq<(int, int)>,
    f: int,
    c: TrackedRow<Seq<char>>,
) -> bool {
    let e = frames[places[f].0].entities@[places[f].1];
    &&& c.entity_id == e.index
    &&& c.at == e.world
    &&& c.start_tick == window_of(windows, frames, places[f]).start
    &&& exists|m: int|
        0 <= m < places.len() && one_cloud(windows, frames, #[trigger] places[m], places[f])
            && window_of(windows, frames, places[m]).end == c.end_tick
    &&& forall|m: int|
        0 <= m < places.len() && one_cloud(windows, frames, #[trigger] places[m], places[f])
            ==> window_of(windows, frames, places[m]).end <= c.end_tick
    &&& exists|m: int| #[trigger]
        is_cloud_thrower(schema, names, windows, frames, places, f, m) && is_thrower(
            schema,
            names,
            frames[places[m].0].entities@,
            frames[places[m].0].entities@[places[m].1],
            c.thrower,
        )
}

proof fn lemma_clouds(
    schema: Schema,
    names: Names,
    class: Seq<char>,
    windows: Seq<Window>,
    frames: Seq<Frame>,
)
    ensures
        ({
            let places = active_places(schema, class, windows, frames, frames.len() as int);
            let firsts = reading::picks(
                places.len() as int,
                cloud_picks(windows, frames, places),
            );
            let kept = projectiles::collapsed(
                projectiles::windowed_through(
                    schema,
                    Lens::of(schema, &names, Scope::Projectiles),
                    class,
                    windows,
                    frames,
                ),
            );
            &&& kept.len() == firsts.len()
            &&& forall|q: int|
                0 <= q < kept.len() ==> is_cloud(
                    schema,
                    names,
                    windows,
                    frames,
                    places,
                    firsts[q],
                    #[trigger] kept[q],
                )
        }),
{
    let lens = Lens::of(schema, &names, Scope::Projectiles);
    let n = frames.len() as int;
    lemma_windowed(schema, names, class, windows, frames, n);
    assert(frames.take(n) =~= frames);
    let rows = projectiles::windowed_through(schema, lens, class, windows, frames);
    let places = active_places(schema, class, windows, frames, n);
    let len = places.len() as int;
    law_collapse_sums_up(rows, len);
    assert(rows.take(len) =~= rows);
    let kept = projectiles::collapsed(rows);
    let firsts = reading::picks(len, cloud_picks(windows, frames, places));
    assert forall|a: int, b: int| 0 <= a < len && 0 <= b < len implies #[trigger] one_instance(
        rows[a],
        rows[b],
    ) == one_cloud(windows, frames, places[a], places[b]) by {
        assert(is_sample(schema, names, frames, places[a].0, places[a].1, rows[a]));
        assert(is_sample(schema, names, frames, places[b].0, places[b].1, rows[b]));
    }
    lemma_cloud_picks_agree(len, rows, windows, frames, places);
    assert forall|q: int| 0 <= q < kept.len() implies is_cloud(
        schema,
        names,
        windows,
        frames,
        places,
        firsts[q],
        #[trigger] kept[q],
    ) by {
        let f = firsts[q];
        let c = kept[q];
        assert(sums_up(rows, len, f, c));
        assert(is_sample(schema, names, frames, places[f].0, places[f].1, rows[f]));
        let m = choose|m: int| #[trigger] names_thrower(rows, len, f, c, m) && c.thrower
            == rows[m].thrower;
        assert(is_sample(schema, names, frames, places[m].0, places[m].1, rows[m]));
        assert forall|x: int| 0 <= x < len implies (#[trigger] rows[x]).thrower.steamid
            == thrower_id(schema, names, frames, places[x].0, places[x].1) by {
            assert(is_sample(schema, names, frames, places[x].0, places[x].1, rows[x]));
        }
        assert(is_cloud_thrower(schema, names, windows, frames, places, f, m)) by {
            assert(one_instance(rows[m], rows[f]));
            assert forall|x: int|
                0 <= x < (if thrower_id(schema, names, frames, places[m].0, places[m].1) is Some {
                    m
                } else {
                    len
                }) && one_cloud(windows, frames, #[trigger] places[x], places[f]) implies thrower_id(
                schema,
                names,
                frames,
                places[x].0,
                places[x].1,
            ) is None by {
                assert(one_instance(rows[x], rows[f]));
            }
        }
        let e = choose|e: int| #[trigger] ends_it(rows, len, c, e) && c.end_tick
            == rows[e].end_tick && c.end_at == rows[e].end_at;
        assert(one_instance(rows[e], rows[f]));
        assert(one_cloud(windows, frames, places[e], places[f]));
        assert(window_of(windows, frames, places[e]).end == rows[e].end_tick);
        assert forall|x: int|
            0 <= x < len && one_cloud(windows, frames, #[trigger] places[x], places[f]) implies window_of(
            windows,
            frames,
            places[x],
        ).end <= c.end_tick by {
            assert(one_instance(rows[x], rows[f]));
            assert(rows[x].end_tick == window_of(windows, frames, places[x]).end);
        }
    }
}

proof fn lemma_cloud_picks_agree(
    n: int,
    rows: Seq<TrackedRow<Seq<char>>>,
    windows: Seq<Window>,
    frames: Seq<Frame>,
    places: Seq<(int, int)>,
)
    requires
        n <= rows.len(),
        forall|a: int, b: int|
            0 <= a < n && 0 <= b < n ==> #[trigger] one_instance(rows[a], rows[b]) == one_cloud(
                windows,
                frames,
                places[a],
                places[b],
            ),
    ensures
        reading::picks(n, first_picks(rows)) == reading::picks(
            n,
            cloud_picks(windows, frames, places),
        ),
    decreases n,
{
    if n > 0 {
        lemma_cloud_picks_agree(n - 1, rows, windows, frames, places);
        let p = first_picks(rows);
        let r = cloud_picks(windows, frames, places);
        if p(n - 1) {
            assert forall|m: int| 0 <= m < n - 1 implies !one_cloud(
                windows,
                frames,
                #[trigger] places[m],
                places[n - 1],
            ) by {
                assert(!one_instance(rows[m], rows[n - 1]));
            }
        }
        if r(n - 1) {
            assert forall|m: int| 0 <= m < n - 1 implies !one_instance(
                #[trigger] rows[m],
                rows[n - 1],
            ) by {
                assert(!one_cloud(windows, frames, places[m], places[n - 1]));
            }
        }
    }
}

/// Fires are the infernos that are seen while they burn: there is one row for every inferno
/// and start event, in the order in which they are seen first, with the position where that
/// is, the window of ticks between the start and the expiry event, and the first thrower that
/// is known.
pub proof fn law_fires_show_infernos(
    schema: Schema,
    names: Names,
    frames: Seq<Frame>,
    events: Seq<GameEvent>,
)
    ensures
        ({
            let windows = projectiles::windows_of(
                "inferno_startburn"@,
                "inferno_expire"@,
                events,
            );
            let places = active_places(
                schema,
                "CInferno"@,
                windows,
                frames,
                frames.len() as int,
            );
            let firsts = reading::picks(
                places.len() as int,
                cloud_picks(windows, frames, places),
            );
            let fires = projectiles::fire_rows(
                schema,
                Lens::of(schema, &names, Scope::Projectiles),
                frames,
                events,
            );
            &&& fires.len() == firsts.len()
            &&& forall|q: int|
                0 <= q < fires.len() ==> (#[trigger] fires[q]).fire_type == "inferno"@ && exists|
                    c: TrackedRow<Seq<char>>,
                | #[trigger]
                    is_cloud(schema, names, windows, frames, places, firsts[q], c)
                        && fires[q].entity_id == c.entity_id && fires[q].start_tick == c.start_tick
                        && fires[q].end_tick == c.end_tick && fires[q].x == c.at.x && fires[q].y
                        == c.at.y && fires[q].z == c.at.z && fires[q].thrower_steamid
                        == c.thrower.steamid && fires[q].thrower_name == c.thrower.name
                        && fires[q].thrower_side == c.thrower.side
        }),
{
    let windows = projectiles::fire_windows(events);
    lemma_clouds(schema, names, "CInferno"@, windows, frames);
    let lens = Lens::of(schema, &names, Scope::Projectiles);
    let kept = projectiles::collapsed(
        projectiles::windowed_through(schema, lens, "CInferno"@, windows, frames),
    );
    let fires = projectiles::fire_rows(schema, lens, frames, events);
    let places = active_places(schema, "CInferno"@, windows, frames, frames.len() as int);
    let firsts = reading::picks(places.len() as int, cloud_picks(windows, frames, places));
    assert forall|q: int| 0 <= q < fires.len() implies (#[trigger] fires[q]).fire_type
        == "inferno"@ && exists|c: TrackedRow<Seq<char>>| #[trigger]
        is_cloud(schema, names, windows, frames, places, firsts[q], c) && fires[q].entity_id
            == c.entity_id && fires[q].start_tick == c.start_tick && fires[q].end_tick == c.end_tick
            && fires[q].x == c.at.x && fires[q].y == c.at.y && fires[q].z == c.at.z
            && fires[q].thrower_steamid == c.thrower.steamid && fires[q].thrower_name
            == c.thrower.name && fires[q].thrower_side == c.thrower.side by {
        assert(is_cloud(schema, names, windows, frames, places, firsts[q], kept[q]));
    }
}

/// Whether a smoke shows the cloud that stands at a place first.
pub open spec fn is_smoke_of(
    schema: Schema,
    names: Names,
    windows: Seq<Window>,
    frames: Seq<Frame>,
    places: Seq<(int, int)>,
    first: int,
    row: Smoke<Seq<char>>,
) -> bool {
    exists|c: TrackedRow<Seq<char>>| #[trigger]
        is_cloud(schema, names, windows, frames, places, first, c) && row.entity_id == c.entity_id
            && row.start_tick == c.start_tick && row.end_tick == c.end_tick && row.x == c.at.x
            && row.y == c.at.y && row.z == c.at.z && row.thrower_steamid == c.thrower.steamid
            && row.thrower_name == c.thrower.name && row.thrower_side == c.thrower.side
}

/// Smokes are the smoke projectiles that are seen while their clouds stand: there is one row
/// for every projectile and detonation, in the order in which they are seen first, with the
/// position where that is, the window of ticks between the detonation and the expiry event,
/// and the first thrower that is known.
pub proof fn law_smokes_show_clouds(
    schema: Schema,
    names: Names,
    frames: Seq<Frame>,
    events: Seq<GameEvent>,
)
    ensures
        ({
            let windows = projectiles::windows_of(
                "smokegrenade_detonate"@,
                "smokegrenade_expired"@,
                events,
            );
            let places = active_places(
                schema,
                "CSmokeGrenadeProjectile"@,
                windows,
                frames,
                frames.len() as int,
            );
            let firsts = reading::picks(
                places.len() as int,
                cloud_picks(windows, frames, places),
            );
            let smokes = projectiles::smoke_rows(
                schema,
                Lens::of(schema, &names, Scope::Projectiles),
                frames,
                events,
            );
            &&& smokes.len() == firsts.len()
            &&& forall|q: int|
                0 <= q < smokes.len() ==> is_smoke_of(
                    schema,
                    names,
                    windows,
                    frames,
                    places,
                    firsts[q],
                    #[trigger] smokes[q],
                )
        }),
{
    let windows = projectiles::smoke_windows(events);
    lemma_clouds(schema, names, "CSmokeGrenadeProjectile"@, windows, frames);
    let lens = Lens::of(schema, &names, Scope::Projectiles);
    let kept = projectiles::collapsed(
        projectiles::windowed_through(
            schema,
            lens,
            "CSmokeGrenadeProjectile"@,
            windows,
            frames,
        ),
    );
    let smokes = projectiles::smoke_rows(schema, lens, frames, events);
    let places = active_places(
        schema,
        "CSmokeGrenadeProjectile"@,
        windows,
        frames,
        frames.len() as int,
    );
    let firsts = reading::picks(places.len() as int, cloud_picks(windows, frames, places));
    assert forall|q: int| 0 <= q < smokes.len() implies is_smoke_of(
        schema,
        names,
        windows,
        frames,
        places,
        firsts[q],
        #[trigger] smokes[q],
    ) by {
        assert(is_cloud(schema, names, windows, frames, places, firsts[q], kept[q]));
    }
}

/// The type of a grenade is that of its class, and `grenade` where the class has none.
pub proof fn law_grenade_types(names: Names, class: Seq<char>)
    ensures
        names.grenade(class) matches Some(t) ==> projectiles::type_of(names, class) == t,
        names.grenade(class) is None ==> projectiles::type_of(names, class) == "grenade"@,
{
}

/// The projectile datasets of a demo are those of all its frames and events.
pub proof fn law_projectiles_of_demo(p: Parser)
    requires
        p.frames is Ok,
        p.events is Ok,
    ensures
        ({
            let lens = Lens::of(p.schema, &p.names, Scope::Projectiles);
            let frames = p.frames->Ok_0@;
            let events = p.events->Ok_0@;
            &&& p.grenade_rows() is Ok && p.grenade_rows()->Ok_0 == projectiles::grenade_rows(
                p.schema,
                lens,
                frames,
            )
            &&& p.throw_rows() is Ok && p.throw_rows()->Ok_0 == projectiles::throw_rows(
                p.schema,
                lens,
                frames,
                events,
            )
            &&& p.fire_rows() is Ok && p.fire_rows()->Ok_0 == projectiles::fire_rows(
                p.schema,
                lens,
                frames,
                events,
            )
            &&& p.smoke_rows() is Ok && p.smoke_rows()->Ok_0 == projectiles::smoke_rows(
                p.schema,
                lens,
                frames,
                events,
            )
        }),
{
}

} // verus!
