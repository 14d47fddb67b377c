//! Blinds: one row for every pawn whose flash duration rises with a detonation.
use crate::blinds;
use crate::blinds::{Blind, Detonation, FlashCandidate, FlashSum, Onset};
use crate::demo::{Entity, Frame, GameEvent, Schema};
use crate::float::{Float, Vector};
use crate::keys;
use crate::laws::participants;
use crate::laws::reading;
use crate::laws::states;
use crate::names::{Names, Scope};
use crate::parser::Parser;
use crate::resolve;
use crate::resolve::{Lens, ResolvedPlayer, TeamKeys};
use vstd::prelude::*;

verus! {

/// How many events each frame has.
pub open spec fn event_counts(frames: Seq<Frame>) -> spec_fn(int) -> int {
    |i: int| frames[i].events@.len() as int
}

/// Which events of which frames tell that a flashbang went off on a tick.
pub open spec fn flash_picks(frames: Seq<Frame>, tick: i32) -> spec_fn(int, int) -> bool {
    |a: int, b: int|
        frames[a].events@[b].name@ == "flashbang_detonate"@ && frames[a].events@[b].tick == tick
}

/// The events, up to frame `i`, that tell of flashbangs that went off on its tick.
pub open spec fn flashes(frames: Seq<Frame>, i: int) -> Seq<(int, int)> {
    reading::spots(i + 1, event_counts(frames), flash_picks(frames, frames[i].tick))
}

/// The flash duration of a pawn.
pub open spec fn duration_of(schema: Schema, pawn: Entity) -> Float {
    pawn.real_at(schema.key_of("CCSPlayerPawn"@, "m_flFlashDuration"@))
}

/// Which entities of which frames are player pawns of an index, in use.
pub open spec fn pawns_of_index(frames: Seq<Frame>, index: i32) -> spec_fn(int, int) -> bool {
    |a: int, b: int|
        {
            let e = frames[a].entities@[b];
            e.active && e.class_name@ == "CCSPlayerPawn"@ && e.index == index
        }
}

/// The flash duration that was last seen of the pawn of an index before entity `j` of frame
/// `i`; zero, where none was.
pub open spec fn duration_before(
    schema: Schema,
    frames: Seq<Frame>,
    index: i32,
    i: int,
    j: int,
) -> Float {
    match reading::last_before(
        i,
        j,
        states::entity_counts(frames),
        pawns_of_index(frames, index),
    ) {
        Some((a, b)) => duration_of(schema, frames[a].entities@[b]),
        None => Float { bits: 0 },
    }
}

/// Which entities of which frames are pawns that may be blinded: in use, with a flash duration
/// that is not at most a tenth of a second, on a tick on which a flashbang went off.
pub open spec fn flashed_picks(schema: Schema, frames: Seq<Frame>) -> spec_fn(int, int) -> bool {
    |i: int, j: int|
        {
            let e = frames[i].entities@[j];
            &&& e.active
            &&& e.class_name@ == "CCSPlayerPawn"@
            &&& !duration_of(schema, e).at_most(Float { bits: 0x3dcc_cccd })
            &&& flashes(frames, i).len() > 0
        }
}

/// The pawns that may be blinded in the first `n` frames.
pub open spec fn flashed(schema: Schema, frames: Seq<Frame>, n: int) -> Seq<(int, int)> {
    reading::spots(n, states::entity_counts(frames), flashed_picks(schema, frames))
}

/// Whether detonations are those that events tell of.
pub open spec fn are_detonations(
    frames: Seq<Frame>,
    places: Seq<(int, int)>,
    detonations: Seq<Detonation>,
) -> bool {
    &&& detonations.len() == places.len()
    &&& forall|k: int|
        0 <= k < detonations.len() ==> {
            let e = frames[places[k].0].events@[places[k].1];
            let d = #[trigger] detonations[k];
            &&& d.thrower_pawn == keys::key_i64(e.keys@, "userid_pawn"@)
            &&& d.x == keys::key_number(e.keys@, "x"@)
            &&& d.y == keys::key_number(e.keys@, "y"@)
            &&& d.z == keys::key_number(e.keys@, "z"@)
        }
}

proof fn lemma_blasts_on_add(a: Seq<(i32, Detonation)>, b: Seq<(i32, Detonation)>, tick: i32)
    ensures
        blinds::blasts_on(a + b, tick) == blinds::blasts_on(a, tick) + blinds::blasts_on(b, tick),
    decreases b.len(),
{
    if b.len() == 0 {
        assert(a + b =~= a);
        assert(blinds::blasts_on(a, tick) + Seq::empty() =~= blinds::blasts_on(a, tick));
    } else {
        lemma_blasts_on_add(a, b.drop_last(), tick);
        assert((a + b).drop_last() =~= a + b.drop_last());
        assert((a + b).last() == b.last());
        let x = blinds::blasts_on(a, tick);
        let y = blinds::blasts_on(b.drop_last(), tick);
        assert((x + y).push(b.last().1) =~= x + y.push(b.last().1));
    }
}

proof fn lemma_blasts_in(frames: Seq<Frame>, tick: i32, i: int, m: int)
    requires
        0 <= i < frames.len(),
        0 <= m <= frames[i].events@.len(),
    ensures
        are_detonations(
            frames,
            reading::spots_in(i, m, flash_picks(frames, tick)),
            blinds::blasts_on(blinds::blasts_in(frames[i].events@.take(m)), tick),
        ),
    decreases m,
{
    let es = frames[i].events@;
    if m == 0 {
        assert(es.take(0) =~= Seq::empty());
    } else {
        lemma_blasts_in(frames, tick, i, m - 1);
        assert(es.take(m).drop_last() =~= es.take(m - 1));
        assert(es.take(m).last() == es[m - 1]);
        let was = blinds::blasts_in(es.take(m - 1));
        let now = blinds::blasts_in(es.take(m));
        let e = es[m - 1];
        if e.name@ == "flashbang_detonate"@ {
            assert(now.drop_last() =~= was);
            assert(now.last() == (e.tick, Detonation::of(e)));
        }
        let before = reading::spots_in(i, m - 1, flash_picks(frames, tick));
        let all = reading::spots_in(i, m, flash_picks(frames, tick));
        let x = blinds::blasts_on(was, tick);
        let y = blinds::blasts_on(now, tick);
        assert forall|k: int| 0 <= k < y.len() implies {
            let e = frames[all[k].0].events@[all[k].1];
            let d = #[trigger] y[k];
            &&& d.thrower_pawn == keys::key_i64(e.keys@, "userid_pawn"@)
            &&& d.x == keys::key_number(e.keys@, "x"@)
            &&& d.y == keys::key_number(e.keys@, "y"@)
            &&& d.z == keys::key_number(e.keys@, "z"@)
        } by {
            if k < x.len() {
                assert(y[k] == x[k]);
                assert(all[k] == before[k]);
            }
        }
    }
}

proof fn lemma_blasts(frames: Seq<Frame>, tick: i32, n: int)
    requires
        0 <= n <= frames.len(),
    ensures
        are_detonations(
            frames,
            reading::spots(n, event_counts(frames), flash_picks(frames, tick)),
            blinds::blasts_on(blinds::blasts_through(frames.take(n)), tick),
        ),
    decreases n,
{
    if n == 0 {
        assert(frames.take(0) =~= Seq::empty());
    } else {
        lemma_blasts(frames, tick, n - 1);
        assert(frames.take(n).drop_last() =~= frames.take(n - 1));
        assert(frames.take(n).last() == frames[n - 1]);
        let es = frames[n - 1].events@;
        lemma_blasts_in(frames, tick, n - 1, es.len() as int);
        assert(es.take(es.len() as int) =~= es);
        lemma_blasts_on_add(
            blinds::blasts_through(frames.take(n - 1)),
            blinds::blasts_in(es),
            tick,
        );
        let p = flash_picks(frames, tick);
        let a = reading::spots(n - 1, event_counts(frames), p);
        let b = reading::spots_in(n - 1, es.len() as int, p);
        let x = blinds::blasts_on(blinds::blasts_through(frames.take(n - 1)), tick);
        let y = blinds::blasts_on(blinds::blasts_in(es), tick);
        assert forall|k: int| 0 <= k < (x + y).len() implies {
            let e = frames[(a + b)[k].0].events@[(a + b)[k].1];
            let d = #[trigger] (x + y)[k];
            &&& d.thrower_pawn == keys::key_i64(e.keys@, "userid_pawn"@)
            &&& d.x == keys::key_number(e.keys@, "x"@)
            &&& d.y == keys::key_number(e.keys@, "y"@)
            &&& d.z == keys::key_number(e.keys@, "z"@)
        } by {
            if k < x.len() {
                assert((x + y)[k] == x[k]);
            } else {
                assert((x + y)[k] == y[k - x.len()]);
            }
        }
    }
}

/// Whether an onset is that of entity `j` of frame `i`.
pub open spec fn is_onset(
    schema: Schema,
    frames: Seq<Frame>,
    i: int,
    j: int,
    o: Onset,
) -> bool {
    let e = frames[i].entities@[j];
    &&& o.frame == frames[i]
    &&& o.pawn == e
    &&& o.cur == duration_of(schema, e)
    &&& o.prev == duration_before(schema, frames, e.index, i, j)
    &&& are_detonations(frames, flashes(frames, i), o.detonations)
}

/// Whether onsets are those of entities of frames, one for one.
pub open spec fn are_onsets(
    schema: Schema,
    frames: Seq<Frame>,
    places: Seq<(int, int)>,
    onsets: Seq<Onset>,
) -> bool {
    &&& onsets.len() == places.len()
    &&& forall|k: int|
        0 <= k < onsets.len() ==> is_onset(
            schema,
            frames,
            places[k].0,
            places[k].1,
            #[trigger] onsets[k],
        )
}

spec fn durations_upto(
    schema: Schema,
    frames: Seq<Frame>,
    i: int,
    j: int,
    flash: Map<i32, Float>,
) -> bool {
    forall|index: i32| #[trigger]
        blinds::flash_before(flash, index) == duration_before(schema, frames, index, i, j)
}

proof fn lemma_onsets_in(
    schema: Schema,
    frames: Seq<Frame>,
    i: int,
    m: int,
    flash: Map<i32, Float>,
)
    requires
        0 <= i < frames.len(),
        0 <= m <= frames[i].entities@.len(),
        durations_upto(schema, frames, i, 0, flash),
    ensures
        ({
            let key = blinds::flash_key(schema);
            let tk = TeamKeys::of(schema);
            &&& durations_upto(
                schema,
                frames,
                i,
                m,
                blinds::flash_after(flash, key, frames[i].entities@.take(m)),
            )
            &&& are_onsets(
                schema,
                frames,
                reading::spots_in(i, m, flashed_picks(schema, frames)),
                blinds::onsets_in(
                    key,
                    frames[i],
                    resolve::clans_through(tk, frames.take(i + 1)),
                    blinds::blasts_on(
                        blinds::blasts_through(frames.take(i + 1)),
                        frames[i].tick,
                    ),
                    flash,
                    frames[i].entities@.take(m),
                ),
            )
        }),
    decreases m,
{
    let key = blinds::flash_key(schema);
    let clans = resolve::clans_through(TeamKeys::of(schema), frames.take(i + 1));
    let dets = blinds::blasts_on(blinds::blasts_through(frames.take(i + 1)), frames[i].tick);
    let es = frames[i].entities@;
    let w = states::entity_counts(frames);
    if m == 0 {
        assert(es.take(0) =~= Seq::empty());
    } else {
        lemma_onsets_in(schema, frames, i, m - 1, flash);
        assert(es.take(m).drop_last() =~= es.take(m - 1));
        let e = es[m - 1];
        assert(es.take(m).last() == e);
        lemma_blasts(frames, frames[i].tick, i + 1);
        let before = blinds::flash_after(flash, key, es.take(m - 1));
        let after = blinds::flash_after(flash, key, es.take(m));
        assert forall|index: i32| #[trigger] blinds::flash_before(after, index) == duration_before(
            schema,
            frames,
            index,
            i,
            m,
        ) by {
            assert(blinds::flash_before(before, index) == duration_before(
                schema,
                frames,
                index,
                i,
                m - 1,
            ));
            lemma_last_step(i, m - 1, w, pawns_of_index(frames, index));
        }
        assert(blinds::flash_before(before, e.index) == duration_before(
            schema,
            frames,
            e.index,
            i,
            m - 1,
        ));
        let p = flashed_picks(schema, frames);
        let was = reading::spots_in(i, m - 1, p);
        let all = reading::spots_in(i, m, p);
        let x = blinds::onsets_in(key, frames[i], clans, dets, flash, es.take(m - 1));
        let y = blinds::onsets_in(key, frames[i], clans, dets, flash, es.take(m));
        assert forall|k: int| 0 <= k < y.len() implies is_onset(
            schema,
            frames,
            all[k].0,
            all[k].1,
            #[trigger] y[k],
        ) by {
            if k < x.len() {
                assert(y[k] == x[k]);
                assert(all[k] == was[k]);
            }
        }
    }
}

proof fn lemma_last_step(
    i: int,
    j: int,
    width: spec_fn(int) -> int,
    p: spec_fn(int, int) -> bool,
)
    requires
        j >= 0,
    ensures
        reading::last_before(i, j + 1, width, p) == (if p(i, j) {
            Some((i, j))
        } else {
            reading::last_before(i, j, width, p)
        }),
{
}

proof fn lemma_onsets(schema: Schema, frames: Seq<Frame>, n: int)
    requires
        0 <= n <= frames.len(),
    ensures
        ({
            let key = blinds::flash_key(schema);
            &&& durations_upto(schema, frames, n, 0, blinds::flash_through(key, frames.take(n)))
            &&& are_onsets(
                schema,
                frames,
                flashed(schema, frames, n),
                blinds::onsets_through(key, TeamKeys::of(schema), frames.take(n)),
            )
        }),
    decreases n,
{
    let key = blinds::flash_key(schema);
    let tk = TeamKeys::of(schema);
    if n == 0 {
        assert(frames.take(0) =~= Seq::empty());
    } else {
        lemma_onsets(schema, frames, n - 1);
        assert(frames.take(n).drop_last() =~= frames.take(n - 1));
        assert(frames.take(n).last() == frames[n - 1]);
        let f = frames[n - 1];
        let es = f.entities@;
        let m = es.len() as int;
        let flash = blinds::flash_through(key, frames.take(n - 1));
        lemma_onsets_in(schema, frames, n - 1, m, flash);
        assert(es.take(m) =~= es);
        let now = blinds::flash_through(key, frames.take(n));
        let w = states::entity_counts(frames);
        assert forall|index: i32| #[trigger] blinds::flash_before(now, index) == duration_before(
            schema,
            frames,
            index,
            n,
            0,
        ) by {
            assert(blinds::flash_before(now, index) == duration_before(
                schema,
                frames,
                index,
                n - 1,
                m,
            ));
            reading::lemma_last_turn(n - 1, w, pawns_of_index(frames, index));
        }
        let a = flashed(schema, frames, n - 1);
        let b = reading::spots_in(n - 1, m, flashed_picks(schema, frames));
        let x = blinds::onsets_through(key, tk, frames.take(n - 1));
        let y = blinds::onsets_in(
            key,
            f,
            resolve::clans_through(tk, frames.take(n)),
            blinds::blasts_on(blinds::blasts_through(frames.take(n)), f.tick),
            flash,
            es,
        );
        assert forall|k: int| 0 <= k < (x + y).len() implies is_onset(
            schema,
            frames,
            (a + b)[k].0,
            (a + b)[k].1,
            #[trigger] (x + y)[k],
        ) by {
            if k < x.len() {
                assert((x + y)[k] == x[k]);
            } else {
                assert((x + y)[k] == y[k - x.len()]);
            }
        }
    }
}

/// Flash onsets are the pawns that may be blinded, one for one, in the order of ticks and
/// entities.
pub proof fn law_onsets_show_pawns(p: Parser)
    requires
        p.frames is Ok,
    ensures
        are_onsets(
            p.schema,
            p.frames->Ok_0@,
            flashed(p.schema, p.frames->Ok_0@, p.frames->Ok_0@.len() as int),
            p.onsets(),
        ),
{
    let frames = p.frames->Ok_0@;
    lemma_onsets(p.schema, frames, frames.len() as int);
    assert(frames.take(frames.len() as int) =~= frames);
}

/// The position of a pawn.
pub open spec fn place_of(schema: Schema, pawn: Entity) -> Option<Vector> {
    if pawn.has(
        states::pawn_key(schema, "CBodyComponent.m_skeletonInstance.m_vecOrigin.m_vecX"@),
    ) {
        Some(pawn.world)
    } else {
        None
    }
}

/// Whether a candidate says what has to be reckoned for entity `j` of frame `i`: its durations,
/// where it is, and where the flashbangs of its tick went off.
pub open spec fn is_candidate(
    schema: Schema,
    frames: Seq<Frame>,
    i: int,
    j: int,
    c: FlashCandidate<Seq<Option<Vector>>>,
) -> bool {
    let e = frames[i].entities@[j];
    let places = flashes(frames, i);
    &&& c.tick == frames[i].tick
    &&& c.cur == duration_of(schema, e)
    &&& c.prev == duration_before(schema, frames, e.index, i, j)
    &&& c.victim == place_of(schema, e)
    &&& c.sites.len() == places.len()
    &&& forall|k: int|
        0 <= k < c.sites.len() ==> #[trigger] c.sites[k] == site_of(
            frames[places[k].0].events@[places[k].1],
        )
}

/// Where an event says that a flashbang went off, if it says so in full.
pub open spec fn site_of(e: GameEvent) -> Option<Vector> {
    let x = keys::key_number(e.keys@, "x"@);
    let y = keys::key_number(e.keys@, "y"@);
    let z = keys::key_number(e.keys@, "z"@);
    if x is Some && y is Some && z is Some {
        Some(Vector { x: x->0, y: y->0, z: z->0 })
    } else {
        None
    }
}

/// What has to be reckoned is told of every pawn that may be blinded, one for one.
pub proof fn law_candidates_show_pawns(p: Parser)
    requires
        p.frames is Ok,
    ensures
        ({
            let frames = p.frames->Ok_0@;
            let places = flashed(p.schema, frames, frames.len() as int);
            let candidates = blinds::candidates(p.event_lens(), p.onsets());
            &&& candidates.len() == places.len()
            &&& forall|k: int|
                0 <= k < candidates.len() ==> is_candidate(
                    p.schema,
                    frames,
                    places[k].0,
                    places[k].1,
                    #[trigger] candidates[k],
                )
        }),
{
    law_onsets_show_pawns(p);
    let frames = p.frames->Ok_0@;
    let places = flashed(p.schema, frames, frames.len() as int);
    let candidates = blinds::candidates(p.event_lens(), p.onsets());
    assert forall|k: int| 0 <= k < candidates.len() implies is_candidate(
        p.schema,
        frames,
        places[k].0,
        places[k].1,
        #[trigger] candidates[k],
    ) by {
        let o = p.onsets()[k];
        assert(is_onset(p.schema, frames, places[k].0, places[k].1, o));
        let c = candidates[k];
        let at = flashes(frames, places[k].0);
        assert forall|q: int| 0 <= q < c.sites.len() implies #[trigger] c.sites[q] == site_of(
            frames[at[q].0].events@[at[q].1],
        ) by {
            assert(c.sites[q] == o.detonations[q].site());
        }
    }
}

/// How far away a flashbang went off, as a place in the order of all numbers: as far as was
/// reckoned, and infinitely far where it is not known where.
pub open spec fn distance_of(e: GameEvent, reckoned: Float) -> int {
    if site_of(e) is Some {
        reckoned.total_rank()
    } else {
        (Float { bits: 0x7f80_0000 }).total_rank()
    }
}

/// Whether detonation `d` is the one that blinds entity `j` of frame `i`: where it is known
/// where the entity is, the nearest of those on the tick, and the first of several as near;
/// else the first of all.
pub open spec fn is_blamed(
    schema: Schema,
    frames: Seq<Frame>,
    i: int,
    j: int,
    sum: FlashSum,
    d: int,
) -> bool {
    let places = flashes(frames, i);
    &&& 0 <= d < places.len()
    &&& if place_of(schema, frames[i].entities@[j]) is Some {
        forall|k: int|
            0 <= k < places.len() ==> {
                let own = distance_of(
                    frames[places[d].0].events@[places[d].1],
                    sum.distances@[d],
                );
                let other = distance_of(
                    frames[(#[trigger] places[k]).0].events@[places[k].1],
                    sum.distances@[k],
                );
                own <= other && (k < d ==> own < other)
            }
    } else {
        d == 0
    }
}

/// Whether a row tells that detonation `d` blinds entity `j` of frame `i`.
pub open spec fn tells_blind(
    schema: Schema,
    names: Names,
    frames: Seq<Frame>,
    i: int,
    j: int,
    d: int,
    row: Blind<Seq<char>>,
) -> bool {
    let f = frames[i];
    let places = flashes(frames, i);
    let e = frames[places[d].0].events@[places[d].1];
    &&& row.tick == f.tick
    &&& row.duration == duration_of(schema, f.entities@[j])
    &&& exists|p: ResolvedPlayer<Seq<char>>| #[trigger]
        participants::is_player_of(
            schema,
            names,
            Scope::Events,
            f.entities@,
            f.entities@[j],
            p,
        ) && row.victim_steamid == p.steamid && row.victim_name == p.name && row.victim_side
            == p.side && row.victim_x == p.x && row.victim_y == p.y && row.victim_z == p.z
    &&& exists|p: ResolvedPlayer<Seq<char>>| #[trigger]
        participants::is_player_at(
            schema,
            names,
            Scope::Events,
            f.entities@,
            keys::key_i64(e.keys@, "userid_pawn"@) as u32,
            p,
        ) && row.attacker_steamid == p.steamid && row.attacker_name == p.name
            && row.attacker_side == p.side && row.attacker_x == p.x && row.attacker_y == p.y
            && row.attacker_z == p.z
    &&& row.is_teammate <==> (row.attacker_side matches Some(a) && row.victim_side == Some(a))
}

/// Whether a row tells of the blind of entity `j` of frame `i`.
pub open spec fn is_blind(
    schema: Schema,
    names: Names,
    frames: Seq<Frame>,
    i: int,
    j: int,
    sum: FlashSum,
    row: Blind<Seq<char>>,
) -> bool {
    exists|d: int| #[trigger]
        is_blamed(schema, frames, i, j, sum, d) && tells_blind(
            schema,
            names,
            frames,
            i,
            j,
            d,
            row,
        )
}

/// Which of the pawns that may be blinded are: those whose duration is not at most the edge
/// that was reckoned.
pub open spec fn blind_picks(
    schema: Schema,
    frames: Seq<Frame>,
    places: Seq<(int, int)>,
    sums: Seq<FlashSum>,
) -> spec_fn(int) -> bool {
    |k: int|
        !duration_of(schema, frames[places[k].0].entities@[places[k].1]).at_most(sums[k].edge)
}

proof fn lemma_blind(
    schema: Schema,
    names: Names,
    frames: Seq<Frame>,
    i: int,
    j: int,
    o: Onset,
    sum: FlashSum,
)
    requires
        is_onset(schema, frames, i, j, o),
        sum.distances@.len() == o.detonations.len(),
        flashes(frames, i).len() > 0,
        !o.cur.at_most(sum.edge),
    ensures
        is_blind(
            schema,
            names,
            frames,
            i,
            j,
            sum,
            blinds::blind_of(Lens::of(schema, &names, Scope::Events), o, sum)->0,
        ),
{
    let lens = Lens::of(schema, &names, Scope::Events);
    let f = frames[i];
    let e = f.entities@[j];
    let places = flashes(frames, i);
    let d = blinds::blamed(lens, o, sum);
    let row = blinds::blind_of(lens, o, sum)->0;
    assert(place_of(schema, e) == lens.pawn.origin.position(e));
    let far = blinds::farness(o.detonations, sum.distances@);
    blinds::law_first_least(far);
    assert forall|k: int| 0 <= k < places.len() implies #[trigger] far[k] == distance_of(
        frames[places[k].0].events@[places[k].1],
        sum.distances@[k],
    ) by {
        let x = o.detonations[k];
        assert(x.site() == site_of(frames[places[k].0].events@[places[k].1]));
    }
    assert(is_blamed(schema, frames, i, j, sum, d)) by {
        assert(far[d] == distance_of(
            frames[places[d].0].events@[places[d].1],
            sum.distances@[d],
        ));
        if place_of(schema, e) is Some {
            assert forall|k: int| 0 <= k < places.len() implies {
                let own = distance_of(
                    frames[places[d].0].events@[places[d].1],
                    sum.distances@[d],
                );
                let other = distance_of(
                    frames[(#[trigger] places[k]).0].events@[places[k].1],
                    sum.distances@[k],
                );
                own <= other && (k < d ==> own < other)
            } by {
                assert(far[k] == distance_of(
                    frames[places[k].0].events@[places[k].1],
                    sum.distances@[k],
                ));
            }
        }
    }
    let handle = o.detonations[d].thrower_pawn;
    participants::law_player_of_pawn(schema, names, Scope::Events, f.entities@, e, o.clans);
    participants::law_player_of_handle(
        schema,
        names,
        Scope::Events,
        f.entities@,
        handle,
        o.clans,
    );
    let victim = lens.player_of_pawn(f.entities@, e, o.clans);
    let attacker = lens.player_of_handle(f.entities@, handle, o.clans);
    assert(participants::is_player_of(schema, names, Scope::Events, f.entities@, e, victim));
    assert(participants::is_player_at(
        schema,
        names,
        Scope::Events,
        f.entities@,
        handle as u32,
        attacker,
    ));
    assert(tells_blind(schema, names, frames, i, j, d, row));
}

proof fn lemma_blinds(
    schema: Schema,
    names: Names,
    frames: Seq<Frame>,
    places: Seq<(int, int)>,
    onsets: Seq<Onset>,
    sums: Seq<FlashSum>,
    n: int,
)
    requires
        are_onsets(schema, frames, places, onsets),
        blinds::sums_match(onsets, sums),
        forall|k: int| 0 <= k < places.len() ==> flashes(frames, (#[trigger] places[k]).0).len() > 0,
        0 <= n <= onsets.len(),
    ensures
        ({
            let rows = blinds::blinds_of(
                Lens::of(schema, &names, Scope::Events),
                onsets.take(n),
                sums,
            );
            let picked = reading::picks(n, blind_picks(schema, frames, places, sums));
            &&& rows.len() == picked.len()
            &&& forall|q: int|
                0 <= q < rows.len() ==> is_blind(
                    schema,
                    names,
                    frames,
                    places[picked[q]].0,
                    places[picked[q]].1,
                    sums[picked[q]],
                    #[trigger] rows[q],
                )
        }),
    decreases n,
{
    let lens = Lens::of(schema, &names, Scope::Events);
    if n == 0 {
        assert(onsets.take(0) =~= Seq::empty());
    } else {
        lemma_blinds(schema, names, frames, places, onsets, sums, n - 1);
        assert(onsets.take(n).drop_last() =~= onsets.take(n - 1));
        let o = onsets[n - 1];
        assert(onsets.take(n).last() == o);
        assert(is_onset(schema, frames, places[n - 1].0, places[n - 1].1, o));
        assert(flashes(frames, places[n - 1].0).len() > 0);
        assert(sums[n - 1].distances@.len() == o.detonations.len());
        let was = blinds::blinds_of(lens, onsets.take(n - 1), sums);
        let rows = blinds::blinds_of(lens, onsets.take(n), sums);
        let p = blind_picks(schema, frames, places, sums);
        let before = reading::picks(n - 1, p);
        let picked = reading::picks(n, p);
        if p(n - 1) {
            lemma_blind(
                schema,
                names,
                frames,
                places[n - 1].0,
                places[n - 1].1,
                o,
                sums[n - 1],
            );
        }
        assert forall|q: int| 0 <= q < rows.len() implies is_blind(
            schema,
            names,
            frames,
            places[picked[q]].0,
            places[picked[q]].1,
            sums[picked[q]],
            #[trigger] rows[q],
        ) by {
            if q < was.len() {
                assert(rows[q] == was[q]);
                assert(picked[q] == before[q]);
            }
        }
    }
}

/// Blinds are the pawns whose flash duration rises with a detonation: there is one row for
/// every pawn that may be blinded and whose duration is above the edge, in the order of ticks
/// and entities. Its victim is the player of the pawn, and its attacker whoever threw the
/// nearest of the flashbangs that went off on the tick.
pub proof fn law_blinds_show_flashes(p: Parser, sums: Seq<FlashSum>)
    requires
        p.blind_rows(sums) is Ok,
        blinds::sums_match(p.onsets(), sums),
    ensures
        ({
            let frames = p.frames->Ok_0@;
            let places = flashed(p.schema, frames, frames.len() as int);
            let picked = reading::picks(
                places.len() as int,
                blind_picks(p.schema, frames, places, sums),
            );
            let rows = p.blind_rows(sums)->Ok_0;
            &&& rows.len() == picked.len()
            &&& forall|q: int|
                0 <= q < rows.len() ==> is_blind(
                    p.schema,
                    p.names,
                    frames,
                    places[picked[q]].0,
                    places[picked[q]].1,
                    sums[picked[q]],
                    #[trigger] rows[q],
                )
        }),
{
    law_onsets_show_pawns(p);
    let frames = p.frames->Ok_0@;
    let n = frames.len() as int;
    let places = flashed(p.schema, frames, n);
    let onsets = p.onsets();
    reading::law_spots(n, states::entity_counts(frames), flashed_picks(p.schema, frames));
    assert forall|k: int| 0 <= k < places.len() implies flashes(frames, (#[trigger] places[k]).0).len()
        > 0 by {
        assert(places.contains(places[k]));
        assert(places.contains((places[k].0, places[k].1)));
    }
    lemma_blinds(p.schema, p.names, frames, places, onsets, sums, onsets.len() as int);
    assert(onsets.take(onsets.len() as int) =~= onsets);
}

} // verus!
