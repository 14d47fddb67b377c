//! Flash events: who was blinded, by whom and for how long.
//!
//! A blind is a rising edge of a pawn's networked flash duration on a tick with a
//! flashbang detonation. Two steps of that need single-precision arithmetic: adding
//! the edge margin to the duration before, and measuring how far a detonation was.
//! They are done between two passes: the first finds the candidates, the second takes
//! the numbers reckoned for each of them.
use crate::demo::{Entity, Frame, GameEvent, Schema};
use crate::float::{Float, Vector, INFINITY_BITS, ZERO_BITS};
use crate::keys;
use crate::keys::Keys;
use crate::names::PLAYER_PAWN_CLASS;
use crate::resolve;
use crate::resolve::{update_clans, Lens, TeamKeys};
use crate::text;
use crate::text::same_text;
use std::collections::HashMap;
use vstd::prelude::*;

verus! {

broadcast use {
    vstd::std_specs::hash::group_hash_axioms,
    vstd::string::group_string_axioms,
    crate::text::group_views,
};

/// A flash duration must exceed a tenth of a second to count as a blind: this filters
/// out negligible flashes and noise near zero.
pub const FLASH_MIN_BITS: u32 = 0x3dcc_cccd;

/// A flash event: one player blinded by a thrown flashbang. The attacker is the
/// thrower, who may be a teammate or the victim.
#[derive(Clone, Debug, Default)]
pub struct Blind<T = String> {
    /// Tick the flash detonated and the blind began.
    pub tick: i32,
    pub attacker_steamid: Option<u64>,
    pub attacker_name: Option<T>,
    pub attacker_side: Option<T>,
    pub attacker_x: Option<Float>,
    pub attacker_y: Option<Float>,
    pub attacker_z: Option<Float>,
    pub victim_steamid: Option<u64>,
    pub victim_name: Option<T>,
    pub victim_side: Option<T>,
    pub victim_x: Option<Float>,
    pub victim_y: Option<Float>,
    pub victim_z: Option<Float>,
    /// Blind duration in seconds, at onset.
    pub duration: Float,
    /// Whether the thrower and the blinded player are known to be on the same side.
    pub is_teammate: bool,
}

impl View for Blind {
    type V = Blind<Seq<char>>;

    open spec fn view(&self) -> Blind<Seq<char>> {
        Blind {
            tick: self.tick,
            attacker_steamid: self.attacker_steamid,
            attacker_name: text::of(self.attacker_name),
            attacker_side: text::of(self.attacker_side),
            attacker_x: self.attacker_x,
            attacker_y: self.attacker_y,
            attacker_z: self.attacker_z,
            victim_steamid: self.victim_steamid,
            victim_name: text::of(self.victim_name),
            victim_side: text::of(self.victim_side),
            victim_x: self.victim_x,
            victim_y: self.victim_y,
            victim_z: self.victim_z,
            duration: self.duration,
            is_teammate: self.is_teammate,
        }
    }
}

/// A flashbang detonation: the thrower's pawn handle and the blast site.
#[derive(Clone, Copy, Debug, PartialEq, Eq, Structural)]
pub struct Detonation {
    pub thrower_pawn: i64,
    pub x: Option<Float>,
    pub y: Option<Float>,
    pub z: Option<Float>,
}

impl Detonation {
    pub open spec fn of(e: GameEvent) -> Detonation {
        Detonation {
            thrower_pawn: keys::key_i64(e.keys@, "userid_pawn"@),
            x: keys::key_number(e.keys@, "x"@),
            y: keys::key_number(e.keys@, "y"@),
            z: keys::key_number(e.keys@, "z"@),
        }
    }

    /// The blast site, if all its coordinates are known.
    pub open spec fn site(self) -> Option<Vector> {
        match (self.x, self.y, self.z) {
            (Some(x), Some(y), Some(z)) => Some(Vector { x, y, z }),
            _ => None,
        }
    }

    pub fn read(e: &GameEvent) -> (d: Detonation)
        ensures
            d == Detonation::of(*e),
    {
        let k = Keys(&e.keys);
        Detonation {
            thrower_pawn: k.i64("userid_pawn"),
            x: k.number("x"),
            y: k.number("y"),
            z: k.number("z"),
        }
    }

    /// The blast site, if all its coordinates are known.
    pub fn blast_site(&self) -> (s: Option<Vector>)
        ensures
            s == self.site(),
    {
        match (self.x, self.y, self.z) {
            (Some(x), Some(y), Some(z)) => Some(Vector { x, y, z }),
            _ => None,
        }
    }
}

/// The detonations among events, each with its tick.
pub open spec fn blasts_in(events: Seq<GameEvent>) -> Seq<(i32, Detonation)>
    decreases events.len(),
{
    if events.len() == 0 {
        Seq::empty()
    } else {
        let rest = blasts_in(events.drop_last());
        let e = events.last();
        if e.name@ == "flashbang_detonate"@ {
            rest.push((e.tick, Detonation::of(e)))
        } else {
            rest
        }
    }
}

/// The detonations that a run of frames tells of, each with its tick.
pub open spec fn blasts_through(frames: Seq<Frame>) -> Seq<(i32, Detonation)>
    decreases frames.len(),
{
    if frames.len() == 0 {
        Seq::empty()
    } else {
        blasts_through(frames.drop_last()) + blasts_in(frames.last().events@)
    }
}

/// The detonations of a tick.
pub open spec fn blasts_on(blasts: Seq<(i32, Detonation)>, tick: i32) -> Seq<Detonation>
    decreases blasts.len(),
{
    if blasts.len() == 0 {
        Seq::empty()
    } else {
        let rest = blasts_on(blasts.drop_last(), tick);
        if blasts.last().0 == tick {
            rest.push(blasts.last().1)
        } else {
            rest
        }
    }
}

/// Whether an entity is a player pawn in use.
pub open spec fn is_live_pawn(e: Entity) -> bool {
    e.active && e.class_name@ == PLAYER_PAWN_CLASS@
}

/// The key of the flash duration.
pub open spec fn flash_key(schema: Schema) -> Option<u64> {
    schema.key_of(PLAYER_PAWN_CLASS@, "m_flFlashDuration"@)
}

/// Each pawn's flash duration, by entity index, once an entity is looked at.
pub open spec fn flash_step(flash: Map<i32, Float>, key: Option<u64>, e: Entity) -> Map<i32, Float> {
    if is_live_pawn(e) {
        flash.insert(e.index, e.real_at(key))
    } else {
        flash
    }
}

/// Each pawn's flash duration once the entities of a tick are looked at.
pub open spec fn flash_after(flash: Map<i32, Float>, key: Option<u64>, entities: Seq<Entity>) -> Map<
    i32,
    Float,
>
    decreases entities.len(),
{
    if entities.len() == 0 {
        flash
    } else {
        flash_step(flash_after(flash, key, entities.drop_last()), key, entities.last())
    }
}

/// Each pawn's last flash duration after a run of ticks.
pub open spec fn flash_through(key: Option<u64>, frames: Seq<Frame>) -> Map<i32, Float>
    decreases frames.len(),
{
    if frames.len() == 0 {
        Map::empty()
    } else {
        flash_after(flash_through(key, frames.drop_last()), key, frames.last().entities@)
    }
}

/// The flash duration last seen under an entity index; zero where none was.
pub open spec fn flash_before(flash: Map<i32, Float>, index: i32) -> Float {
    if flash.contains_key(index) {
        flash[index]
    } else {
        Float { bits: ZERO_BITS }
    }
}

/// A pawn whose flash duration is above the noise floor on a tick with detonations.
pub struct Onset {
    pub frame: Frame,
    pub clans: Map<i64, Seq<char>>,
    pub pawn: Entity,
    pub prev: Float,
    pub cur: Float,
    pub detonations: Seq<Detonation>,
}

/// The onset that an entity shows, if it does.
pub open spec fn onset_of(
    key: Option<u64>,
    f: Frame,
    clans: Map<i64, Seq<char>>,
    detonations: Seq<Detonation>,
    flash: Map<i32, Float>,
    e: Entity,
) -> Option<Onset> {
    if is_live_pawn(e) && !e.real_at(key).at_most(Float { bits: FLASH_MIN_BITS })
        && detonations.len() > 0 {
        Some(
            Onset {
                frame: f,
                clans,
                pawn: e,
                prev: flash_before(flash, e.index),
                cur: e.real_at(key),
                detonations,
            },
        )
    } else {
        None
    }
}

/// The onsets among the entities of a tick.
pub open spec fn onsets_in(
    key: Option<u64>,
    f: Frame,
    clans: Map<i64, Seq<char>>,
    detonations: Seq<Detonation>,
    flash: Map<i32, Float>,
    entities: Seq<Entity>,
) -> Seq<Onset>
    decreases entities.len(),
{
    if entities.len() == 0 {
        Seq::empty()
    } else {
        let init = entities.drop_last();
        let rest = onsets_in(key, f, clans, detonations, flash, init);
        match onset_of(
            key,
            f,
            clans,
            detonations,
            flash_after(flash, key, init),
            entities.last(),
        ) {
            Some(o) => rest.push(o),
            None => rest,
        }
    }
}

/// The onsets of a run of ticks.
pub open spec fn onsets_through(key: Option<u64>, tk: TeamKeys, frames: Seq<Frame>) -> Seq<Onset>
    decreases frames.len(),
{
    if frames.len() == 0 {
        Seq::empty()
    } else {
        let init = frames.drop_last();
        let f = frames.last();
        onsets_through(key, tk, init) + onsets_in(
            key,
            f,
            resolve::clans_through(tk, frames),
            blasts_on(blasts_through(frames), f.tick),
            flash_through(key, init),
            f.entities@,
        )
    }
}

/// What has to be reckoned for an onset: the duration before, the victim's position
/// and the blast sites on its tick.
#[derive(Clone, Debug)]
pub struct FlashCandidate<S = Vec<Option<Vector>>> {
    pub tick: i32,
    pub prev: Float,
    pub cur: Float,
    pub victim: Option<Vector>,
    pub sites: S,
}

impl View for FlashCandidate {
    type V = FlashCandidate<Seq<Option<Vector>>>;

    open spec fn view(&self) -> FlashCandidate<Seq<Option<Vector>>> {
        FlashCandidate {
            tick: self.tick,
            prev: self.prev,
            cur: self.cur,
            victim: self.victim,
            sites: self.sites@,
        }
    }
}

/// What was reckoned for an onset: the duration that a new blind must exceed (the one
/// before and the edge margin) and the squared distance of each blast site from the
/// victim, in the order of the sites. A distance counts only where the site and the
/// victim's position are known.
#[derive(Clone, Debug)]
pub struct FlashSum {
    pub edge: Float,
    pub distances: Vec<Float>,
}

/// The blast sites of detonations.
pub open spec fn sites(detonations: Seq<Detonation>) -> Seq<Option<Vector>> {
    detonations.map_values(|d: Detonation| d.site())
}

/// What has to be reckoned for an onset.
pub open spec fn candidate_of(lens: Lens, o: Onset) -> FlashCandidate<Seq<Option<Vector>>> {
    FlashCandidate {
        tick: o.frame.tick,
        prev: o.prev,
        cur: o.cur,
        victim: lens.pawn.origin.position(o.pawn),
        sites: sites(o.detonations),
    }
}

/// What has to be reckoned for onsets.
pub open spec fn candidates(lens: Lens, onsets: Seq<Onset>) -> Seq<
    FlashCandidate<Seq<Option<Vector>>>,
> {
    onsets.map_values(|o: Onset| candidate_of(lens, o))
}

/// Whether there is one reckoning for every onset, with a distance for every site.
pub open spec fn sums_match(onsets: Seq<Onset>, sums: Seq<FlashSum>) -> bool {
    &&& sums.len() == onsets.len()
    &&& forall|i: int|
        0 <= i < sums.len() ==> (#[trigger] sums[i]).distances@.len() == onsets[i].detonations.len()
}

/// How far a blast site is, as a place in the order of all numbers; a site without
/// coordinates is infinitely far.
pub open spec fn farness(detonations: Seq<Detonation>, distances: Seq<Float>) -> Seq<int> {
    Seq::new(
        detonations.len(),
        |i: int|
            if detonations[i].site() is Some {
                distances[i].total_rank()
            } else {
                (Float { bits: INFINITY_BITS }).total_rank()
            },
    )
}

/// The position of the least number, the first where there are several.
pub open spec fn first_least(ranks: Seq<int>) -> int
    decreases ranks.len(),
{
    if ranks.len() <= 1 {
        0
    } else {
        let k = first_least(ranks.drop_last());
        if ranks.last() < ranks[k] {
            ranks.len() - 1
        } else {
            k
        }
    }
}

/// The detonation that a blind is attributed to: the nearest to the victim where
/// several went off and the victim's position is known.
pub open spec fn blamed(lens: Lens, o: Onset, sum: FlashSum) -> int {
    if o.detonations.len() > 1 && lens.pawn.origin.position(o.pawn) is Some {
        first_least(farness(o.detonations, sum.distances@))
    } else {
        0
    }
}

/// The blind that an onset is, unless the duration did not rise past the edge.
pub open spec fn blind_of(lens: Lens, o: Onset, sum: FlashSum) -> Option<Blind<Seq<char>>> {
    if o.cur.at_most(sum.edge) {
        None
    } else {
        let victim = lens.player_of_pawn(o.frame.entities@, o.pawn, o.clans);
        let attacker = lens.player_of_handle(
            o.frame.entities@,
            o.detonations[blamed(lens, o, sum)].thrower_pawn,
            o.clans,
        );
        Some(
            Blind {
                tick: o.frame.tick,
                attacker_steamid: attacker.steamid,
                attacker_name: attacker.name,
                attacker_side: attacker.side,
                attacker_x: attacker.x,
                attacker_y: attacker.y,
                attacker_z: attacker.z,
                victim_steamid: victim.steamid,
                victim_name: victim.name,
                victim_side: victim.side,
                victim_x: victim.x,
                victim_y: victim.y,
                victim_z: victim.z,
                duration: o.cur,
                is_teammate: attacker.side is Some && attacker.side == victim.side,
            },
        )
    }
}

/// The blinds among onsets.
pub open spec fn blinds_of(lens: Lens, onsets: Seq<Onset>, sums: Seq<FlashSum>) -> Seq<
    Blind<Seq<char>>,
>
    decreases onsets.len(),
{
    if onsets.len() == 0 {
        Seq::empty()
    } else {
        let rest = blinds_of(lens, onsets.drop_last(), sums);
        match blind_of(lens, onsets.last(), sums[onsets.len() - 1]) {
            Some(b) => rest.push(b),
            None => rest,
        }
    }
}

/// The nearest detonation is the first of those that no other is nearer than.
pub proof fn law_first_least(ranks: Seq<int>)
    requires
        ranks.len() > 0,
    ensures
        0 <= first_least(ranks) < ranks.len(),
        forall|j: int| 0 <= j < ranks.len() ==> ranks[first_least(ranks)] <= #[trigger] ranks[j],
        forall|j: int| 0 <= j < first_least(ranks) ==> ranks[first_least(ranks)] < #[trigger] ranks[j],
    decreases ranks.len(),
{
    if ranks.len() > 1 {
        let init = ranks.drop_last();
        law_first_least(init);
        assert forall|j: int| 0 <= j < ranks.len() - 1 implies init[j] == #[trigger] ranks[j] by {}
    }
}

/// Take in the detonations among a tick's events.
fn take_blasts(f: &Frame, blasts: &mut Vec<(i32, Detonation)>)
    ensures
        final(blasts)@ == old(blasts)@ + blasts_in(f.events@),
{
    let n: usize = f.events.len();
    let ghost before = blasts@;
    let mut i: usize = 0;
    assert(f.events@.take(0) =~= Seq::<GameEvent>::empty());
    assert(before + Seq::<(i32, Detonation)>::empty() =~= before);
    while i < n
        invariant
            i <= n,
            n == f.events@.len(),
            blasts@ == before + blasts_in(f.events@.take(i as int)),
        decreases n - i,
    {
        assert(f.events@.take(i + 1).drop_last() =~= f.events@.take(i as int));
        let e = &f.events[i];
        if same_text(e.name.as_str(), "flashbang_detonate") {
            blasts.push((e.tick, Detonation::read(e)));
            assert(blasts@ =~= before + blasts_in(f.events@.take(i + 1)));
        }
        i = i + 1;
    }
    assert(f.events@.take(n as int) =~= f.events@);
}

/// The detonations of a tick.
fn detonations_on(blasts: &Vec<(i32, Detonation)>, tick: i32) -> (out: Vec<Detonation>)
    ensures
        out@ == blasts_on(blasts@, tick),
{
    let mut out: Vec<Detonation> = Vec::new();
    let n: usize = blasts.len();
    let mut i: usize = 0;
    assert(blasts@.take(0) =~= Seq::<(i32, Detonation)>::empty());
    while i < n
        invariant
            i <= n,
            n == blasts@.len(),
            out@ == blasts_on(blasts@.take(i as int), tick),
        decreases n - i,
    {
        assert(blasts@.take(i + 1).drop_last() =~= blasts@.take(i as int));
        if blasts[i].0 == tick {
            out.push(blasts[i].1);
        }
        i = i + 1;
    }
    assert(blasts@.take(n as int) =~= blasts@);
    out
}

/// The candidates among the entities of a tick.
fn candidates_in_frame(
    lens: &Lens,
    key: Option<u64>,
    f: &Frame,
    detonations: &Vec<Detonation>,
    flash: &mut HashMap<i32, Float>,
    out: &mut Vec<FlashCandidate>,
    Ghost(clans): Ghost<Map<i64, Seq<char>>>,
)
    ensures
        final(flash)@ == flash_after(old(flash)@, key, f.entities@),
        text::views(final(out)@) == text::views(old(out)@) + candidates(
            *lens,
            onsets_in(key, *f, clans, detonations@, old(flash)@, f.entities@),
        ),
{
    let n: usize = f.entities.len();
    let ghost start = flash@;
    let ghost before = out@;
    let mut i: usize = 0;
    assert(f.entities@.take(0) =~= Seq::<Entity>::empty());
    assert(candidates(*lens, Seq::<Onset>::empty()) =~= Seq::empty());
    assert(text::views(before) + Seq::empty() =~= text::views(before));
    while i < n
        invariant
            i <= n,
            n == f.entities@.len(),
            flash@ == flash_after(start, key, f.entities@.take(i as int)),
            text::views(out@) == text::views(before) + candidates(
                *lens,
                onsets_in(key, *f, clans, detonations@, start, f.entities@.take(i as int)),
            ),
        decreases n - i,
    {
        let e = &f.entities[i];
        let ghost next = f.entities@.take(i + 1);
        assert(next.drop_last() =~= f.entities@.take(i as int));
        let ghost found = onsets_in(key, *f, clans, detonations@, start, next.drop_last());
        if e.active && e.is_a(PLAYER_PAWN_CLASS) {
            let cur = e.get_real(key);
            let prev = match flash.get(&e.index) {
                Some(p) => *p,
                None => Float { bits: ZERO_BITS },
            };
            if !cur.is_at_most(Float { bits: FLASH_MIN_BITS }) && detonations.len() > 0 {
                let mut where_: Vec<Option<Vector>> = Vec::new();
                let m: usize = detonations.len();
                for j in 0..m
                    invariant
                        m == detonations@.len(),
                        where_@.len() == j,
                        forall|k: int|
                            0 <= k < j ==> #[trigger] where_@[k] == detonations@[k].site(),
                {
                    where_.push(detonations[j].blast_site());
                }
                assert(where_@ =~= sites(detonations@));
                let c = FlashCandidate {
                    tick: f.tick,
                    prev,
                    cur,
                    victim: lens.pawn.origin.world(e),
                    sites: where_,
                };
                proof {
                    let o = onset_of(
                        key,
                        *f,
                        clans,
                        detonations@,
                        flash_after(start, key, next.drop_last()),
                        next.last(),
                    )->0;
                    assert(c@ == candidate_of(*lens, o));
                    assert(candidates(*lens, found.push(o)) =~= candidates(*lens, found).push(c@));
                    assert((text::views(before) + candidates(*lens, found)).push(c@)
                        =~= text::views(before) + candidates(*lens, found).push(c@));
                }
                out.push(c);
            }
            flash.insert(e.index, cur);
        }
        i = i + 1;
    }
    assert(f.entities@.take(n as int) =~= f.entities@);
}

/// Find what has to be reckoned before blinds can be told.
pub fn find_candidates(schema: &Schema, lens: &Lens, frames: &Vec<Frame>) -> (out: Vec<FlashCandidate>)
    ensures
        text::views(out@) == candidates(
            *lens,
            onsets_through(flash_key(*schema), TeamKeys::of(*schema), frames@),
        ),
{
    let key = schema.field_key(PLAYER_PAWN_CLASS, "m_flFlashDuration");
    let ghost tk = TeamKeys::of(*schema);
    let mut flash: HashMap<i32, Float> = HashMap::new();
    let mut blasts: Vec<(i32, Detonation)> = Vec::new();
    let mut out: Vec<FlashCandidate> = Vec::new();
    let n: usize = frames.len();
    let mut i: usize = 0;
    assert(frames@.take(0) =~= Seq::<Frame>::empty());
    assert(flash@ =~= Map::empty());
    assert(candidates(*lens, Seq::<Onset>::empty()) =~= Seq::empty());
    while i < n
        invariant
            i <= n,
            n == frames@.len(),
            key == flash_key(*schema),
            flash@ == flash_through(key, frames@.take(i as int)),
            blasts@ == blasts_through(frames@.take(i as int)),
            text::views(out@) == candidates(*lens, onsets_through(key, tk, frames@.take(i as int))),
        decreases n - i,
    {
        let f = &frames[i];
        let ghost next = frames@.take(i + 1);
        assert(next.drop_last() =~= frames@.take(i as int));
        take_blasts(f, &mut blasts);
        let detonations = detonations_on(&blasts, f.tick);
        let ghost clans = resolve::clans_through(tk, next);
        let ghost old_ones = onsets_through(key, tk, next.drop_last());
        let ghost new_ones = onsets_in(key, *f, clans, detonations@, flash@, f.entities@);
        candidates_in_frame(lens, key, f, &detonations, &mut flash, &mut out, Ghost(clans));
        assert(candidates(*lens, old_ones + new_ones) =~= candidates(*lens, old_ones) + candidates(
            *lens,
            new_ones,
        ));
        i = i + 1;
    }
    assert(frames@.take(n as int) =~= frames@);
    out
}

/// The first of the nearest detonations.
fn nearest(detonations: &Vec<Detonation>, distances: &Vec<Float>) -> (k: usize)
    requires
        detonations@.len() > 0,
        distances@.len() == detonations@.len(),
    ensures
        k == first_least(farness(detonations@, distances@)),
        k < detonations@.len(),
{
    let n: usize = detonations.len();
    let ghost ranks = farness(detonations@, distances@);
    let mut best: usize = 0;
    let mut least: i64 = 0;
    let mut i: usize = 0;
    while i < n
        invariant
            i <= n,
            n == detonations@.len(),
            distances@.len() == n,
            n > 0,
            ranks == farness(detonations@, distances@),
            i > 0 ==> best < i,
            i > 0 ==> best == first_least(ranks.take(i as int)),
            i > 0 ==> least == ranks[best as int],
        decreases n - i,
    {
        let far: i64 = match detonations[i].blast_site() {
            Some(_) => distances[i].total_place(),
            None => Float { bits: INFINITY_BITS }.total_place(),
        };
        let ghost next = ranks.take(i + 1);
        assert(next.drop_last() =~= ranks.take(i as int));
        if i == 0 || far < least {
            best = i;
            least = far;
        }
        i = i + 1;
    }
    assert(ranks.take(n as int) =~= ranks);
    best
}

/// The blind that an onset is, unless the duration did not rise past the edge.
fn tell_blind(
    lens: &Lens,
    f: &Frame,
    clans: &HashMap<i64, String>,
    pawn: &Entity,
    cur: Float,
    detonations: &Vec<Detonation>,
    sum: &FlashSum,
    Ghost(o): Ghost<Onset>,
) -> (row: Option<Blind>)
    requires
        o.frame == *f,
        o.clans == resolve::clan_names(clans@),
        o.pawn == *pawn,
        o.cur == cur,
        o.detonations == detonations@,
        detonations@.len() > 0,
        sum.distances@.len() == detonations@.len(),
    ensures
        row is Some == blind_of(*lens, o, *sum) is Some,
        row matches Some(b) ==> blind_of(*lens, o, *sum) == Some(b@),
{
    if cur.is_at_most(sum.edge) {
        return None;
    }
    let victim = lens.resolve_from_pawn(f, pawn, clans);
    let place = lens.pawn.origin.world(pawn);
    let k: usize = if detonations.len() > 1 && place.is_some() {
        nearest(detonations, &sum.distances)
    } else {
        0
    };
    let attacker = lens.resolve_player(f, detonations[k].thrower_pawn, clans);
    let is_teammate = match (&attacker.side, &victim.side) {
        (Some(a), Some(v)) => same_text(a.as_str(), v.as_str()),
        _ => false,
    };
    Some(
        Blind {
            tick: f.tick,
            attacker_steamid: attacker.steamid,
            attacker_name: attacker.name,
            attacker_side: attacker.side,
            attacker_x: attacker.x,
            attacker_y: attacker.y,
            attacker_z: attacker.z,
            victim_steamid: victim.steamid,
            victim_name: victim.name,
            victim_side: victim.side,
            victim_x: victim.x,
            victim_y: victim.y,
            victim_z: victim.z,
            duration: cur,
            is_teammate,
        },
    )
}

/// Detect new blinds on a tick: a rising edge of each player pawn's flash duration,
/// attributed to a detonation on the same tick. `flash` carries each pawn's duration
/// from tick to tick, `taken` how many reckonings were used.
fn detect_blinds(
    lens: &Lens,
    key: Option<u64>,
    f: &Frame,
    clans: &HashMap<i64, String>,
    detonations: &Vec<Detonation>,
    flash: &mut HashMap<i32, Float>,
    sums: &Vec<FlashSum>,
    taken: &mut usize,
    out: &mut Vec<Blind>,
    Ghost(before): Ghost<Seq<Onset>>,
)
    requires
        *old(taken) == before.len(),
        text::views(old(out)@) == blinds_of(*lens, before, sums@),
        before.len() + onsets_in(
            key,
            *f,
            resolve::clan_names(clans@),
            detonations@,
            old(flash)@,
            f.entities@,
        ).len() <= sums@.len(),
        forall|i: int|
            before.len() <= i < before.len() + onsets_in(
                key,
                *f,
                resolve::clan_names(clans@),
                detonations@,
                old(flash)@,
                f.entities@,
            ).len() ==> (#[trigger] sums@[i]).distances@.len() == detonations@.len(),
    ensures
        final(flash)@ == flash_after(old(flash)@, key, f.entities@),
        *final(taken) == before.len() + onsets_in(
            key,
            *f,
            resolve::clan_names(clans@),
            detonations@,
            old(flash)@,
            f.entities@,
        ).len(),
        text::views(final(out)@) == blinds_of(
            *lens,
            before + onsets_in(
                key,
                *f,
                resolve::clan_names(clans@),
                detonations@,
                old(flash)@,
                f.entities@,
            ),
            sums@,
        ),
{
    let n: usize = f.entities.len();
    let many: usize = sums.len();
    let ghost start = flash@;
    let ghost names = resolve::clan_names(clans@);
    let ghost all = onsets_in(key, *f, names, detonations@, start, f.entities@);
    let mut i: usize = 0;
    assert(f.entities@.take(0) =~= Seq::<Entity>::empty());
    assert(before + Seq::<Onset>::empty() =~= before);
    while i < n
        invariant
            i <= n,
            n == f.entities@.len(),
            many == sums@.len(),
            names == resolve::clan_names(clans@),
            all == onsets_in(key, *f, names, detonations@, start, f.entities@),
            before.len() + all.len() <= sums@.len(),
            forall|i: int|
                before.len() <= i < before.len() + all.len() ==> (#[trigger] sums@[i]).distances@.len()
                    == detonations@.len(),
            flash@ == flash_after(start, key, f.entities@.take(i as int)),
            *taken == before.len() + onsets_in(
                key,
                *f,
                names,
                detonations@,
                start,
                f.entities@.take(i as int),
            ).len(),
            text::views(out@) == blinds_of(
                *lens,
                before + onsets_in(
                    key,
                    *f,
                    names,
                    detonations@,
                    start,
                    f.entities@.take(i as int),
                ),
                sums@,
            ),
        decreases n - i,
    {
        let e = &f.entities[i];
        let ghost next = f.entities@.take(i + 1);
        assert(next.drop_last() =~= f.entities@.take(i as int));
        let ghost found = onsets_in(key, *f, names, detonations@, start, next.drop_last());
        if e.active && e.is_a(PLAYER_PAWN_CLASS) {
            let cur = e.get_real(key);
            if !cur.is_at_most(Float { bits: FLASH_MIN_BITS }) && detonations.len() > 0 {
                let ghost o = onset_of(
                    key,
                    *f,
                    names,
                    detonations@,
                    flash_after(start, key, next.drop_last()),
                    next.last(),
                )->0;
                proof {
                    lemma_onsets_grow(key, *f, names, detonations@, start, f.entities@, i + 1);
                    assert(onsets_in(key, *f, names, detonations@, start, next) == found.push(o));
                    assert((before + found.push(o)).drop_last() =~= before + found);
                    assert((before + found.push(o)).last() == o);
                }
                let row = tell_blind(
                    lens,
                    f,
                    clans,
                    e,
                    cur,
                    detonations,
                    &sums[*taken],
                    Ghost(o),
                );
                if let Some(b) = row {
                    out.push(b);
                }
                *taken = *taken + 1;
            }
            flash.insert(e.index, cur);
        }
        i = i + 1;
    }
    assert(f.entities@.take(n as int) =~= f.entities@);
}

/// More entities, no fewer onsets.
proof fn lemma_onsets_grow(
    key: Option<u64>,
    f: Frame,
    clans: Map<i64, Seq<char>>,
    detonations: Seq<Detonation>,
    flash: Map<i32, Float>,
    entities: Seq<Entity>,
    n: int,
)
    requires
        0 <= n <= entities.len(),
    ensures
        onsets_in(key, f, clans, detonations, flash, entities.take(n)).len() <= onsets_in(
            key,
            f,
            clans,
            detonations,
            flash,
            entities,
        ).len(),
    decreases entities.len(),
{
    if n == entities.len() {
        assert(entities.take(n) =~= entities);
    } else {
        lemma_onsets_grow(key, f, clans, detonations, flash, entities.drop_last(), n);
        assert(entities.drop_last().take(n) =~= entities.take(n));
    }
}

/// What the first frames show begins what all show.
proof fn lemma_onsets_prefix(key: Option<u64>, tk: TeamKeys, frames: Seq<Frame>, n: int)
    requires
        0 <= n <= frames.len(),
    ensures
        onsets_through(key, tk, frames.take(n)).len() <= onsets_through(key, tk, frames).len(),
        forall|i: int|
            0 <= i < onsets_through(key, tk, frames.take(n)).len() ==> #[trigger] onsets_through(
                key,
                tk,
                frames.take(n),
            )[i] == onsets_through(key, tk, frames)[i],
    decreases frames.len(),
{
    if n == frames.len() {
        assert(frames.take(n) =~= frames);
    } else {
        lemma_onsets_prefix(key, tk, frames.drop_last(), n);
        assert(frames.drop_last().take(n) =~= frames.take(n));
    }
}

/// Tell the blinds of a demo, given what was reckoned for the candidates.
pub fn find_blinds(
    schema: &Schema,
    lens: &Lens,
    frames: &Vec<Frame>,
    sums: &Vec<FlashSum>,
) -> (out: Vec<Blind>)
    requires
        sums_match(onsets_through(flash_key(*schema), TeamKeys::of(*schema), frames@), sums@),
    ensures
        text::views(out@) == blinds_of(
            *lens,
            onsets_through(flash_key(*schema), TeamKeys::of(*schema), frames@),
            sums@,
        ),
{
    let key = schema.field_key(PLAYER_PAWN_CLASS, "m_flFlashDuration");
    let tk = TeamKeys::resolve(schema);
    let mut flash: HashMap<i32, Float> = HashMap::new();
    let mut clans: HashMap<i64, String> = HashMap::new();
    let mut blasts: Vec<(i32, Detonation)> = Vec::new();
    let mut out: Vec<Blind> = Vec::new();
    let mut taken: usize = 0;
    let n: usize = frames.len();
    let mut i: usize = 0;
    assert(frames@.take(0) =~= Seq::<Frame>::empty());
    assert(flash@ =~= Map::empty());
    assert(resolve::clan_names(clans@) =~= Map::empty());
    while i < n
        invariant
            i <= n,
            n == frames@.len(),
            key == flash_key(*schema),
            tk == TeamKeys::of(*schema),
            sums_match(onsets_through(key, tk, frames@), sums@),
            flash@ == flash_through(key, frames@.take(i as int)),
            resolve::clan_names(clans@) == resolve::clans_through(tk, frames@.take(i as int)),
            blasts@ == blasts_through(frames@.take(i as int)),
            taken == onsets_through(key, tk, frames@.take(i as int)).len(),
            text::views(out@) == blinds_of(
                *lens,
                onsets_through(key, tk, frames@.take(i as int)),
                sums@,
            ),
        decreases n - i,
    {
        let f = &frames[i];
        let ghost next = frames@.take(i + 1);
        assert(next.drop_last() =~= frames@.take(i as int));
        update_clans(f, &tk, &mut clans);
        take_blasts(f, &mut blasts);
        let detonations = detonations_on(&blasts, f.tick);
        let ghost before = onsets_through(key, tk, next.drop_last());
        let ghost here = onsets_in(
            key,
            *f,
            resolve::clan_names(clans@),
            detonations@,
            flash@,
            f.entities@,
        );
        proof {
            lemma_onsets_prefix(key, tk, frames@, i + 1);
            assert(onsets_through(key, tk, next) == before + here);
            lemma_onsets_share(
                key,
                *f,
                resolve::clan_names(clans@),
                detonations@,
                flash@,
                f.entities@,
            );
            assert forall|k: int| before.len() <= k < before.len() + here.len() implies (
            #[trigger] sums@[k]).distances@.len() == detonations@.len() by {
                assert(onsets_through(key, tk, next)[k] == here[k - before.len()]);
                assert(onsets_through(key, tk, frames@)[k] == here[k - before.len()]);
            }
        }
        detect_blinds(
            lens,
            key,
            f,
            &clans,
            &detonations,
            &mut flash,
            sums,
            &mut taken,
            &mut out,
            Ghost(before),
        );
        i = i + 1;
    }
    assert(frames@.take(n as int) =~= frames@);
    out
}

/// The onsets of a tick share its detonations.
proof fn lemma_onsets_share(
    key: Option<u64>,
    f: Frame,
    clans: Map<i64, Seq<char>>,
    detonations: Seq<Detonation>,
    flash: Map<i32, Float>,
    entities: Seq<Entity>,
)
    ensures
        forall|i: int|
            0 <= i < onsets_in(key, f, clans, detonations, flash, entities).len() ==> (
            #[trigger] onsets_in(key, f, clans, detonations, flash, entities)[i]).detonations
                == detonations,
    decreases entities.len(),
{
    if entities.len() > 0 {
        let init = entities.drop_last();
        lemma_onsets_share(key, f, clans, detonations, flash, init);
        let rest = onsets_in(key, f, clans, detonations, flash, init);
        let all = onsets_in(key, f, clans, detonations, flash, entities);
        assert forall|i: int| 0 <= i < all.len() implies (#[trigger] all[i]).detonations == detonations by {
            if i < rest.len() {
                assert(all[i] == rest[i]);
            }
        }
    }
}

/// Whether a flashbang went off on a tick.
pub open spec fn flash_on(frames: Seq<Frame>, tick: i32) -> bool {
    exists|i: int, j: int|
        #![trigger frames[i].events@[j]]
        0 <= i < frames.len() && 0 <= j < frames[i].events@.len() && frames[i].events@[j].name@
            == "flashbang_detonate"@ && frames[i].events@[j].tick == tick
}

/// A detonation among events is one of the events.
proof fn lemma_blast_in(events: Seq<GameEvent>, k: int) -> (j: int)
    requires
        0 <= k < blasts_in(events).len(),
    ensures
        0 <= j < events.len(),
        events[j].name@ == "flashbang_detonate"@,
        events[j].tick == blasts_in(events)[k].0,
    decreases events.len(),
{
    let rest = blasts_in(events.drop_last());
    if k < rest.len() {
        lemma_blast_in(events.drop_last(), k)
    } else {
        events.len() - 1
    }
}

/// A detonation that frames tell of is one of their events.
proof fn lemma_blast_through(frames: Seq<Frame>, k: int)
    requires
        0 <= k < blasts_through(frames).len(),
    ensures
        flash_on(frames, blasts_through(frames)[k].0),
    decreases frames.len(),
{
    let init = frames.drop_last();
    let rest = blasts_through(init);
    let tick = blasts_through(frames)[k].0;
    if k < rest.len() {
        lemma_blast_through(init, k);
        let (i, j) = choose|i: int, j: int|
            #![trigger init[i].events@[j]]
            0 <= i < init.len() && 0 <= j < init[i].events@.len() && init[i].events@[j].name@
                == "flashbang_detonate"@ && init[i].events@[j].tick == tick;
        assert(frames[i].events@[j] == init[i].events@[j]);
    } else {
        let j = lemma_blast_in(frames.last().events@, k - rest.len());
        assert(frames[frames.len() - 1].events@[j].tick == tick);
    }
}

/// A tick with a detonation has one among all.
proof fn lemma_blast_on(blasts: Seq<(i32, Detonation)>, tick: i32) -> (k: int)
    requires
        blasts_on(blasts, tick).len() > 0,
    ensures
        0 <= k < blasts.len(),
        blasts[k].0 == tick,
    decreases blasts.len(),
{
    if blasts.last().0 == tick {
        blasts.len() - 1
    } else {
        lemma_blast_on(blasts.drop_last(), tick)
    }
}

/// An onset is a pawn of its tick, above the noise floor, with detonations.
proof fn lemma_onset_in(
    key: Option<u64>,
    f: Frame,
    clans: Map<i64, Seq<char>>,
    detonations: Seq<Detonation>,
    flash: Map<i32, Float>,
    entities: Seq<Entity>,
    k: int,
)
    requires
        0 <= k < onsets_in(key, f, clans, detonations, flash, entities).len(),
    ensures
        ({
            let o = onsets_in(key, f, clans, detonations, flash, entities)[k];
            &&& o.frame == f
            &&& detonations.len() > 0
            &&& !o.cur.at_most(Float { bits: FLASH_MIN_BITS })
        }),
    decreases entities.len(),
{
    let rest = onsets_in(key, f, clans, detonations, flash, entities.drop_last());
    if k < rest.len() {
        lemma_onset_in(key, f, clans, detonations, flash, entities.drop_last(), k);
    }
}

/// An onset has a detonation on its tick.
proof fn lemma_onset_through(key: Option<u64>, tk: TeamKeys, frames: Seq<Frame>, k: int)
    requires
        0 <= k < onsets_through(key, tk, frames).len(),
    ensures
        flash_on(frames, onsets_through(key, tk, frames)[k].frame.tick),
        !onsets_through(key, tk, frames)[k].cur.at_most(Float { bits: FLASH_MIN_BITS }),
    decreases frames.len(),
{
    let init = frames.drop_last();
    let rest = onsets_through(key, tk, init);
    let o = onsets_through(key, tk, frames)[k];
    if k < rest.len() {
        lemma_onset_through(key, tk, init, k);
        let (i, j) = choose|i: int, j: int|
            #![trigger init[i].events@[j]]
            0 <= i < init.len() && 0 <= j < init[i].events@.len() && init[i].events@[j].name@
                == "flashbang_detonate"@ && init[i].events@[j].tick == o.frame.tick;
        assert(frames[i].events@[j] == init[i].events@[j]);
    } else {
        let f = frames.last();
        let clans = resolve::clans_through(tk, frames);
        let detonations = blasts_on(blasts_through(frames), f.tick);
        lemma_onset_in(
            key,
            f,
            clans,
            detonations,
            flash_through(key, init),
            f.entities@,
            k - rest.len(),
        );
        let b = lemma_blast_on(blasts_through(frames), f.tick);
        lemma_blast_through(frames, b);
    }
}

/// A blind is one of the onsets.
proof fn lemma_blind_of_onset(lens: Lens, onsets: Seq<Onset>, sums: Seq<FlashSum>, n: int) -> (k: int)
    requires
        0 <= n < blinds_of(lens, onsets, sums).len(),
    ensures
        0 <= k < onsets.len(),
        blind_of(lens, onsets[k], sums[k]) == Some(blinds_of(lens, onsets, sums)[n]),
    decreases onsets.len(),
{
    let rest = blinds_of(lens, onsets.drop_last(), sums);
    if n < rest.len() {
        lemma_blind_of_onset(lens, onsets.drop_last(), sums, n)
    } else {
        onsets.len() - 1
    }
}

/// Nobody is blinded without a flashbang: every blind is above the noise floor, on a
/// tick on which a flashbang went off, and a team flash only if both sides are known
/// and the same.
pub proof fn law_blinds_have_detonations(
    lens: Lens,
    key: Option<u64>,
    tk: TeamKeys,
    frames: Seq<Frame>,
    sums: Seq<FlashSum>,
    n: int,
)
    requires
        0 <= n < blinds_of(lens, onsets_through(key, tk, frames), sums).len(),
    ensures
        ({
            let b = blinds_of(lens, onsets_through(key, tk, frames), sums)[n];
            &&& flash_on(frames, b.tick)
            &&& !b.duration.at_most(Float { bits: FLASH_MIN_BITS })
            &&& b.is_teammate <==> b.attacker_side is Some && b.attacker_side == b.victim_side
        }),
{
    let onsets = onsets_through(key, tk, frames);
    let k = lemma_blind_of_onset(lens, onsets, sums, n);
    lemma_onset_through(key, tk, frames, k);
}

/// Whether there is one reckoning for every onset, with a distance for every site.
pub fn sums_are_complete(
    schema: &Schema,
    lens: &Lens,
    frames: &Vec<Frame>,
    sums: &Vec<FlashSum>,
) -> (b: bool)
    ensures
        b == sums_match(
            onsets_through(flash_key(*schema), TeamKeys::of(*schema), frames@),
            sums@,
        ),
{
    let found = find_candidates(schema, lens, frames);
    let ghost onsets = onsets_through(flash_key(*schema), TeamKeys::of(*schema), frames@);
    assert(text::views(found@).len() == onsets.len());
    if sums.len() != found.len() {
        return false;
    }
    let n: usize = sums.len();
    let mut i: usize = 0;
    while i < n
        invariant
            i <= n,
            n == sums@.len(),
            n == found@.len(),
            n == onsets.len(),
            onsets == onsets_through(flash_key(*schema), TeamKeys::of(*schema), frames@),
            text::views(found@) == candidates(*lens, onsets),
            forall|j: int|
                0 <= j < i ==> (#[trigger] sums@[j]).distances@.len() == onsets[j].detonations.len(),
        decreases n - i,
    {
        assert(text::views(found@)[i as int] == candidate_of(*lens, onsets[i as int]));
        assert(found@[i as int]@.sites.len() == onsets[i as int].detonations.len());
        if sums[i].distances.len() != found[i].sites.len() {
            assert(sums@[i as int].distances@.len() != onsets[i as int].detonations.len());
            return false;
        }
        i = i + 1;
    }
    true
}

} // verus!
