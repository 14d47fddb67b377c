//! Damage: one row per `player_hurt` event.
use crate::demo::{Frame, GameEvent};
use crate::float::Float;
use crate::keys;
use crate::keys::Keys;
use crate::names::Names;
use crate::resolve;
use crate::resolve::{Lens, ResolvedPlayer, TeamKeys};
use crate::text;
use crate::text::same_text;
use std::collections::HashMap;
use vstd::prelude::*;

verus! {

broadcast use vstd::string::group_string_axioms;

/// The most health a player has; a player that was not hurt since spawning has it.
pub const MAX_HEALTH: i32 = 100;

/// The most armor a player has.
pub const MAX_ARMOR: i32 = 100;

/// A single damage instance, from a `player_hurt` game event, enriched with the
/// resolved attacker and victim and the victim's health and armor before and after.
#[derive(Clone, Debug, Default)]
pub struct Damage<T = String> {
    pub tick: i32,
    /// 1-indexed round this damage occurred in.
    pub round_num: Option<i32>,
    pub attacker_steamid: Option<u64>,
    pub attacker_name: Option<T>,
    pub attacker_side: Option<T>,
    pub attacker_x: Option<Float>,
    pub attacker_y: Option<Float>,
    pub attacker_z: Option<Float>,
    pub attacker_team_clan_name: Option<T>,
    pub attacker_cash_spent_this_round: Option<i32>,
    pub victim_steamid: Option<u64>,
    pub victim_name: Option<T>,
    pub victim_side: Option<T>,
    pub victim_x: Option<Float>,
    pub victim_y: Option<Float>,
    pub victim_z: Option<Float>,
    pub victim_team_clan_name: Option<T>,
    pub victim_cash_spent_this_round: Option<i32>,
    pub weapon: T,
    pub dmg_health: i32,
    pub dmg_armor: i32,
    pub hitgroup: i32,
    pub hitgroup_name: T,
    /// Victim health before the hit.
    pub health_pre: i32,
    /// Victim health after the hit.
    pub health_post: i32,
    /// Victim armor before the hit.
    pub armor_pre: i32,
    /// Victim armor after the hit.
    pub armor_post: i32,
    /// The health the victim actually lost: what they had left after their last hit
    /// this life, or the full 100 after spawning, less what they have left now.
    pub dmg_health_real: i32,
}

impl View for Damage {
    type V = Damage<Seq<char>>;

    open spec fn view(&self) -> Damage<Seq<char>> {
        Damage {
            tick: self.tick,
            round_num: self.round_num,
            attacker_steamid: self.attacker_steamid,
            attacker_name: text::of(self.attacker_name),
            attacker_side: text::of(self.attacker_side),
            attacker_x: self.attacker_x,
            attacker_y: self.attacker_y,
            attacker_z: self.attacker_z,
            attacker_team_clan_name: text::of(self.attacker_team_clan_name),
            attacker_cash_spent_this_round: self.attacker_cash_spent_this_round,
            victim_steamid: self.victim_steamid,
            victim_name: text::of(self.victim_name),
            victim_side: text::of(self.victim_side),
            victim_x: self.victim_x,
            victim_y: self.victim_y,
            victim_z: self.victim_z,
            victim_team_clan_name: text::of(self.victim_team_clan_name),
            victim_cash_spent_this_round: self.victim_cash_spent_this_round,
            weapon: self.weapon@,
            dmg_health: self.dmg_health,
            dmg_armor: self.dmg_armor,
            hitgroup: self.hitgroup,
            hitgroup_name: self.hitgroup_name@,
            health_pre: self.health_pre,
            health_post: self.health_post,
            armor_pre: self.armor_pre,
            armor_post: self.armor_post,
            dmg_health_real: self.dmg_health_real,
        }
    }
}

/// The value before a hit: what is left and what was taken, but no more than `most`.
pub open spec fn before_hit(post: int, taken: int, most: int) -> int {
    if post + taken <= most {
        post + taken
    } else {
        most
    }
}

/// Whether a number fits 32 bits.
pub open spec fn fits(n: int) -> bool {
    i32::MIN <= n <= i32::MAX
}

/// Whether what an event says is left and taken of health and armor adds up to
/// 32-bit numbers.
pub open spec fn sums_fit(e: GameEvent) -> bool {
    &&& fits(keys::key_i32(e.keys@, "health"@) + keys::key_i32(e.keys@, "dmg_health"@))
    &&& fits(keys::key_i32(e.keys@, "armor"@) + keys::key_i32(e.keys@, "dmg_armor"@))
}

/// A damage instance by the event's own fields, with no participant resolved.
pub open spec fn damage_fields(e: GameEvent, names: Names) -> Damage<Seq<char>> {
    let hitgroup = keys::key_i32(e.keys@, "hitgroup"@);
    let dmg_health = keys::key_i32(e.keys@, "dmg_health"@);
    let dmg_armor = keys::key_i32(e.keys@, "dmg_armor"@);
    let health_post = keys::key_i32(e.keys@, "health"@);
    let armor_post = keys::key_i32(e.keys@, "armor"@);
    Damage {
        tick: e.tick,
        round_num: None,
        attacker_steamid: None,
        attacker_name: None,
        attacker_side: None,
        attacker_x: None,
        attacker_y: None,
        attacker_z: None,
        attacker_team_clan_name: None,
        attacker_cash_spent_this_round: None,
        victim_steamid: None,
        victim_name: None,
        victim_side: None,
        victim_x: None,
        victim_y: None,
        victim_z: None,
        victim_team_clan_name: None,
        victim_cash_spent_this_round: None,
        weapon: keys::key_string(e.keys@, "weapon"@),
        dmg_health,
        dmg_armor,
        hitgroup,
        hitgroup_name: names.hitgroups.name(hitgroup as i64),
        health_pre: before_hit(health_post as int, dmg_health as int, MAX_HEALTH as int) as i32,
        health_post,
        armor_pre: before_hit(armor_post as int, dmg_armor as int, MAX_ARMOR as int) as i32,
        armor_post,
        dmg_health_real: 0,
    }
}

/// A damage instance with its participants.
pub open spec fn damage_with(
    d: Damage<Seq<char>>,
    attacker: ResolvedPlayer<Seq<char>>,
    victim: ResolvedPlayer<Seq<char>>,
) -> Damage<Seq<char>> {
    Damage {
        attacker_steamid: attacker.steamid,
        attacker_name: attacker.name,
        attacker_side: attacker.side,
        attacker_x: attacker.x,
        attacker_y: attacker.y,
        attacker_z: attacker.z,
        attacker_team_clan_name: attacker.team_clan_name,
        attacker_cash_spent_this_round: attacker.cash_spent_this_round,
        victim_steamid: victim.steamid,
        victim_name: victim.name,
        victim_side: victim.side,
        victim_x: victim.x,
        victim_y: victim.y,
        victim_z: victim.z,
        victim_team_clan_name: victim.team_clan_name,
        victim_cash_spent_this_round: victim.cash_spent_this_round,
        ..d
    }
}

/// The participants of a damage instance, as the entities of its tick show them.
pub open spec fn damage_filled(
    d: Damage<Seq<char>>,
    e: GameEvent,
    f: Frame,
    lens: Lens,
    clans: Map<i64, Seq<char>>,
) -> Damage<Seq<char>> {
    damage_with(
        d,
        lens.player_of_handle(f.entities@, keys::key_i64(e.keys@, "attacker_pawn"@), clans),
        lens.player_of_handle(f.entities@, keys::key_i64(e.keys@, "userid_pawn"@), clans),
    )
}

/// Build a damage instance from a `player_hurt` event's own fields, with the
/// participants left unresolved.
///
/// The damage is the raw, uncapped one and can exceed what the victim had, so the
/// values before the hit are capped.
pub fn damage_event_fields(e: &GameEvent, names: &Names) -> (damage: Damage)
    requires
        sums_fit(*e),
    ensures
        damage@ == damage_fields(*e, *names),
{
    let k = Keys(&e.keys);
    let hitgroup = k.i32("hitgroup");
    let dmg_health = k.i32("dmg_health");
    let dmg_armor = k.i32("dmg_armor");
    let health_post = k.i32("health");
    let armor_post = k.i32("armor");
    let health_sum: i32 = health_post + dmg_health;
    let armor_sum: i32 = armor_post + dmg_armor;
    Damage {
        tick: e.tick,
        round_num: None,
        attacker_steamid: None,
        attacker_name: None,
        attacker_side: None,
        attacker_x: None,
        attacker_y: None,
        attacker_z: None,
        attacker_team_clan_name: None,
        attacker_cash_spent_this_round: None,
        victim_steamid: None,
        victim_name: None,
        victim_side: None,
        victim_x: None,
        victim_y: None,
        victim_z: None,
        victim_team_clan_name: None,
        victim_cash_spent_this_round: None,
        weapon: k.string("weapon"),
        dmg_health,
        dmg_armor,
        hitgroup,
        hitgroup_name: names.hitgroups.name_of(hitgroup as i64),
        health_pre: if health_sum <= MAX_HEALTH {
            health_sum
        } else {
            MAX_HEALTH
        },
        health_post,
        armor_pre: if armor_sum <= MAX_ARMOR {
            armor_sum
        } else {
            MAX_ARMOR
        },
        armor_post,
        dmg_health_real: 0,
    }
}

/// Fill a damage instance's participants from the event and the entities of its tick.
pub fn fill_damage(
    damage: &mut Damage,
    e: &GameEvent,
    f: &Frame,
    lens: &Lens,
    clans: &HashMap<i64, String>,
)
    ensures
        final(damage)@ == damage_filled(
            old(damage)@,
            *e,
            *f,
            *lens,
            resolve::clan_names(clans@),
        ),
{
    let k = Keys(&e.keys);
    let attacker = lens.resolve_player(f, k.i64("attacker_pawn"), clans);
    let victim = lens.resolve_player(f, k.i64("userid_pawn"), clans);
    attacker.assign_to(
        &mut damage.attacker_steamid,
        &mut damage.attacker_name,
        &mut damage.attacker_side,
        &mut damage.attacker_x,
        &mut damage.attacker_y,
        &mut damage.attacker_z,
        &mut damage.attacker_team_clan_name,
        &mut damage.attacker_cash_spent_this_round,
    );
    victim.assign_to(
        &mut damage.victim_steamid,
        &mut damage.victim_name,
        &mut damage.victim_side,
        &mut damage.victim_x,
        &mut damage.victim_y,
        &mut damage.victim_z,
        &mut damage.victim_team_clan_name,
        &mut damage.victim_cash_spent_this_round,
    );
}

/// The pawn that an event happened to, by its handle.
pub open spec fn pawn_of(e: GameEvent) -> u32 {
    keys::key_i64(e.keys@, "userid_pawn"@) as u32
}

/// The pawn that an event happened to, by its handle.
pub fn victim_pawn(e: &GameEvent) -> (h: u32)
    ensures
        h == pawn_of(*e),
{
    #[verifier::truncate]
    (Keys(&e.keys).i64("userid_pawn") as u32)
}

/// The health that each pawn has left, after an event: a hit leaves what it says, a
/// spawn the most there is.
pub open spec fn health_step(health: Map<u32, i32>, e: GameEvent) -> Map<u32, i32> {
    if e.name@ == "player_hurt"@ {
        health.insert(pawn_of(e), keys::key_i32(e.keys@, "health"@))
    } else if e.name@ == "player_spawn"@ {
        health.insert(pawn_of(e), MAX_HEALTH)
    } else {
        health
    }
}

/// The health that each pawn has left, after a run of events.
pub open spec fn health_after(health: Map<u32, i32>, events: Seq<GameEvent>) -> Map<u32, i32>
    decreases events.len(),
{
    if events.len() == 0 {
        health
    } else {
        health_step(health_after(health, events.drop_last()), events.last())
    }
}

/// The health that each pawn has left, after a run of ticks.
pub open spec fn health_through(frames: Seq<Frame>) -> Map<u32, i32>
    decreases frames.len(),
{
    if frames.len() == 0 {
        Map::empty()
    } else {
        health_after(health_through(frames.drop_last()), frames.last().events@)
    }
}

/// The health that a pawn has left; all of it where nothing is known.
pub open spec fn health_left(health: Map<u32, i32>, pawn: u32) -> i32 {
    if health.contains_key(pawn) {
        health[pawn]
    } else {
        MAX_HEALTH
    }
}

/// What a hit took: never less than nothing.
pub open spec fn health_lost(pre: int, post: int) -> int {
    if pre - post > 0 {
        pre - post
    } else {
        0
    }
}

/// The damage instance that an event tells of, if it is a `player_hurt`.
pub open spec fn damage_of(
    lens: Lens,
    f: Frame,
    clans: Map<i64, Seq<char>>,
    health: Map<u32, i32>,
    e: GameEvent,
) -> Option<Damage<Seq<char>>> {
    if e.name@ == "player_hurt"@ {
        let d = damage_filled(damage_fields(e, *lens.names), e, f, lens, clans);
        Some(
            Damage {
                dmg_health_real: health_lost(
                    health_left(health, pawn_of(e)) as int,
                    d.health_post as int,
                ) as i32,
                ..d
            },
        )
    } else {
        None
    }
}

/// The damage instances among a tick's events.
pub open spec fn damages_in(
    lens: Lens,
    f: Frame,
    clans: Map<i64, Seq<char>>,
    health: Map<u32, i32>,
    events: Seq<GameEvent>,
) -> Seq<Damage<Seq<char>>>
    decreases events.len(),
{
    if events.len() == 0 {
        Seq::empty()
    } else {
        let init = events.drop_last();
        let rest = damages_in(lens, f, clans, health, init);
        match damage_of(lens, f, clans, health_after(health, init), events.last()) {
            Some(d) => rest.push(d),
            None => rest,
        }
    }
}

/// The damage instances of a run of ticks.
pub open spec fn damages_through(lens: Lens, tk: TeamKeys, frames: Seq<Frame>) -> Seq<
    Damage<Seq<char>>,
>
    decreases frames.len(),
{
    if frames.len() == 0 {
        Seq::empty()
    } else {
        let init = frames.drop_last();
        let f = frames.last();
        damages_through(lens, tk, init) + damages_in(
            lens,
            f,
            resolve::clans_through(tk, frames),
            health_through(init),
            f.events@,
        )
    }
}

/// Whether an event's numbers can be reckoned with in 32 bits.
#[verifier::opaque]
pub open spec fn hurt_fits(health: Map<u32, i32>, e: GameEvent) -> bool {
    e.name@ == "player_hurt"@ ==> sums_fit(e) && fits(
        health_left(health, pawn_of(e)) - keys::key_i32(e.keys@, "health"@),
    )
}

/// Whether the numbers of every hit among a tick's events can be reckoned with in 32 bits.
#[verifier::opaque]
pub open spec fn tick_hurts_fit(health: Map<u32, i32>, events: Seq<GameEvent>) -> bool {
    forall|j: int|
        0 <= j < events.len() ==> hurt_fits(
            health_after(health, events.take(j)),
            #[trigger] events[j],
        )
}

/// Whether every hit's numbers can be reckoned with in 32 bits.
pub open spec fn hurts_fit(frames: Seq<Frame>) -> bool {
    forall|i: int|
        0 <= i < frames.len() ==> #[trigger] tick_hurts_fit(
            health_through(frames.take(i)),
            frames[i].events@,
        )
}

/// The damage instance that a `player_hurt` event tells of; the pawn's health is
/// brought up to date.
pub fn take_hurt(
    lens: &Lens,
    f: &Frame,
    clans: &HashMap<i64, String>,
    health: &mut HashMap<u32, i32>,
    e: &GameEvent,
) -> (damage: Damage)
    requires
        e.name@ == "player_hurt"@,
        hurt_fits(old(health)@, *e),
    ensures
        damage_of(*lens, *f, resolve::clan_names(clans@), old(health)@, *e) == Some(damage@),
        final(health)@ == health_step(old(health)@, *e),
{
    broadcast use vstd::std_specs::hash::group_hash_axioms;

    proof {
        reveal(hurt_fits);
    }
    let mut damage = damage_event_fields(e, lens.names);
    fill_damage(&mut damage, e, f, lens, clans);
    let pawn = victim_pawn(e);
    let pre: i32 = match health.get(&pawn) {
        Some(h) => *h,
        None => MAX_HEALTH,
    };
    let lost: i32 = pre - damage.health_post;
    damage.dmg_health_real = if lost > 0 {
        lost
    } else {
        0
    };
    health.insert(pawn, damage.health_post);
    damage
}

/// A `player_spawn` event gives its pawn all of its health.
pub fn take_spawn(health: &mut HashMap<u32, i32>, e: &GameEvent)
    requires
        e.name@ == "player_spawn"@,
    ensures
        final(health)@ == health_step(old(health)@, *e),
{
    broadcast use vstd::std_specs::hash::group_hash_axioms;

    proof {
        reveal_strlit("player_spawn");
        reveal_strlit("player_hurt");
    }
    assert("player_spawn"@.len() != "player_hurt"@.len());
    health.insert(victim_pawn(e), MAX_HEALTH);
}

/// A hit never takes more health than its victim has, and what it took is what the
/// victim had less what is left, whenever that is not negative.
pub proof fn law_real_damage(
    lens: Lens,
    f: Frame,
    clans: Map<i64, Seq<char>>,
    health: Map<u32, i32>,
    e: GameEvent,
)
    requires
        e.name@ == "player_hurt"@,
        hurt_fits(health, e),
    ensures
        ({
            let d = damage_of(lens, f, clans, health, e)->0;
            let had = health_left(health, pawn_of(e));
            &&& d.dmg_health_real >= 0
            &&& d.health_post >= 0 && had >= 0 ==> d.dmg_health_real <= had
            &&& d.health_post <= had ==> d.dmg_health_real == had - d.health_post
            &&& health_left(health_step(health, e), pawn_of(e)) == d.health_post
        }),
{
    reveal(hurt_fits);
}

/// What hits on one pawn take, in total, by the events alone.
pub open spec fn total_lost(health: Map<u32, i32>, events: Seq<GameEvent>, pawn: u32) -> int
    decreases events.len(),
{
    if events.len() == 0 {
        0
    } else {
        let init = events.drop_last();
        let e = events.last();
        total_lost(health, init, pawn) + (if e.name@ == "player_hurt"@ && pawn_of(e) == pawn {
            health_lost(
                health_left(health_after(health, init), pawn) as int,
                keys::key_i32(e.keys@, "health"@) as int,
            )
        } else {
            0
        })
    }
}

/// Whether no hit on a pawn leaves it with more than it had.
pub open spec fn only_hurt(health: Map<u32, i32>, events: Seq<GameEvent>, pawn: u32) -> bool
    decreases events.len(),
{
    if events.len() == 0 {
        true
    } else {
        let init = events.drop_last();
        let e = events.last();
        &&& only_hurt(health, init, pawn)
        &&& e.name@ == "player_hurt"@ && pawn_of(e) == pawn ==> keys::key_i32(e.keys@, "health"@)
            <= health_left(health_after(health, init), pawn)
        &&& e.name@ == "player_spawn"@ ==> pawn_of(e) != pawn
    }
}

/// Over one life, what the hits took adds up to what the pawn lost: as long as it does
/// not spawn anew or heal, the health it had is the health it has left and the damage
/// it really took.
pub proof fn law_life_adds_up(health: Map<u32, i32>, events: Seq<GameEvent>, pawn: u32)
    requires
        only_hurt(health, events, pawn),
    ensures
        health_left(health, pawn) == health_left(health_after(health, events), pawn) + total_lost(
            health,
            events,
            pawn,
        ),
    decreases events.len(),
{
    if events.len() > 0 {
        law_life_adds_up(health, events.drop_last(), pawn);
    }
}

/// A pawn that spawns has all of its health again, whatever hit it before.
pub proof fn law_spawn_heals(health: Map<u32, i32>, e: GameEvent)
    requires
        e.name@ == "player_spawn"@,
    ensures
        health_left(health_step(health, e), pawn_of(e)) == MAX_HEALTH,
        forall|pawn: u32|
            pawn != pawn_of(e) ==> #[trigger] health_left(health_step(health, e), pawn)
                == health_left(health, pawn),
{
    reveal_strlit("player_spawn");
    reveal_strlit("player_hurt");
    assert("player_spawn"@.len() != "player_hurt"@.len());
}

/// Whether a number fits 32 bits.
fn in_32_bits(n: i64) -> (b: bool)
    ensures
        b == fits(n as int),
{
    i32::MIN as i64 <= n && n <= i32::MAX as i64
}

/// Whether an event's numbers can be reckoned with in 32 bits.
fn can_reckon(health: &HashMap<u32, i32>, e: &GameEvent) -> (b: bool)
    ensures
        b == hurt_fits(health@, *e),
{
    broadcast use vstd::std_specs::hash::group_hash_axioms;

    proof {
        reveal(hurt_fits);
    }
    if !same_text(e.name.as_str(), "player_hurt") {
        return true;
    }
    let k = Keys(&e.keys);
    let post: i64 = k.i32("health") as i64;
    let pre: i64 = match health.get(&victim_pawn(e)) {
        Some(h) => *h as i64,
        None => MAX_HEALTH as i64,
    };
    in_32_bits(post + k.i32("dmg_health") as i64) && in_32_bits(
        k.i32("armor") as i64 + k.i32("dmg_armor") as i64,
    ) && in_32_bits(pre - post)
}

/// Bring the health that each pawn has left up to date with an event.
fn note_health(health: &mut HashMap<u32, i32>, e: &GameEvent)
    ensures
        final(health)@ == health_step(old(health)@, *e),
{
    broadcast use vstd::std_specs::hash::group_hash_axioms;

    if same_text(e.name.as_str(), "player_hurt") {
        health.insert(victim_pawn(e), Keys(&e.keys).i32("health"));
    } else if same_text(e.name.as_str(), "player_spawn") {
        health.insert(victim_pawn(e), MAX_HEALTH);
    }
}

/// Whether the numbers of every hit among a tick's events can be reckoned with in 32 bits;
/// if so, the health that each pawn has left is brought up to date.
fn can_reckon_tick(health: &mut HashMap<u32, i32>, events: &Vec<GameEvent>) -> (b: bool)
    ensures
        b == tick_hurts_fit(old(health)@, events@),
        b ==> final(health)@ == health_after(old(health)@, events@),
{
    let ghost start = health@;
    let n: usize = events.len();
    let mut j: usize = 0;
    proof {
        reveal(tick_hurts_fit);
    }
    assert(events@.take(0) =~= Seq::<GameEvent>::empty());
    while j < n
        invariant
            j <= n,
            n == events@.len(),
            start == old(health)@,
            health@ == health_after(start, events@.take(j as int)),
            forall|k: int|
                0 <= k < j ==> hurt_fits(
                    health_after(start, events@.take(k)),
                    #[trigger] events@[k],
                ),
        decreases n - j,
    {
        assert(events@.take(j + 1).drop_last() =~= events@.take(j as int));
        let e = &events[j];
        if !can_reckon(health, e) {
            proof {
                reveal(tick_hurts_fit);
                assert(!hurt_fits(
                    health_after(start, events@.take(j as int)),
                    events@[j as int],
                ));
            }
            return false;
        }
        note_health(health, e);
        j = j + 1;
    }
    assert(events@.take(n as int) =~= events@);
    true
}

/// Whether every hit's numbers can be reckoned with in 32 bits.
pub fn can_reckon_hurts(frames: &Vec<Frame>) -> (b: bool)
    ensures
        b == hurts_fit(frames@),
{
    broadcast use vstd::std_specs::hash::group_hash_axioms;

    let mut health: HashMap<u32, i32> = HashMap::new();
    let n: usize = frames.len();
    let mut i: usize = 0;
    assert(frames@.take(0) =~= Seq::<Frame>::empty());
    assert(health@ =~= Map::empty());
    while i < n
        invariant
            i <= n,
            n == frames@.len(),
            health@ == health_through(frames@.take(i as int)),
            forall|k: int|
                0 <= k < i ==> #[trigger] tick_hurts_fit(
                    health_through(frames@.take(k)),
                    frames@[k].events@,
                ),
        decreases n - i,
    {
        assert(frames@.take(i + 1).drop_last() =~= frames@.take(i as int));
        if !can_reckon_tick(&mut health, &frames[i].events) {
            assert(!tick_hurts_fit(
                health_through(frames@.take(i as int)),
                frames@[i as int].events@,
            ));
            return false;
        }
        i = i + 1;
    }
    true
}

/// What a victim had before a hit is never more than a player can have, however much damage
/// the event tells of; where it adds up to no more than that, it is what is left and what was
/// taken.
pub proof fn law_before_hit_is_capped(e: GameEvent, names: Names)
    requires
        sums_fit(e),
    ensures
        ({
            let d = damage_fields(e, names);
            &&& d.health_pre <= MAX_HEALTH
            &&& d.armor_pre <= MAX_ARMOR
            &&& d.health_post + d.dmg_health <= MAX_HEALTH ==> d.health_pre == d.health_post
                + d.dmg_health
            &&& d.armor_post + d.dmg_armor <= MAX_ARMOR ==> d.armor_pre == d.armor_post + d.dmg_armor
        }),
{
}

} // verus!
