//! Shots: one row per `weapon_fire` event.
use crate::demo::{Entity, Frame, GameEvent, Schema};
use crate::float::Float;
use crate::keys;
use crate::keys::Keys;
use crate::names::PLAYER_PAWN_CLASS;
use crate::resolve;
use crate::resolve::Lens;
use crate::text;
use std::collections::HashMap;
use vstd::prelude::*;

verus! {

broadcast use vstd::string::group_string_axioms;

/// A single shot fired, with the shooter's state and the active weapon's state at the
/// shot tick.
#[derive(Clone, Debug, Default)]
pub struct Shot<T = String> {
    pub tick: i32,
    /// 1-indexed round this shot occurred in.
    pub round_num: Option<i32>,
    pub steamid: Option<u64>,
    pub name: Option<T>,
    pub side: Option<T>,
    pub x: Option<Float>,
    pub y: Option<Float>,
    pub z: Option<Float>,
    pub team_clan_name: Option<T>,
    pub cash_spent_this_round: Option<i32>,
    pub pitch: Option<Float>,
    pub yaw: Option<Float>,
    pub weapon: T,
    pub scoped: Option<bool>,
    /// Networked accuracy penalty of the active weapon.
    pub inaccuracy: Option<Float>,
    /// Current clip ammo of the active weapon.
    pub num_bullets_remaining: Option<i32>,
}

impl View for Shot {
    type V = Shot<Seq<char>>;

    open spec fn view(&self) -> Shot<Seq<char>> {
        Shot {
            tick: self.tick,
            round_num: self.round_num,
            steamid: self.steamid,
            name: text::of(self.name),
            side: text::of(self.side),
            x: self.x,
            y: self.y,
            z: self.z,
            team_clan_name: text::of(self.team_clan_name),
            cash_spent_this_round: self.cash_spent_this_round,
            pitch: self.pitch,
            yaw: self.yaw,
            weapon: self.weapon@,
            scoped: self.scoped,
            inaccuracy: self.inaccuracy,
            num_bullets_remaining: self.num_bullets_remaining,
        }
    }
}

/// Pawn field keys read for every shot: view angles, scoped flag and active weapon.
#[derive(Clone, Copy, Debug)]
pub struct ShotKeys {
    pub angles: Option<u64>,
    pub scoped: Option<u64>,
    pub weapon_handle: Option<u64>,
}

impl ShotKeys {
    pub open spec fn of(schema: Schema) -> ShotKeys {
        ShotKeys {
            angles: schema.key_of(PLAYER_PAWN_CLASS@, "m_angEyeAngles"@),
            scoped: schema.key_of(PLAYER_PAWN_CLASS@, "m_bIsScoped"@),
            weapon_handle: schema.key_of(
                PLAYER_PAWN_CLASS@,
                "m_pWeaponServices.m_hActiveWeapon"@,
            ),
        }
    }

    pub fn resolve(schema: &Schema) -> (keys: ShotKeys)
        ensures
            keys == ShotKeys::of(*schema),
    {
        ShotKeys {
            angles: schema.field_key(PLAYER_PAWN_CLASS, "m_angEyeAngles"),
            scoped: schema.field_key(PLAYER_PAWN_CLASS, "m_bIsScoped"),
            weapon_handle: schema.field_key(
                PLAYER_PAWN_CLASS,
                "m_pWeaponServices.m_hActiveWeapon",
            ),
        }
    }
}

/// The weapon that a pawn holds, if its class is known.
pub open spec fn held_weapon(schema: Schema, lens: Lens, sk: ShotKeys, f: Frame, pawn: Entity) -> Option<
    Entity,
> {
    match lens.linked(f.entities@, pawn.handle_at(sk.weapon_handle)) {
        Some(w) => if schema.serializer_of(w.class_name@) is Some {
            Some(w)
        } else {
            None
        },
        None => None,
    }
}

/// A shot with its shooter and the weapon fired, as the entities of its tick show
/// them. View angles and scope are read off whatever the event's handle points at.
pub open spec fn shot_filled(
    s: Shot<Seq<char>>,
    schema: Schema,
    e: GameEvent,
    f: Frame,
    lens: Lens,
    sk: ShotKeys,
    clans: Map<i64, Seq<char>>,
) -> Shot<Seq<char>> {
    let handle = keys::key_i64(e.keys@, "userid_pawn"@);
    let player = lens.player_of_handle(f.entities@, handle, clans);
    let who = Shot {
        steamid: player.steamid,
        name: player.name,
        side: player.side,
        x: player.x,
        y: player.y,
        z: player.z,
        team_clan_name: player.team_clan_name,
        cash_spent_this_round: player.cash_spent_this_round,
        ..s
    };
    match lens.at(f.entities@, handle as u32) {
        None => who,
        Some(pawn) => {
            let aimed = Shot {
                pitch: Some(pawn.angles_at(sk.angles).x),
                yaw: Some(pawn.angles_at(sk.angles).y),
                scoped: Some(pawn.bool_at(sk.scoped)),
                ..who
            };
            match held_weapon(schema, lens, sk, f, pawn) {
                None => aimed,
                Some(w) => Shot {
                    num_bullets_remaining: Some(
                        w.i64_at(schema.key_of(w.class_name@, "m_iClip1"@)) as i32,
                    ),
                    inaccuracy: Some(
                        w.real_at(schema.key_of(w.class_name@, "m_fAccuracyPenalty"@)),
                    ),
                    ..aimed
                },
            }
        },
    }
}

/// A shot by the event's own fields.
pub open spec fn shot_fields(e: GameEvent) -> Shot<Seq<char>> {
    Shot {
        tick: e.tick,
        round_num: None,
        steamid: None,
        name: None,
        side: None,
        x: None,
        y: None,
        z: None,
        team_clan_name: None,
        cash_spent_this_round: None,
        pitch: None,
        yaw: None,
        weapon: keys::key_string(e.keys@, "weapon"@),
        scoped: None,
        inaccuracy: None,
        num_bullets_remaining: None,
    }
}

/// The shot that an event tells of, if it is a `weapon_fire`.
pub open spec fn shot_of(
    schema: Schema,
    lens: Lens,
    f: Frame,
    clans: Map<i64, Seq<char>>,
    e: GameEvent,
) -> Option<Shot<Seq<char>>> {
    if e.name@ == "weapon_fire"@ {
        Some(shot_filled(shot_fields(e), schema, e, f, lens, ShotKeys::of(schema), clans))
    } else {
        None
    }
}

/// Fill a shot from the event and the entities of its tick: the shooter, the pawn's
/// angles and scope, and the clip and accuracy penalty of the weapon it holds.
pub fn fill_shot(
    shot: &mut Shot,
    schema: &Schema,
    e: &GameEvent,
    f: &Frame,
    lens: &Lens,
    sk: &ShotKeys,
    clans: &HashMap<i64, String>,
)
    ensures
        final(shot)@ == shot_filled(
            old(shot)@,
            *schema,
            *e,
            *f,
            *lens,
            *sk,
            resolve::clan_names(clans@),
        ),
{
    let k = Keys(&e.keys);
    let handle = k.i64("userid_pawn");
    let player = lens.resolve_player(f, handle, clans);
    shot.steamid = player.steamid;
    shot.name = player.name;
    shot.side = player.side;
    shot.x = player.x;
    shot.y = player.y;
    shot.z = player.z;
    shot.team_clan_name = player.team_clan_name;
    shot.cash_spent_this_round = player.cash_spent_this_round;

    let low: u32 = #[verifier::truncate]
    (handle as u32);
    if let Some(pawn) = f.get_by_handle(lens.scope, lens.names, low) {
        let angles = pawn.get_qangle(sk.angles);
        shot.pitch = Some(angles.x);
        shot.yaw = Some(angles.y);
        shot.scoped = Some(pawn.get_bool(sk.scoped));
        if let Some(weapon) = lens.follow(f, pawn.get_handle(sk.weapon_handle)) {
            if let Some(ser) = schema.serializer(weapon.class_name.as_str()) {
                let clip = ser.resolve_field_key("m_iClip1");
                let penalty = ser.resolve_field_key("m_fAccuracyPenalty");
                shot.num_bullets_remaining = Some(
                    #[verifier::truncate]
                    (weapon.get_i64(clip) as i32),
                );
                shot.inaccuracy = Some(weapon.get_real(penalty));
            }
        }
    }
}

/// The shot that a `weapon_fire` event tells of.
pub fn take_shot(
    schema: &Schema,
    lens: &Lens,
    sk: &ShotKeys,
    f: &Frame,
    clans: &HashMap<i64, String>,
    e: &GameEvent,
) -> (shot: Shot)
    requires
        e.name@ == "weapon_fire"@,
        *sk == ShotKeys::of(*schema),
    ensures
        shot_of(*schema, *lens, *f, resolve::clan_names(clans@), *e) == Some(shot@),
{
    let mut shot = Shot {
        tick: e.tick,
        round_num: None,
        steamid: None,
        name: None,
        side: None,
        x: None,
        y: None,
        z: None,
        team_clan_name: None,
        cash_spent_this_round: None,
        pitch: None,
        yaw: None,
        weapon: Keys(&e.keys).string("weapon"),
        scoped: None,
        inaccuracy: None,
        num_bullets_remaining: None,
    };
    fill_shot(&mut shot, schema, e, f, lens, sk, clans);
    shot
}

} // verus!
