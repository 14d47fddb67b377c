//! Kills: one row per `player_death` event.
use crate::demo::{Frame, GameEvent};
use crate::float::Float;
use crate::keys;
use crate::keys::Keys;
use crate::names::Names;
use crate::resolve;
use crate::resolve::{Lens, ResolvedPlayer};
use crate::text;
use std::collections::HashMap;
use vstd::prelude::*;

verus! {

broadcast use vstd::string::group_string_axioms;

/// User id that means "no such player", such as no assister.
pub const NO_USER_ID: i32 = 65535;

/// A single kill, from a `player_death` game event, enriched with each resolved
/// participant at the kill tick: attacker, victim and assister.
///
/// A participant's fields are all `None` when that participant is absent (no
/// assister) or could not be resolved from entity state (a world kill).
#[derive(Clone, Debug, Default)]
pub struct Kill<T = String> {
    pub tick: i32,
    /// 1-indexed round this kill occurred in: the round whose anchor is the latest
    /// one at or before this kill's tick. `None` before any round has started.
    pub round_num: Option<i32>,
    pub attacker_steamid: Option<u64>,
    pub attacker_name: Option<T>,
    pub attacker_side: Option<T>,
    pub attacker_x: Option<Float>,
    pub attacker_y: Option<Float>,
    pub attacker_z: Option<Float>,
    pub attacker_team_clan_name: Option<T>,
    pub attacker_cash_spent_this_round: Option<i32>,
    pub victim_steamid: Option<u64>,
    pub victim_name: Option<T>,
    pub victim_side: Option<T>,
    pub victim_x: Option<Float>,
    pub victim_y: Option<Float>,
    pub victim_z: Option<Float>,
    pub victim_team_clan_name: Option<T>,
    pub victim_cash_spent_this_round: Option<i32>,
    pub assister_steamid: Option<u64>,
    pub assister_name: Option<T>,
    pub assister_side: Option<T>,
    pub assister_x: Option<Float>,
    pub assister_y: Option<Float>,
    pub assister_z: Option<Float>,
    pub assister_team_clan_name: Option<T>,
    pub assister_cash_spent_this_round: Option<i32>,
    pub weapon: T,
    pub headshot: bool,
    /// Whether the assist was a flash assist (assister blinded the victim).
    pub assist_flash: bool,
    pub dominated: i32,
    pub noscope: bool,
    pub penetrated: i32,
    pub revenge: i32,
    pub thrusmoke: bool,
    /// Whether the attacker was blinded at the moment of the kill.
    pub attacker_blind: bool,
    /// Whether the attacker was airborne at the moment of the kill.
    pub attacker_in_air: bool,
    /// Distance between attacker and victim in meters, as the server reports it.
    pub distance: Float,
    pub hitgroup: i32,
    pub hitgroup_name: T,
    /// Whether this kill is a trade: the attacker killed someone who had just
    /// killed one of the attacker's teammates.
    pub is_trade: bool,
    /// Whether this kill's victim was traded: a teammate of the victim killed this
    /// attacker within the trade window.
    pub victim_traded: bool,
}

impl View for Kill {
    type V = Kill<Seq<char>>;

    open spec fn view(&self) -> Kill<Seq<char>> {
        Kill {
            tick: self.tick,
            round_num: self.round_num,
            attacker_steamid: self.attacker_steamid,
            attacker_name: text::of(self.attacker_name),
            attacker_side: text::of(self.attacker_side),
            attacker_x: self.attacker_x,
            attacker_y: self.attacker_y,
            attacker_z: self.attacker_z,
            attacker_team_clan_name: text::of(self.attacker_team_clan_name),
            attacker_cash_spent_this_round: self.attacker_cash_spent_this_round,
            victim_steamid: self.victim_steamid,
            victim_name: text::of(self.victim_name),
            victim_side: text::of(self.victim_side),
            victim_x: self.victim_x,
            victim_y: self.victim_y,
            victim_z: self.victim_z,
            victim_team_clan_name: text::of(self.victim_team_clan_name),
            victim_cash_spent_this_round: self.victim_cash_spent_this_round,
            assister_steamid: self.assister_steamid,
            assister_name: text::of(self.assister_name),
            assister_side: text::of(self.assister_side),
            assister_x: self.assister_x,
            assister_y: self.assister_y,
            assister_z: self.assister_z,
            assister_team_clan_name: text::of(self.assister_team_clan_name),
            assister_cash_spent_this_round: self.assister_cash_spent_this_round,
            weapon: self.weapon@,
            headshot: self.headshot,
            assist_flash: self.assist_flash,
            dominated: self.dominated,
            noscope: self.noscope,
            penetrated: self.penetrated,
            revenge: self.revenge,
            thrusmoke: self.thrusmoke,
            attacker_blind: self.attacker_blind,
            attacker_in_air: self.attacker_in_air,
            distance: self.distance,
            hitgroup: self.hitgroup,
            hitgroup_name: self.hitgroup_name@,
            is_trade: self.is_trade,
            victim_traded: self.victim_traded,
        }
    }
}

/// A kill by the event's own fields, with no participant resolved.
pub open spec fn kill_fields(e: GameEvent, names: Names) -> Kill<Seq<char>> {
    let hitgroup = keys::key_i32(e.keys@, "hitgroup"@);
    Kill {
        tick: e.tick,
        round_num: None,
        attacker_steamid: None,
        attacker_name: None,
        attacker_side: None,
        attacker_x: None,
        attacker_y: None,
        attacker_z: None,
        attacker_team_clan_name: None,
        attacker_cash_spent_this_round: None,
        victim_steamid: None,
        victim_name: None,
        victim_side: None,
        victim_x: None,
        victim_y: None,
        victim_z: None,
        victim_team_clan_name: None,
        victim_cash_spent_this_round: None,
        assister_steamid: None,
        assister_name: None,
        assister_side: None,
        assister_x: None,
        assister_y: None,
        assister_z: None,
        assister_team_clan_name: None,
        assister_cash_spent_this_round: None,
        weapon: keys::key_string(e.keys@, "weapon"@),
        headshot: keys::key_bool(e.keys@, "headshot"@),
        assist_flash: keys::key_bool(e.keys@, "assistedflash"@),
        dominated: keys::key_i32(e.keys@, "dominated"@),
        noscope: keys::key_bool(e.keys@, "noscope"@),
        penetrated: keys::key_i32(e.keys@, "penetrated"@),
        revenge: keys::key_i32(e.keys@, "revenge"@),
        thrusmoke: keys::key_bool(e.keys@, "thrusmoke"@),
        attacker_blind: keys::key_bool(e.keys@, "attackerblind"@),
        attacker_in_air: keys::key_bool(e.keys@, "attackerinair"@),
        distance: match keys::key_number(e.keys@, "distance"@) {
            Some(d) => d,
            None => Float { bits: 0 },
        },
        hitgroup,
        hitgroup_name: names.hitgroups.name(hitgroup as i64),
        is_trade: false,
        victim_traded: false,
    }
}

/// A kill with its participants.
pub open spec fn kill_with(
    k: Kill<Seq<char>>,
    attacker: ResolvedPlayer<Seq<char>>,
    victim: ResolvedPlayer<Seq<char>>,
    assister: ResolvedPlayer<Seq<char>>,
) -> Kill<Seq<char>> {
    Kill {
        attacker_steamid: attacker.steamid,
        attacker_name: attacker.name,
        attacker_side: attacker.side,
        attacker_x: attacker.x,
        attacker_y: attacker.y,
        attacker_z: attacker.z,
        attacker_team_clan_name: attacker.team_clan_name,
        attacker_cash_spent_this_round: attacker.cash_spent_this_round,
        victim_steamid: victim.steamid,
        victim_name: victim.name,
        victim_side: victim.side,
        victim_x: victim.x,
        victim_y: victim.y,
        victim_z: victim.z,
        victim_team_clan_name: victim.team_clan_name,
        victim_cash_spent_this_round: victim.cash_spent_this_round,
        assister_steamid: assister.steamid,
        assister_name: assister.name,
        assister_side: assister.side,
        assister_x: assister.x,
        assister_y: assister.y,
        assister_z: assister.z,
        assister_team_clan_name: assister.team_clan_name,
        assister_cash_spent_this_round: assister.cash_spent_this_round,
        ..k
    }
}

/// The participants of a kill, as the entities of its tick show them.
pub open spec fn kill_filled(
    k: Kill<Seq<char>>,
    e: GameEvent,
    f: Frame,
    lens: Lens,
    clans: Map<i64, Seq<char>>,
) -> Kill<Seq<char>> {
    kill_with(
        k,
        lens.player_of_handle(f.entities@, keys::key_i64(e.keys@, "attacker_pawn"@), clans),
        lens.player_of_handle(f.entities@, keys::key_i64(e.keys@, "userid_pawn"@), clans),
        if keys::key_i32(e.keys@, "assister"@) == NO_USER_ID {
            resolve::no_player()
        } else {
            lens.player_of_handle(f.entities@, keys::key_i64(e.keys@, "assister_pawn"@), clans)
        },
    )
}

/// The kill that an event tells of, if it is a `player_death`.
pub open spec fn kill_of(
    lens: Lens,
    f: Frame,
    clans: Map<i64, Seq<char>>,
    e: GameEvent,
) -> Option<Kill<Seq<char>>> {
    if e.name@ == "player_death"@ {
        Some(kill_filled(kill_fields(e, *lens.names), e, f, lens, clans))
    } else {
        None
    }
}

/// Build a kill from a `player_death` event's own fields, with the participants left
/// unresolved.
pub fn kill_event_fields(e: &GameEvent, names: &Names) -> (kill: Kill)
    ensures
        kill@ == kill_fields(*e, *names),
{
    let k = Keys(&e.keys);
    let hitgroup = k.i32("hitgroup");
    Kill {
        tick: e.tick,
        round_num: None,
        attacker_steamid: None,
        attacker_name: None,
        attacker_side: None,
        attacker_x: None,
        attacker_y: None,
        attacker_z: None,
        attacker_team_clan_name: None,
        attacker_cash_spent_this_round: None,
        victim_steamid: None,
        victim_name: None,
        victim_side: None,
        victim_x: None,
        victim_y: None,
        victim_z: None,
        victim_team_clan_name: None,
        victim_cash_spent_this_round: None,
        assister_steamid: None,
        assister_name: None,
        assister_side: None,
        assister_x: None,
        assister_y: None,
        assister_z: None,
        assister_team_clan_name: None,
        assister_cash_spent_this_round: None,
        weapon: k.string("weapon"),
        headshot: k.bool("headshot"),
        assist_flash: k.bool("assistedflash"),
        dominated: k.i32("dominated"),
        noscope: k.bool("noscope"),
        penetrated: k.i32("penetrated"),
        revenge: k.i32("revenge"),
        thrusmoke: k.bool("thrusmoke"),
        attacker_blind: k.bool("attackerblind"),
        attacker_in_air: k.bool("attackerinair"),
        distance: match k.number("distance") {
            Some(d) => d,
            None => Float::zero(),
        },
        hitgroup,
        hitgroup_name: names.hitgroups.name_of(hitgroup as i64),
        is_trade: false,
        victim_traded: false,
    }
}

/// Fill a kill's participants from the event and the entities of its tick.
pub fn fill_kill(
    kill: &mut Kill,
    e: &GameEvent,
    f: &Frame,
    lens: &Lens,
    clans: &HashMap<i64, String>,
)
    ensures
        final(kill)@ == kill_filled(old(kill)@, *e, *f, *lens, resolve::clan_names(clans@)),
{
    let k = Keys(&e.keys);
    let attacker = lens.resolve_player(f, k.i64("attacker_pawn"), clans);
    let victim = lens.resolve_player(f, k.i64("userid_pawn"), clans);
    let assister = if k.i32("assister") == NO_USER_ID {
        ResolvedPlayer::nobody()
    } else {
        lens.resolve_player(f, k.i64("assister_pawn"), clans)
    };
    attacker.assign_to(
        &mut kill.attacker_steamid,
        &mut kill.attacker_name,
        &mut kill.attacker_side,
        &mut kill.attacker_x,
        &mut kill.attacker_y,
        &mut kill.attacker_z,
        &mut kill.attacker_team_clan_name,
        &mut kill.attacker_cash_spent_this_round,
    );
    victim.assign_to(
        &mut kill.victim_steamid,
        &mut kill.victim_name,
        &mut kill.victim_side,
        &mut kill.victim_x,
        &mut kill.victim_y,
        &mut kill.victim_z,
        &mut kill.victim_team_clan_name,
        &mut kill.victim_cash_spent_this_round,
    );
    assister.assign_to(
        &mut kill.assister_steamid,
        &mut kill.assister_name,
        &mut kill.assister_side,
        &mut kill.assister_x,
        &mut kill.assister_y,
        &mut kill.assister_z,
        &mut kill.assister_team_clan_name,
        &mut kill.assister_cash_spent_this_round,
    );
}

/// What a kill says of its attacker.
pub open spec fn attacker_of(k: Kill<Seq<char>>) -> ResolvedPlayer<Seq<char>> {
    ResolvedPlayer {
        steamid: k.attacker_steamid,
        name: k.attacker_name,
        side: k.attacker_side,
        x: k.attacker_x,
        y: k.attacker_y,
        z: k.attacker_z,
        team_clan_name: k.attacker_team_clan_name,
        cash_spent_this_round: k.attacker_cash_spent_this_round,
    }
}

/// What a kill says of its victim.
pub open spec fn victim_of(k: Kill<Seq<char>>) -> ResolvedPlayer<Seq<char>> {
    ResolvedPlayer {
        steamid: k.victim_steamid,
        name: k.victim_name,
        side: k.victim_side,
        x: k.victim_x,
        y: k.victim_y,
        z: k.victim_z,
        team_clan_name: k.victim_team_clan_name,
        cash_spent_this_round: k.victim_cash_spent_this_round,
    }
}

/// What a kill says of its assister.
pub open spec fn assister_of(k: Kill<Seq<char>>) -> ResolvedPlayer<Seq<char>> {
    ResolvedPlayer {
        steamid: k.assister_steamid,
        name: k.assister_name,
        side: k.assister_side,
        x: k.assister_x,
        y: k.assister_y,
        z: k.assister_z,
        team_clan_name: k.assister_team_clan_name,
        cash_spent_this_round: k.assister_cash_spent_this_round,
    }
}

/// Whoever is absent or cannot be resolved leaves nothing behind: all that a kill says of an
/// assister is empty where there is none, and so is all that it says of a participant whose
/// handle points at no player pawn.
pub proof fn law_absent_participants(
    lens: Lens,
    f: Frame,
    clans: Map<i64, Seq<char>>,
    k: Kill<Seq<char>>,
    e: GameEvent,
)
    ensures
        ({
            let filled = kill_filled(k, e, f, lens, clans);
            let attacker = keys::key_i64(e.keys@, "attacker_pawn"@);
            let victim = keys::key_i64(e.keys@, "userid_pawn"@);
            let assister = keys::key_i64(e.keys@, "assister_pawn"@);
            &&& !lens.finds_pawn(f.entities@, attacker) ==> attacker_of(filled) == resolve::no_player()
            &&& !lens.finds_pawn(f.entities@, victim) ==> victim_of(filled) == resolve::no_player()
            &&& keys::key_i32(e.keys@, "assister"@) == NO_USER_ID || !lens.finds_pawn(
                f.entities@,
                assister,
            ) ==> assister_of(filled) == resolve::no_player()
        }),
{
}

} // verus!
