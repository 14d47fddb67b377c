//! Contracts speak of rows by their views: each field of a view is that field of the row.
use crate::blinds::Blind;
use crate::bomb::BombEvent;
use crate::chat::{ChatMessage, SayText, SayText2};
use crate::damages::Damage;
use crate::demo::DemoError;
use crate::economy::RoundEconomy;
use crate::items::ItemEvent;
use crate::kills::Kill;
use crate::parser;
use crate::players::Player;
use crate::projectiles::{Fire, Grenade, GrenadeThrow, Smoke};
use crate::resolve::ResolvedPlayer;
use crate::rounds::Round;
use crate::shots::Shot;
use crate::snapshots::PlayerState;
use crate::text;
use crate::timeouts::Timeout;
use vstd::prelude::*;

verus! {

/// Whether a view of an optional text is there where the text is, and holds its characters.
pub open spec fn tells(text: Option<String>, view: Option<Seq<char>>) -> bool {
    match text {
        Some(s) => view == Some(s@),
        None => view is None,
    }
}

/// The view of rows has one for each of them, in their order. An outcome is viewed by its rows,
/// or is the error that it is.
pub proof fn law_rows_are_as_viewed<T: View>(rows: Seq<T>, r: Result<Vec<T>, DemoError>, k: int)
    ensures
        text::views(rows).len() == rows.len(),
        0 <= k < rows.len() ==> text::views(rows)[k] == rows[k]@,
        match r {
            Ok(v) => parser::rows(r) == Ok::<Seq<T::V>, DemoError>(text::views(v@)),
            Err(e) => parser::rows(r) == Err::<Seq<T::V>, DemoError>(e),
        },
{
}

/// What contracts say of a blind is what its fields hold.
pub proof fn law_blind_is_as_viewed(row: Blind)
    ensures
        row@.tick == row.tick,
        row@.attacker_steamid == row.attacker_steamid,
        tells(row.attacker_name, row@.attacker_name),
        tells(row.attacker_side, row@.attacker_side),
        row@.attacker_x == row.attacker_x,
        row@.attacker_y == row.attacker_y,
        row@.attacker_z == row.attacker_z,
        row@.victim_steamid == row.victim_steamid,
        tells(row.victim_name, row@.victim_name),
        tells(row.victim_side, row@.victim_side),
        row@.victim_x == row.victim_x,
        row@.victim_y == row.victim_y,
        row@.victim_z == row.victim_z,
        row@.duration == row.duration,
        row@.is_teammate == row.is_teammate,
{
}

/// What contracts say of a bomb action is what its fields hold.
pub proof fn law_bomb_event_is_as_viewed(row: BombEvent)
    ensures
        row@.tick == row.tick,
        row@.event == row.event@,
        row@.steamid == row.steamid,
        tells(row.name, row@.name),
        tells(row.bombsite, row@.bombsite),
        row@.x == row.x,
        row@.y == row.y,
        row@.z == row.z,
{
}

/// What contracts say of a chat message is what its fields hold.
pub proof fn law_chat_message_is_as_viewed(row: ChatMessage)
    ensures
        row@.tick == row.tick,
        row@.entity_index == row.entity_index,
        tells(row.name, row@.name),
        row@.message == row.message@,
        tells(row.channel, row@.channel),
{
}

/// What contracts say of a `SayText` message is what its fields hold.
pub proof fn law_say_text_is_as_viewed(row: SayText)
    ensures
        row@.playerindex == row.playerindex,
        tells(row.text, row@.text),
        row@.chat == row.chat,
{
}

/// What contracts say of a `SayText2` message is what its fields hold.
pub proof fn law_say_text2_is_as_viewed(row: SayText2)
    ensures
        row@.entityindex == row.entityindex,
        row@.chat == row.chat,
        tells(row.messagename, row@.messagename),
        tells(row.param1, row@.param1),
        tells(row.param2, row@.param2),
        tells(row.param3, row@.param3),
        tells(row.param4, row@.param4),
{
}

/// What contracts say of a damage instance is what its fields hold.
pub proof fn law_damage_is_as_viewed(row: Damage)
    ensures
        row@.tick == row.tick,
        row@.round_num == row.round_num,
        row@.attacker_steamid == row.attacker_steamid,
        tells(row.attacker_name, row@.attacker_name),
        tells(row.attacker_side, row@.attacker_side),
        row@.attacker_x == row.attacker_x,
        row@.attacker_y == row.attacker_y,
        row@.attacker_z == row.attacker_z,
        tells(row.attacker_team_clan_name, row@.attacker_team_clan_name),
        row@.attacker_cash_spent_this_round == row.attacker_cash_spent_this_round,
        row@.victim_steamid == row.victim_steamid,
        tells(row.victim_name, row@.victim_name),
        tells(row.victim_side, row@.victim_side),
        row@.victim_x == row.victim_x,
        row@.victim_y == row.victim_y,
        row@.victim_z == row.victim_z,
        tells(row.victim_team_clan_name, row@.victim_team_clan_name),
        row@.victim_cash_spent_this_round == row.victim_cash_spent_this_round,
        row@.weapon == row.weapon@,
        row@.dmg_health == row.dmg_health,
        row@.dmg_armor == row.dmg_armor,
        row@.hitgroup == row.hitgroup,
        row@.hitgroup_name == row.hitgroup_name@,
        row@.health_pre == row.health_pre,
        row@.health_post == row.health_post,
        row@.armor_pre == row.armor_pre,
        row@.armor_post == row.armor_post,
        row@.dmg_health_real == row.dmg_health_real,
{
}

/// What contracts say of an economy row is what its fields hold.
pub proof fn law_round_economy_is_as_viewed(row: RoundEconomy)
    ensures
        row@.round_num == row.round_num,
        row@.side == row.side@,
        row@.equipment_value == row.equipment_value,
        row@.buy_type == row.buy_type@,
        row@.n_players == row.n_players,
{
}

/// What contracts say of an item event is what its fields hold.
pub proof fn law_item_event_is_as_viewed(row: ItemEvent)
    ensures
        row@.tick == row.tick,
        row@.action == row.action@,
        row@.steamid == row.steamid,
        tells(row.name, row@.name),
        tells(row.side, row@.side),
        row@.item == row.item@,
        row@.x == row.x,
        row@.y == row.y,
        row@.z == row.z,
        row@.original_owner_steamid == row.original_owner_steamid,
        row@.cost == row.cost,
        row@.near_buy_zone == row.near_buy_zone,
{
}

/// What contracts say of a kill is what its fields hold.
pub proof fn law_kill_is_as_viewed(row: Kill)
    ensures
        row@.tick == row.tick,
        row@.round_num == row.round_num,
        row@.attacker_steamid == row.attacker_steamid,
        tells(row.attacker_name, row@.attacker_name),
        tells(row.attacker_side, row@.attacker_side),
        row@.attacker_x == row.attacker_x,
        row@.attacker_y == row.attacker_y,
        row@.attacker_z == row.attacker_z,
        tells(row.attacker_team_clan_name, row@.attacker_team_clan_name),
        row@.attacker_cash_spent_this_round == row.attacker_cash_spent_this_round,
        row@.victim_steamid == row.victim_steamid,
        tells(row.victim_name, row@.victim_name),
        tells(row.victim_side, row@.victim_side),
        row@.victim_x == row.victim_x,
        row@.victim_y == row.victim_y,
        row@.victim_z == row.victim_z,
        tells(row.victim_team_clan_name, row@.victim_team_clan_name),
        row@.victim_cash_spent_this_round == row.victim_cash_spent_this_round,
        row@.assister_steamid == row.assister_steamid,
        tells(row.assister_name, row@.assister_name),
        tells(row.assister_side, row@.assister_side),
        row@.assister_x == row.assister_x,
        row@.assister_y == row.assister_y,
        row@.assister_z == row.assister_z,
        tells(row.assister_team_clan_name, row@.assister_team_clan_name),
        row@.assister_cash_spent_this_round == row.assister_cash_spent_this_round,
        row@.weapon == row.weapon@,
        row@.headshot == row.headshot,
        row@.assist_flash == row.assist_flash,
        row@.dominated == row.dominated,
        row@.noscope == row.noscope,
        row@.penetrated == row.penetrated,
        row@.revenge == row.revenge,
        row@.thrusmoke == row.thrusmoke,
        row@.attacker_blind == row.attacker_blind,
        row@.attacker_in_air == row.attacker_in_air,
        row@.distance == row.distance,
        row@.hitgroup == row.hitgroup,
        row@.hitgroup_name == row.hitgroup_name@,
        row@.is_trade == row.is_trade,
        row@.victim_traded == row.victim_traded,
{
}

/// What contracts say of a player is what its fields hold.
pub proof fn law_player_is_as_viewed(row: Player)
    ensures
        row@.steamid == row.steamid,
        tells(row.name, row@.name),
        tells(row.side, row@.side),
        tells(row.team_clan_name, row@.team_clan_name),
{
}

/// What contracts say of a grenade sample is what its fields hold.
pub proof fn law_grenade_is_as_viewed(row: Grenade)
    ensures
        row@.tick == row.tick,
        tells(row.thrower_name, row@.thrower_name),
        row@.thrower_steamid == row.thrower_steamid,
        tells(row.thrower_side, row@.thrower_side),
        row@.grenade_type == row.grenade_type@,
        row@.entity_id == row.entity_id,
        row@.x == row.x,
        row@.y == row.y,
        row@.z == row.z,
{
}

/// What contracts say of a grenade throw is what its fields hold.
pub proof fn law_grenade_throw_is_as_viewed(row: GrenadeThrow)
    ensures
        tells(row.thrower_name, row@.thrower_name),
        row@.thrower_steamid == row.thrower_steamid,
        tells(row.thrower_side, row@.thrower_side),
        row@.grenade_type == row.grenade_type@,
        row@.entity_id == row.entity_id,
        row@.throw_tick == row.throw_tick,
        row@.throw_x == row.throw_x,
        row@.throw_y == row.throw_y,
        row@.throw_z == row.throw_z,
        row@.land_tick == row.land_tick,
        row@.land_x == row.land_x,
        row@.land_y == row.land_y,
        row@.land_z == row.land_z,
        row@.land_is_precise == row.land_is_precise,
{
}

/// What contracts say of a fire is what its fields hold.
pub proof fn law_fire_is_as_viewed(row: Fire)
    ensures
        row@.start_tick == row.start_tick,
        row@.end_tick == row.end_tick,
        tells(row.thrower_name, row@.thrower_name),
        row@.thrower_steamid == row.thrower_steamid,
        tells(row.thrower_side, row@.thrower_side),
        row@.fire_type == row.fire_type@,
        row@.entity_id == row.entity_id,
        row@.x == row.x,
        row@.y == row.y,
        row@.z == row.z,
{
}

/// What contracts say of a smoke is what its fields hold.
pub proof fn law_smoke_is_as_viewed(row: Smoke)
    ensures
        row@.start_tick == row.start_tick,
        row@.end_tick == row.end_tick,
        tells(row.thrower_name, row@.thrower_name),
        row@.thrower_steamid == row.thrower_steamid,
        tells(row.thrower_side, row@.thrower_side),
        row@.entity_id == row.entity_id,
        row@.x == row.x,
        row@.y == row.y,
        row@.z == row.z,
{
}

/// What contracts say of a participant is what its fields hold.
pub proof fn law_resolved_player_is_as_viewed(row: ResolvedPlayer)
    ensures
        row@.steamid == row.steamid,
        tells(row.name, row@.name),
        tells(row.side, row@.side),
        row@.x == row.x,
        row@.y == row.y,
        row@.z == row.z,
        tells(row.team_clan_name, row@.team_clan_name),
        row@.cash_spent_this_round == row.cash_spent_this_round,
{
}

/// What contracts say of a round is what its fields hold.
pub proof fn law_round_is_as_viewed(row: Round)
    ensures
        row@.round_num == row.round_num,
        row@.start_tick == row.start_tick,
        row@.freeze_end_tick == row.freeze_end_tick,
        row@.end_tick == row.end_tick,
        row@.official_end_tick == row.official_end_tick,
        row@.winner == row.winner,
        row@.winner_side == row.winner_side@,
        row@.reason == row.reason,
        row@.reason_name == row.reason_name@,
        row@.is_knife_round == row.is_knife_round,
        row@.extended_freeze == row.extended_freeze,
        row@.freeze_ticks == row.freeze_ticks,
{
}

/// What contracts say of a shot is what its fields hold.
pub proof fn law_shot_is_as_viewed(row: Shot)
    ensures
        row@.tick == row.tick,
        row@.round_num == row.round_num,
        row@.steamid == row.steamid,
        tells(row.name, row@.name),
        tells(row.side, row@.side),
        row@.x == row.x,
        row@.y == row.y,
        row@.z == row.z,
        tells(row.team_clan_name, row@.team_clan_name),
        row@.cash_spent_this_round == row.cash_spent_this_round,
        row@.pitch == row.pitch,
        row@.yaw == row.yaw,
        row@.weapon == row.weapon@,
        row@.scoped == row.scoped,
        row@.inaccuracy == row.inaccuracy,
        row@.num_bullets_remaining == row.num_bullets_remaining,
{
}

/// What contracts say of a player state is what its fields hold.
pub proof fn law_player_state_is_as_viewed(row: PlayerState)
    ensures
        row@.tick == row.tick,
        row@.round_num == row.round_num,
        row@.steamid == row.steamid,
        tells(row.name, row@.name),
        tells(row.side, row@.side),
        row@.ping == row.ping,
        row@.x == row.x,
        row@.y == row.y,
        row@.z == row.z,
        tells(row.place, row@.place),
        tells(row.team_clan_name, row@.team_clan_name),
        row@.pitch == row.pitch,
        row@.yaw == row.yaw,
        row@.health == row.health,
        row@.armor == row.armor,
        row@.has_helmet == row.has_helmet,
        row@.has_defuser == row.has_defuser,
        row@.has_bomb == row.has_bomb,
        tells(row.active_weapon, row@.active_weapon),
        tells(row.primary_weapon, row@.primary_weapon),
        tells(row.secondary_weapon, row@.secondary_weapon),
        row@.fire_grenades == row.fire_grenades,
        row@.smoke_grenades == row.smoke_grenades,
        row@.he_grenades == row.he_grenades,
        row@.flashbangs == row.flashbangs,
        row@.decoy_grenades == row.decoy_grenades,
        row@.equipment_value == row.equipment_value,
        row@.equipment_value_round_start == row.equipment_value_round_start,
        row@.money == row.money,
        row@.cash_spent_this_round == row.cash_spent_this_round,
        row@.is_crouched == row.is_crouched,
        row@.is_walking == row.is_walking,
        row@.is_jumping == row.is_jumping,
        row@.is_in_bomb_zone == row.is_in_bomb_zone,
        row@.is_scoped == row.is_scoped,
        row@.is_defusing == row.is_defusing,
        row@.flash_duration == row.flash_duration,
        row@.inventory == row.inventory@,
{
}

/// What contracts say of a timeout is what its fields hold.
pub proof fn law_timeout_is_as_viewed(row: Timeout)
    ensures
        tells(row.side, row@.side),
        row@.kind == row.kind@,
        row@.start_tick == row.start_tick,
        row@.end_tick == row.end_tick,
        row@.remaining_at_start == row.remaining_at_start,
        row@.round_num == row.round_num,
{
}

} // verus!
