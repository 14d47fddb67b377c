//! Who takes part in an event: the player whose pawn a handle points at.
use crate::demo;
use crate::demo::{Entity, Frame, Schema};
use crate::laws::reading;
use crate::laws::states;
use crate::names::{Names, Scope};
use crate::resolve;
use crate::resolve::{Lens, ResolvedPlayer, TeamKeys};
use crate::text;
use vstd::prelude::*;

verus! {

/// The player pawn that a handle points at.
pub open spec fn pawn_of(
    names: Names,
    scope: Scope,
    entities: Seq<Entity>,
    handle: u32,
) -> Option<Entity> {
    match demo::entity_at(entities, scope, names, handle) {
        Some(e) => if text::holds_text(e.class_name@, "PlayerPawn"@) {
            Some(e)
        } else {
            None
        },
        None => None,
    }
}

/// Whether a player is that of a pawn: side and position are those of the pawn, Steam id, name
/// and cash those of its controller. Where it has no controller, nothing is known of that.
pub open spec fn is_player_of(
    schema: Schema,
    names: Names,
    scope: Scope,
    entities: Seq<Entity>,
    pawn: Entity,
    p: ResolvedPlayer<Seq<char>>,
) -> bool {
    let placed = pawn.has(
        states::pawn_key(schema, "CBodyComponent.m_skeletonInstance.m_vecOrigin.m_vecX"@),
    );
    &&& p.side == Some(
        names.teams.name(pawn.i64_at(states::pawn_key(schema, "m_iTeamNum"@))),
    )
    &&& p.x == (if placed {
        Some(pawn.world.x)
    } else {
        None
    })
    &&& p.y == (if placed {
        Some(pawn.world.y)
    } else {
        None
    })
    &&& p.z == (if placed {
        Some(pawn.world.z)
    } else {
        None
    })
    &&& match states::controller_of(schema, names, scope, entities, pawn) {
        Some(c) => {
            &&& p.steamid == c.u64_at(states::controller_key(schema, "m_steamID"@))
            &&& p.name == c.text_at(states::controller_key(schema, "m_iszPlayerName"@))
            &&& p.cash_spent_this_round == Some(
                c.i64_at(
                    states::controller_key(
                        schema,
                        "m_pInGameMoneyServices.m_iCashSpentThisRound"@,
                    ),
                ) as i32,
            )
        },
        None => p.steamid is None && p.name is None && p.cash_spent_this_round is None,
    }
}

/// Whether nothing is known of a player.
pub open spec fn is_nobody(p: ResolvedPlayer<Seq<char>>) -> bool {
    &&& p.steamid is None
    &&& p.name is None
    &&& p.side is None
    &&& p.x is None
    &&& p.y is None
    &&& p.z is None
    &&& p.team_clan_name is None
    &&& p.cash_spent_this_round is None
}

/// Whether a player is the one whose pawn a handle points at; nothing is known where there is
/// no such pawn.
pub open spec fn is_player_at(
    schema: Schema,
    names: Names,
    scope: Scope,
    entities: Seq<Entity>,
    handle: u32,
    p: ResolvedPlayer<Seq<char>>,
) -> bool {
    match pawn_of(names, scope, entities, handle) {
        None => is_nobody(p),
        Some(pawn) => is_player_of(schema, names, scope, entities, pawn, p),
    }
}

/// Whether a player has the clan name that their team has after the first `n` frames.
pub open spec fn is_in_clan(
    schema: Schema,
    names: Names,
    scope: Scope,
    frames: Seq<Frame>,
    n: int,
    handle: u32,
    p: ResolvedPlayer<Seq<char>>,
) -> bool {
    pawn_of(names, scope, frames[n - 1].entities@, handle) matches Some(pawn) ==> reading::is_clan(
        schema,
        frames,
        n,
        pawn.i64_at(states::pawn_key(schema, "m_iTeamNum"@)),
        p.team_clan_name,
    )
}

/// Whoever a handle points at is that player.
pub proof fn law_player_of_handle(
    schema: Schema,
    names: Names,
    scope: Scope,
    entities: Seq<Entity>,
    handle: i64,
    clans: Map<i64, Seq<char>>,
)
    ensures
        is_player_at(
            schema,
            names,
            scope,
            entities,
            handle as u32,
            Lens::of(schema, &names, scope).player_of_handle(entities, handle, clans),
        ),
{
}

/// The player of a pawn is that player.
pub proof fn law_player_of_pawn(
    schema: Schema,
    names: Names,
    scope: Scope,
    entities: Seq<Entity>,
    pawn: Entity,
    clans: Map<i64, Seq<char>>,
)
    ensures
        is_player_of(
            schema,
            names,
            scope,
            entities,
            pawn,
            Lens::of(schema, &names, scope).player_of_pawn(entities, pawn, clans),
        ),
{
}

/// Whoever a handle points at in frame `n - 1` is in the clan that their team has by then.
pub proof fn law_player_in_clan(
    schema: Schema,
    names: Names,
    scope: Scope,
    frames: Seq<Frame>,
    n: int,
    handle: i64,
)
    requires
        0 < n <= frames.len(),
    ensures
        is_in_clan(
            schema,
            names,
            scope,
            frames,
            n,
            handle as u32,
            Lens::of(schema, &names, scope).player_of_handle(
                frames[n - 1].entities@,
                handle,
                resolve::clans_through(TeamKeys::of(schema), frames.take(n)),
            ),
        ),
{
    if let Some(pawn) = pawn_of(names, scope, frames[n - 1].entities@, handle as u32) {
        reading::law_clans_are_named_last(
            schema,
            frames,
            n,
            pawn.i64_at(states::pawn_key(schema, "m_iTeamNum"@)),
        );
    }
}

} // verus!
