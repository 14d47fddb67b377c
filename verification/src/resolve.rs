//! Players as the entities of one tick show them.
use crate::demo;
use crate::demo::{Entity, Frame, Schema, Serializer};
use crate::float::{Float, Vector};
use crate::names::{Names, Scope, PLAYER_CONTROLLER_CLASS, PLAYER_PAWN_CLASS, TEAM_CLASS};
use crate::text;
use crate::text::{contains_text, copy_text};
use std::collections::HashMap;
use vstd::prelude::*;

verus! {

broadcast use {vstd::std_specs::hash::group_hash_axioms, vstd::string::group_string_axioms};

/// A player resolved from entity state at a tick. All fields are `None` when the
/// participant is absent or could not be resolved.
#[derive(Clone, Debug, Default)]
pub struct ResolvedPlayer<T = String> {
    pub steamid: Option<u64>,
    pub name: Option<T>,
    pub side: Option<T>,
    pub x: Option<Float>,
    pub y: Option<Float>,
    pub z: Option<Float>,
    /// Team clan name, from the demo itself.
    pub team_clan_name: Option<T>,
    /// Cash spent so far this round.
    pub cash_spent_this_round: Option<i32>,
}

impl View for ResolvedPlayer {
    type V = ResolvedPlayer<Seq<char>>;

    open spec fn view(&self) -> ResolvedPlayer<Seq<char>> {
        ResolvedPlayer {
            steamid: self.steamid,
            name: text::of(self.name),
            side: text::of(self.side),
            x: self.x,
            y: self.y,
            z: self.z,
            team_clan_name: text::of(self.team_clan_name),
            cash_spent_this_round: self.cash_spent_this_round,
        }
    }
}

/// No player.
pub open spec fn no_player() -> ResolvedPlayer<Seq<char>> {
    ResolvedPlayer {
        steamid: None,
        name: None,
        side: None,
        x: None,
        y: None,
        z: None,
        team_clan_name: None,
        cash_spent_this_round: None,
    }
}

impl ResolvedPlayer {
    /// No player.
    pub fn nobody() -> (p: ResolvedPlayer)
        ensures
            p@ == no_player(),
    {
        ResolvedPlayer {
            steamid: None,
            name: None,
            side: None,
            x: None,
            y: None,
            z: None,
            team_clan_name: None,
            cash_spent_this_round: None,
        }
    }

    /// A copy of the player.
    pub fn copy(&self) -> (p: ResolvedPlayer)
        ensures
            p == *self,
    {
        ResolvedPlayer {
            steamid: self.steamid,
            name: copy_text(&self.name),
            side: copy_text(&self.side),
            x: self.x,
            y: self.y,
            z: self.z,
            team_clan_name: copy_text(&self.team_clan_name),
            cash_spent_this_round: self.cash_spent_this_round,
        }
    }

    /// Move the resolved fields into a row's fields.
    pub fn assign_to(
        self,
        steamid: &mut Option<u64>,
        name: &mut Option<String>,
        side: &mut Option<String>,
        x: &mut Option<Float>,
        y: &mut Option<Float>,
        z: &mut Option<Float>,
        team_clan_name: &mut Option<String>,
        cash_spent_this_round: &mut Option<i32>,
    )
        ensures
            *final(steamid) == self.steamid,
            *final(name) == self.name,
            *final(side) == self.side,
            *final(x) == self.x,
            *final(y) == self.y,
            *final(z) == self.z,
            *final(team_clan_name) == self.team_clan_name,
            *final(cash_spent_this_round) == self.cash_spent_this_round,
    {
        *steamid = self.steamid;
        *name = self.name;
        *side = self.side;
        *x = self.x;
        *y = self.y;
        *z = self.z;
        *team_clan_name = self.team_clan_name;
        *cash_spent_this_round = self.cash_spent_this_round;
    }
}

/// A coordinate as it is networked: a cell and an offset within it.
#[derive(Clone, Copy, Debug, PartialEq, Eq, Structural)]
pub struct Coordinate {
    pub cell: i32,
    pub offset: Float,
}

/// Cell and in-cell-offset field keys of an entity's networked world position: any
/// entity with the standard body component has one.
#[derive(Clone, Copy, Debug)]
pub struct PositionKeys {
    pub cell_x: Option<u64>,
    pub cell_y: Option<u64>,
    pub cell_z: Option<u64>,
    pub offset_x: Option<u64>,
    pub offset_y: Option<u64>,
    pub offset_z: Option<u64>,
}

impl PositionKeys {
    pub open spec fn of(ser: Serializer) -> PositionKeys {
        PositionKeys {
            cell_x: ser.key_of("CBodyComponent.m_skeletonInstance.m_vecOrigin.m_cellX"@),
            cell_y: ser.key_of("CBodyComponent.m_skeletonInstance.m_vecOrigin.m_cellY"@),
            cell_z: ser.key_of("CBodyComponent.m_skeletonInstance.m_vecOrigin.m_cellZ"@),
            offset_x: ser.key_of("CBodyComponent.m_skeletonInstance.m_vecOrigin.m_vecX"@),
            offset_y: ser.key_of("CBodyComponent.m_skeletonInstance.m_vecOrigin.m_vecY"@),
            offset_z: ser.key_of("CBodyComponent.m_skeletonInstance.m_vecOrigin.m_vecZ"@),
        }
    }

    /// The keys of a class without fields.
    pub open spec fn absent() -> PositionKeys {
        PositionKeys {
            cell_x: None,
            cell_y: None,
            cell_z: None,
            offset_x: None,
            offset_y: None,
            offset_z: None,
        }
    }

    pub open spec fn in_class(schema: Schema, class: Seq<char>) -> PositionKeys {
        match schema.serializer_of(class) {
            Some(ser) => PositionKeys::of(ser),
            None => PositionKeys::absent(),
        }
    }

    /// The world position of an entity, if its origin is set.
    pub open spec fn position(self, e: Entity) -> Option<Vector> {
        if e.has(self.offset_x) {
            Some(e.world)
        } else {
            None
        }
    }

    pub fn resolve(ser: &Serializer) -> (keys: PositionKeys)
        ensures
            keys == PositionKeys::of(*ser),
    {
        PositionKeys {
            cell_x: ser.resolve_field_key("CBodyComponent.m_skeletonInstance.m_vecOrigin.m_cellX"),
            cell_y: ser.resolve_field_key("CBodyComponent.m_skeletonInstance.m_vecOrigin.m_cellY"),
            cell_z: ser.resolve_field_key("CBodyComponent.m_skeletonInstance.m_vecOrigin.m_cellZ"),
            offset_x: ser.resolve_field_key("CBodyComponent.m_skeletonInstance.m_vecOrigin.m_vecX"),
            offset_y: ser.resolve_field_key("CBodyComponent.m_skeletonInstance.m_vecOrigin.m_vecY"),
            offset_z: ser.resolve_field_key("CBodyComponent.m_skeletonInstance.m_vecOrigin.m_vecZ"),
        }
    }

    /// The keys in a class, all unknown if the class is.
    pub fn resolve_in(schema: &Schema, class: &str) -> (keys: PositionKeys)
        ensures
            keys == PositionKeys::in_class(*schema, class@),
    {
        match schema.serializer(class) {
            Some(ser) => PositionKeys::resolve(ser),
            None => PositionKeys {
                cell_x: None,
                cell_y: None,
                cell_z: None,
                offset_x: None,
                offset_y: None,
                offset_z: None,
            },
        }
    }

    /// World position, or `None` if the entity has no origin set.
    pub fn world(&self, e: &Entity) -> (p: Option<Vector>)
        ensures
            p == self.position(*e),
    {
        if e.contains(self.offset_x) {
            Some(e.world)
        } else {
            None
        }
    }

    /// The networked coordinates that an entity's world position is computed of.
    pub fn coordinates(&self, e: &Entity) -> (c: (Coordinate, Coordinate, Coordinate))
        ensures
            c.0 == (Coordinate { cell: e.i64_at(self.cell_x) as i32, offset: e.real_at(self.offset_x) }),
            c.1 == (Coordinate { cell: e.i64_at(self.cell_y) as i32, offset: e.real_at(self.offset_y) }),
            c.2 == (Coordinate { cell: e.i64_at(self.cell_z) as i32, offset: e.real_at(self.offset_z) }),
    {
        (
            Coordinate {
                cell: #[verifier::truncate]
                (e.get_i64(self.cell_x) as i32),
                offset: e.get_real(self.offset_x),
            },
            Coordinate {
                cell: #[verifier::truncate]
                (e.get_i64(self.cell_y) as i32),
                offset: e.get_real(self.offset_y),
            },
            Coordinate {
                cell: #[verifier::truncate]
                (e.get_i64(self.cell_z) as i32),
                offset: e.get_real(self.offset_z),
            },
        )
    }
}

/// Field keys of a player pawn.
#[derive(Clone, Copy, Debug)]
pub struct PawnKeys {
    pub origin: PositionKeys,
    pub team: Option<u64>,
    pub controller: Option<u64>,
}

impl PawnKeys {
    pub open spec fn of(schema: Schema) -> PawnKeys {
        PawnKeys {
            origin: PositionKeys::in_class(schema, PLAYER_PAWN_CLASS@),
            team: schema.key_of(PLAYER_PAWN_CLASS@, "m_iTeamNum"@),
            controller: schema.key_of(PLAYER_PAWN_CLASS@, "m_hController"@),
        }
    }

    pub fn resolve(schema: &Schema) -> (keys: PawnKeys)
        ensures
            keys == PawnKeys::of(*schema),
    {
        PawnKeys {
            origin: PositionKeys::resolve_in(schema, PLAYER_PAWN_CLASS),
            team: schema.field_key(PLAYER_PAWN_CLASS, "m_iTeamNum"),
            controller: schema.field_key(PLAYER_PAWN_CLASS, "m_hController"),
        }
    }
}

/// Field keys of a player controller.
#[derive(Clone, Copy, Debug)]
pub struct CtrlKeys {
    pub steamid: Option<u64>,
    pub name: Option<u64>,
    pub money: Option<u64>,
    /// Cash spent so far this round.
    pub cash_spent_this_round: Option<u64>,
}

impl CtrlKeys {
    pub open spec fn of(schema: Schema) -> CtrlKeys {
        CtrlKeys {
            steamid: schema.key_of(PLAYER_CONTROLLER_CLASS@, "m_steamID"@),
            name: schema.key_of(PLAYER_CONTROLLER_CLASS@, "m_iszPlayerName"@),
            money: schema.key_of(PLAYER_CONTROLLER_CLASS@, "m_pInGameMoneyServices.m_iAccount"@),
            cash_spent_this_round: schema.key_of(
                PLAYER_CONTROLLER_CLASS@,
                "m_pInGameMoneyServices.m_iCashSpentThisRound"@,
            ),
        }
    }

    pub fn resolve(schema: &Schema) -> (keys: CtrlKeys)
        ensures
            keys == CtrlKeys::of(*schema),
    {
        CtrlKeys {
            steamid: schema.field_key(PLAYER_CONTROLLER_CLASS, "m_steamID"),
            name: schema.field_key(PLAYER_CONTROLLER_CLASS, "m_iszPlayerName"),
            money: schema.field_key(PLAYER_CONTROLLER_CLASS, "m_pInGameMoneyServices.m_iAccount"),
            cash_spent_this_round: schema.field_key(
                PLAYER_CONTROLLER_CLASS,
                "m_pInGameMoneyServices.m_iCashSpentThisRound",
            ),
        }
    }
}

/// Field keys of a team.
#[derive(Clone, Copy, Debug)]
pub struct TeamKeys {
    pub team_num: Option<u64>,
    pub clan: Option<u64>,
}

impl TeamKeys {
    pub open spec fn of(schema: Schema) -> TeamKeys {
        TeamKeys {
            team_num: schema.key_of(TEAM_CLASS@, "m_iTeamNum"@),
            clan: schema.key_of(TEAM_CLASS@, "m_szClanTeamname"@),
        }
    }

    pub fn resolve(schema: &Schema) -> (keys: TeamKeys)
        ensures
            keys == TeamKeys::of(*schema),
    {
        TeamKeys {
            team_num: schema.field_key(TEAM_CLASS, "m_iTeamNum"),
            clan: schema.field_key(TEAM_CLASS, "m_szClanTeamname"),
        }
    }
}

/// Clan names by team number, as characters.
pub open spec fn clan_names(clans: Map<i64, String>) -> Map<i64, Seq<char>> {
    clans.map_values(|s: String| s@)
}

/// The clan name of a team.
pub open spec fn clan_of(clans: Map<i64, Seq<char>>, team: i64) -> Option<Seq<char>> {
    if clans.contains_key(team) {
        Some(clans[team])
    } else {
        None
    }
}

/// The clan name of a team.
pub fn clan_name(clans: &HashMap<i64, String>, team: i64) -> (name: Option<String>)
    ensures
        text::of(name) == clan_of(clan_names(clans@), team),
{
    match clans.get(&team) {
        Some(s) => Some(s.clone()),
        None => None,
    }
}

/// What one entity tells of clan names: the name of a playing side's team, unless
/// it is empty.
pub open spec fn clans_step(
    clans: Map<i64, Seq<char>>,
    tk: TeamKeys,
    e: Entity,
) -> Map<i64, Seq<char>> {
    if e.active && e.class_name@ == TEAM_CLASS@ && e.i64_at(tk.team_num) > 1 {
        match e.text_at(tk.clan) {
            Some(clan) => if clan.len() > 0 {
                clans.insert(e.i64_at(tk.team_num), clan)
            } else {
                clans
            },
            None => clans,
        }
    } else {
        clans
    }
}

/// Clan names once the entities of a tick are looked at. A name that was learned
/// stays until the team has another.
pub open spec fn clans_after(
    clans: Map<i64, Seq<char>>,
    tk: TeamKeys,
    entities: Seq<Entity>,
) -> Map<i64, Seq<char>>
    decreases entities.len(),
{
    if entities.len() == 0 {
        clans
    } else {
        clans_step(clans_after(clans, tk, entities.drop_last()), tk, entities.last())
    }
}

/// Clan names after a run of ticks.
pub open spec fn clans_through(tk: TeamKeys, frames: Seq<Frame>) -> Map<i64, Seq<char>>
    decreases frames.len(),
{
    if frames.len() == 0 {
        Map::empty()
    } else {
        clans_after(clans_through(tk, frames.drop_last()), tk, frames.last().entities@)
    }
}

/// Take in the clan names that a tick's team entities carry.
///
/// An empty string means the server has not named the team yet; an existing entry
/// stays rather than being blanked.
pub fn update_clans(f: &Frame, tk: &TeamKeys, clans: &mut HashMap<i64, String>)
    ensures
        clan_names(final(clans)@) == clans_after(clan_names(old(clans)@), *tk, f.entities@),
{
    let n: usize = f.entities.len();
    let ghost before = clan_names(clans@);
    let mut i: usize = 0;
    assert(f.entities@.take(0) =~= Seq::<Entity>::empty());
    while i < n
        invariant
            i <= n,
            n == f.entities@.len(),
            clan_names(clans@) == clans_after(before, *tk, f.entities@.take(i as int)),
        decreases n - i,
    {
        let e = &f.entities[i];
        let ghost was = clans@;
        assert(f.entities@.take(i + 1).drop_last() =~= f.entities@.take(i as int));
        if e.active && e.is_a(TEAM_CLASS) {
            let team = e.get_i64(tk.team_num);
            if team > 1 {
                if let Some(clan) = e.get_string(tk.clan) {
                    if !clan.as_str().is_empty() {
                        clans.insert(team, clan);
                        assert(clan_names(clans@) =~= clan_names(was).insert(team, clan@));
                    }
                }
            }
        }
        i = i + 1;
    }
    assert(f.entities@.take(n as int) =~= f.entities@);
}

/// How a pass looks at players: the classes it decodes, the name tables and the keys
/// of the player fields.
#[derive(Clone, Copy, Debug)]
pub struct Lens<'a> {
    pub scope: Scope,
    pub names: &'a Names,
    pub pawn: PawnKeys,
    pub ctrl: CtrlKeys,
}

impl<'a> Lens<'a> {
    pub open spec fn of(schema: Schema, names: &'a Names, scope: Scope) -> Lens<'a> {
        Lens { scope, names, pawn: PawnKeys::of(schema), ctrl: CtrlKeys::of(schema) }
    }

    pub fn new(schema: &Schema, names: &'a Names, scope: Scope) -> (lens: Lens<'a>)
        ensures
            lens == Lens::of(*schema, names, scope),
    {
        Lens { scope, names, pawn: PawnKeys::resolve(schema), ctrl: CtrlKeys::resolve(schema) }
    }

    /// The entity that a handle points at.
    pub open spec fn at(self, entities: Seq<Entity>, handle: u32) -> Option<Entity> {
        demo::entity_at(entities, self.scope, *self.names, handle)
    }

    /// The entity that an optional handle points at.
    pub open spec fn linked(self, entities: Seq<Entity>, handle: Option<u32>) -> Option<Entity> {
        demo::linked(entities, self.scope, *self.names, handle)
    }

    /// The controller that a pawn points at.
    pub open spec fn controller(self, entities: Seq<Entity>, pawn: Entity) -> Option<Entity> {
        self.linked(entities, pawn.handle_at(self.pawn.controller))
    }

    /// A participant, from a player pawn: side and position off the pawn, Steam id and
    /// name off the controller that the pawn points at.
    pub open spec fn player_of_pawn(
        self,
        entities: Seq<Entity>,
        pawn: Entity,
        clans: Map<i64, Seq<char>>,
    ) -> ResolvedPlayer<Seq<char>> {
        let team = pawn.i64_at(self.pawn.team);
        let place = self.pawn.origin.position(pawn);
        let controller = self.controller(entities, pawn);
        ResolvedPlayer {
            steamid: match controller {
                Some(c) => c.u64_at(self.ctrl.steamid),
                None => None,
            },
            name: match controller {
                Some(c) => c.text_at(self.ctrl.name),
                None => None,
            },
            side: Some(self.names.teams.name(team)),
            x: match place {
                Some(p) => Some(p.x),
                None => None,
            },
            y: match place {
                Some(p) => Some(p.y),
                None => None,
            },
            z: match place {
                Some(p) => Some(p.z),
                None => None,
            },
            team_clan_name: clan_of(clans, team),
            cash_spent_this_round: match controller {
                Some(c) => Some(c.i64_at(self.ctrl.cash_spent_this_round) as i32),
                None => None,
            },
        }
    }

    /// Whether the handle that an event carries points at a player pawn.
    pub open spec fn finds_pawn(self, entities: Seq<Entity>, handle: i64) -> bool {
        match self.at(entities, handle as u32) {
            Some(pawn) => is_pawn_class(pawn.class_name@),
            None => false,
        }
    }

    /// A participant, from the pawn handle that an event carries.
    pub open spec fn player_of_handle(
        self,
        entities: Seq<Entity>,
        handle: i64,
        clans: Map<i64, Seq<char>>,
    ) -> ResolvedPlayer<Seq<char>> {
        match self.at(entities, handle as u32) {
            Some(pawn) => if is_pawn_class(pawn.class_name@) {
                self.player_of_pawn(entities, pawn, clans)
            } else {
                no_player()
            },
            None => no_player(),
        }
    }

    /// The entity that an optional handle points at, if it is decoded.
    pub fn follow<'b>(&self, f: &'b Frame, handle: Option<u32>) -> (e: Option<&'b Entity>)
        ensures
            e is Some == self.linked(f.entities@, handle) is Some,
            e matches Some(g) ==> self.linked(f.entities@, handle) == Some(*g),
    {
        f.follow(self.scope, self.names, handle)
    }

    /// Resolve a participant from a player pawn already in hand.
    pub fn resolve_from_pawn(
        &self,
        f: &Frame,
        pawn: &Entity,
        clans: &HashMap<i64, String>,
    ) -> (p: ResolvedPlayer)
        ensures
            p@ == self.player_of_pawn(f.entities@, *pawn, clan_names(clans@)),
    {
        let team = pawn.get_i64(self.pawn.team);
        let mut player = ResolvedPlayer::nobody();
        player.side = Some(self.names.teams.name_of(team));
        player.team_clan_name = clan_name(clans, team);
        if let Some(place) = self.pawn.origin.world(pawn) {
            player.x = Some(place.x);
            player.y = Some(place.y);
            player.z = Some(place.z);
        }
        if let Some(controller) = self.follow(f, pawn.get_handle(self.pawn.controller)) {
            player.steamid = controller.get_u64(self.ctrl.steamid);
            player.name = controller.get_string(self.ctrl.name);
            player.cash_spent_this_round = Some(
                #[verifier::truncate]
                (controller.get_i64(self.ctrl.cash_spent_this_round) as i32),
            );
        }
        player
    }

    /// Resolve a participant from the pawn handle that a game event carries; no player
    /// when the handle does not point at a player pawn.
    pub fn resolve_player(
        &self,
        f: &Frame,
        pawn_handle: i64,
        clans: &HashMap<i64, String>,
    ) -> (p: ResolvedPlayer)
        ensures
            p@ == self.player_of_handle(f.entities@, pawn_handle, clan_names(clans@)),
    {
        let handle: u32 = #[verifier::truncate]
        (pawn_handle as u32);
        match f.get_by_handle(self.scope, self.names, handle) {
            Some(pawn) => if contains_text(pawn.class_name.as_str(), "PlayerPawn") {
                self.resolve_from_pawn(f, pawn, clans)
            } else {
                ResolvedPlayer::nobody()
            },
            None => ResolvedPlayer::nobody(),
        }
    }
}

/// Whether an entity class is one of player pawns.
pub open spec fn is_pawn_class(class: Seq<char>) -> bool {
    text::holds_text(class, "PlayerPawn"@)
}

/// Whether an entity names a team: it is the active entity of that team, which is a playing
/// side's, and carries a clan name that is not empty.
pub open spec fn names_team(tk: TeamKeys, e: Entity, team: i64) -> bool {
    &&& e.active
    &&& e.class_name@ == TEAM_CLASS@
    &&& e.i64_at(tk.team_num) == team
    &&& team > 1
    &&& e.text_at(tk.clan) matches Some(clan) && clan.len() > 0
}

/// A clan name that was learned is never blanked: it stays until the team has another, and it
/// stays the same where no entity names the team.
pub proof fn law_clans_stay(
    clans: Map<i64, Seq<char>>,
    tk: TeamKeys,
    entities: Seq<Entity>,
    team: i64,
)
    requires
        clans.contains_key(team),
    ensures
        clans_after(clans, tk, entities).contains_key(team),
        (forall|i: int|
            0 <= i < entities.len() ==> !names_team(tk, #[trigger] entities[i], team))
            ==> clans_after(clans, tk, entities)[team] == clans[team],
    decreases entities.len(),
{
    if entities.len() > 0 {
        let init = entities.drop_last();
        law_clans_stay(clans, tk, init, team);
        assert forall|i: int| 0 <= i < init.len() implies init[i] == #[trigger] entities[i] by {}
        assert(entities.last() == entities[entities.len() - 1]);
    }
}

/// What a tick makes of two tables of clan names is the same, for a team on which they agree
/// or which an entity names.
pub proof fn lemma_clans_meet(
    c: Map<i64, Seq<char>>,
    d: Map<i64, Seq<char>>,
    tk: TeamKeys,
    entities: Seq<Entity>,
    team: i64,
)
    requires
        clan_of(c, team) == clan_of(d, team) || exists|i: int|
            0 <= i < entities.len() && names_team(tk, #[trigger] entities[i], team),
    ensures
        clan_of(clans_after(c, tk, entities), team) == clan_of(clans_after(d, tk, entities), team),
    decreases entities.len(),
{
    if entities.len() > 0 {
        let init = entities.drop_last();
        let e = entities.last();
        if !names_team(tk, e, team) {
            if clan_of(c, team) != clan_of(d, team) {
                let i = choose|i: int|
                    0 <= i < entities.len() && names_team(tk, #[trigger] entities[i], team);
                assert(init[i] == entities[i]);
            }
            lemma_clans_meet(c, d, tk, init, team);
        }
    }
}

} // verus!
