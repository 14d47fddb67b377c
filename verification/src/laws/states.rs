//! Player states: one row for every pawn in play on every tick that is wanted, and what each
//! of its fields is.
use crate::demo;
use crate::demo::{Entity, Frame, Schema};
use crate::laws::reading;
use crate::names::{Names, Scope, WeaponInfo, WeaponSlot};
use crate::parser::Parser;
use crate::resolve;
use crate::resolve::{Lens, TeamKeys};
use crate::snapshots;
use crate::snapshots::{Identity, PawnId, PlayerState, StatesState};
use vstd::prelude::*;

verus! {

/// The key of a field of player pawns.
pub open spec fn pawn_key(schema: Schema, path: Seq<char>) -> Option<u64> {
    schema.key_of("CCSPlayerPawn"@, path)
}

/// The key of a field of player controllers.
pub open spec fn controller_key(schema: Schema, path: Seq<char>) -> Option<u64> {
    schema.key_of("CCSPlayerController"@, path)
}

/// How many inventory slots of a pawn are in use: as many as it says, but 64 where it says
/// more than that, or less than none.
pub open spec fn slots_in_use(schema: Schema, pawn: Entity) -> int {
    let n = pawn.i64_at(pawn_key(schema, "m_pWeaponServices.m_hMyWeapons"@));
    if 0 <= n <= 64 {
        n as int
    } else {
        64
    }
}

/// The weapon in an inventory slot of a pawn.
pub open spec fn weapon_in(
    schema: Schema,
    names: Names,
    scope: Scope,
    entities: Seq<Entity>,
    pawn: Entity,
    i: int,
) -> Option<WeaponInfo> {
    let key = schema.element_key_of(
        "CCSPlayerPawn"@,
        "m_pWeaponServices.m_hMyWeapons"@,
        i as u8,
    );
    match demo::linked(entities, scope, names, pawn.handle_at(key)) {
        Some(w) => names.weapon(w.class_name@),
        None => None,
    }
}

/// Whether an inventory slot of a pawn holds a weapon of a kind.
pub open spec fn holds_kind(
    schema: Schema,
    names: Names,
    scope: Scope,
    entities: Seq<Entity>,
    pawn: Entity,
    kind: WeaponSlot,
    i: int,
) -> bool {
    weapon_in(schema, names, scope, entities, pawn, i) matches Some(w) && w.slot == kind
}

/// Whether a name is that of the last weapon of a kind in the first `n` slots; none, where no
/// slot holds one.
pub open spec fn is_last_of_kind(
    schema: Schema,
    names: Names,
    scope: Scope,
    entities: Seq<Entity>,
    pawn: Entity,
    kind: WeaponSlot,
    n: int,
    name: Option<Seq<char>>,
) -> bool {
    match name {
        None => forall|i: int|
            0 <= i < n ==> !#[trigger] holds_kind(schema, names, scope, entities, pawn, kind, i),
        Some(t) => exists|i: int| #[trigger]
            holds_kind(schema, names, scope, entities, pawn, kind, i) && 0 <= i < n && weapon_in(
                schema,
                names,
                scope,
                entities,
                pawn,
                i,
            )->0.name@ == t && forall|j: int|
                i < j < n ==> !#[trigger] holds_kind(
                    schema,
                    names,
                    scope,
                    entities,
                    pawn,
                    kind,
                    j,
                ),
    }
}

/// Whether an inventory slot of a pawn holds a grenade of a name.
pub open spec fn holds_grenade(
    schema: Schema,
    names: Names,
    scope: Scope,
    entities: Seq<Entity>,
    pawn: Entity,
    name: Seq<char>,
    i: int,
) -> bool {
    holds_kind(schema, names, scope, entities, pawn, WeaponSlot::Grenade, i) && weapon_in(
        schema,
        names,
        scope,
        entities,
        pawn,
        i,
    )->0.name@ == name
}

/// How many of the first `n` slots hold a grenade of a name.
pub open spec fn grenades_in(
    schema: Schema,
    names: Names,
    scope: Scope,
    entities: Seq<Entity>,
    pawn: Entity,
    name: Seq<char>,
    n: int,
) -> int {
    reading::how_many(
        n,
        |i: int| holds_grenade(schema, names, scope, entities, pawn, name, i),
    )
}

/// The names of the weapons in the first `n` slots of a pawn.
pub open spec fn weapon_names(
    schema: Schema,
    names: Names,
    scope: Scope,
    entities: Seq<Entity>,
    pawn: Entity,
    n: int,
) -> Seq<Seq<char>>
    decreases n,
{
    if n <= 0 {
        Seq::empty()
    } else {
        let rest = weapon_names(schema, names, scope, entities, pawn, n - 1);
        match weapon_in(schema, names, scope, entities, pawn, n - 1) {
            Some(w) => rest.push(w.name@),
            None => rest,
        }
    }
}

/// Texts with a comma between each two.
pub open spec fn comma_separated(texts: Seq<Seq<char>>) -> Seq<char>
    decreases texts.len(),
{
    if texts.len() == 0 {
        Seq::empty()
    } else if texts.len() == 1 {
        texts[0]
    } else {
        comma_separated(texts.drop_last()) + ","@ + texts.last()
    }
}

/// Whether every weapon has a name.
pub open spec fn weapons_have_names(names: Names) -> bool {
    forall|i: int| 0 <= i < names.weapons@.len() ==> (#[trigger] names.weapons@[i]).name@.len() > 0
}

/// Whether a row shows what a pawn carries in its slots.
pub open spec fn shows_loadout(
    schema: Schema,
    names: Names,
    scope: Scope,
    entities: Seq<Entity>,
    pawn: Entity,
    row: PlayerState<Seq<char>>,
) -> bool {
    let n = slots_in_use(schema, pawn);
    let ammo = pawn.i64_at(
        schema.element_key_of("CCSPlayerPawn"@, "m_pWeaponServices.m_iAmmo"@, 14),
    );
    &&& is_last_of_kind(
        schema,
        names,
        scope,
        entities,
        pawn,
        WeaponSlot::Primary,
        n,
        row.primary_weapon,
    )
    &&& is_last_of_kind(
        schema,
        names,
        scope,
        entities,
        pawn,
        WeaponSlot::Secondary,
        n,
        row.secondary_weapon,
    )
    &&& row.has_bomb <==> exists|i: int|
        0 <= i < n && #[trigger] holds_kind(
            schema,
            names,
            scope,
            entities,
            pawn,
            WeaponSlot::C4,
            i,
        )
    &&& row.he_grenades == grenades_in(schema, names, scope, entities, pawn, "hegrenade"@, n)
    &&& row.smoke_grenades == grenades_in(schema, names, scope, entities, pawn, "smokegrenade"@, n)
    &&& row.decoy_grenades == grenades_in(schema, names, scope, entities, pawn, "decoy"@, n)
    &&& row.fire_grenades == grenades_in(schema, names, scope, entities, pawn, "molotov"@, n)
        + grenades_in(schema, names, scope, entities, pawn, "incendiary"@, n)
    &&& row.flashbangs == (grenades_in(schema, names, scope, entities, pawn, "flashbang"@, n) * (
    if ammo > 0 {
        ammo as i32
    } else {
        1i32
    })) as i32
    &&& weapons_have_names(names) ==> row.inventory == comma_separated(
        weapon_names(schema, names, scope, entities, pawn, n),
    )
}

/// Whether a row shows what else a pawn shows by itself.
pub open spec fn shows_pawn(
    schema: Schema,
    names: Names,
    scope: Scope,
    f: Frame,
    pawn: Entity,
    row: PlayerState<Seq<char>>,
) -> bool {
    let placed = pawn.has(
        pawn_key(schema, "CBodyComponent.m_skeletonInstance.m_vecOrigin.m_vecX"@),
    );
    &&& row.tick == f.tick
    &&& row.side == Some(names.teams.name(pawn.i64_at(pawn_key(schema, "m_iTeamNum"@))))
    &&& row.x == (if placed {
        Some(pawn.world.x)
    } else {
        None
    })
    &&& row.y == (if placed {
        Some(pawn.world.y)
    } else {
        None
    })
    &&& row.z == (if placed {
        Some(pawn.world.z)
    } else {
        None
    })
    &&& row.place == pawn.text_at(pawn_key(schema, "m_szLastPlaceName"@))
    &&& row.pitch == pawn.angles_at(pawn_key(schema, "m_angEyeAngles"@)).x
    &&& row.yaw == pawn.angles_at(pawn_key(schema, "m_angEyeAngles"@)).y
    &&& row.health == pawn.i64_at(pawn_key(schema, "m_iHealth"@)) as i32
    &&& row.armor == pawn.i64_at(pawn_key(schema, "m_ArmorValue"@)) as i32
    &&& row.has_helmet == pawn.bool_at(pawn_key(schema, "m_pItemServices.m_bHasHelmet"@))
    &&& row.has_defuser == pawn.bool_at(pawn_key(schema, "m_pItemServices.m_bHasDefuser"@))
    &&& row.equipment_value == pawn.i64_at(
        pawn_key(schema, "m_unCurrentEquipmentValue"@),
    ) as i32
    &&& row.equipment_value_round_start == pawn.i64_at(
        pawn_key(schema, "m_unRoundStartEquipmentValue"@),
    ) as i32
    &&& row.is_crouched == pawn.bool_at(pawn_key(schema, "m_pMovementServices.m_bDucked"@))
    &&& row.is_walking == pawn.bool_at(pawn_key(schema, "m_bIsWalking"@))
    &&& row.is_jumping <==> (pawn.u64_at(pawn_key(schema, "m_fFlags"@)) matches Some(flags)
        && flags % 2 == 0)
    &&& row.is_in_bomb_zone == pawn.bool_at(pawn_key(schema, "m_bInBombZone"@))
    &&& row.is_scoped == pawn.bool_at(pawn_key(schema, "m_bIsScoped"@))
    &&& row.is_defusing == pawn.bool_at(pawn_key(schema, "m_bIsDefusing"@))
    &&& row.flash_duration == pawn.real_at(pawn_key(schema, "m_flFlashDuration"@))
    &&& row.active_weapon == (match demo::linked(
        f.entities@,
        scope,
        names,
        pawn.handle_at(pawn_key(schema, "m_pWeaponServices.m_hActiveWeapon"@)),
    ) {
        Some(w) => match names.weapon(w.class_name@) {
            Some(info) => Some(info.name@),
            None => None,
        },
        None => None,
    })
}

/// The controller that a pawn points at.
pub open spec fn controller_of(
    schema: Schema,
    names: Names,
    scope: Scope,
    entities: Seq<Entity>,
    pawn: Entity,
) -> Option<Entity> {
    demo::linked(entities, scope, names, pawn.handle_at(pawn_key(schema, "m_hController"@)))
}

/// Whether a row shows what a pawn's controller shows; without one, there is neither money nor
/// ping.
pub open spec fn shows_controller(
    schema: Schema,
    controller: Option<Entity>,
    row: PlayerState<Seq<char>>,
) -> bool {
    match controller {
        Some(c) => {
            &&& row.steamid == c.u64_at(controller_key(schema, "m_steamID"@))
            &&& row.name == c.text_at(controller_key(schema, "m_iszPlayerName"@))
            &&& row.money == c.i64_at(
                controller_key(schema, "m_pInGameMoneyServices.m_iAccount"@),
            ) as i32
            &&& row.cash_spent_this_round == c.i64_at(
                controller_key(schema, "m_pInGameMoneyServices.m_iCashSpentThisRound"@),
            ) as i32
            &&& row.ping == (match c.u64_at(controller_key(schema, "m_iPing"@)) {
                Some(p) => Some(p as i32),
                None => None,
            })
        },
        None => row.money == 0 && row.cash_spent_this_round == 0 && row.ping is None,
    }
}

/// Whether an entity is a player pawn in play.
pub open spec fn is_in_play(schema: Schema, e: Entity) -> bool {
    &&& e.active
    &&& e.class_id == (match schema.class_id_of("CCSPlayerPawn"@) {
        Some(id) => id,
        None => -1i32,
    })
    &&& e.i64_at(pawn_key(schema, "m_iTeamNum"@)) > 0
}

proof fn lemma_last_of_kind(
    schema: Schema,
    names: Names,
    scope: Scope,
    entities: Seq<Entity>,
    pawn: Entity,
    kind: WeaponSlot,
    n: int,
    was: Option<Seq<char>>,
)
    requires
        n >= 0,
        is_last_of_kind(schema, names, scope, entities, pawn, kind, n, was),
    ensures
        is_last_of_kind(
            schema,
            names,
            scope,
            entities,
            pawn,
            kind,
            n + 1,
            (if holds_kind(schema, names, scope, entities, pawn, kind, n) {
                Some(weapon_in(schema, names, scope, entities, pawn, n)->0.name@)
            } else {
                was
            }),
        ),
{
    if !holds_kind(schema, names, scope, entities, pawn, kind, n) {
        if let Some(t) = was {
            let i = choose|i: int| #[trigger]
                holds_kind(schema, names, scope, entities, pawn, kind, i) && 0 <= i < n
                    && weapon_in(schema, names, scope, entities, pawn, i)->0.name@ == t && forall|
                    j: int,
                |
                    i < j < n ==> !#[trigger] holds_kind(
                        schema,
                        names,
                        scope,
                        entities,
                        pawn,
                        kind,
                        j,
                    );
            assert(holds_kind(schema, names, scope, entities, pawn, kind, i));
        }
    }
}

proof fn lemma_grenade_names()
    ensures
        "hegrenade"@ != "flashbang"@,
        "hegrenade"@ != "smokegrenade"@,
        "hegrenade"@ != "molotov"@,
        "hegrenade"@ != "incendiary"@,
        "hegrenade"@ != "decoy"@,
        "flashbang"@ != "smokegrenade"@,
        "flashbang"@ != "molotov"@,
        "flashbang"@ != "incendiary"@,
        "flashbang"@ != "decoy"@,
        "smokegrenade"@ != "molotov"@,
        "smokegrenade"@ != "incendiary"@,
        "smokegrenade"@ != "decoy"@,
        "molotov"@ != "incendiary"@,
        "molotov"@ != "decoy"@,
        "incendiary"@ != "decoy"@,
{
    reveal_strlit("hegrenade");
    reveal_strlit("flashbang");
    reveal_strlit("smokegrenade");
    reveal_strlit("molotov");
    reveal_strlit("incendiary");
    reveal_strlit("decoy");
    assert("hegrenade"@[0] == 'h');
    assert("flashbang"@[0] == 'f');
    assert("smokegrenade"@[0] == 's');
    assert("molotov"@[0] == 'm');
    assert("incendiary"@[0] == 'i');
    assert("decoy"@[0] == 'd');
}

proof fn lemma_comma_separated(texts: Seq<Seq<char>>)
    requires
        forall|i: int| 0 <= i < texts.len() ==> (#[trigger] texts[i]).len() > 0,
    ensures
        comma_separated(texts).len() == 0 <==> texts.len() == 0,
    decreases texts.len(),
{
    if texts.len() > 0 {
        assert(texts[0].len() > 0);
        assert(texts[texts.len() - 1].len() > 0);
    }
}

proof fn lemma_weapon_names(
    schema: Schema,
    names: Names,
    scope: Scope,
    entities: Seq<Entity>,
    pawn: Entity,
    n: int,
)
    requires
        weapons_have_names(names),
    ensures
        forall|i: int|
            0 <= i < weapon_names(schema, names, scope, entities, pawn, n).len() ==> (
            #[trigger] weapon_names(schema, names, scope, entities, pawn, n)[i]).len() > 0,
    decreases n,
{
    if n > 0 {
        lemma_weapon_names(schema, names, scope, entities, pawn, n - 1);
        lemma_weapon_named(schema, names, scope, entities, pawn, n - 1);
        let rest = weapon_names(schema, names, scope, entities, pawn, n - 1);
        let all = weapon_names(schema, names, scope, entities, pawn, n);
        assert forall|i: int| 0 <= i < all.len() implies (#[trigger] all[i]).len() > 0 by {
            if i < rest.len() {
                assert(all[i] == rest[i]);
            }
        }
    }
}

proof fn lemma_weapon_named(
    schema: Schema,
    names: Names,
    scope: Scope,
    entities: Seq<Entity>,
    pawn: Entity,
    i: int,
)
    requires
        weapons_have_names(names),
    ensures
        weapon_in(schema, names, scope, entities, pawn, i) matches Some(w) ==> w.name@.len() > 0,
{
    let key = schema.element_key_of(
        "CCSPlayerPawn"@,
        "m_pWeaponServices.m_hMyWeapons"@,
        i as u8,
    );
    if let Some(w) = demo::linked(entities, scope, names, pawn.handle_at(key)) {
        let p = |v: WeaponInfo| v.class_name@ == w.class_name@;
        crate::order::lemma_first_match_holds(names.weapons@, p);
        if let Some(v) = names.weapon(w.class_name@) {
            let k = choose|k: int| 0 <= k < names.weapons@.len() && names.weapons@[k] == v;
            assert(names.weapons@[k].name@.len() > 0);
        }
    }
}

/// What is known of a loadout once the first `m` slots are looked at.
spec fn loadout_upto(
    schema: Schema,
    names: Names,
    scope: Scope,
    entities: Seq<Entity>,
    pawn: Entity,
    m: int,
    l: snapshots::Loadout<Seq<char>>,
) -> bool {
    &&& is_last_of_kind(
        schema,
        names,
        scope,
        entities,
        pawn,
        WeaponSlot::Primary,
        m,
        l.primary,
    )
    &&& is_last_of_kind(
        schema,
        names,
        scope,
        entities,
        pawn,
        WeaponSlot::Secondary,
        m,
        l.secondary,
    )
    &&& l.bomb <==> exists|i: int|
        0 <= i < m && #[trigger] holds_kind(
            schema,
            names,
            scope,
            entities,
            pawn,
            WeaponSlot::C4,
            i,
        )
    &&& l.he == grenades_in(schema, names, scope, entities, pawn, "hegrenade"@, m)
    &&& l.smoke == grenades_in(schema, names, scope, entities, pawn, "smokegrenade"@, m)
    &&& l.decoy == grenades_in(schema, names, scope, entities, pawn, "decoy"@, m)
    &&& l.fire == grenades_in(schema, names, scope, entities, pawn, "molotov"@, m) + grenades_in(
        schema,
        names,
        scope,
        entities,
        pawn,
        "incendiary"@,
        m,
    )
    &&& l.flash == grenades_in(schema, names, scope, entities, pawn, "flashbang"@, m)
    &&& 0 <= l.he <= m
    &&& 0 <= l.smoke <= m
    &&& 0 <= l.decoy <= m
    &&& 0 <= l.fire <= m
    &&& 0 <= l.flash <= m
    &&& weapons_have_names(names) ==> l.inventory == comma_separated(
        weapon_names(schema, names, scope, entities, pawn, m),
    )
}

proof fn lemma_loadout_upto(
    schema: Schema,
    names: Names,
    scope: Scope,
    f: Frame,
    pawn: Entity,
    m: int,
)
    requires
        0 <= m <= 64,
    ensures
        loadout_upto(
            schema,
            names,
            scope,
            f.entities@,
            pawn,
            m,
            snapshots::loadout_in(
                Lens::of(schema, &names, scope),
                f,
                pawn,
                crate::items::inventory_keys(schema).slots.take(m),
            ),
        ),
    decreases m,
{
    let lens = Lens::of(schema, &names, scope);
    let slots = crate::items::inventory_keys(schema).slots;
    let es = f.entities@;
    if m == 0 {
        assert(slots.take(0) =~= Seq::empty());
    } else {
        lemma_loadout_upto(schema, names, scope, f, pawn, m - 1);
        assert(slots.take(m).drop_last() =~= slots.take(m - 1));
        assert(slots.take(m).last() == slots[m - 1]);
        let was = snapshots::loadout_in(lens, f, pawn, slots.take(m - 1));
        let now = snapshots::loadout_in(lens, f, pawn, slots.take(m));
        lemma_grenade_names();
        lemma_last_of_kind(
            schema,
            names,
            scope,
            es,
            pawn,
            WeaponSlot::Primary,
            m - 1,
            was.primary,
        );
        lemma_last_of_kind(
            schema,
            names,
            scope,
            es,
            pawn,
            WeaponSlot::Secondary,
            m - 1,
            was.secondary,
        );
        let w = weapon_in(schema, names, scope, es, pawn, m - 1);
        let bomb = holds_kind(schema, names, scope, es, pawn, WeaponSlot::C4, m - 1);
        assert(now.bomb == (was.bomb || bomb));
        if was.bomb {
            let i = choose|i: int|
                0 <= i < m - 1 && #[trigger] holds_kind(
                    schema,
                    names,
                    scope,
                    es,
                    pawn,
                    WeaponSlot::C4,
                    i,
                );
            assert(holds_kind(schema, names, scope, es, pawn, WeaponSlot::C4, i));
        }
        if weapons_have_names(names) {
            let texts = weapon_names(schema, names, scope, es, pawn, m - 1);
            lemma_weapon_names(schema, names, scope, es, pawn, m - 1);
            lemma_weapon_named(schema, names, scope, es, pawn, m - 1);
            lemma_comma_separated(texts);
            if let Some(info) = w {
                let all = texts.push(info.name@);
                assert(all.drop_last() =~= texts);
                assert(now.inventory == snapshots::listed(was.inventory, info.name@));
            }
        }
    }
}

/// A pawn's state shows what is in its slots.
proof fn lemma_shows_loadout(
    schema: Schema,
    names: Names,
    scope: Scope,
    f: Frame,
    clans: Map<i64, Seq<char>>,
    pawn: Entity,
)
    ensures
        shows_loadout(
            schema,
            names,
            scope,
            f.entities@,
            pawn,
            snapshots::pawn_state(
                f,
                snapshots::snapshot_keys(schema),
                Lens::of(schema, &names, scope),
                clans,
                pawn,
            ),
        ),
{
    lemma_loadout_upto(schema, names, scope, f, pawn, slots_in_use(schema, pawn));
}

/// A pawn's state shows what the pawn shows.
proof fn lemma_shows_pawn(
    schema: Schema,
    names: Names,
    scope: Scope,
    f: Frame,
    clans: Map<i64, Seq<char>>,
    pawn: Entity,
)
    ensures
        shows_pawn(
            schema,
            names,
            scope,
            f,
            pawn,
            snapshots::pawn_state(
                f,
                snapshots::snapshot_keys(schema),
                Lens::of(schema, &names, scope),
                clans,
                pawn,
            ),
        ),
{
}

/// Which entities of which frames are pawns in play on ticks that are wanted.
pub open spec fn seat_picks(
    schema: Schema,
    wants: spec_fn(i32) -> bool,
    frames: Seq<Frame>,
) -> spec_fn(int, int) -> bool {
    |i: int, j: int| wants(frames[i].tick) && is_in_play(schema, frames[i].entities@[j])
}

/// How many entities each frame has.
pub open spec fn entity_counts(frames: Seq<Frame>) -> spec_fn(int) -> int {
    |i: int| frames[i].entities@.len() as int
}

/// The pawns in play on ticks that are wanted, tick by tick and in the order of entities.
pub open spec fn seats(
    schema: Schema,
    wants: spec_fn(i32) -> bool,
    frames: Seq<Frame>,
) -> Seq<(int, int)> {
    reading::spots(
        frames.len() as int,
        entity_counts(frames),
        seat_picks(schema, wants, frames),
    )
}

/// Whether an entity comes before another, by frame and then by position.
pub open spec fn comes_before(a: int, b: int, i: int, j: int) -> bool {
    a < i || (a == i && b < j)
}

/// Whether an entity tells who a pawn is: a pawn in play on a tick that is wanted, with its
/// index and serial number, whose controller has a Steam id.
pub open spec fn tells_who(
    schema: Schema,
    names: Names,
    scope: Scope,
    wants: spec_fn(i32) -> bool,
    frames: Seq<Frame>,
    index: i32,
    serial: u32,
    a: int,
    b: int,
) -> bool {
    &&& 0 <= a < frames.len()
    &&& 0 <= b < frames[a].entities@.len()
    &&& wants(frames[a].tick)
    &&& is_in_play(schema, frames[a].entities@[b])
    &&& frames[a].entities@[b].index == index
    &&& frames[a].entities@[b].serial == serial
    &&& controller_of(
        schema,
        names,
        scope,
        frames[a].entities@,
        frames[a].entities@[b],
    ) matches Some(c) && c.u64_at(controller_key(schema, "m_steamID"@)) is Some
}

/// Whether an identity is that of a pawn, under one keyframe and before an entity: what the
/// controller had that told last who the pawn is, and nobody's where none did.
pub open spec fn is_identity(
    schema: Schema,
    names: Names,
    scope: Scope,
    keyframes: Seq<i32>,
    wants: spec_fn(i32) -> bool,
    frames: Seq<Frame>,
    id: PawnId,
    i: int,
    j: int,
    who: Option<Identity<Seq<char>>>,
) -> bool {
    match who {
        None => forall|a: int, b: int|
            comes_before(a, b, i, j) && #[trigger] tells_who(
                schema,
                names,
                scope,
                wants,
                frames,
                id.index,
                id.serial,
                a,
                b,
            ) ==> snapshots::bucket_of(keyframes, frames[a].tick) != id.bucket,
        Some(w) => exists|a: int, b: int| #[trigger]
            tells_who(schema, names, scope, wants, frames, id.index, id.serial, a, b)
                && comes_before(a, b, i, j) && snapshots::bucket_of(keyframes, frames[a].tick)
                == id.bucket && w.steamid == controller_of(
                schema,
                names,
                scope,
                frames[a].entities@,
                frames[a].entities@[b],
            )->0.u64_at(controller_key(schema, "m_steamID"@)) && w.name == controller_of(
                schema,
                names,
                scope,
                frames[a].entities@,
                frames[a].entities@[b],
            )->0.text_at(controller_key(schema, "m_iszPlayerName"@)) && forall|x: int, y: int|
                comes_before(a, b, x, y) && comes_before(x, y, i, j) && #[trigger] tells_who(
                    schema,
                    names,
                    scope,
                    wants,
                    frames,
                    id.index,
                    id.serial,
                    x,
                    y,
                ) ==> snapshots::bucket_of(keyframes, frames[x].tick) != id.bucket,
    }
}

/// Whether a row is the state of entity `j` of frame `i`.
pub open spec fn is_state_of(
    schema: Schema,
    names: Names,
    scope: Scope,
    keyframes: Seq<i32>,
    wants: spec_fn(i32) -> bool,
    frames: Seq<Frame>,
    i: int,
    j: int,
    row: PlayerState<Seq<char>>,
) -> bool {
    let f = frames[i];
    let pawn = f.entities@[j];
    let controller = controller_of(schema, names, scope, f.entities@, pawn);
    let id = PawnId {
        index: pawn.index,
        serial: pawn.serial,
        bucket: snapshots::bucket_of(keyframes, f.tick),
    };
    &&& shows_pawn(schema, names, scope, f, pawn, row)
    &&& shows_loadout(schema, names, scope, f.entities@, pawn, row)
    &&& shows_controller(schema, controller, row)
    &&& reading::is_clan(
        schema,
        frames,
        i + 1,
        pawn.i64_at(pawn_key(schema, "m_iTeamNum"@)),
        row.team_clan_name,
    )
    &&& controller is None ==> is_identity(
        schema,
        names,
        scope,
        keyframes,
        wants,
        frames,
        id,
        i,
        j,
        None,
    ) && row.steamid is None && row.name is None || is_identity(
        schema,
        names,
        scope,
        keyframes,
        wants,
        frames,
        id,
        i,
        j,
        Some(Identity { steamid: row.steamid, name: row.name }),
    )
}

/// What holds once the first `j` entities of frame `i` are looked at, and all before them.
spec fn states_upto(
    schema: Schema,
    names: Names,
    scope: Scope,
    keyframes: Seq<i32>,
    wants: spec_fn(i32) -> bool,
    frames: Seq<Frame>,
    i: int,
    places: Seq<(int, int)>,
    j: int,
    s: StatesState,
) -> bool {
    &&& s.rows.len() == places.len()
    &&& forall|k: int|
        0 <= k < s.rows.len() ==> is_state_of(
            schema,
            names,
            scope,
            keyframes,
            wants,
            frames,
            places[k].0,
            places[k].1,
            #[trigger] s.rows[k],
        )
    &&& forall|id: PawnId| #[trigger]
        is_identity(
            schema,
            names,
            scope,
            keyframes,
            wants,
            frames,
            id,
            i,
            j,
            known_as(s, id),
        )
}

spec fn known_as(s: StatesState, id: PawnId) -> Option<Identity<Seq<char>>> {
    if s.known.contains_key(id) {
        Some(s.known[id])
    } else {
        None
    }
}

/// An identity stays that of a pawn where the next entity does not tell who it is, and is what
/// the entity tells where it does.
proof fn lemma_identity_step(
    schema: Schema,
    names: Names,
    scope: Scope,
    keyframes: Seq<i32>,
    wants: spec_fn(i32) -> bool,
    frames: Seq<Frame>,
    id: PawnId,
    i: int,
    j: int,
    was: Option<Identity<Seq<char>>>,
    now: Option<Identity<Seq<char>>>,
)
    requires
        0 <= i < frames.len(),
        0 <= j < frames[i].entities@.len(),
        is_identity(schema, names, scope, keyframes, wants, frames, id, i, j, was),
        ({
            let e = frames[i].entities@[j];
            let c = controller_of(schema, names, scope, frames[i].entities@, e);
            if tells_who(schema, names, scope, wants, frames, id.index, id.serial, i, j)
                && snapshots::bucket_of(keyframes, frames[i].tick) == id.bucket {
                now == Some(
                    Identity {
                        steamid: c->0.u64_at(controller_key(schema, "m_steamID"@)),
                        name: c->0.text_at(controller_key(schema, "m_iszPlayerName"@)),
                    },
                )
            } else {
                now == was
            }
        }),
    ensures
        is_identity(schema, names, scope, keyframes, wants, frames, id, i, j + 1, now),
{
    let tells = tells_who(schema, names, scope, wants, frames, id.index, id.serial, i, j)
        && snapshots::bucket_of(keyframes, frames[i].tick) == id.bucket;
    if tells {
        assert(tells_who(schema, names, scope, wants, frames, id.index, id.serial, i, j));
    } else if let Some(w) = was {
        let (a, b) = choose|a: int, b: int| #[trigger]
            tells_who(schema, names, scope, wants, frames, id.index, id.serial, a, b)
                && comes_before(a, b, i, j) && snapshots::bucket_of(keyframes, frames[a].tick)
                == id.bucket && w.steamid == controller_of(
                schema,
                names,
                scope,
                frames[a].entities@,
                frames[a].entities@[b],
            )->0.u64_at(controller_key(schema, "m_steamID"@)) && w.name == controller_of(
                schema,
                names,
                scope,
                frames[a].entities@,
                frames[a].entities@[b],
            )->0.text_at(controller_key(schema, "m_iszPlayerName"@)) && forall|x: int, y: int|
                comes_before(a, b, x, y) && comes_before(x, y, i, j) && #[trigger] tells_who(
                    schema,
                    names,
                    scope,
                    wants,
                    frames,
                    id.index,
                    id.serial,
                    x,
                    y,
                ) ==> snapshots::bucket_of(keyframes, frames[x].tick) != id.bucket;
        assert(tells_who(schema, names, scope, wants, frames, id.index, id.serial, a, b));
    }
}

/// After the last entity of a frame comes the first of the next one.
proof fn lemma_identity_turn(
    schema: Schema,
    names: Names,
    scope: Scope,
    keyframes: Seq<i32>,
    wants: spec_fn(i32) -> bool,
    frames: Seq<Frame>,
    id: PawnId,
    i: int,
    who: Option<Identity<Seq<char>>>,
    j: int,
)
    requires
        0 <= i < frames.len(),
        j == frames[i].entities@.len() || !wants(frames[i].tick),
        is_identity(schema, names, scope, keyframes, wants, frames, id, i, j, who),
    ensures
        is_identity(schema, names, scope, keyframes, wants, frames, id, i + 1, 0, who),
{
    if let Some(w) = who {
        let (a, b) = choose|a: int, b: int| #[trigger]
            tells_who(schema, names, scope, wants, frames, id.index, id.serial, a, b)
                && comes_before(a, b, i, j) && snapshots::bucket_of(keyframes, frames[a].tick)
                == id.bucket && w.steamid == controller_of(
                schema,
                names,
                scope,
                frames[a].entities@,
                frames[a].entities@[b],
            )->0.u64_at(controller_key(schema, "m_steamID"@)) && w.name == controller_of(
                schema,
                names,
                scope,
                frames[a].entities@,
                frames[a].entities@[b],
            )->0.text_at(controller_key(schema, "m_iszPlayerName"@)) && forall|x: int, y: int|
                comes_before(a, b, x, y) && comes_before(x, y, i, j) && #[trigger] tells_who(
                    schema,
                    names,
                    scope,
                    wants,
                    frames,
                    id.index,
                    id.serial,
                    x,
                    y,
                ) ==> snapshots::bucket_of(keyframes, frames[x].tick) != id.bucket;
        assert(tells_who(schema, names, scope, wants, frames, id.index, id.serial, a, b));
    }
}

#[verifier::rlimit(50)]
proof fn lemma_states_step(
    schema: Schema,
    names: Names,
    scope: Scope,
    keyframes: Seq<i32>,
    wants: spec_fn(i32) -> bool,
    frames: Seq<Frame>,
    i: int,
    places: Seq<(int, int)>,
    j: int,
    s: StatesState,
)
    requires
        0 <= i < frames.len(),
        0 <= j < frames[i].entities@.len(),
        wants(frames[i].tick),
        states_upto(schema, names, scope, keyframes, wants, frames, i, places, j, s),
    ensures
        states_upto(
            schema,
            names,
            scope,
            keyframes,
            wants,
            frames,
            i,
            (if seat_picks(schema, wants, frames)(i, j) {
                places.push((i, j))
            } else {
                places
            }),
            j + 1,
            snapshots::states_step(
                s,
                frames[i],
                snapshots::snapshot_keys(schema),
                Lens::of(schema, &names, scope),
                snapshots::bucket_of(keyframes, frames[i].tick),
                resolve::clans_through(TeamKeys::of(schema), frames.take(i + 1)),
                frames[i].entities@[j],
            ),
        ),
{
    let f = frames[i];
    let e = f.entities@[j];
    let lens = Lens::of(schema, &names, scope);
    let sk = snapshots::snapshot_keys(schema);
    let bucket = snapshots::bucket_of(keyframes, f.tick);
    let clans = resolve::clans_through(TeamKeys::of(schema), frames.take(i + 1));
    let now = snapshots::states_step(s, f, sk, lens, bucket, clans, e);
    let own = PawnId { index: e.index, serial: e.serial, bucket };
    let c = controller_of(schema, names, scope, f.entities@, e);
    assert(c == lens.controller(f.entities@, e));
    assert(is_in_play(schema, e) == snapshots::in_play(sk, lens, e));
    assert forall|id: PawnId| #[trigger]
        is_identity(
            schema,
            names,
            scope,
            keyframes,
            wants,
            frames,
            id,
            i,
            j + 1,
            known_as(now, id),
        ) by {
        assert(is_identity(
            schema,
            names,
            scope,
            keyframes,
            wants,
            frames,
            id,
            i,
            j,
            known_as(s, id),
        ));
        lemma_identity_step(
            schema,
            names,
            scope,
            keyframes,
            wants,
            frames,
            id,
            i,
            j,
            known_as(s, id),
            known_as(now, id),
        );
    }
    if is_in_play(schema, e) {
        let bare = snapshots::pawn_state(f, sk, lens, clans, e);
        let row = now.rows.last();
        lemma_shows_pawn(schema, names, scope, f, clans, e);
        lemma_shows_loadout(schema, names, scope, f, clans, e);
        reading::law_clans_are_named_last(
            schema,
            frames,
            i + 1,
            e.i64_at(pawn_key(schema, "m_iTeamNum"@)),
        );
        assert(is_identity(
            schema,
            names,
            scope,
            keyframes,
            wants,
            frames,
            own,
            i,
            j,
            known_as(s, own),
        ));
        assert(row.team_clan_name == bare.team_clan_name);
        assert(shows_pawn(schema, names, scope, f, e, row));
        assert(shows_loadout(schema, names, scope, f.entities@, e, row));
        assert(shows_controller(schema, c, row));
        if c is None {
            if s.known.contains_key(own) {
                assert(s.known[own] == (Identity { steamid: row.steamid, name: row.name }));
            }
        }
        assert(is_state_of(schema, names, scope, keyframes, wants, frames, i, j, row));
        let all = places.push((i, j));
        assert forall|k: int| 0 <= k < now.rows.len() implies is_state_of(
            schema,
            names,
            scope,
            keyframes,
            wants,
            frames,
            all[k].0,
            all[k].1,
            #[trigger] now.rows[k],
        ) by {
            if k < s.rows.len() {
                assert(now.rows[k] == s.rows[k]);
            }
        }
    }
}

proof fn lemma_states_in(
    schema: Schema,
    names: Names,
    scope: Scope,
    keyframes: Seq<i32>,
    wants: spec_fn(i32) -> bool,
    frames: Seq<Frame>,
    i: int,
    places: Seq<(int, int)>,
    j: int,
    s: StatesState,
)
    requires
        0 <= i < frames.len(),
        0 <= j <= frames[i].entities@.len(),
        wants(frames[i].tick),
        states_upto(schema, names, scope, keyframes, wants, frames, i, places, 0, s),
    ensures
        states_upto(
            schema,
            names,
            scope,
            keyframes,
            wants,
            frames,
            i,
            places + reading::spots_in(i, j, seat_picks(schema, wants, frames)),
            j,
            snapshots::states_in(
                s,
                frames[i],
                snapshots::snapshot_keys(schema),
                Lens::of(schema, &names, scope),
                snapshots::bucket_of(keyframes, frames[i].tick),
                resolve::clans_through(TeamKeys::of(schema), frames.take(i + 1)),
                frames[i].entities@.take(j),
            ),
        ),
    decreases j,
{
    let es = frames[i].entities@;
    let p = seat_picks(schema, wants, frames);
    if j == 0 {
        assert(es.take(0) =~= Seq::empty());
        assert(places + Seq::empty() =~= places);
    } else {
        lemma_states_in(schema, names, scope, keyframes, wants, frames, i, places, j - 1, s);
        assert(es.take(j).drop_last() =~= es.take(j - 1));
        assert(es.take(j).last() == es[j - 1]);
        let so_far = places + reading::spots_in(i, j - 1, p);
        let then = snapshots::states_in(
            s,
            frames[i],
            snapshots::snapshot_keys(schema),
            Lens::of(schema, &names, scope),
            snapshots::bucket_of(keyframes, frames[i].tick),
            resolve::clans_through(TeamKeys::of(schema), frames.take(i + 1)),
            es.take(j - 1),
        );
        lemma_states_step(
            schema,
            names,
            scope,
            keyframes,
            wants,
            frames,
            i,
            so_far,
            j - 1,
            then,
        );
        assert(places + reading::spots_in(i, j - 1, p).push((i, j - 1)) =~= so_far.push(
            (i, j - 1),
        ));
    }
}

proof fn lemma_no_spots(i: int, m: int, p: spec_fn(int, int) -> bool)
    requires
        forall|j: int| 0 <= j < m ==> !#[trigger] p(i, j),
    ensures
        reading::spots_in(i, m, p).len() == 0,
    decreases m,
{
    if m > 0 {
        lemma_no_spots(i, m - 1, p);
    }
}

proof fn lemma_states_through(
    schema: Schema,
    names: Names,
    scope: Scope,
    keyframes: Seq<i32>,
    wants: spec_fn(i32) -> bool,
    frames: Seq<Frame>,
    n: int,
)
    requires
        0 <= n <= frames.len(),
    ensures
        states_upto(
            schema,
            names,
            scope,
            keyframes,
            wants,
            frames,
            n,
            reading::spots(n, entity_counts(frames), seat_picks(schema, wants, frames)),
            0,
            snapshots::states_through(
                schema,
                Lens::of(schema, &names, scope),
                keyframes,
                wants,
                frames.take(n),
            ),
        ),
    decreases n,
{
    let lens = Lens::of(schema, &names, scope);
    let p = seat_picks(schema, wants, frames);
    let w = entity_counts(frames);
    if n == 0 {
        assert(frames.take(0) =~= Seq::empty());
        let s = snapshots::states_through(schema, lens, keyframes, wants, frames.take(0));
        assert forall|id: PawnId| #[trigger]
            is_identity(
                schema,
                names,
                scope,
                keyframes,
                wants,
                frames,
                id,
                0,
                0,
                known_as(s, id),
            ) by {
            assert(!s.known.contains_key(id));
        }
    } else {
        lemma_states_through(schema, names, scope, keyframes, wants, frames, n - 1);
        assert(frames.take(n).drop_last() =~= frames.take(n - 1));
        let f = frames[n - 1];
        assert(frames.take(n).last() == f);
        let was = snapshots::states_through(schema, lens, keyframes, wants, frames.take(n - 1));
        let now = snapshots::states_through(schema, lens, keyframes, wants, frames.take(n));
        let before = reading::spots(n - 1, w, p);
        let es = f.entities@;
        let m = es.len() as int;
        let j = if wants(f.tick) {
            m
        } else {
            0
        };
        if wants(f.tick) {
            lemma_states_in(
                schema,
                names,
                scope,
                keyframes,
                wants,
                frames,
                n - 1,
                before,
                m,
                was,
            );
            assert(es.take(m) =~= es);
        } else {
            lemma_no_spots(n - 1, m, p);
            assert(before + reading::spots_in(n - 1, m, p) =~= before);
        }
        assert forall|id: PawnId| #[trigger]
            is_identity(
                schema,
                names,
                scope,
                keyframes,
                wants,
                frames,
                id,
                n,
                0,
                known_as(now, id),
            ) by {
            assert(is_identity(
                schema,
                names,
                scope,
                keyframes,
                wants,
                frames,
                id,
                n - 1,
                j,
                known_as(now, id),
            ));
            lemma_identity_turn(
                schema,
                names,
                scope,
                keyframes,
                wants,
                frames,
                id,
                n - 1,
                known_as(now, id),
                j,
            );
        }
    }
}

/// Player states are the pawns in play: there is one row for every pawn in play on every tick
/// that is wanted, in the order of ticks and entities, and each field of it says what the pawn,
/// its slots, its controller and its team show on that tick.
pub proof fn law_states_show_pawns(
    schema: Schema,
    names: Names,
    scope: Scope,
    keyframes: Seq<i32>,
    wants: spec_fn(i32) -> bool,
    frames: Seq<Frame>,
)
    ensures
        ({
            let rows = snapshots::states_through(
                schema,
                Lens::of(schema, &names, scope),
                keyframes,
                wants,
                frames,
            ).rows;
            let places = seats(schema, wants, frames);
            &&& rows.len() == places.len()
            &&& forall|k: int|
                0 <= k < rows.len() ==> is_state_of(
                    schema,
                    names,
                    scope,
                    keyframes,
                    wants,
                    frames,
                    places[k].0,
                    places[k].1,
                    #[trigger] rows[k],
                )
        }),
{
    lemma_states_through(
        schema,
        names,
        scope,
        keyframes,
        wants,
        frames,
        frames.len() as int,
    );
    assert(frames.take(frames.len() as int) =~= frames);
}

/// Whether rows are player states of frames, with the numbers of the rounds they are in.
pub open spec fn are_states(
    schema: Schema,
    names: Names,
    scope: Scope,
    keyframes: Seq<i32>,
    wants: spec_fn(i32) -> bool,
    frames: Seq<Frame>,
    rounds: Seq<crate::rounds::Round<Seq<char>>>,
    rows: Seq<PlayerState<Seq<char>>>,
) -> bool {
    let places = seats(schema, wants, frames);
    &&& rows.len() == places.len()
    &&& forall|k: int|
        0 <= k < rows.len() ==> is_state_of(
            schema,
            names,
            scope,
            keyframes,
            wants,
            frames,
            places[k].0,
            places[k].1,
            #[trigger] rows[k],
        ) && reading::is_round_of(rounds, rows[k].tick, rows[k].round_num)
}

proof fn lemma_finished(
    schema: Schema,
    names: Names,
    scope: Scope,
    keyframes: Seq<i32>,
    wants: spec_fn(i32) -> bool,
    frames: Seq<Frame>,
    rounds: Seq<crate::rounds::Round<Seq<char>>>,
)
    ensures
        are_states(
            schema,
            names,
            scope,
            keyframes,
            wants,
            frames,
            rounds,
            snapshots::finished_states(
                snapshots::states_through(
                    schema,
                    Lens::of(schema, &names, scope),
                    keyframes,
                    wants,
                    frames,
                ).rows,
                rounds,
            ),
        ),
{
    law_states_show_pawns(schema, names, scope, keyframes, wants, frames);
    let told = snapshots::states_through(
        schema,
        Lens::of(schema, &names, scope),
        keyframes,
        wants,
        frames,
    ).rows;
    let rows = snapshots::finished_states(told, rounds);
    let places = seats(schema, wants, frames);
    assert forall|k: int| 0 <= k < rows.len() implies is_state_of(
        schema,
        names,
        scope,
        keyframes,
        wants,
        frames,
        places[k].0,
        places[k].1,
        #[trigger] rows[k],
    ) && reading::is_round_of(rounds, rows[k].tick, rows[k].round_num) by {
        let i = places[k].0;
        let j = places[k].1;
        let t = told[k];
        let r = rows[k];
        assert(is_state_of(schema, names, scope, keyframes, wants, frames, i, j, t));
        reading::law_round_of_tick(rounds, t.tick);
        let f = frames[i];
        let pawn = f.entities@[j];
        assert(shows_pawn(schema, names, scope, f, pawn, r));
        assert(shows_loadout(schema, names, scope, f.entities@, pawn, r)) by {
            assert(shows_loadout(schema, names, scope, f.entities@, pawn, t));
        }
    }
}

/// A query tells of every pawn in play on every tick that it takes, in order, and of nothing
/// else; each field of a row says what the pawn, its slots, its controller, its team and the
/// rounds show.
pub proof fn law_queried_states(p: Parser, wants: spec_fn(i32) -> bool)
    requires
        p.state_rows(wants) is Ok,
    ensures
        are_states(
            p.schema,
            p.names,
            Scope::Snapshots,
            p.keyframes->Ok_0@.map_values(|k: crate::segments::Keyframe| k.tick),
            wants,
            p.frames->Ok_0@,
            p.round_rows()->Ok_0,
            p.state_rows(wants)->Ok_0,
        ),
{
    lemma_finished(
        p.schema,
        p.names,
        Scope::Snapshots,
        p.keyframe_ticks(),
        wants,
        p.frames->Ok_0@,
        p.round_rows()->Ok_0,
    );
}

/// Whether a frame is the last one at or before a tick; none, where all come later.
pub open spec fn is_frame_at(frames: Seq<Frame>, tick: i32, f: Option<Frame>) -> bool {
    match f {
        None => forall|i: int| 0 <= i < frames.len() ==> (#[trigger] frames[i]).tick > tick,
        Some(g) => exists|i: int|
            0 <= i < frames.len() && #[trigger] frames[i] == g && g.tick <= tick && forall|j: int|
                i < j < frames.len() ==> (#[trigger] frames[j]).tick > tick,
    }
}

proof fn lemma_frame_at(frames: Seq<Frame>, tick: i32)
    ensures
        is_frame_at(frames, tick, snapshots::frame_at(frames, tick)),
    decreases frames.len(),
{
    if frames.len() > 0 {
        let init = frames.drop_last();
        lemma_frame_at(init, tick);
        assert forall|i: int| 0 <= i < init.len() implies init[i] == #[trigger] frames[i] by {}
        assert(frames[frames.len() - 1] == frames.last());
        if frames.last().tick > tick {
            if let Some(g) = snapshots::frame_at(init, tick) {
                let i = choose|i: int|
                    0 <= i < init.len() && #[trigger] init[i] == g && g.tick <= tick && forall|
                        j: int,
                    |
                        i < j < init.len() ==> (#[trigger] init[j]).tick > tick;
                assert(frames[i] == g);
                assert forall|j: int| i < j < frames.len() implies (#[trigger] frames[j]).tick
                    > tick by {
                    if j < init.len() {
                        assert(init[j] == frames[j]);
                    }
                }
            } else {
                assert forall|i: int| 0 <= i < frames.len() implies (#[trigger] frames[i]).tick
                    > tick by {
                    if i < init.len() {
                        assert(init[i] == frames[i]);
                    }
                }
            }
        }
    }
}

/// A snapshot tells of every pawn in play in the last frame at or before its tick, in order,
/// by what that frame shows alone; there is nothing to tell where all frames come later.
pub proof fn law_snapshot_states(p: Parser, tick: i32)
    requires
        p.tick_rows(tick) is Ok,
    ensures
        ({
            let frames = p.frames->Ok_0@;
            let rows = p.tick_rows(tick)->Ok_0;
            let f = snapshots::frame_at(frames, tick);
            &&& is_frame_at(frames, tick, f)
            &&& f is None ==> rows.len() == 0
            &&& f matches Some(g) ==> are_states(
                p.schema,
                p.names,
                Scope::All,
                Seq::empty(),
                |t: i32| true,
                seq![g],
                p.round_rows()->Ok_0,
                rows,
            )
        }),
{
    let frames = p.frames->Ok_0@;
    lemma_frame_at(frames, tick);
    if let Some(g) = snapshots::frame_at(frames, tick) {
        let all = |t: i32| true;
        let lens = Lens::of(p.schema, &p.names, Scope::All);
        let one = seq![g];
        let tk = TeamKeys::of(p.schema);
        assert(one.drop_last() =~= Seq::empty());
        assert(one.last() == g);
        assert(resolve::clans_through(tk, one) == resolve::clans_after(
            Map::empty(),
            tk,
            g.entities@,
        )) by {
            reveal_with_fuel(resolve::clans_through, 2);
        }
        reveal_with_fuel(snapshots::states_through, 2);
        let through = snapshots::states_through(p.schema, lens, Seq::empty(), all, one);
        assert(through.rows == snapshots::frame_states(p.schema, lens, g));
        lemma_finished(
            p.schema,
            p.names,
            Scope::All,
            Seq::empty(),
            all,
            one,
            p.round_rows()->Ok_0,
        );
    }
}

/// Whether a number is the latest keyframe at or before a tick; the least number there is,
/// before all of them.
pub open spec fn is_latest_keyframe(keyframes: Seq<i32>, tick: i32, k: i32) -> bool {
    &&& k <= tick
    &&& k == i32::MIN || keyframes.contains(k)
    &&& forall|i: int|
        0 <= i < keyframes.len() && #[trigger] keyframes[i] <= tick ==> keyframes[i] <= k
}

/// What is known of a pawn is known since the latest keyframe.
pub proof fn law_bucket_is_latest_keyframe(keyframes: Seq<i32>, tick: i32)
    ensures
        is_latest_keyframe(keyframes, tick, snapshots::bucket_of(keyframes, tick)),
    decreases keyframes.len(),
{
    if keyframes.len() > 0 {
        let init = keyframes.drop_last();
        law_bucket_is_latest_keyframe(init, tick);
        let b = snapshots::bucket_of(init, tick);
        let k = snapshots::bucket_of(keyframes, tick);
        assert forall|i: int| 0 <= i < init.len() implies init[i] == #[trigger] keyframes[i] by {}
        assert(keyframes[keyframes.len() - 1] == keyframes.last());
        if init.contains(b) {
            let i = choose|i: int| 0 <= i < init.len() && init[i] == b;
            assert(keyframes[i] == b);
        }
        assert forall|i: int|
            0 <= i < keyframes.len() && #[trigger] keyframes[i] <= tick implies keyframes[i]
            <= k by {
            if i < init.len() {
                assert(init[i] == keyframes[i]);
            }
        }
    }
}

/// Which ticks a query takes: none outside its window; within it all, where neither a stride
/// nor ticks are asked for, and else those that are asked for and those that the stride takes.
pub proof fn law_query_takes(
    p: Parser,
    every: Option<i32>,
    ticks: Set<i32>,
    start: i32,
    end: i32,
    tick: i32,
)
    requires
        p.frames is Ok,
    ensures
        ({
            let takes = p.sampled_ticks(every, ticks, start, end);
            let within = start <= tick && tick <= end;
            &&& takes(tick) ==> within
            &&& within && ticks.contains(tick) ==> takes(tick)
            &&& within && every is None && (forall|t: i32| !ticks.contains(t)) ==> takes(tick)
            &&& within && every is None && (exists|t: i32| ticks.contains(t)) ==> takes(tick)
                == ticks.contains(tick)
            &&& within && every is Some && !ticks.contains(tick) ==> takes(tick)
                == snapshots::stride(p.frames->Ok_0@, every->0).taken.contains(tick)
        }),
{
    if exists|t: i32| ticks.contains(t) {
        let t = choose|t: i32| ticks.contains(t);
        assert(ticks.contains(t));
        assert(!ticks.is_empty());
    } else {
        assert(ticks =~= Set::empty());
    }
}

/// A stride takes the first tick of a demo, and from then on a tick exactly where at least
/// `step` ticks lie between it and the last one taken.
pub proof fn law_stride_takes(frames: Seq<Frame>, step: i32, n: int)
    requires
        0 < n <= frames.len(),
    ensures
        ({
            let before = snapshots::stride(frames.take(n - 1), step);
            let now = snapshots::stride(frames.take(n), step);
            let tick = frames[n - 1].tick;
            let due = n == 1 || tick - before.last->0 >= step;
            &&& now.last == (if due {
                Some(tick)
            } else {
                before.last
            })
            &&& now.last is Some
            &&& forall|t: i32| #[trigger]
                now.taken.contains(t) <==> before.taken.contains(t) || (due && t == tick)
        }),
    decreases n,
{
    assert(frames.take(n).drop_last() =~= frames.take(n - 1));
    assert(frames.take(n).last() == frames[n - 1]);
    if n == 1 {
        assert(frames.take(0) =~= Seq::empty());
    } else {
        law_stride_takes(frames, step, n - 1);
    }
}

} // verus!
