//! Weapon transactions: one row for every weapon that enters or leaves an inventory and tells
//! of a purchase, a pickup or a drop.
use crate::demo;
use crate::demo::{Entity, Frame, Schema};
use crate::float::Float;
use crate::items;
use crate::items::{ItemEvent, ItemsState};
use crate::laws::reading;
use crate::laws::states;
use crate::names::{Names, Scope, WeaponInfo, WeaponSlot};
use crate::resolve::Lens;
use crate::text;
use vstd::prelude::*;

verus! {

/// Whether an entity is a player pawn in use.
pub open spec fn is_pawn(e: Entity) -> bool {
    e.active && e.class_name@ == "CCSPlayerPawn"@
}

/// The handle in an inventory slot of a pawn.
pub open spec fn handle_in(schema: Schema, pawn: Entity, s: int) -> Option<u32> {
    pawn.handle_at(
        schema.element_key_of("CCSPlayerPawn"@, "m_pWeaponServices.m_hMyWeapons"@, s as u8),
    )
}

/// Whether the first `n` slots of a pawn hold a weapon.
pub open spec fn holds(schema: Schema, pawn: Entity, n: int, h: u32) -> bool {
    exists|s: int| 0 <= s < n && #[trigger] handle_in(schema, pawn, s) == Some(h)
}

/// Whether a pawn carries a weapon.
pub open spec fn carries(schema: Schema, pawn: Entity, h: u32) -> bool {
    holds(schema, pawn, states::slots_in_use(schema, pawn), h)
}

/// Whether a slot of a pawn is the first that holds its weapon.
pub open spec fn is_first_slot(schema: Schema, pawn: Entity, s: int) -> bool {
    handle_in(schema, pawn, s) matches Some(h) && !holds(schema, pawn, s, h)
}

/// The controller of entity `j` of frame `i`.
pub open spec fn controller_at(
    schema: Schema,
    names: Names,
    frames: Seq<Frame>,
    i: int,
    j: int,
) -> Option<Entity> {
    states::controller_of(
        schema,
        names,
        Scope::Snapshots,
        frames[i].entities@,
        frames[i].entities@[j],
    )
}

/// The Steam id of entity `j` of frame `i`.
pub open spec fn steamid_at(
    schema: Schema,
    names: Names,
    frames: Seq<Frame>,
    i: int,
    j: int,
) -> Option<u64> {
    match controller_at(schema, names, frames, i, j) {
        Some(c) => c.u64_at(states::controller_key(schema, "m_steamID"@)),
        None => None,
    }
}

/// The money of entity `j` of frame `i`.
pub open spec fn money_at(
    schema: Schema,
    names: Names,
    frames: Seq<Frame>,
    i: int,
    j: int,
) -> i32 {
    controller_at(schema, names, frames, i, j)->0.i64_at(
        states::controller_key(schema, "m_pInGameMoneyServices.m_iAccount"@),
    ) as i32
}

/// Which entities of which frames are pawns of an index.
pub open spec fn pawns_of_index(frames: Seq<Frame>, index: i32) -> spec_fn(int, int) -> bool {
    |a: int, b: int| is_pawn(frames[a].entities@[b]) && frames[a].entities@[b].index == index
}

/// Which entities of which frames are pawns of a player.
pub open spec fn pawns_of_player(
    schema: Schema,
    names: Names,
    frames: Seq<Frame>,
    id: u64,
) -> spec_fn(int, int) -> bool {
    |a: int, b: int|
        is_pawn(frames[a].entities@[b]) && steamid_at(schema, names, frames, a, b) == Some(id)
}

/// The pawn of an index as it was seen last before entity `j` of frame `i`.
pub open spec fn pawn_before(frames: Seq<Frame>, index: i32, i: int, j: int) -> Option<
    (int, int),
> {
    reading::last_before(i, j, states::entity_counts(frames), pawns_of_index(frames, index))
}

/// The pawn of a player as it was seen last before entity `j` of frame `i`.
pub open spec fn player_before(
    schema: Schema,
    names: Names,
    frames: Seq<Frame>,
    id: u64,
    i: int,
    j: int,
) -> Option<(int, int)> {
    reading::last_before(
        i,
        j,
        states::entity_counts(frames),
        pawns_of_player(schema, names, frames, id),
    )
}

/// The money that the player of entity `j` of frame `i` has less than when seen last.
pub open spec fn spent_at(
    schema: Schema,
    names: Names,
    frames: Seq<Frame>,
    i: int,
    j: int,
) -> int {
    match player_before(
        schema,
        names,
        frames,
        steamid_at(schema, names, frames, i, j)->0,
        i,
        j,
    ) {
        Some((a, b)) => money_at(schema, names, frames, a, b) - money_at(
            schema,
            names,
            frames,
            i,
            j,
        ),
        None => 0,
    }
}

/// Whether the pawn of entity `j` of frame `i` carried a weapon when it was seen last.
pub open spec fn carried_before(
    schema: Schema,
    frames: Seq<Frame>,
    i: int,
    j: int,
    h: u32,
) -> bool {
    pawn_before(frames, frames[i].entities@[j].index, i, j) matches Some((a, b)) && carries(
        schema,
        frames[a].entities@[b],
        h,
    )
}

/// The weapon that a handle points at, unless it is a knife.
pub open spec fn weapon_of(names: Names, entities: Seq<Entity>, h: u32) -> Option<
    (Entity, WeaponInfo),
> {
    match demo::entity_at(entities, Scope::Snapshots, names, h) {
        Some(w) => match names.weapon(w.class_name@) {
            Some(info) => if info.slot == WeaponSlot::Melee {
                None
            } else {
                Some((w, info))
            },
            None => None,
        },
        None => None,
    }
}

/// The Steam id of the original owner of a weapon, by its upper and its lower half.
pub open spec fn first_owner(schema: Schema, w: Entity) -> Option<u64> {
    let high = w.u32_at(schema.key_of(w.class_name@, "m_OriginalOwnerXuidHigh"@));
    let low = w.u32_at(schema.key_of(w.class_name@, "m_OriginalOwnerXuidLow"@));
    if high == 0 && low == 0 {
        None
    } else {
        Some((high * 4_294_967_296 + low) as u64)
    }
}

/// Whether an item comes with every round, for nothing.
pub open spec fn comes_free(item: Seq<char>) -> bool {
    item == "glock"@ || item == "usp_silencer"@ || item == "hkp2000"@ || item == "c4"@
}

/// Whether the weapon in a slot of entity `j` of frame `i` has just entered the inventory of a
/// known player.
pub open spec fn enters(
    schema: Schema,
    names: Names,
    frames: Seq<Frame>,
    i: int,
    j: int,
    s: int,
) -> bool {
    let pawn = frames[i].entities@[j];
    &&& steamid_at(schema, names, frames, i, j) is Some
    &&& is_first_slot(schema, pawn, s)
    &&& !carried_before(schema, frames, i, j, handle_in(schema, pawn, s)->0)
    &&& weapon_of(names, frames[i].entities@, handle_in(schema, pawn, s)->0) is Some
}

/// Whether the weapon in a slot of entity `j` of frame `i` is bought: it enters the inventory,
/// does not come for nothing, and the player has less money, by no more than 6500.
pub open spec fn is_bought(
    schema: Schema,
    names: Names,
    frames: Seq<Frame>,
    i: int,
    j: int,
    s: int,
) -> bool {
    let pawn = frames[i].entities@[j];
    &&& enters(schema, names, frames, i, j, s)
    &&& !comes_free(
        (weapon_of(names, frames[i].entities@, handle_in(schema, pawn, s)->0)->0).1.name@,
    )
    &&& 0 < spent_at(schema, names, frames, i, j) <= 6500
}

/// Whether the weapon in a slot of entity `j` of frame `i` is picked up: it enters the
/// inventory, is not bought, and is another's or was dropped before.
pub open spec fn is_picked_up(
    schema: Schema,
    names: Names,
    frames: Seq<Frame>,
    i: int,
    j: int,
    s: int,
) -> bool {
    let pawn = frames[i].entities@[j];
    let w = (weapon_of(names, frames[i].entities@, handle_in(schema, pawn, s)->0)->0).0;
    &&& enters(schema, names, frames, i, j, s)
    &&& !is_bought(schema, names, frames, i, j, s)
    &&& first_owner(schema, w) != steamid_at(schema, names, frames, i, j) || w.real_at(
        schema.key_of(w.class_name@, "m_flDroppedAtTime"@),
    ).above(Float { bits: 0 })
}

/// Whether the weapon that was in slot `s` when the pawn of entity `j` of frame `i` was seen
/// last is dropped: the player is known and carries it no more, and no pawn owns it.
pub open spec fn is_dropped(
    schema: Schema,
    names: Names,
    frames: Seq<Frame>,
    i: int,
    j: int,
    s: int,
) -> bool {
    let pawn = frames[i].entities@[j];
    let (a, b) = pawn_before(frames, pawn.index, i, j)->0;
    let was = frames[a].entities@[b];
    let h = handle_in(schema, was, s)->0;
    let w = (weapon_of(names, frames[i].entities@, h)->0).0;
    &&& steamid_at(schema, names, frames, i, j) is Some
    &&& is_first_slot(schema, was, s)
    &&& !carries(schema, pawn, h)
    &&& weapon_of(names, frames[i].entities@, h) is Some
    &&& !(demo::linked(
        frames[i].entities@,
        Scope::Snapshots,
        names,
        w.handle_at(schema.key_of(w.class_name@, "m_hOwnerEntity"@)),
    ) matches Some(o) && text::holds_text(o.class_name@, "PlayerPawn"@))
}

/// Whether a row names a pawn's player, on a tick and where the pawn is.
pub open spec fn names_actor(
    schema: Schema,
    names: Names,
    frames: Seq<Frame>,
    i: int,
    j: int,
    row: ItemEvent<Seq<char>>,
) -> bool {
    let pawn = frames[i].entities@[j];
    let placed = pawn.has(
        states::pawn_key(schema, "CBodyComponent.m_skeletonInstance.m_vecOrigin.m_vecX"@),
    );
    &&& row.tick == frames[i].tick
    &&& row.steamid == steamid_at(schema, names, frames, i, j)
    &&& row.name == controller_at(schema, names, frames, i, j)->0.text_at(
        states::controller_key(schema, "m_iszPlayerName"@),
    )
    &&& row.side == Some(
        names.teams.name(pawn.i64_at(states::pawn_key(schema, "m_iTeamNum"@))),
    )
    &&& row.x == (if placed {
        Some(pawn.world.x)
    } else {
        None
    })
    &&& row.y == (if placed {
        Some(pawn.world.y)
    } else {
        None
    })
    &&& row.z == (if placed {
        Some(pawn.world.z)
    } else {
        None
    })
}

/// A weapon that moves: the frame, the entity, the slot and whether it comes or goes.
pub struct Move {
    pub i: int,
    pub j: int,
    pub s: int,
    pub comes: bool,
}

/// Whether a row tells of a weapon that moves.
pub open spec fn tells_of(
    schema: Schema,
    names: Names,
    frames: Seq<Frame>,
    m: Move,
    row: ItemEvent<Seq<char>>,
) -> bool {
    let pawn = frames[m.i].entities@[m.j];
    &&& names_actor(schema, names, frames, m.i, m.j, row)
    &&& if m.comes {
        let (w, info) = weapon_of(
            names,
            frames[m.i].entities@,
            handle_in(schema, pawn, m.s)->0,
        )->0;
        &&& row.item == info.name@
        &&& row.near_buy_zone is None
        &&& if is_bought(schema, names, frames, m.i, m.j, m.s) {
            &&& row.action == "purchase"@
            &&& row.cost == Some(spent_at(schema, names, frames, m.i, m.j) as i32)
            &&& row.original_owner_steamid == row.steamid
        } else {
            &&& is_picked_up(schema, names, frames, m.i, m.j, m.s)
            &&& row.action == "pickup"@
            &&& row.cost is None
            &&& row.original_owner_steamid == first_owner(schema, w)
        }
    } else {
        let (a, b) = pawn_before(frames, pawn.index, m.i, m.j)->0;
        let (w, info) = weapon_of(
            names,
            frames[m.i].entities@,
            handle_in(schema, frames[a].entities@[b], m.s)->0,
        )->0;
        &&& row.item == info.name@
        &&& row.action == "drop"@
        &&& row.cost is None
        &&& row.original_owner_steamid == first_owner(schema, w)
        &&& row.near_buy_zone == Some(
            w.bool_at(schema.key_of(w.class_name@, "m_bDroppedNearBuyZone"@)),
        )
    }
}

/// The slots of entity `j` of frame `i` whose weapons come with a tale.
pub open spec fn comings(
    schema: Schema,
    names: Names,
    frames: Seq<Frame>,
    i: int,
    j: int,
    n: int,
) -> Seq<Move> {
    reading::picks(
        n,
        |s: int|
            is_bought(schema, names, frames, i, j, s) || is_picked_up(
                schema,
                names,
                frames,
                i,
                j,
                s,
            ),
    ).map_values(|s: int| Move { i, j, s, comes: true })
}

/// The former slots of entity `j` of frame `i` whose weapons are dropped.
pub open spec fn goings(
    schema: Schema,
    names: Names,
    frames: Seq<Frame>,
    i: int,
    j: int,
    n: int,
) -> Seq<Move> {
    reading::picks(n, |s: int| is_dropped(schema, names, frames, i, j, s)).map_values(
        |s: int| Move { i, j, s, comes: false },
    )
}

/// The weapons that move with entity `j` of frame `i`: those that come, and then those that
/// go, each in slot order.
pub open spec fn moves_at(
    schema: Schema,
    names: Names,
    frames: Seq<Frame>,
    i: int,
    j: int,
) -> Seq<Move> {
    let pawn = frames[i].entities@[j];
    if is_pawn(pawn) {
        comings(schema, names, frames, i, j, states::slots_in_use(schema, pawn)) + (
        match pawn_before(frames, pawn.index, i, j) {
            Some((a, b)) => goings(
                schema,
                names,
                frames,
                i,
                j,
                states::slots_in_use(schema, frames[a].entities@[b]),
            ),
            None => Seq::empty(),
        })
    } else {
        Seq::empty()
    }
}

/// The weapons that move with the first `m` entities of frame `i`.
pub open spec fn moves_in(
    schema: Schema,
    names: Names,
    frames: Seq<Frame>,
    i: int,
    m: int,
) -> Seq<Move>
    decreases m,
{
    if m <= 0 {
        Seq::empty()
    } else {
        moves_in(schema, names, frames, i, m - 1) + moves_at(schema, names, frames, i, m - 1)
    }
}

/// The weapons that move in the first `n` frames.
pub open spec fn moves(schema: Schema, names: Names, frames: Seq<Frame>, n: int) -> Seq<Move>
    decreases n,
{
    if n <= 0 {
        Seq::empty()
    } else {
        moves(schema, names, frames, n - 1) + moves_in(
            schema,
            names,
            frames,
            n - 1,
            frames[n - 1].entities@.len() as int,
        )
    }
}

/// Whether rows tell of weapons that move, one for one.
pub open spec fn tell_all(
    schema: Schema,
    names: Names,
    frames: Seq<Frame>,
    all: Seq<Move>,
    rows: Seq<ItemEvent<Seq<char>>>,
) -> bool {
    &&& rows.len() == all.len()
    &&& forall|k: int|
        0 <= k < rows.len() ==> tells_of(schema, names, frames, all[k], #[trigger] rows[k])
}

proof fn lemma_tell_more(
    schema: Schema,
    names: Names,
    frames: Seq<Frame>,
    a: Seq<Move>,
    b: Seq<Move>,
    x: Seq<ItemEvent<Seq<char>>>,
    y: Seq<ItemEvent<Seq<char>>>,
)
    requires
        tell_all(schema, names, frames, a, x),
        tell_all(schema, names, frames, b, y),
    ensures
        tell_all(schema, names, frames, a + b, x + y),
{
    let all = a + b;
    let rows = x + y;
    assert forall|k: int| 0 <= k < rows.len() implies tells_of(
        schema,
        names,
        frames,
        all[k],
        #[trigger] rows[k],
    ) by {
        if k < x.len() {
            assert(rows[k] == x[k]);
        } else {
            assert(rows[k] == y[k - x.len()]);
        }
    }
}

proof fn lemma_handles(schema: Schema, pawn: Entity, m: int)
    requires
        0 <= m <= 64,
    ensures
        forall|h: u32| #[trigger]
            items::handles_in(pawn, items::inventory_keys(schema).slots.take(m)).contains(h)
                <==> holds(schema, pawn, m, h),
    decreases m,
{
    let slots = items::inventory_keys(schema).slots;
    if m == 0 {
        assert(slots.take(0) =~= Seq::empty());
    } else {
        lemma_handles(schema, pawn, m - 1);
        assert(slots.take(m).drop_last() =~= slots.take(m - 1));
        assert(slots.take(m).last() == slots[m - 1]);
        let rest = items::handles_in(pawn, slots.take(m - 1));
        let all = items::handles_in(pawn, slots.take(m));
        let own = handle_in(schema, pawn, m - 1);
        assert(own == pawn.handle_at(slots[m - 1]));
        assert forall|h: u32| #[trigger] all.contains(h) <==> holds(schema, pawn, m, h) by {
            if all.contains(h) {
                let k = choose|k: int| 0 <= k < all.len() && all[k] == h;
                if k < rest.len() {
                    assert(rest[k] == h);
                    assert(rest.contains(h));
                    let s = choose|s: int|
                        0 <= s < m - 1 && #[trigger] handle_in(schema, pawn, s) == Some(h);
                    assert(handle_in(schema, pawn, s) == Some(h));
                } else {
                    assert(handle_in(schema, pawn, m - 1) == Some(h));
                }
            }
            if holds(schema, pawn, m, h) {
                let s = choose|s: int|
                    0 <= s < m && #[trigger] handle_in(schema, pawn, s) == Some(h);
                if s < m - 1 {
                    assert(handle_in(schema, pawn, s) == Some(h));
                    assert(holds(schema, pawn, m - 1, h));
                    assert(rest.contains(h));
                }
                if rest.contains(h) {
                    let k = choose|k: int| 0 <= k < rest.len() && rest[k] == h;
                    assert(all[k] == h);
                } else {
                    assert(all[rest.len() as int] == h);
                }
            }
        }
    }
}

proof fn lemma_comings(
    schema: Schema,
    names: Names,
    frames: Seq<Frame>,
    i: int,
    j: int,
    prev: Seq<u32>,
    delta: int,
    m: int,
)
    requires
        0 <= i < frames.len(),
        0 <= j < frames[i].entities@.len(),
        0 <= m <= 64,
        steamid_at(schema, names, frames, i, j) is Some,
        delta == -spent_at(schema, names, frames, i, j),
        forall|h: u32| #[trigger]
            prev.contains(h) <==> carried_before(schema, frames, i, j, h),
    ensures
        tell_all(
            schema,
            names,
            frames,
            comings(schema, names, frames, i, j, m),
            items::all_acquired(
                schema,
                Lens::of(schema, &names, Scope::Snapshots),
                frames[i],
                Lens::of(schema, &names, Scope::Snapshots).player_of_pawn(
                    frames[i].entities@,
                    frames[i].entities@[j],
                    Map::empty(),
                ),
                delta,
                items::handles_in(
                    frames[i].entities@[j],
                    items::inventory_keys(schema).slots.take(m),
                ),
                prev,
            ),
        ),
    decreases m,
{
    let lens = Lens::of(schema, &names, Scope::Snapshots);
    let f = frames[i];
    let pawn = f.entities@[j];
    let actor = lens.player_of_pawn(f.entities@, pawn, Map::empty());
    let slots = items::inventory_keys(schema).slots;
    let cur = items::handles_in(pawn, slots.take(m));
    let rows = items::all_acquired(schema, lens, f, actor, delta, cur, prev);
    let all = comings(schema, names, frames, i, j, m);
    if m == 0 {
        assert(slots.take(0) =~= Seq::empty());
    } else {
        lemma_comings(schema, names, frames, i, j, prev, delta, m - 1);
        lemma_handles(schema, pawn, m - 1);
        assert(slots.take(m).drop_last() =~= slots.take(m - 1));
        assert(slots.take(m).last() == slots[m - 1]);
        let s = m - 1;
        let was = items::handles_in(pawn, slots.take(s));
        let before = comings(schema, names, frames, i, j, s);
        let told = items::all_acquired(schema, lens, f, actor, delta, was, prev);
        assert(handle_in(schema, pawn, s) == pawn.handle_at(slots[s]));
        assert(actor.steamid == steamid_at(schema, names, frames, i, j));
        let tale = is_bought(schema, names, frames, i, j, s) || is_picked_up(
            schema,
            names,
            frames,
            i,
            j,
            s,
        );
        let one = Move { i, j, s, comes: true };
        if tale {
            assert(all =~= before.push(one));
        } else {
            assert(all =~= before);
        }
        if let Some(h) = handle_in(schema, pawn, s) {
            if was.contains(h) {
                assert(!is_first_slot(schema, pawn, s));
            } else {
                assert(cur == was.push(h));
                assert(cur.drop_last() =~= was);
                assert(cur.last() == h);
                assert(is_first_slot(schema, pawn, s));
                if !prev.contains(h) {
                    let got = items::acquired(schema, lens, f, actor, delta, h);
                    assert(got is Some == tale);
                    if tale {
                        assert(rows == told.push(got->0));
                        assert(tells_of(schema, names, frames, one, got->0));
                        assert forall|k: int| 0 <= k < rows.len() implies tells_of(
                            schema,
                            names,
                            frames,
                            all[k],
                            #[trigger] rows[k],
                        ) by {
                            if k < told.len() {
                                assert(rows[k] == told[k]);
                            }
                        }
                    }
                }
            }
        }
    }
}

proof fn lemma_goings(
    schema: Schema,
    names: Names,
    frames: Seq<Frame>,
    i: int,
    j: int,
    cur: Seq<u32>,
    m: int,
)
    requires
        0 <= i < frames.len(),
        0 <= j < frames[i].entities@.len(),
        0 <= m <= 64,
        steamid_at(schema, names, frames, i, j) is Some,
        pawn_before(frames, frames[i].entities@[j].index, i, j) is Some,
        forall|h: u32| #[trigger]
            cur.contains(h) <==> carries(schema, frames[i].entities@[j], h),
    ensures
        ({
            let (a, b) = pawn_before(frames, frames[i].entities@[j].index, i, j)->0;
            tell_all(
                schema,
                names,
                frames,
                goings(schema, names, frames, i, j, m),
                items::all_released(
                    schema,
                    Lens::of(schema, &names, Scope::Snapshots),
                    frames[i],
                    Lens::of(schema, &names, Scope::Snapshots).player_of_pawn(
                        frames[i].entities@,
                        frames[i].entities@[j],
                        Map::empty(),
                    ),
                    items::handles_in(
                        frames[a].entities@[b],
                        items::inventory_keys(schema).slots.take(m),
                    ),
                    cur,
                ),
            )
        }),
    decreases m,
{
    let lens = Lens::of(schema, &names, Scope::Snapshots);
    let f = frames[i];
    let pawn = f.entities@[j];
    let (a, b) = pawn_before(frames, pawn.index, i, j)->0;
    let old_pawn = frames[a].entities@[b];
    let actor = lens.player_of_pawn(f.entities@, pawn, Map::empty());
    let slots = items::inventory_keys(schema).slots;
    let prev = items::handles_in(old_pawn, slots.take(m));
    let rows = items::all_released(schema, lens, f, actor, prev, cur);
    let all = goings(schema, names, frames, i, j, m);
    if m == 0 {
        assert(slots.take(0) =~= Seq::empty());
    } else {
        lemma_goings(schema, names, frames, i, j, cur, m - 1);
        lemma_handles(schema, old_pawn, m - 1);
        assert(slots.take(m).drop_last() =~= slots.take(m - 1));
        assert(slots.take(m).last() == slots[m - 1]);
        let s = m - 1;
        let was = items::handles_in(old_pawn, slots.take(s));
        let before = goings(schema, names, frames, i, j, s);
        let told = items::all_released(schema, lens, f, actor, was, cur);
        assert(handle_in(schema, old_pawn, s) == old_pawn.handle_at(slots[s]));
        assert(actor.steamid == steamid_at(schema, names, frames, i, j));
        let tale = is_dropped(schema, names, frames, i, j, s);
        let one = Move { i, j, s, comes: false };
        if tale {
            assert(all =~= before.push(one));
        } else {
            assert(all =~= before);
        }
        if let Some(h) = handle_in(schema, old_pawn, s) {
            if was.contains(h) {
                assert(!is_first_slot(schema, old_pawn, s));
            } else {
                assert(prev == was.push(h));
                assert(prev.drop_last() =~= was);
                assert(prev.last() == h);
                assert(is_first_slot(schema, old_pawn, s));
                if !cur.contains(h) {
                    let got = items::released(schema, lens, f, actor, h);
                    assert(got is Some == tale);
                    if tale {
                        assert(rows == told.push(got->0));
                        assert(tells_of(schema, names, frames, one, got->0));
                        assert forall|k: int| 0 <= k < rows.len() implies tells_of(
                            schema,
                            names,
                            frames,
                            all[k],
                            #[trigger] rows[k],
                        ) by {
                            if k < told.len() {
                                assert(rows[k] == told[k]);
                            }
                        }
                    }
                }
            }
        }
    }
}

/// What is remembered before entity `j` of frame `i`: the inventories of pawns and the money of
/// players as they were seen last.
spec fn remembers(
    schema: Schema,
    names: Names,
    frames: Seq<Frame>,
    i: int,
    j: int,
    s: ItemsState,
) -> bool {
    &&& forall|index: i32| #[trigger]
        s.inventories.contains_key(index) <==> pawn_before(frames, index, i, j) is Some
    &&& forall|index: i32| #[trigger]
        s.inventories.contains_key(index) ==> s.inventories[index] == items::carried(
            frames[(pawn_before(frames, index, i, j)->0).0].entities@[(pawn_before(
                frames,
                index,
                i,
                j,
            )->0).1],
            items::inventory_keys(schema),
        )
    &&& forall|id: u64| #[trigger]
        s.money.contains_key(id) <==> player_before(schema, names, frames, id, i, j) is Some
    &&& forall|id: u64| #[trigger]
        s.money.contains_key(id) ==> s.money[id] == money_at(
            schema,
            names,
            frames,
            (player_before(schema, names, frames, id, i, j)->0).0,
            (player_before(schema, names, frames, id, i, j)->0).1,
        )
}

proof fn lemma_before_step(
    i: int,
    j: int,
    width: spec_fn(int) -> int,
    p: spec_fn(int, int) -> bool,
)
    requires
        j >= 0,
    ensures
        reading::last_before(i, j + 1, width, p) == (if p(i, j) {
            Some((i, j))
        } else {
            reading::last_before(i, j, width, p)
        }),
{
}

proof fn lemma_items_step(
    schema: Schema,
    names: Names,
    frames: Seq<Frame>,
    i: int,
    j: int,
    all: Seq<Move>,
    s: ItemsState,
)
    requires
        0 <= i < frames.len(),
        0 <= j < frames[i].entities@.len(),
        remembers(schema, names, frames, i, j, s),
        tell_all(schema, names, frames, all, s.rows),
    ensures
        ({
            let now = items::items_step(
                s,
                schema,
                Lens::of(schema, &names, Scope::Snapshots),
                items::inventory_keys(schema),
                frames[i],
                frames[i].entities@[j],
            );
            &&& remembers(schema, names, frames, i, j + 1, now)
            &&& tell_all(
                schema,
                names,
                frames,
                all + moves_at(schema, names, frames, i, j),
                now.rows,
            )
        }),
{
    let lens = Lens::of(schema, &names, Scope::Snapshots);
    let ik = items::inventory_keys(schema);
    let f = frames[i];
    let e = f.entities@[j];
    let now = items::items_step(s, schema, lens, ik, f, e);
    let w = states::entity_counts(frames);
    assert forall|index: i32| #[trigger] pawn_before(frames, index, i, j + 1) == (if is_pawn(e)
        && e.index == index {
        Some((i, j))
    } else {
        pawn_before(frames, index, i, j)
    }) by {
        lemma_before_step(i, j, w, pawns_of_index(frames, index));
    }
    assert forall|id: u64| #[trigger] player_before(schema, names, frames, id, i, j + 1) == (
    if is_pawn(e) && steamid_at(schema, names, frames, i, j) == Some(id) {
        Some((i, j))
    } else {
        player_before(schema, names, frames, id, i, j)
    }) by {
        lemma_before_step(i, j, w, pawns_of_player(schema, names, frames, id));
    }
    let actor = lens.player_of_pawn(f.entities@, e, Map::empty());
    assert(actor.steamid == steamid_at(schema, names, frames, i, j));
    if !is_pawn(e) {
        assert(now == s);
        assert(all + Seq::empty() =~= all);
    } else {
        let cur = items::carried(e, ik);
        let prev = items::inventory_before(s.inventories, e.index);
        let n = states::slots_in_use(schema, e);
        assert(n == items::slots_used(e, ik));
        let last = pawn_before(frames, e.index, i, j);
        lemma_handles(schema, e, n);
        assert forall|h: u32| #[trigger] prev.contains(h) <==> carried_before(
            schema,
            frames,
            i,
            j,
            h,
        ) by {
            assert(s.inventories.contains_key(e.index) <==> last is Some);
            if let Some((a, b)) = last {
                let o = frames[a].entities@[b];
                lemma_handles(schema, o, states::slots_in_use(schema, o));
            }
        }
        if let Some(id) = actor.steamid {
            let account = items::account_of(lens, f, e);
            let delta = items::money_change(s.money, id, account);
            assert(s.money.contains_key(id) <==> player_before(
                schema,
                names,
                frames,
                id,
                i,
                j,
            ) is Some);
            assert(account == Some(money_at(schema, names, frames, i, j)));
            assert(delta == -spent_at(schema, names, frames, i, j));
            lemma_comings(schema, names, frames, i, j, prev, delta, n);
            let got = items::all_acquired(schema, lens, f, actor, delta, cur, prev);
            let lost = items::all_released(schema, lens, f, actor, prev, cur);
            let come = comings(schema, names, frames, i, j, n);
            lemma_tell_more(schema, names, frames, all, come, s.rows, got);
            if let Some((a, b)) = last {
                let o = frames[a].entities@[b];
                let m = states::slots_in_use(schema, o);
                lemma_goings(schema, names, frames, i, j, cur, m);
                let go = goings(schema, names, frames, i, j, m);
                lemma_tell_more(schema, names, frames, all + come, go, s.rows + got, lost);
                assert(all + come + go =~= all + (come + go));
            } else {
                assert(prev =~= Seq::empty());
                assert(s.rows + got + lost =~= s.rows + got);
                assert(all + (come + Seq::empty()) =~= all + come);
            }
        } else {
            lemma_no_moves(schema, names, frames, i, j, n);
            assert(comings(schema, names, frames, i, j, n) =~= Seq::empty());
            if let Some((a, b)) = last {
                let m = states::slots_in_use(schema, frames[a].entities@[b]);
                lemma_no_moves(schema, names, frames, i, j, m);
                assert(goings(schema, names, frames, i, j, m) =~= Seq::empty());
            }
            assert(all + moves_at(schema, names, frames, i, j) =~= all);
        }
    }
}

proof fn lemma_no_moves(
    schema: Schema,
    names: Names,
    frames: Seq<Frame>,
    i: int,
    j: int,
    n: int,
)
    requires
        steamid_at(schema, names, frames, i, j) is None,
    ensures
        comings(schema, names, frames, i, j, n).len() == 0,
        goings(schema, names, frames, i, j, n).len() == 0,
    decreases n,
{
    if n > 0 {
        lemma_no_moves(schema, names, frames, i, j, n - 1);
        assert(!enters(schema, names, frames, i, j, n - 1));
    }
}

proof fn lemma_items_in(
    schema: Schema,
    names: Names,
    frames: Seq<Frame>,
    i: int,
    m: int,
    all: Seq<Move>,
    s: ItemsState,
)
    requires
        0 <= i < frames.len(),
        0 <= m <= frames[i].entities@.len(),
        remembers(schema, names, frames, i, 0, s),
        tell_all(schema, names, frames, all, s.rows),
    ensures
        ({
            let now = items::items_in(
                s,
                schema,
                Lens::of(schema, &names, Scope::Snapshots),
                items::inventory_keys(schema),
                frames[i],
                frames[i].entities@.take(m),
            );
            &&& remembers(schema, names, frames, i, m, now)
            &&& tell_all(
                schema,
                names,
                frames,
                all + moves_in(schema, names, frames, i, m),
                now.rows,
            )
        }),
    decreases m,
{
    let es = frames[i].entities@;
    if m == 0 {
        assert(es.take(0) =~= Seq::empty());
        assert(all + Seq::empty() =~= all);
    } else {
        lemma_items_in(schema, names, frames, i, m - 1, all, s);
        assert(es.take(m).drop_last() =~= es.take(m - 1));
        assert(es.take(m).last() == es[m - 1]);
        let then = items::items_in(
            s,
            schema,
            Lens::of(schema, &names, Scope::Snapshots),
            items::inventory_keys(schema),
            frames[i],
            es.take(m - 1),
        );
        let before = moves_in(schema, names, frames, i, m - 1);
        lemma_items_step(schema, names, frames, i, m - 1, all + before, then);
        assert(all + before + moves_at(schema, names, frames, i, m - 1) =~= all + (before
            + moves_at(schema, names, frames, i, m - 1)));
    }
}

proof fn lemma_items_through(schema: Schema, names: Names, frames: Seq<Frame>, n: int)
    requires
        0 <= n <= frames.len(),
    ensures
        ({
            let now = items::items_through(
                schema,
                Lens::of(schema, &names, Scope::Snapshots),
                items::inventory_keys(schema),
                frames.take(n),
            );
            &&& remembers(schema, names, frames, n, 0, now)
            &&& tell_all(schema, names, frames, moves(schema, names, frames, n), now.rows)
        }),
    decreases n,
{
    if n == 0 {
        assert(frames.take(0) =~= Seq::empty());
    } else {
        lemma_items_through(schema, names, frames, n - 1);
        assert(frames.take(n).drop_last() =~= frames.take(n - 1));
        assert(frames.take(n).last() == frames[n - 1]);
        let was = items::items_through(
            schema,
            Lens::of(schema, &names, Scope::Snapshots),
            items::inventory_keys(schema),
            frames.take(n - 1),
        );
        let es = frames[n - 1].entities@;
        let m = es.len() as int;
        lemma_items_in(
            schema,
            names,
            frames,
            n - 1,
            m,
            moves(schema, names, frames, n - 1),
            was,
        );
        assert(es.take(m) =~= es);
        let w = states::entity_counts(frames);
        assert forall|index: i32| #[trigger] pawn_before(frames, index, n, 0) == pawn_before(
            frames,
            index,
            n - 1,
            m,
        ) by {
            reading::lemma_last_turn(n - 1, w, pawns_of_index(frames, index));
        }
        assert forall|id: u64| #[trigger] player_before(schema, names, frames, id, n, 0)
            == player_before(schema, names, frames, id, n - 1, m) by {
            reading::lemma_last_turn(n - 1, w, pawns_of_player(schema, names, frames, id));
        }
    }
}

/// Transactions are the weapons that move: there is one row for every weapon that is bought,
/// picked up or dropped, whatever its kind, knives aside, in the order of ticks, pawns and
/// slots, and each field of it says what the pawn, its player and the weapon show.
pub proof fn law_items_tell_moves(schema: Schema, names: Names, frames: Seq<Frame>)
    ensures
        tell_all(
            schema,
            names,
            frames,
            moves(schema, names, frames, frames.len() as int),
            items::item_rows(schema, Lens::of(schema, &names, Scope::Snapshots), frames),
        ),
{
    lemma_items_through(schema, names, frames, frames.len() as int);
    assert(frames.take(frames.len() as int) =~= frames);
}

} // verus!
