//! Weapon transactions: purchases, pickups and drops, read off the inventories.
use crate::demo::{Entity, Frame, Schema};
use crate::float::{Float, ZERO_BITS};
use crate::names::{Names, WeaponSlot, PLAYER_PAWN_CLASS};
use crate::resolve;
use crate::resolve::{Lens, ResolvedPlayer};
use crate::text;
use crate::text::{contains_text, copy_text, same_text};
use std::collections::HashMap;
use vstd::prelude::*;

verus! {

broadcast use {
    vstd::std_specs::hash::group_hash_axioms,
    vstd::string::group_string_axioms,
    crate::text::group_views,
};

/// The most that a single purchase costs. A larger drop is a money reset, not a buy.
pub const MAX_PURCHASE_COST: i32 = 6500;

/// The most inventory slots that are read from a pawn.
pub const MAX_INVENTORY: u8 = 64;

/// A weapon transaction: a purchase, a pickup or a drop, with the acting player resolved.
#[derive(Clone, Debug, Default)]
pub struct ItemEvent<T = String> {
    pub tick: i32,
    /// `purchase`, `pickup` or `drop`.
    pub action: T,
    pub steamid: Option<u64>,
    pub name: Option<T>,
    pub side: Option<T>,
    /// Short weapon name.
    pub item: T,
    pub x: Option<Float>,
    pub y: Option<Float>,
    pub z: Option<Float>,
    /// Steam id of the weapon's original owner: for a pickup, whose weapon it originally
    /// was; for a purchase, the buyer.
    pub original_owner_steamid: Option<u64>,
    /// Money spent, for a purchase. May bundle other buys made on the same tick.
    pub cost: Option<i32>,
    /// For a drop, whether it was dropped near a buy zone.
    pub near_buy_zone: Option<bool>,
}

impl View for ItemEvent {
    type V = ItemEvent<Seq<char>>;

    open spec fn view(&self) -> ItemEvent<Seq<char>> {
        ItemEvent {
            tick: self.tick,
            action: self.action@,
            steamid: self.steamid,
            name: text::of(self.name),
            side: text::of(self.side),
            item: self.item@,
            x: self.x,
            y: self.y,
            z: self.z,
            original_owner_steamid: self.original_owner_steamid,
            cost: self.cost,
            near_buy_zone: self.near_buy_zone,
        }
    }
}

/// Field keys of a weapon class.
#[derive(Clone, Copy, Debug)]
pub struct WeaponKeys {
    pub owner: Option<u64>,
    pub xuid_low: Option<u64>,
    pub xuid_high: Option<u64>,
    pub dropped_time: Option<u64>,
    pub near_buy_zone: Option<u64>,
}

impl WeaponKeys {
    pub open spec fn of(schema: Schema, class: Seq<char>) -> WeaponKeys {
        WeaponKeys {
            owner: schema.key_of(class, "m_hOwnerEntity"@),
            xuid_low: schema.key_of(class, "m_OriginalOwnerXuidLow"@),
            xuid_high: schema.key_of(class, "m_OriginalOwnerXuidHigh"@),
            dropped_time: schema.key_of(class, "m_flDroppedAtTime"@),
            near_buy_zone: schema.key_of(class, "m_bDroppedNearBuyZone"@),
        }
    }

    pub fn resolve(schema: &Schema, class: &str) -> (keys: WeaponKeys)
        ensures
            keys == WeaponKeys::of(*schema, class@),
    {
        WeaponKeys {
            owner: schema.field_key(class, "m_hOwnerEntity"),
            xuid_low: schema.field_key(class, "m_OriginalOwnerXuidLow"),
            xuid_high: schema.field_key(class, "m_OriginalOwnerXuidHigh"),
            dropped_time: schema.field_key(class, "m_flDroppedAtTime"),
            near_buy_zone: schema.field_key(class, "m_bDroppedNearBuyZone"),
        }
    }
}

/// The Steam id of a weapon's original owner, from its two halves; none if it is 0.
pub open spec fn owner_id(w: Entity, wk: WeaponKeys) -> Option<u64> {
    let id = w.u32_at(wk.xuid_high) * 0x1_0000_0000 + w.u32_at(wk.xuid_low);
    if id > 0 {
        Some(id as u64)
    } else {
        None
    }
}

/// Combine the halves of the original owner's id into a Steam id.
pub fn original_owner(w: &Entity, wk: &WeaponKeys) -> (id: Option<u64>)
    ensures
        id == owner_id(*w, *wk),
{
    let id: u64 = w.get_u32(wk.xuid_high) as u64 * 0x1_0000_0000 + w.get_u32(wk.xuid_low) as u64;
    if id > 0 {
        Some(id)
    } else {
        None
    }
}

/// Items of the free default loadout, which can never be purchased.
pub open spec fn is_free(item: Seq<char>) -> bool {
    item == "glock"@ || item == "usp_silencer"@ || item == "hkp2000"@ || item == "c4"@
}

/// Whether an item belongs to the free default loadout.
pub fn is_free_item(item: &str) -> (b: bool)
    ensures
        b == is_free(item@),
{
    same_text(item, "glock") || same_text(item, "usp_silencer") || same_text(item, "hkp2000")
        || same_text(item, "c4")
}

/// The keys of a pawn's inventory: the count of weapons and the handle in each slot.
#[derive(Clone, Debug)]
pub struct InventoryKeys<S = Vec<Option<u64>>> {
    pub count: Option<u64>,
    pub slots: S,
}

impl View for InventoryKeys {
    type V = InventoryKeys<Seq<Option<u64>>>;

    open spec fn view(&self) -> InventoryKeys<Seq<Option<u64>>> {
        InventoryKeys { count: self.count, slots: self.slots@ }
    }
}

/// The keys of a pawn's inventory.
pub open spec fn inventory_keys(schema: Schema) -> InventoryKeys<Seq<Option<u64>>> {
    InventoryKeys {
        count: schema.key_of(PLAYER_PAWN_CLASS@, "m_pWeaponServices.m_hMyWeapons"@),
        slots: Seq::new(
            MAX_INVENTORY as nat,
            |i: int|
                schema.element_key_of(
                    PLAYER_PAWN_CLASS@,
                    "m_pWeaponServices.m_hMyWeapons"@,
                    i as u8,
                ),
        ),
    }
}

impl InventoryKeys {
    pub fn resolve(schema: &Schema) -> (keys: InventoryKeys)
        ensures
            keys@ == inventory_keys(*schema),
    {
        let mut slots: Vec<Option<u64>> = Vec::new();
        let mut i: u8 = 0;
        while i < MAX_INVENTORY
            invariant
                i <= MAX_INVENTORY,
                slots@.len() == i,
                forall|j: int|
                    0 <= j < i ==> #[trigger] slots@[j] == schema.element_key_of(
                        PLAYER_PAWN_CLASS@,
                        "m_pWeaponServices.m_hMyWeapons"@,
                        j as u8,
                    ),
            decreases MAX_INVENTORY - i,
        {
            slots.push(
                schema.element_key(PLAYER_PAWN_CLASS, "m_pWeaponServices.m_hMyWeapons", i),
            );
            i = i + 1;
        }
        assert(slots@ =~= inventory_keys(*schema).slots);
        InventoryKeys {
            count: schema.field_key(PLAYER_PAWN_CLASS, "m_pWeaponServices.m_hMyWeapons"),
            slots,
        }
    }
}

/// How many slots of an inventory are in use: the networked count, but no more than there
/// are keys for. A count that is no length is taken for too large.
pub open spec fn slots_used(pawn: Entity, ik: InventoryKeys<Seq<Option<u64>>>) -> int {
    let count = pawn.i64_at(ik.count);
    if 0 <= count <= ik.slots.len() {
        count as int
    } else {
        ik.slots.len() as int
    }
}

/// How many slots of an inventory are in use.
pub fn used_slots(pawn: &Entity, ik: &InventoryKeys) -> (n: usize)
    ensures
        n == slots_used(*pawn, ik@),
        n <= ik.slots@.len(),
{
    let count = pawn.get_i64(ik.count);
    let most: usize = ik.slots.len();
    if 0 <= count && count as u64 <= most as u64 {
        count as usize
    } else {
        most
    }
}

/// The weapons in the first slots of an inventory, by handle, each once.
pub open spec fn handles_in(pawn: Entity, slots: Seq<Option<u64>>) -> Seq<u32>
    decreases slots.len(),
{
    if slots.len() == 0 {
        Seq::empty()
    } else {
        let rest = handles_in(pawn, slots.drop_last());
        match pawn.handle_at(slots.last()) {
            Some(h) => if rest.contains(h) {
                rest
            } else {
                rest.push(h)
            },
            None => rest,
        }
    }
}

/// The weapons that a pawn carries, by handle, in slot order.
pub open spec fn carried(pawn: Entity, ik: InventoryKeys<Seq<Option<u64>>>) -> Seq<u32> {
    handles_in(pawn, ik.slots.take(slots_used(pawn, ik)))
}

fn holds(list: &Vec<u32>, h: u32) -> (b: bool)
    ensures
        b == list@.contains(h),
{
    let n: usize = list.len();
    let mut i: usize = 0;
    while i < n
        invariant
            i <= n,
            n == list@.len(),
            forall|j: int| 0 <= j < i ==> list@[j] != h,
        decreases n - i,
    {
        if list[i] == h {
            return true;
        }
        i = i + 1;
    }
    false
}

/// The weapons that a pawn carries, by handle, in slot order.
pub fn read_inventory(pawn: &Entity, ik: &InventoryKeys) -> (list: Vec<u32>)
    ensures
        list@ == carried(*pawn, ik@),
{
    let n = used_slots(pawn, ik);
    let mut list: Vec<u32> = Vec::new();
    let mut i: usize = 0;
    assert(ik.slots@.take(0) =~= Seq::empty());
    while i < n
        invariant
            i <= n,
            n <= ik.slots@.len(),
            list@ == handles_in(*pawn, ik.slots@.take(i as int)),
        decreases n - i,
    {
        assert(ik.slots@.take(i + 1).drop_last() =~= ik.slots@.take(i as int));
        if let Some(h) = pawn.get_handle(ik.slots[i]) {
            if !holds(&list, h) {
                list.push(h);
            }
        }
        i = i + 1;
    }
    list
}

/// A transaction of a player.
pub open spec fn item_row(
    tick: i32,
    actor: ResolvedPlayer<Seq<char>>,
    action: Seq<char>,
    item: Seq<char>,
    owner: Option<u64>,
    cost: Option<i32>,
    near_buy_zone: Option<bool>,
) -> ItemEvent<Seq<char>> {
    ItemEvent {
        tick,
        action,
        steamid: actor.steamid,
        name: actor.name,
        side: actor.side,
        item,
        x: actor.x,
        y: actor.y,
        z: actor.z,
        original_owner_steamid: owner,
        cost,
        near_buy_zone,
    }
}

fn make_item(
    tick: i32,
    actor: &ResolvedPlayer,
    action: &str,
    item: &String,
    owner: Option<u64>,
    cost: Option<i32>,
    near_buy_zone: Option<bool>,
) -> (row: ItemEvent)
    ensures
        row@ == item_row(tick, actor@, action@, item@, owner, cost, near_buy_zone),
{
    ItemEvent {
        tick,
        action: action.to_string(),
        steamid: actor.steamid,
        name: copy_text(&actor.name),
        side: copy_text(&actor.side),
        item: item.clone(),
        x: actor.x,
        y: actor.y,
        z: actor.z,
        original_owner_steamid: owner,
        cost,
        near_buy_zone,
    }
}

/// What a weapon that enters an inventory tells: a purchase when the player's money drops
/// on that tick, by no more than a purchase costs, and the item is one that is bought; a
/// pickup when it is someone else's or was dropped before. Fresh gear of one's own is the
/// default loadout and tells nothing, nor does a knife. What is bought is the buyer's own.
pub open spec fn acquired(
    schema: Schema,
    lens: Lens,
    f: Frame,
    actor: ResolvedPlayer<Seq<char>>,
    delta: int,
    h: u32,
) -> Option<ItemEvent<Seq<char>>> {
    match lens.at(f.entities@, h) {
        None => None,
        Some(w) => match lens.names.weapon(w.class_name@) {
            None => None,
            Some(info) => {
                let wk = WeaponKeys::of(schema, w.class_name@);
                let owner = owner_id(w, wk);
                let dropped = w.real_at(wk.dropped_time).above(Float { bits: ZERO_BITS });
                if info.slot == WeaponSlot::Melee {
                    None
                } else if !is_free(info.name@) && delta < 0 && -delta <= MAX_PURCHASE_COST {
                    Some(
                        item_row(
                            f.tick,
                            actor,
                            "purchase"@,
                            info.name@,
                            actor.steamid,
                            Some((-delta) as i32),
                            None,
                        ),
                    )
                } else if owner != actor.steamid || dropped {
                    Some(item_row(f.tick, actor, "pickup"@, info.name@, owner, None, None))
                } else {
                    None
                }
            },
        },
    }
}

/// What a weapon that leaves an inventory tells: a drop when it is left on the ground, a
/// live entity that no player pawn owns. A knife tells nothing.
pub open spec fn released(
    schema: Schema,
    lens: Lens,
    f: Frame,
    actor: ResolvedPlayer<Seq<char>>,
    h: u32,
) -> Option<ItemEvent<Seq<char>>> {
    match lens.at(f.entities@, h) {
        None => None,
        Some(w) => match lens.names.weapon(w.class_name@) {
            None => None,
            Some(info) => {
                let wk = WeaponKeys::of(schema, w.class_name@);
                let held = match lens.linked(f.entities@, w.handle_at(wk.owner)) {
                    Some(o) => resolve::is_pawn_class(o.class_name@),
                    None => false,
                };
                if info.slot == WeaponSlot::Melee || held {
                    None
                } else {
                    Some(
                        item_row(
                            f.tick,
                            actor,
                            "drop"@,
                            info.name@,
                            owner_id(w, wk),
                            None,
                            Some(w.bool_at(wk.near_buy_zone)),
                        ),
                    )
                }
            },
        },
    }
}

fn tell_acquired(
    schema: &Schema,
    lens: &Lens,
    f: &Frame,
    actor: &ResolvedPlayer,
    delta: i64,
    h: u32,
) -> (row: Option<ItemEvent>)
    requires
        -0x1_0000_0000 <= delta <= 0x1_0000_0000,
    ensures
        row is Some == acquired(*schema, *lens, *f, actor@, delta as int, h) is Some,
        row matches Some(r) ==> acquired(*schema, *lens, *f, actor@, delta as int, h) == Some(r@),
{
    let w = match f.get_by_handle(lens.scope, lens.names, h) {
        Some(w) => w,
        None => return None,
    };
    let info = match lens.names.weapon_info(w.class_name.as_str()) {
        Some(info) => info,
        None => return None,
    };
    if info.slot == WeaponSlot::Melee {
        return None;
    }
    let wk = WeaponKeys::resolve(schema, w.class_name.as_str());
    let owner = original_owner(w, &wk);
    let dropped = w.get_real(wk.dropped_time).is_above(Float { bits: ZERO_BITS });
    let buyable = !is_free_item(info.name.as_str());
    if buyable && delta < 0 && -delta <= MAX_PURCHASE_COST as i64 {
        let cost: i32 = (-delta) as i32;
        Some(
            make_item(f.tick, actor, "purchase", &info.name, actor.steamid, Some(cost), None),
        )
    } else if owner != actor.steamid || dropped {
        Some(make_item(f.tick, actor, "pickup", &info.name, owner, None, None))
    } else {
        None
    }
}

fn tell_released(schema: &Schema, lens: &Lens, f: &Frame, actor: &ResolvedPlayer, h: u32) -> (row: Option<
    ItemEvent,
>)
    ensures
        row is Some == released(*schema, *lens, *f, actor@, h) is Some,
        row matches Some(r) ==> released(*schema, *lens, *f, actor@, h) == Some(r@),
{
    let w = match f.get_by_handle(lens.scope, lens.names, h) {
        Some(w) => w,
        None => return None,
    };
    let info = match lens.names.weapon_info(w.class_name.as_str()) {
        Some(info) => info,
        None => return None,
    };
    if info.slot == WeaponSlot::Melee {
        return None;
    }
    let wk = WeaponKeys::resolve(schema, w.class_name.as_str());
    let held = match lens.follow(f, w.get_handle(wk.owner)) {
        Some(o) => contains_text(o.class_name.as_str(), "PlayerPawn"),
        None => false,
    };
    if held {
        return None;
    }
    Some(
        make_item(
            f.tick,
            actor,
            "drop",
            &info.name,
            original_owner(w, &wk),
            None,
            Some(w.get_bool(wk.near_buy_zone)),
        ),
    )
}

/// What the weapons that entered an inventory tell.
pub open spec fn all_acquired(
    schema: Schema,
    lens: Lens,
    f: Frame,
    actor: ResolvedPlayer<Seq<char>>,
    delta: int,
    cur: Seq<u32>,
    prev: Seq<u32>,
) -> Seq<ItemEvent<Seq<char>>>
    decreases cur.len(),
{
    if cur.len() == 0 {
        Seq::empty()
    } else {
        let rest = all_acquired(schema, lens, f, actor, delta, cur.drop_last(), prev);
        if prev.contains(cur.last()) {
            rest
        } else {
            match acquired(schema, lens, f, actor, delta, cur.last()) {
                Some(r) => rest.push(r),
                None => rest,
            }
        }
    }
}

/// What the weapons that left an inventory tell.
pub open spec fn all_released(
    schema: Schema,
    lens: Lens,
    f: Frame,
    actor: ResolvedPlayer<Seq<char>>,
    prev: Seq<u32>,
    cur: Seq<u32>,
) -> Seq<ItemEvent<Seq<char>>>
    decreases prev.len(),
{
    if prev.len() == 0 {
        Seq::empty()
    } else {
        let rest = all_released(schema, lens, f, actor, prev.drop_last(), cur);
        if cur.contains(prev.last()) {
            rest
        } else {
            match released(schema, lens, f, actor, prev.last()) {
                Some(r) => rest.push(r),
                None => rest,
            }
        }
    }
}

/// The transactions so far, the inventory of each pawn and the money of each player.
pub struct ItemsState {
    pub rows: Seq<ItemEvent<Seq<char>>>,
    pub inventories: Map<i32, Seq<u32>>,
    pub money: Map<u64, i32>,
}

/// Before the first tick there are none.
pub open spec fn items_begin() -> ItemsState {
    ItemsState { rows: Seq::empty(), inventories: Map::empty(), money: Map::empty() }
}

/// The inventory that was last seen of a pawn.
pub open spec fn inventory_before(inventories: Map<i32, Seq<u32>>, index: i32) -> Seq<u32> {
    if inventories.contains_key(index) {
        inventories[index]
    } else {
        Seq::empty()
    }
}

/// By how much a player's money changed since it was last seen.
pub open spec fn money_change(money: Map<u64, i32>, steamid: u64, account: Option<i32>) -> int {
    match account {
        Some(a) => if money.contains_key(steamid) {
            a - money[steamid]
        } else {
            0
        },
        None => 0,
    }
}

/// The money of a pawn's player.
pub open spec fn account_of(lens: Lens, f: Frame, pawn: Entity) -> Option<i32> {
    match lens.controller(f.entities@, pawn) {
        Some(c) => Some(c.i64_at(lens.ctrl.money) as i32),
        None => None,
    }
}

/// One entity: a live pawn's inventory is compared with the one before. Without a Steam id
/// it is only kept.
pub open spec fn items_step(
    s: ItemsState,
    schema: Schema,
    lens: Lens,
    ik: InventoryKeys<Seq<Option<u64>>>,
    f: Frame,
    e: Entity,
) -> ItemsState {
    if !(e.active && e.class_name@ == PLAYER_PAWN_CLASS@) {
        s
    } else {
        let actor = lens.player_of_pawn(f.entities@, e, Map::empty());
        let cur = carried(e, ik);
        let prev = inventory_before(s.inventories, e.index);
        let inventories = s.inventories.insert(e.index, cur);
        match actor.steamid {
            None => ItemsState { inventories, ..s },
            Some(steamid) => {
                let account = account_of(lens, f, e);
                let delta = money_change(s.money, steamid, account);
                ItemsState {
                    rows: s.rows + all_acquired(schema, lens, f, actor, delta, cur, prev)
                        + all_released(schema, lens, f, actor, prev, cur),
                    inventories,
                    money: match account {
                        Some(a) => s.money.insert(steamid, a),
                        None => s.money,
                    },
                }
            },
        }
    }
}

/// The entities of a tick.
pub open spec fn items_in(
    s: ItemsState,
    schema: Schema,
    lens: Lens,
    ik: InventoryKeys<Seq<Option<u64>>>,
    f: Frame,
    entities: Seq<Entity>,
) -> ItemsState
    decreases entities.len(),
{
    if entities.len() == 0 {
        s
    } else {
        items_step(
            items_in(s, schema, lens, ik, f, entities.drop_last()),
            schema,
            lens,
            ik,
            f,
            entities.last(),
        )
    }
}

/// A run of ticks.
pub open spec fn items_through(
    schema: Schema,
    lens: Lens,
    ik: InventoryKeys<Seq<Option<u64>>>,
    frames: Seq<Frame>,
) -> ItemsState
    decreases frames.len(),
{
    if frames.len() == 0 {
        items_begin()
    } else {
        items_in(
            items_through(schema, lens, ik, frames.drop_last()),
            schema,
            lens,
            ik,
            frames.last(),
            frames.last().entities@,
        )
    }
}

/// The transactions of a run of ticks.
pub open spec fn item_rows(schema: Schema, lens: Lens, frames: Seq<Frame>) -> Seq<
    ItemEvent<Seq<char>>,
> {
    items_through(schema, lens, inventory_keys(schema), frames).rows
}

fn take_acquired(
    schema: &Schema,
    lens: &Lens,
    f: &Frame,
    actor: &ResolvedPlayer,
    delta: i64,
    cur: &Vec<u32>,
    prev: &Vec<u32>,
    out: &mut Vec<ItemEvent>,
)
    requires
        -0x1_0000_0000 <= delta <= 0x1_0000_0000,
    ensures
        text::views(final(out)@) == text::views(old(out)@) + all_acquired(
            *schema,
            *lens,
            *f,
            actor@,
            delta as int,
            cur@,
            prev@,
        ),
{
    let ghost was = text::views(out@);
    let n: usize = cur.len();
    let mut i: usize = 0;
    assert(cur@.take(0) =~= Seq::<u32>::empty());
    assert(was + Seq::empty() =~= was);
    while i < n
        invariant
            i <= n,
            n == cur@.len(),
            -0x1_0000_0000 <= delta <= 0x1_0000_0000,
            text::views(out@) == was + all_acquired(
                *schema,
                *lens,
                *f,
                actor@,
                delta as int,
                cur@.take(i as int),
                prev@,
            ),
        decreases n - i,
    {
        let ghost next = cur@.take(i + 1);
        assert(next.drop_last() =~= cur@.take(i as int));
        if !holds(prev, cur[i]) {
            if let Some(r) = tell_acquired(schema, lens, f, actor, delta, cur[i]) {
                let ghost v = r@;
                out.push(r);
                assert(text::views(out@) =~= was + all_acquired(
                    *schema,
                    *lens,
                    *f,
                    actor@,
                    delta as int,
                    next.drop_last(),
                    prev@,
                ).push(v));
            }
        }
        i = i + 1;
    }
    assert(cur@.take(n as int) =~= cur@);
}

fn take_released(
    schema: &Schema,
    lens: &Lens,
    f: &Frame,
    actor: &ResolvedPlayer,
    prev: &Vec<u32>,
    cur: &Vec<u32>,
    out: &mut Vec<ItemEvent>,
)
    ensures
        text::views(final(out)@) == text::views(old(out)@) + all_released(
            *schema,
            *lens,
            *f,
            actor@,
            prev@,
            cur@,
        ),
{
    let ghost was = text::views(out@);
    let n: usize = prev.len();
    let mut i: usize = 0;
    assert(prev@.take(0) =~= Seq::<u32>::empty());
    assert(was + Seq::empty() =~= was);
    while i < n
        invariant
            i <= n,
            n == prev@.len(),
            text::views(out@) == was + all_released(
                *schema,
                *lens,
                *f,
                actor@,
                prev@.take(i as int),
                cur@,
            ),
        decreases n - i,
    {
        let ghost next = prev@.take(i + 1);
        assert(next.drop_last() =~= prev@.take(i as int));
        if !holds(cur, prev[i]) {
            if let Some(r) = tell_released(schema, lens, f, actor, prev[i]) {
                let ghost v = r@;
                out.push(r);
                assert(text::views(out@) =~= was + all_released(
                    *schema,
                    *lens,
                    *f,
                    actor@,
                    next.drop_last(),
                    cur@,
                ).push(v));
            }
        }
        i = i + 1;
    }
    assert(prev@.take(n as int) =~= prev@);
}

/// The pass that tells transactions.
struct ItemsPass {
    rows: Vec<ItemEvent>,
    inventories: HashMap<i32, Vec<u32>>,
    money: HashMap<u64, i32>,
}

/// The inventories as sequences.
spec fn lists(m: Map<i32, Vec<u32>>) -> Map<i32, Seq<u32>> {
    m.map_values(|v: Vec<u32>| v@)
}

impl ItemsPass {
    spec fn state(self) -> ItemsState {
        ItemsState {
            rows: text::views(self.rows@),
            inventories: lists(self.inventories@),
            money: self.money@,
        }
    }

    /// Take in a live pawn.
    fn take_pawn(&mut self, schema: &Schema, lens: &Lens, ik: &InventoryKeys, f: &Frame, e: &Entity)
        requires
            e.active,
            e.class_name@ == PLAYER_PAWN_CLASS@,
        ensures
            final(self).state() == items_step(old(self).state(), *schema, *lens, ik@, *f, *e),
    {
        let no_clans: HashMap<i64, String> = HashMap::new();
        assert(resolve::clan_names(no_clans@) =~= Map::empty());
        let actor = lens.resolve_from_pawn(f, e, &no_clans);
        let cur = read_inventory(e, ik);
        let ghost before = self.inventories@;
        let ghost carrying = cur@;
        let prev = match self.inventories.remove(&e.index) {
            Some(v) => v,
            None => Vec::new(),
        };
        assert(prev@ =~= inventory_before(lists(before), e.index));
        if let Some(steamid) = actor.steamid {
            let account: Option<i32> = match lens.follow(f, e.get_handle(lens.pawn.controller)) {
                Some(c) => Some(
                    #[verifier::truncate]
                    (c.get_i64(lens.ctrl.money) as i32),
                ),
                None => None,
            };
            let delta: i64 = match (account, self.money.get(&steamid)) {
                (Some(a), Some(p)) => a as i64 - *p as i64,
                _ => 0,
            };
            if let Some(a) = account {
                self.money.insert(steamid, a);
            }
            take_acquired(schema, lens, f, &actor, delta, &cur, &prev, &mut self.rows);
            take_released(schema, lens, f, &actor, &prev, &cur, &mut self.rows);
        }
        self.inventories.insert(e.index, cur);
        assert(lists(self.inventories@) =~= lists(before).insert(e.index, carrying));
    }
}

/// Tell the transactions of a demo.
pub fn find_items(schema: &Schema, lens: &Lens, frames: &Vec<Frame>) -> (out: Vec<ItemEvent>)
    ensures
        text::views(out@) == item_rows(*schema, *lens, frames@),
{
    let ik = InventoryKeys::resolve(schema);
    let mut pass = ItemsPass {
        rows: Vec::new(),
        inventories: HashMap::new(),
        money: HashMap::new(),
    };
    let n: usize = frames.len();
    let mut i: usize = 0;
    assert(frames@.take(0) =~= Seq::<Frame>::empty());
    assert(lists(pass.inventories@) =~= Map::empty());
    assert(pass.money@ =~= Map::empty());
    while i < n
        invariant
            i <= n,
            n == frames@.len(),
            ik@ == inventory_keys(*schema),
            pass.state() == items_through(*schema, *lens, ik@, frames@.take(i as int)),
        decreases n - i,
    {
        let f = &frames[i];
        assert(frames@.take(i + 1).drop_last() =~= frames@.take(i as int));
        let ghost start = pass.state();
        let m: usize = f.entities.len();
        let mut j: usize = 0;
        assert(f.entities@.take(0) =~= Seq::<Entity>::empty());
        while j < m
            invariant
                j <= m,
                m == f.entities@.len(),
                pass.state() == items_in(
                    start,
                    *schema,
                    *lens,
                    ik@,
                    *f,
                    f.entities@.take(j as int),
                ),
            decreases m - j,
        {
            assert(f.entities@.take(j + 1).drop_last() =~= f.entities@.take(j as int));
            let e = &f.entities[j];
            if e.active && e.is_a(PLAYER_PAWN_CLASS) {
                pass.take_pawn(schema, lens, &ik, f, e);
            }
            j = j + 1;
        }
        assert(f.entities@.take(m as int) =~= f.entities@);
        i = i + 1;
    }
    assert(frames@.take(n as int) =~= frames@);
    pass.rows
}

/// Whether an item is a weapon that is no knife.
pub open spec fn is_traded_item(names: Names, item: Seq<char>) -> bool {
    exists|class: Seq<char>| #[trigger]
        names.weapon(class) is Some && names.weapon(class)->0.name@ == item && names.weapon(
            class,
        )->0.slot != WeaponSlot::Melee
}

/// Whether a row is one that a transaction can give.
pub open spec fn well_shaped(names: Names, r: ItemEvent<Seq<char>>) -> bool {
    &&& is_traded_item(names, r.item)
    &&& r.steamid is Some
    &&& r.action == "purchase"@ || r.action == "pickup"@ || r.action == "drop"@
    &&& r.action == "purchase"@ <==> r.cost is Some
    &&& r.action == "purchase"@ ==> r.original_owner_steamid == r.steamid
    &&& r.cost matches Some(c) ==> 0 < c <= MAX_PURCHASE_COST && !is_free(r.item)
    &&& r.action == "drop"@ <==> r.near_buy_zone is Some
}

proof fn lemma_action_names()
    ensures
        "purchase"@ != "pickup"@,
        "purchase"@ != "drop"@,
        "pickup"@ != "drop"@,
{
    reveal_strlit("purchase");
    reveal_strlit("pickup");
    reveal_strlit("drop");
    assert("purchase"@.len() == 8 && "pickup"@.len() == 6 && "drop"@.len() == 4);
}

proof fn lemma_acquired_shape(
    schema: Schema,
    lens: Lens,
    f: Frame,
    actor: ResolvedPlayer<Seq<char>>,
    delta: int,
    cur: Seq<u32>,
    prev: Seq<u32>,
)
    requires
        actor.steamid is Some,
    ensures
        forall|k: int|
            0 <= k < all_acquired(schema, lens, f, actor, delta, cur, prev).len() ==> well_shaped(
                *lens.names,
                #[trigger] all_acquired(schema, lens, f, actor, delta, cur, prev)[k],
            ),
    decreases cur.len(),
{
    if cur.len() > 0 {
        lemma_acquired_shape(schema, lens, f, actor, delta, cur.drop_last(), prev);
        lemma_action_names();
        let rest = all_acquired(schema, lens, f, actor, delta, cur.drop_last(), prev);
        let all = all_acquired(schema, lens, f, actor, delta, cur, prev);
        assert forall|k: int| 0 <= k < all.len() implies well_shaped(*lens.names, #[trigger] all[k]) by {
            if k < rest.len() {
                assert(all[k] == rest[k]);
            }
        }
    }
}

proof fn lemma_released_shape(
    schema: Schema,
    lens: Lens,
    f: Frame,
    actor: ResolvedPlayer<Seq<char>>,
    prev: Seq<u32>,
    cur: Seq<u32>,
)
    requires
        actor.steamid is Some,
    ensures
        forall|k: int|
            0 <= k < all_released(schema, lens, f, actor, prev, cur).len() ==> well_shaped(
                *lens.names,
                #[trigger] all_released(schema, lens, f, actor, prev, cur)[k],
            ),
    decreases prev.len(),
{
    if prev.len() > 0 {
        lemma_released_shape(schema, lens, f, actor, prev.drop_last(), cur);
        lemma_action_names();
        let rest = all_released(schema, lens, f, actor, prev.drop_last(), cur);
        let all = all_released(schema, lens, f, actor, prev, cur);
        assert forall|k: int| 0 <= k < all.len() implies well_shaped(*lens.names, #[trigger] all[k]) by {
            if k < rest.len() {
                assert(all[k] == rest[k]);
            }
        }
    }
}

proof fn lemma_items_in_shape(
    s: ItemsState,
    schema: Schema,
    lens: Lens,
    ik: InventoryKeys<Seq<Option<u64>>>,
    f: Frame,
    entities: Seq<Entity>,
)
    requires
        forall|k: int| 0 <= k < s.rows.len() ==> well_shaped(*lens.names, #[trigger] s.rows[k]),
    ensures
        forall|k: int|
            0 <= k < items_in(s, schema, lens, ik, f, entities).rows.len() ==> well_shaped(
                *lens.names,
                #[trigger] items_in(s, schema, lens, ik, f, entities).rows[k],
            ),
    decreases entities.len(),
{
    if entities.len() > 0 {
        lemma_items_in_shape(s, schema, lens, ik, f, entities.drop_last());
        let before = items_in(s, schema, lens, ik, f, entities.drop_last());
        let e = entities.last();
        let actor = lens.player_of_pawn(f.entities@, e, Map::empty());
        let cur = carried(e, ik);
        let prev = inventory_before(before.inventories, e.index);
        if let Some(steamid) = actor.steamid {
            let delta = money_change(before.money, steamid, account_of(lens, f, e));
            lemma_acquired_shape(schema, lens, f, actor, delta, cur, prev);
            lemma_released_shape(schema, lens, f, actor, prev, cur);
            let got = all_acquired(schema, lens, f, actor, delta, cur, prev);
            let lost = all_released(schema, lens, f, actor, prev, cur);
            let all = before.rows + got + lost;
            assert forall|k: int| 0 <= k < all.len() implies well_shaped(*lens.names, #[trigger] all[k]) by {
                if k < before.rows.len() {
                    assert(all[k] == before.rows[k]);
                } else if k < before.rows.len() + got.len() {
                    assert(all[k] == got[k - before.rows.len()]);
                } else {
                    assert(all[k] == lost[k - before.rows.len() - got.len()]);
                }
            }
        }
    }
}

/// Every transaction is a purchase, a pickup or a drop of a known player, and never of a
/// knife. Purchases, and only they, have a cost, which is positive and no more than a purchase
/// costs; nothing of the free loadout is purchased, and what is purchased is the buyer's own.
/// Drops, and only they, say whether a buy zone was near.
pub proof fn law_items_are_well_shaped(schema: Schema, lens: Lens, frames: Seq<Frame>)
    ensures
        forall|k: int|
            0 <= k < item_rows(schema, lens, frames).len() ==> well_shaped(
                *lens.names,
                #[trigger] item_rows(schema, lens, frames)[k],
            ),
    decreases frames.len(),
{
    if frames.len() > 0 {
        let ik = inventory_keys(schema);
        law_items_are_well_shaped(schema, lens, frames.drop_last());
        let before = items_through(schema, lens, ik, frames.drop_last());
        assert forall|k: int| 0 <= k < before.rows.len() implies well_shaped(
                *lens.names,
            #[trigger] before.rows[k],
        ) by {
            assert(item_rows(schema, lens, frames.drop_last())[k] == before.rows[k]);
        }
        lemma_items_in_shape(before, schema, lens, ik, frames.last(), frames.last().entities@);
    }
}

/// What a tick acquires says so.
proof fn lemma_acquired_ticks(
    schema: Schema,
    lens: Lens,
    f: Frame,
    actor: ResolvedPlayer<Seq<char>>,
    delta: int,
    cur: Seq<u32>,
    prev: Seq<u32>,
)
    ensures
        forall|k: int|
            0 <= k < all_acquired(schema, lens, f, actor, delta, cur, prev).len() ==> (
            #[trigger] all_acquired(schema, lens, f, actor, delta, cur, prev)[k]).tick == f.tick,
    decreases cur.len(),
{
    if cur.len() > 0 {
        lemma_acquired_ticks(schema, lens, f, actor, delta, cur.drop_last(), prev);
    }
}

/// What a tick releases says so.
proof fn lemma_released_ticks(
    schema: Schema,
    lens: Lens,
    f: Frame,
    actor: ResolvedPlayer<Seq<char>>,
    prev: Seq<u32>,
    cur: Seq<u32>,
)
    ensures
        forall|k: int|
            0 <= k < all_released(schema, lens, f, actor, prev, cur).len() ==> (
            #[trigger] all_released(schema, lens, f, actor, prev, cur)[k]).tick == f.tick,
    decreases prev.len(),
{
    if prev.len() > 0 {
        lemma_released_ticks(schema, lens, f, actor, prev.drop_last(), cur);
    }
}

/// The rows of a tick come after those before it, and say so.
proof fn lemma_items_in_ticks(
    s: ItemsState,
    schema: Schema,
    lens: Lens,
    ik: InventoryKeys<Seq<Option<u64>>>,
    f: Frame,
    entities: Seq<Entity>,
)
    ensures
        ({
            let done = items_in(s, schema, lens, ik, f, entities);
            &&& s.rows.len() <= done.rows.len()
            &&& forall|k: int| 0 <= k < s.rows.len() ==> #[trigger] done.rows[k] == s.rows[k]
            &&& forall|k: int|
                s.rows.len() <= k < done.rows.len() ==> (#[trigger] done.rows[k]).tick == f.tick
        }),
    decreases entities.len(),
{
    if entities.len() > 0 {
        lemma_items_in_ticks(s, schema, lens, ik, f, entities.drop_last());
        let before = items_in(s, schema, lens, ik, f, entities.drop_last());
        let e = entities.last();
        let actor = lens.player_of_pawn(f.entities@, e, Map::empty());
        let cur = carried(e, ik);
        let prev = inventory_before(before.inventories, e.index);
        if let Some(steamid) = actor.steamid {
            let delta = money_change(before.money, steamid, account_of(lens, f, e));
            lemma_acquired_ticks(schema, lens, f, actor, delta, cur, prev);
            lemma_released_ticks(schema, lens, f, actor, prev, cur);
            let got = all_acquired(schema, lens, f, actor, delta, cur, prev);
            let lost = all_released(schema, lens, f, actor, prev, cur);
            let all = before.rows + got + lost;
            assert forall|k: int| s.rows.len() <= k < all.len() implies (#[trigger] all[k]).tick
                == f.tick by {
                if k < before.rows.len() {
                    assert(all[k] == before.rows[k]);
                } else if k < before.rows.len() + got.len() {
                    assert(all[k] == got[k - before.rows.len()]);
                } else {
                    assert(all[k] == lost[k - before.rows.len() - got.len()]);
                }
            }
        }
    }
}

/// Transactions come in tick order, as long as frames are in tick order.
pub proof fn law_items_in_tick_order(schema: Schema, lens: Lens, frames: Seq<Frame>)
    requires
        forall|a: int, b: int|
            0 <= a <= b < frames.len() ==> (#[trigger] frames[a]).tick <= (#[trigger] frames[b]).tick,
    ensures
        ({
            let rows = item_rows(schema, lens, frames);
            &&& forall|i: int, j: int|
                0 <= i <= j < rows.len() ==> (#[trigger] rows[i]).tick <= (#[trigger] rows[j]).tick
            &&& forall|i: int|
                0 <= i < rows.len() ==> (#[trigger] rows[i]).tick <= frames.last().tick
        }),
    decreases frames.len(),
{
    if frames.len() > 0 {
        let ik = inventory_keys(schema);
        let init = frames.drop_last();
        let f = frames.last();
        assert forall|a: int, b: int| 0 <= a <= b < init.len() implies (#[trigger] init[a]).tick <= (
        #[trigger] init[b]).tick by {
            assert(frames[a].tick <= frames[b].tick);
        }
        law_items_in_tick_order(schema, lens, init);
        let before = items_through(schema, lens, ik, init);
        if init.len() > 0 {
            assert(init.last() == frames[frames.len() - 2]);
            assert(frames[frames.len() - 2].tick <= frames[frames.len() - 1].tick);
        }
        lemma_items_in_ticks(before, schema, lens, ik, f, f.entities@);
        let rows = item_rows(schema, lens, frames);
        assert(item_rows(schema, lens, init) == before.rows);
        assert forall|i: int| 0 <= i < rows.len() implies (#[trigger] rows[i]).tick <= f.tick by {
            if i < before.rows.len() {
                assert(rows[i] == before.rows[i]);
            }
        }
        assert forall|i: int, j: int| 0 <= i <= j < rows.len() implies (#[trigger] rows[i]).tick <= (
        #[trigger] rows[j]).tick by {
            if j < before.rows.len() {
                assert(rows[i] == before.rows[i] && rows[j] == before.rows[j]);
            }
        }
    }
}

/// An inventory that holds the same weapons as before tells nothing, in whatever order
/// they are.
pub proof fn law_unchanged_inventory(
    schema: Schema,
    lens: Lens,
    f: Frame,
    actor: ResolvedPlayer<Seq<char>>,
    delta: int,
    cur: Seq<u32>,
    prev: Seq<u32>,
)
    requires
        forall|h: u32| #[trigger] cur.contains(h) <==> prev.contains(h),
    ensures
        all_acquired(schema, lens, f, actor, delta, cur, prev).len() == 0,
        all_released(schema, lens, f, actor, prev, cur).len() == 0,
{
    lemma_nothing_acquired(schema, lens, f, actor, delta, cur, prev);
    lemma_nothing_released(schema, lens, f, actor, prev, cur);
}

proof fn lemma_nothing_acquired(
    schema: Schema,
    lens: Lens,
    f: Frame,
    actor: ResolvedPlayer<Seq<char>>,
    delta: int,
    cur: Seq<u32>,
    prev: Seq<u32>,
)
    requires
        forall|h: u32| #[trigger] cur.contains(h) ==> prev.contains(h),
    ensures
        all_acquired(schema, lens, f, actor, delta, cur, prev).len() == 0,
    decreases cur.len(),
{
    if cur.len() > 0 {
        let init = cur.drop_last();
        assert forall|h: u32| #[trigger] init.contains(h) implies prev.contains(h) by {
            let i = choose|i: int| 0 <= i < init.len() && init[i] == h;
            assert(cur[i] == h);
            assert(cur.contains(h));
        }
        assert(cur[cur.len() - 1] == cur.last());
        assert(cur.contains(cur.last()));
        lemma_nothing_acquired(schema, lens, f, actor, delta, init, prev);
    }
}

proof fn lemma_nothing_released(
    schema: Schema,
    lens: Lens,
    f: Frame,
    actor: ResolvedPlayer<Seq<char>>,
    prev: Seq<u32>,
    cur: Seq<u32>,
)
    requires
        forall|h: u32| #[trigger] prev.contains(h) ==> cur.contains(h),
    ensures
        all_released(schema, lens, f, actor, prev, cur).len() == 0,
    decreases prev.len(),
{
    if prev.len() > 0 {
        let init = prev.drop_last();
        assert forall|h: u32| #[trigger] init.contains(h) implies cur.contains(h) by {
            let i = choose|i: int| 0 <= i < init.len() && init[i] == h;
            assert(prev[i] == h);
            assert(prev.contains(h));
        }
        assert(prev[prev.len() - 1] == prev.last());
        assert(prev.contains(prev.last()));
        lemma_nothing_released(schema, lens, f, actor, init, cur);
    }
}

} // verus!
