//! Per-player game state: everything about each player at a tick.
use crate::anchors;
use crate::anchors::round_num_for_tick;
use crate::damages;
use crate::demo::{Entity, Frame, Schema};
use crate::float::Float;
use crate::items;
use crate::items::{used_slots, InventoryKeys};
use crate::names::{WeaponSlot, PLAYER_CONTROLLER_CLASS, PLAYER_PAWN_CLASS};
use crate::resolve;
use crate::resolve::{clan_name, update_clans, Lens, TeamKeys};
use crate::rounds::Round;
use crate::segments;
use crate::segments::Keyframe;
use crate::text;
use crate::text::{copy_text, same_text};
use std::collections::{HashMap, HashSet};
use vstd::prelude::*;
use vstd::string::StringExecFns;

verus! {

broadcast use {
    vstd::std_specs::hash::group_hash_axioms,
    vstd::string::group_string_axioms,
    crate::text::group_views,
};

/// One player's state at a tick.
#[derive(Clone, Debug, Default)]
pub struct PlayerState<T = String> {
    pub tick: i32,
    /// 1-indexed round this snapshot occurred in.
    pub round_num: Option<i32>,
    pub steamid: Option<u64>,
    pub name: Option<T>,
    pub side: Option<T>,
    /// Network ping in milliseconds.
    pub ping: Option<i32>,
    pub x: Option<Float>,
    pub y: Option<Float>,
    pub z: Option<Float>,
    /// Named callout location.
    pub place: Option<T>,
    /// Team clan name, from the demo itself.
    pub team_clan_name: Option<T>,
    pub pitch: Float,
    pub yaw: Float,
    pub health: i32,
    pub armor: i32,
    pub has_helmet: bool,
    pub has_defuser: bool,
    /// Whether the player is carrying the bomb.
    pub has_bomb: bool,
    /// Short name of the weapon the player is actively holding, if any.
    pub active_weapon: Option<T>,
    /// Short name of the primary-slot weapon held, if any.
    pub primary_weapon: Option<T>,
    /// Short name of the secondary-slot weapon held, if any.
    pub secondary_weapon: Option<T>,
    /// Number of fire grenades held, molotov and incendiary combined.
    pub fire_grenades: i32,
    pub smoke_grenades: i32,
    pub he_grenades: i32,
    /// Number of flashbangs held: the one grenade of which a player carries two, though
    /// there is one entity for both.
    pub flashbangs: i32,
    pub decoy_grenades: i32,
    /// Value of the player's current equipment.
    pub equipment_value: i32,
    /// Equipment value at the start of the round.
    pub equipment_value_round_start: i32,
    pub money: i32,
    /// Cash spent so far this round.
    pub cash_spent_this_round: i32,
    pub is_crouched: bool,
    pub is_walking: bool,
    /// Whether the player is off the ground.
    pub is_jumping: bool,
    pub is_in_bomb_zone: bool,
    pub is_scoped: bool,
    pub is_defusing: bool,
    /// Seconds of blindness remaining.
    pub flash_duration: Float,
    /// Comma-separated short names of every weapon entity in the loadout, in slot order.
    pub inventory: T,
}

impl View for PlayerState {
    type V = PlayerState<Seq<char>>;

    open spec fn view(&self) -> PlayerState<Seq<char>> {
        PlayerState {
            tick: self.tick,
            round_num: self.round_num,
            steamid: self.steamid,
            name: text::of(self.name),
            side: text::of(self.side),
            ping: self.ping,
            x: self.x,
            y: self.y,
            z: self.z,
            place: text::of(self.place),
            team_clan_name: text::of(self.team_clan_name),
            pitch: self.pitch,
            yaw: self.yaw,
            health: self.health,
            armor: self.armor,
            has_helmet: self.has_helmet,
            has_defuser: self.has_defuser,
            has_bomb: self.has_bomb,
            active_weapon: text::of(self.active_weapon),
            primary_weapon: text::of(self.primary_weapon),
            secondary_weapon: text::of(self.secondary_weapon),
            fire_grenades: self.fire_grenades,
            smoke_grenades: self.smoke_grenades,
            he_grenades: self.he_grenades,
            flashbangs: self.flashbangs,
            decoy_grenades: self.decoy_grenades,
            equipment_value: self.equipment_value,
            equipment_value_round_start: self.equipment_value_round_start,
            money: self.money,
            cash_spent_this_round: self.cash_spent_this_round,
            is_crouched: self.is_crouched,
            is_walking: self.is_walking,
            is_jumping: self.is_jumping,
            is_in_bomb_zone: self.is_in_bomb_zone,
            is_scoped: self.is_scoped,
            is_defusing: self.is_defusing,
            flash_duration: self.flash_duration,
            inventory: self.inventory@,
        }
    }
}

/// The position in the reserve-ammo array that counts flashbangs.
pub const FLASHBANG_AMMO_INDEX: u8 = 14;

/// Field keys read for every player state.
#[derive(Clone, Debug)]
pub struct SnapshotKeys<S = Vec<Option<u64>>> {
    /// Number of the player-pawn class, -1 if there is none.
    pub pawn_class: i32,
    pub health: Option<u64>,
    pub armor: Option<u64>,
    pub angles: Option<u64>,
    pub equip: Option<u64>,
    pub equip_round_start: Option<u64>,
    pub flags: Option<u64>,
    pub crouched: Option<u64>,
    pub walking: Option<u64>,
    pub scoped: Option<u64>,
    pub defusing: Option<u64>,
    pub flash: Option<u64>,
    pub in_bomb_zone: Option<u64>,
    pub has_helmet: Option<u64>,
    pub has_defuser: Option<u64>,
    pub active_weapon: Option<u64>,
    pub inventory: InventoryKeys<S>,
    /// Named callout location.
    pub place: Option<u64>,
    /// Network ping, on the controller.
    pub ping: Option<u64>,
    /// The flashbang element of the reserve-ammo array.
    pub flashbang_ammo_key: Option<u64>,
}

impl View for SnapshotKeys {
    type V = SnapshotKeys<Seq<Option<u64>>>;

    open spec fn view(&self) -> SnapshotKeys<Seq<Option<u64>>> {
        SnapshotKeys {
            pawn_class: self.pawn_class,
            health: self.health,
            armor: self.armor,
            angles: self.angles,
            equip: self.equip,
            equip_round_start: self.equip_round_start,
            flags: self.flags,
            crouched: self.crouched,
            walking: self.walking,
            scoped: self.scoped,
            defusing: self.defusing,
            flash: self.flash,
            in_bomb_zone: self.in_bomb_zone,
            has_helmet: self.has_helmet,
            has_defuser: self.has_defuser,
            active_weapon: self.active_weapon,
            inventory: self.inventory@,
            place: self.place,
            ping: self.ping,
            flashbang_ammo_key: self.flashbang_ammo_key,
        }
    }
}

/// Field keys read for every player state.
pub open spec fn snapshot_keys(schema: Schema) -> SnapshotKeys<Seq<Option<u64>>> {
    SnapshotKeys {
        pawn_class: match schema.class_id_of(PLAYER_PAWN_CLASS@) {
            Some(id) => id,
            None => -1i32,
        },
        health: schema.key_of(PLAYER_PAWN_CLASS@, "m_iHealth"@),
        armor: schema.key_of(PLAYER_PAWN_CLASS@, "m_ArmorValue"@),
        angles: schema.key_of(PLAYER_PAWN_CLASS@, "m_angEyeAngles"@),
        equip: schema.key_of(PLAYER_PAWN_CLASS@, "m_unCurrentEquipmentValue"@),
        equip_round_start: schema.key_of(PLAYER_PAWN_CLASS@, "m_unRoundStartEquipmentValue"@),
        flags: schema.key_of(PLAYER_PAWN_CLASS@, "m_fFlags"@),
        crouched: schema.key_of(PLAYER_PAWN_CLASS@, "m_pMovementServices.m_bDucked"@),
        walking: schema.key_of(PLAYER_PAWN_CLASS@, "m_bIsWalking"@),
        scoped: schema.key_of(PLAYER_PAWN_CLASS@, "m_bIsScoped"@),
        defusing: schema.key_of(PLAYER_PAWN_CLASS@, "m_bIsDefusing"@),
        flash: schema.key_of(PLAYER_PAWN_CLASS@, "m_flFlashDuration"@),
        in_bomb_zone: schema.key_of(PLAYER_PAWN_CLASS@, "m_bInBombZone"@),
        has_helmet: schema.key_of(PLAYER_PAWN_CLASS@, "m_pItemServices.m_bHasHelmet"@),
        has_defuser: schema.key_of(PLAYER_PAWN_CLASS@, "m_pItemServices.m_bHasDefuser"@),
        active_weapon: schema.key_of(PLAYER_PAWN_CLASS@, "m_pWeaponServices.m_hActiveWeapon"@),
        inventory: items::inventory_keys(schema),
        place: schema.key_of(PLAYER_PAWN_CLASS@, "m_szLastPlaceName"@),
        ping: schema.key_of(PLAYER_CONTROLLER_CLASS@, "m_iPing"@),
        flashbang_ammo_key: schema.element_key_of(
            PLAYER_PAWN_CLASS@,
            "m_pWeaponServices.m_iAmmo"@,
            FLASHBANG_AMMO_INDEX,
        ),
    }
}

impl SnapshotKeys {
    pub fn resolve(schema: &Schema) -> (keys: SnapshotKeys)
        ensures
            keys@ == snapshot_keys(*schema),
    {
        SnapshotKeys {
            pawn_class: match schema.id_of(PLAYER_PAWN_CLASS) {
                Some(id) => id,
                None => -1,
            },
            health: schema.field_key(PLAYER_PAWN_CLASS, "m_iHealth"),
            armor: schema.field_key(PLAYER_PAWN_CLASS, "m_ArmorValue"),
            angles: schema.field_key(PLAYER_PAWN_CLASS, "m_angEyeAngles"),
            equip: schema.field_key(PLAYER_PAWN_CLASS, "m_unCurrentEquipmentValue"),
            equip_round_start: schema.field_key(PLAYER_PAWN_CLASS, "m_unRoundStartEquipmentValue"),
            flags: schema.field_key(PLAYER_PAWN_CLASS, "m_fFlags"),
            crouched: schema.field_key(PLAYER_PAWN_CLASS, "m_pMovementServices.m_bDucked"),
            walking: schema.field_key(PLAYER_PAWN_CLASS, "m_bIsWalking"),
            scoped: schema.field_key(PLAYER_PAWN_CLASS, "m_bIsScoped"),
            defusing: schema.field_key(PLAYER_PAWN_CLASS, "m_bIsDefusing"),
            flash: schema.field_key(PLAYER_PAWN_CLASS, "m_flFlashDuration"),
            in_bomb_zone: schema.field_key(PLAYER_PAWN_CLASS, "m_bInBombZone"),
            has_helmet: schema.field_key(PLAYER_PAWN_CLASS, "m_pItemServices.m_bHasHelmet"),
            has_defuser: schema.field_key(PLAYER_PAWN_CLASS, "m_pItemServices.m_bHasDefuser"),
            active_weapon: schema.field_key(PLAYER_PAWN_CLASS, "m_pWeaponServices.m_hActiveWeapon"),
            inventory: InventoryKeys::resolve(schema),
            place: schema.field_key(PLAYER_PAWN_CLASS, "m_szLastPlaceName"),
            ping: schema.field_key(PLAYER_CONTROLLER_CLASS, "m_iPing"),
            flashbang_ammo_key: schema.element_key(
                PLAYER_PAWN_CLASS,
                "m_pWeaponServices.m_iAmmo",
                FLASHBANG_AMMO_INDEX,
            ),
        }
    }
}

/// What a pawn carries.
pub struct Loadout<T = String> {
    pub inventory: T,
    pub primary: Option<T>,
    pub secondary: Option<T>,
    pub he: i32,
    /// Flashbang entities; there may be two flashbangs to one.
    pub flash: i32,
    pub smoke: i32,
    pub fire: i32,
    pub decoy: i32,
    pub bomb: bool,
}

impl View for Loadout {
    type V = Loadout<Seq<char>>;

    open spec fn view(&self) -> Loadout<Seq<char>> {
        Loadout {
            inventory: self.inventory@,
            primary: text::of(self.primary),
            secondary: text::of(self.secondary),
            he: self.he,
            flash: self.flash,
            smoke: self.smoke,
            fire: self.fire,
            decoy: self.decoy,
            bomb: self.bomb,
        }
    }
}

/// Nothing carried.
pub open spec fn no_loadout() -> Loadout<Seq<char>> {
    Loadout {
        inventory: Seq::empty(),
        primary: None,
        secondary: None,
        he: 0,
        flash: 0,
        smoke: 0,
        fire: 0,
        decoy: 0,
        bomb: false,
    }
}

/// A name added to a comma-separated list.
pub open spec fn listed(list: Seq<char>, name: Seq<char>) -> Seq<char> {
    if list.len() == 0 {
        name
    } else {
        list + ","@ + name
    }
}

/// A loadout with one weapon more.
pub open spec fn with_weapon(l: Loadout<Seq<char>>, name: Seq<char>, slot: WeaponSlot) -> Loadout<
    Seq<char>,
> {
    let l = Loadout { inventory: listed(l.inventory, name), ..l };
    match slot {
        WeaponSlot::Primary => Loadout { primary: Some(name), ..l },
        WeaponSlot::Secondary => Loadout { secondary: Some(name), ..l },
        WeaponSlot::Grenade => if name == "hegrenade"@ {
            Loadout { he: (l.he + 1) as i32, ..l }
        } else if name == "flashbang"@ {
            Loadout { flash: (l.flash + 1) as i32, ..l }
        } else if name == "smokegrenade"@ {
            Loadout { smoke: (l.smoke + 1) as i32, ..l }
        } else if name == "molotov"@ || name == "incendiary"@ {
            Loadout { fire: (l.fire + 1) as i32, ..l }
        } else if name == "decoy"@ {
            Loadout { decoy: (l.decoy + 1) as i32, ..l }
        } else {
            l
        },
        WeaponSlot::C4 => Loadout { bomb: true, ..l },
        WeaponSlot::Melee => l,
        WeaponSlot::Equipment => l,
    }
}

/// What the slots of a pawn hold.
pub open spec fn loadout_in(lens: Lens, f: Frame, pawn: Entity, slots: Seq<Option<u64>>) -> Loadout<
    Seq<char>,
>
    decreases slots.len(),
{
    if slots.len() == 0 {
        no_loadout()
    } else {
        let rest = loadout_in(lens, f, pawn, slots.drop_last());
        match lens.linked(f.entities@, pawn.handle_at(slots.last())) {
            Some(w) => match lens.names.weapon(w.class_name@) {
                Some(info) => with_weapon(rest, info.name@, info.slot),
                None => rest,
            },
            None => rest,
        }
    }
}

/// What a pawn carries.
pub open spec fn loadout_of(
    lens: Lens,
    f: Frame,
    pawn: Entity,
    sk: SnapshotKeys<Seq<Option<u64>>>,
) -> Loadout<Seq<char>> {
    loadout_in(
        lens,
        f,
        pawn,
        sk.inventory.slots.take(items::slots_used(pawn, sk.inventory)),
    )
}

/// How many flashbangs a flashbang entity stands for: the reserve-ammo count where it is
/// known and positive, else one.
pub open spec fn flashbangs_each(pawn: Entity, key: Option<u64>) -> i32 {
    let n = pawn.i64_at(key);
    if n > 0 {
        n as i32
    } else {
        1
    }
}

/// A player state with what the pawn carries.
pub open spec fn with_loadout(
    s: PlayerState<Seq<char>>,
    l: Loadout<Seq<char>>,
    each: i32,
) -> PlayerState<Seq<char>> {
    PlayerState {
        inventory: l.inventory,
        primary_weapon: l.primary,
        secondary_weapon: l.secondary,
        he_grenades: l.he,
        flashbangs: (l.flash * each) as i32,
        smoke_grenades: l.smoke,
        fire_grenades: l.fire,
        decoy_grenades: l.decoy,
        has_bomb: l.bomb,
        ..s
    }
}

/// No more of anything than there are slots.
proof fn lemma_loadout_counts(lens: Lens, f: Frame, pawn: Entity, slots: Seq<Option<u64>>)
    requires
        slots.len() <= i32::MAX,
    ensures
        ({
            let l = loadout_in(lens, f, pawn, slots);
            &&& 0 <= l.he <= slots.len()
            &&& 0 <= l.flash <= slots.len()
            &&& 0 <= l.smoke <= slots.len()
            &&& 0 <= l.fire <= slots.len()
            &&& 0 <= l.decoy <= slots.len()
        }),
    decreases slots.len(),
{
    if slots.len() > 0 {
        lemma_loadout_counts(lens, f, pawn, slots.drop_last());
    }
}

/// Add a weapon to a loadout.
fn add_weapon(l: &mut Loadout, name: &String, slot: WeaponSlot)
    requires
        0 <= old(l).he < i32::MAX,
        0 <= old(l).flash < i32::MAX,
        0 <= old(l).smoke < i32::MAX,
        0 <= old(l).fire < i32::MAX,
        0 <= old(l).decoy < i32::MAX,
    ensures
        final(l)@ == with_weapon(old(l)@, name@, slot),
{
    let s = name.as_str();
    if l.inventory.as_str().is_empty() {
        l.inventory = name.clone();
    } else {
        l.inventory.append(",");
        l.inventory.append(s);
    }
    match slot {
        WeaponSlot::Primary => {
            l.primary = Some(name.clone());
        },
        WeaponSlot::Secondary => {
            l.secondary = Some(name.clone());
        },
        WeaponSlot::Grenade => {
            if same_text(s, "hegrenade") {
                l.he = l.he + 1;
            } else if same_text(s, "flashbang") {
                l.flash = l.flash + 1;
            } else if same_text(s, "smokegrenade") {
                l.smoke = l.smoke + 1;
            } else if same_text(s, "molotov") || same_text(s, "incendiary") {
                l.fire = l.fire + 1;
            } else if same_text(s, "decoy") {
                l.decoy = l.decoy + 1;
            }
        },
        WeaponSlot::C4 => {
            l.bomb = true;
        },
        WeaponSlot::Melee => {},
        WeaponSlot::Equipment => {},
    }
}

/// Whether the flashbangs that a pawn carries can be counted in 32 bits.
pub open spec fn flashbangs_fit(
    lens: Lens,
    f: Frame,
    pawn: Entity,
    sk: SnapshotKeys<Seq<Option<u64>>>,
) -> bool {
    damages::fits(
        loadout_of(lens, f, pawn, sk).flash * flashbangs_each(pawn, sk.flashbang_ammo_key),
    )
}

/// What a pawn carries.
fn read_loadout(f: &Frame, lens: &Lens, pawn: &Entity, sk: &SnapshotKeys) -> (l: Loadout)
    requires
        sk.inventory.slots@.len() <= i32::MAX,
    ensures
        l@ == loadout_of(*lens, *f, *pawn, sk@),
        0 <= l.flash,
{
    let n = used_slots(pawn, &sk.inventory);
    let ghost slots = sk.inventory.slots@;
    let mut l = Loadout {
        inventory: String::new(),
        primary: None,
        secondary: None,
        he: 0,
        flash: 0,
        smoke: 0,
        fire: 0,
        decoy: 0,
        bomb: false,
    };
    let mut i: usize = 0;
    assert(slots.take(0) =~= Seq::empty());
    while i < n
        invariant
            i <= n,
            n <= slots.len(),
            slots == sk.inventory.slots@,
            slots.len() <= i32::MAX,
            l@ == loadout_in(*lens, *f, *pawn, slots.take(i as int)),
        decreases n - i,
    {
        proof {
            assert(slots.take(i + 1).drop_last() =~= slots.take(i as int));
            lemma_loadout_counts(*lens, *f, *pawn, slots.take(i as int));
        }
        if let Some(w) = lens.follow(f, pawn.get_handle(sk.inventory.slots[i])) {
            if let Some(info) = lens.names.weapon_info(w.class_name.as_str()) {
                add_weapon(&mut l, &info.name, info.slot);
            }
        }
        i = i + 1;
    }
    proof {
        lemma_loadout_counts(*lens, *f, *pawn, slots.take(n as int));
    }
    l
}

/// How many flashbangs a number of flashbang entities stand for.
fn count_flashbangs(entities: i32, pawn: &Entity, key: Option<u64>) -> (n: i64)
    requires
        0 <= entities,
    ensures
        n == entities * flashbangs_each(*pawn, key),
{
    let ammo = pawn.get_i64(key);
    let each: i32 = if ammo > 0 {
        #[verifier::truncate]
        (ammo as i32)
    } else {
        1
    };
    assert(-0x8000_0000 * 0x8000_0000 <= entities * each <= 0x8000_0000 * 0x8000_0000)
        by (nonlinear_arith)
        requires
            0 <= entities <= 0x8000_0000,
            -0x8000_0000 <= each < 0x8000_0000,
    ;
    entities as i64 * each as i64
}

/// Walk a pawn's weapons and fill the loadout of a player state: the primary and secondary
/// weapon, grenade counts and the comma-separated inventory, in slot order.
fn fill_loadout(f: &Frame, lens: &Lens, pawn: &Entity, sk: &SnapshotKeys, state: &mut PlayerState)
    requires
        sk.inventory.slots@.len() <= i32::MAX,
        flashbangs_fit(*lens, *f, *pawn, sk@),
    ensures
        final(state)@ == with_loadout(
            old(state)@,
            loadout_of(*lens, *f, *pawn, sk@),
            flashbangs_each(*pawn, sk.flashbang_ammo_key),
        ),
{
    let l = read_loadout(f, lens, pawn, sk);
    state.flashbangs = count_flashbangs(l.flash, pawn, sk.flashbang_ammo_key) as i32;
    state.inventory = l.inventory;
    state.primary_weapon = l.primary;
    state.secondary_weapon = l.secondary;
    state.he_grenades = l.he;
    state.smoke_grenades = l.smoke;
    state.fire_grenades = l.fire;
    state.decoy_grenades = l.decoy;
    state.has_bomb = l.bomb;
}

/// The latest keyframe at or before a tick; the least number there is, before all of them.
pub open spec fn bucket_of(keyframes: Seq<i32>, tick: i32) -> i32
    decreases keyframes.len(),
{
    if keyframes.len() == 0 {
        i32::MIN
    } else {
        let rest = bucket_of(keyframes.drop_last(), tick);
        if rest < keyframes.last() && keyframes.last() <= tick {
            keyframes.last()
        } else {
            rest
        }
    }
}

fn bucket(keyframes: &Vec<i32>, tick: i32) -> (b: i32)
    ensures
        b == bucket_of(keyframes@, tick),
{
    let n: usize = keyframes.len();
    let mut b: i32 = i32::MIN;
    let mut i: usize = 0;
    assert(keyframes@.take(0) =~= Seq::<i32>::empty());
    while i < n
        invariant
            i <= n,
            n == keyframes@.len(),
            b == bucket_of(keyframes@.take(i as int), tick),
        decreases n - i,
    {
        assert(keyframes@.take(i + 1).drop_last() =~= keyframes@.take(i as int));
        if b < keyframes[i] && keyframes[i] <= tick {
            b = keyframes[i];
        }
        i = i + 1;
    }
    assert(keyframes@.take(n as int) =~= keyframes@);
    b
}

/// Who a pawn was, when its controller was last known.
pub struct Identity<T = String> {
    pub steamid: Option<u64>,
    pub name: Option<T>,
}

impl View for Identity {
    type V = Identity<Seq<char>>;

    open spec fn view(&self) -> Identity<Seq<char>> {
        Identity { steamid: self.steamid, name: text::of(self.name) }
    }
}

/// Which pawn, and since which keyframe: entity index, serial number and bucket.
pub struct PawnId {
    pub index: i32,
    pub serial: u32,
    pub bucket: i32,
}

/// A pawn in one number.
pub open spec fn pawn_key(id: PawnId) -> int {
    ((id.index + 0x8000_0000) * 0x1_0000_0000 + id.serial) * 0x1_0000_0000 + (id.bucket
        + 0x8000_0000)
}

/// Different pawns have different keys.
proof fn lemma_pawn_key(a: PawnId, b: PawnId)
    ensures
        0 <= pawn_key(a) <= u128::MAX,
        pawn_key(a) == pawn_key(b) ==> a == b,
{
}

fn pack_pawn(id: &PawnId) -> (key: u128)
    ensures
        key == pawn_key(*id),
{
    let high: u128 = (id.index as i64 + 0x8000_0000) as u128;
    let low: u128 = (id.bucket as i64 + 0x8000_0000) as u128;
    (high * 0x1_0000_0000 + id.serial as u128) * 0x1_0000_0000 + low
}

/// The identities that a table holds.
pub open spec fn identities(table: Map<u128, Identity>) -> Map<PawnId, Identity<Seq<char>>> {
    Map::new(
        |id: PawnId| table.contains_key(pawn_key(id) as u128),
        |id: PawnId| table[pawn_key(id) as u128]@,
    )
}

/// Adding to a table adds an identity.
proof fn lemma_identities_insert(table: Map<u128, Identity>, id: PawnId, who: Identity)
    ensures
        identities(table.insert(pawn_key(id) as u128, who)) == identities(table).insert(id, who@),
{
    let now = identities(table.insert(pawn_key(id) as u128, who));
    let want = identities(table).insert(id, who@);
    assert forall|other: PawnId| #[trigger] now.contains_key(other) == want.contains_key(other) && (
    now.contains_key(other) ==> now[other] == want[other]) by {
        lemma_pawn_key(id, other);
        lemma_pawn_key(other, id);
    }
    assert(now =~= want);
}

/// A player's state as far as the pawn shows it.
pub open spec fn pawn_state(
    f: Frame,
    sk: SnapshotKeys<Seq<Option<u64>>>,
    lens: Lens,
    clans: Map<i64, Seq<char>>,
    pawn: Entity,
) -> PlayerState<Seq<char>> {
    let at = lens.pawn.origin.position(pawn);
    let team = pawn.i64_at(lens.pawn.team);
    let s = PlayerState {
        tick: f.tick,
        round_num: None,
        steamid: None,
        name: None,
        side: Some(lens.names.teams.name(team)),
        ping: None,
        x: match at {
            Some(p) => Some(p.x),
            None => None,
        },
        y: match at {
            Some(p) => Some(p.y),
            None => None,
        },
        z: match at {
            Some(p) => Some(p.z),
            None => None,
        },
        place: pawn.text_at(sk.place),
        team_clan_name: resolve::clan_of(clans, team),
        pitch: pawn.angles_at(sk.angles).x,
        yaw: pawn.angles_at(sk.angles).y,
        health: pawn.i64_at(sk.health) as i32,
        armor: pawn.i64_at(sk.armor) as i32,
        has_helmet: pawn.bool_at(sk.has_helmet),
        has_defuser: pawn.bool_at(sk.has_defuser),
        has_bomb: false,
        active_weapon: match lens.linked(f.entities@, pawn.handle_at(sk.active_weapon)) {
            Some(w) => match lens.names.weapon(w.class_name@) {
                Some(info) => Some(info.name@),
                None => None,
            },
            None => None,
        },
        primary_weapon: None,
        secondary_weapon: None,
        fire_grenades: 0,
        smoke_grenades: 0,
        he_grenades: 0,
        flashbangs: 0,
        decoy_grenades: 0,
        equipment_value: pawn.i64_at(sk.equip) as i32,
        equipment_value_round_start: pawn.i64_at(sk.equip_round_start) as i32,
        money: 0,
        cash_spent_this_round: 0,
        is_crouched: pawn.bool_at(sk.crouched),
        is_walking: pawn.bool_at(sk.walking),
        // The lowest flag is set while the player stands on the ground.
        is_jumping: match pawn.u64_at(sk.flags) {
            Some(flags) => flags % 2 == 0,
            None => false,
        },
        is_in_bomb_zone: pawn.bool_at(sk.in_bomb_zone),
        is_scoped: pawn.bool_at(sk.scoped),
        is_defusing: pawn.bool_at(sk.defusing),
        flash_duration: pawn.real_at(sk.flash),
        inventory: Seq::empty(),
    };
    with_loadout(
        s,
        loadout_of(lens, f, pawn, sk),
        flashbangs_each(pawn, sk.flashbang_ammo_key),
    )
}

/// A player's state with what the controller shows.
pub open spec fn with_controller(
    s: PlayerState<Seq<char>>,
    sk: SnapshotKeys<Seq<Option<u64>>>,
    lens: Lens,
    c: Entity,
) -> PlayerState<Seq<char>> {
    PlayerState {
        steamid: c.u64_at(lens.ctrl.steamid),
        name: c.text_at(lens.ctrl.name),
        money: c.i64_at(lens.ctrl.money) as i32,
        ping: match c.u64_at(sk.ping) {
            Some(p) => Some(p as i32),
            None => None,
        },
        cash_spent_this_round: c.i64_at(lens.ctrl.cash_spent_this_round) as i32,
        ..s
    }
}

/// Whether an entity is a player pawn in play: in use and on a team.
pub open spec fn in_play(sk: SnapshotKeys<Seq<Option<u64>>>, lens: Lens, e: Entity) -> bool {
    e.active && e.class_id == sk.pawn_class && e.i64_at(lens.pawn.team) > 0
}

/// The states told so far and the identities known.
pub struct StatesState {
    pub rows: Seq<PlayerState<Seq<char>>>,
    pub known: Map<PawnId, Identity<Seq<char>>>,
}

/// One entity: a pawn in play gives a row. Where its controller link is gone, as it is for
/// the dead, the identity last known since the keyframe stands in.
pub open spec fn states_step(
    s: StatesState,
    f: Frame,
    sk: SnapshotKeys<Seq<Option<u64>>>,
    lens: Lens,
    bucket: i32,
    clans: Map<i64, Seq<char>>,
    e: Entity,
) -> StatesState {
    if !in_play(sk, lens, e) {
        s
    } else {
        let id = PawnId { index: e.index, serial: e.serial, bucket };
        let row = pawn_state(f, sk, lens, clans, e);
        match lens.controller(f.entities@, e) {
            Some(c) => {
                let row = with_controller(row, sk, lens, c);
                StatesState {
                    rows: s.rows.push(row),
                    known: if row.steamid is Some {
                        s.known.insert(id, Identity { steamid: row.steamid, name: row.name })
                    } else {
                        s.known
                    },
                }
            },
            None => if s.known.contains_key(id) {
                StatesState {
                    rows: s.rows.push(
                        PlayerState {
                            steamid: s.known[id].steamid,
                            name: s.known[id].name,
                            ..row
                        },
                    ),
                    ..s
                }
            } else {
                StatesState { rows: s.rows.push(row), ..s }
            },
        }
    }
}

/// The entities of a tick.
pub open spec fn states_in(
    s: StatesState,
    f: Frame,
    sk: SnapshotKeys<Seq<Option<u64>>>,
    lens: Lens,
    bucket: i32,
    clans: Map<i64, Seq<char>>,
    entities: Seq<Entity>,
) -> StatesState
    decreases entities.len(),
{
    if entities.len() == 0 {
        s
    } else {
        states_step(
            states_in(s, f, sk, lens, bucket, clans, entities.drop_last()),
            f,
            sk,
            lens,
            bucket,
            clans,
            entities.last(),
        )
    }
}

/// Whether the flashbangs of every pawn in use can be counted in 32 bits.
pub open spec fn frame_fits(f: Frame, sk: SnapshotKeys<Seq<Option<u64>>>, lens: Lens) -> bool {
    forall|i: int|
        0 <= i < f.entities@.len() && (#[trigger] f.entities@[i]).active && f.entities@[i].class_id
            == sk.pawn_class ==> flashbangs_fit(lens, f, f.entities@[i], sk)
}

/// A player's state as far as the pawn shows it.
fn read_pawn(
    f: &Frame,
    sk: &SnapshotKeys,
    lens: &Lens,
    clans: &HashMap<i64, String>,
    pawn: &Entity,
) -> (s: PlayerState)
    requires
        sk.inventory.slots@.len() <= i32::MAX,
        flashbangs_fit(*lens, *f, *pawn, sk@),
    ensures
        s@ == pawn_state(*f, sk@, *lens, resolve::clan_names(clans@), *pawn),
{
    let team = pawn.get_i64(lens.pawn.team);
    let angles = pawn.get_qangle(sk.angles);
    let at = lens.pawn.origin.world(pawn);
    let (x, y, z) = match at {
        Some(p) => (Some(p.x), Some(p.y), Some(p.z)),
        None => (None, None, None),
    };
    let mut s = PlayerState {
        tick: f.tick,
        round_num: None,
        steamid: None,
        name: None,
        side: Some(lens.names.teams.name_of(team)),
        ping: None,
        x,
        y,
        z,
        place: pawn.get_string(sk.place),
        team_clan_name: clan_name(clans, team),
        pitch: angles.x,
        yaw: angles.y,
        health: #[verifier::truncate]
        (pawn.get_i64(sk.health) as i32),
        armor: #[verifier::truncate]
        (pawn.get_i64(sk.armor) as i32),
        has_helmet: pawn.get_bool(sk.has_helmet),
        has_defuser: pawn.get_bool(sk.has_defuser),
        has_bomb: false,
        active_weapon: match lens.follow(f, pawn.get_handle(sk.active_weapon)) {
            Some(w) => match lens.names.weapon_info(w.class_name.as_str()) {
                Some(info) => Some(info.name.clone()),
                None => None,
            },
            None => None,
        },
        primary_weapon: None,
        secondary_weapon: None,
        fire_grenades: 0,
        smoke_grenades: 0,
        he_grenades: 0,
        flashbangs: 0,
        decoy_grenades: 0,
        equipment_value: #[verifier::truncate]
        (pawn.get_i64(sk.equip) as i32),
        equipment_value_round_start: #[verifier::truncate]
        (pawn.get_i64(sk.equip_round_start) as i32),
        money: 0,
        cash_spent_this_round: 0,
        is_crouched: pawn.get_bool(sk.crouched),
        is_walking: pawn.get_bool(sk.walking),
        is_jumping: match pawn.get_u64(sk.flags) {
            Some(flags) => flags % 2 == 0,
            None => false,
        },
        is_in_bomb_zone: pawn.get_bool(sk.in_bomb_zone),
        is_scoped: pawn.get_bool(sk.scoped),
        is_defusing: pawn.get_bool(sk.defusing),
        flash_duration: pawn.get_real(sk.flash),
        inventory: String::new(),
    };
    assert(s.inventory@ =~= Seq::empty());
    fill_loadout(f, lens, pawn, sk, &mut s);
    s
}

/// Read every player pawn in play, carrying identities over from tick to tick.
///
/// A dead player's pawn keeps its position, team and health, but not the link to its
/// controller. `known` fills in who it was, scoped to the time since the last keyframe: a
/// boundary of the demo itself, so that it makes no difference from which keyframe on the
/// demo is decoded.
pub fn player_states(
    f: &Frame,
    sk: &SnapshotKeys,
    lens: &Lens,
    keyframes: &Vec<i32>,
    known: &mut HashMap<u128, Identity>,
    clans: &HashMap<i64, String>,
    out: &mut Vec<PlayerState>,
)
    requires
        sk.inventory.slots@.len() <= i32::MAX,
        frame_fits(*f, sk@, *lens),
    ensures
        ({
            let done = states_in(
                StatesState {
                    rows: text::views(old(out)@),
                    known: identities(old(known)@),
                },
                *f,
                sk@,
                *lens,
                bucket_of(keyframes@, f.tick),
                resolve::clan_names(clans@),
                f.entities@,
            );
            &&& text::views(final(out)@) == done.rows
            &&& identities(final(known)@) == done.known
        }),
{
    let since = bucket(keyframes, f.tick);
    let ghost start = StatesState { rows: text::views(out@), known: identities(known@) };
    let ghost c = resolve::clan_names(clans@);
    let n: usize = f.entities.len();
    let mut i: usize = 0;
    assert(f.entities@.take(0) =~= Seq::<Entity>::empty());
    while i < n
        invariant
            i <= n,
            n == f.entities@.len(),
            sk.inventory.slots@.len() <= i32::MAX,
            frame_fits(*f, sk@, *lens),
            c == resolve::clan_names(clans@),
            text::views(out@) == states_in(
                start,
                *f,
                sk@,
                *lens,
                since,
                c,
                f.entities@.take(i as int),
            ).rows,
            identities(known@) == states_in(
                start,
                *f,
                sk@,
                *lens,
                since,
                c,
                f.entities@.take(i as int),
            ).known,
        decreases n - i,
    {
        let e = &f.entities[i];
        assert(f.entities@.take(i + 1).drop_last() =~= f.entities@.take(i as int));
        assert(f.entities@.take(i + 1).last() == *e);
        if e.active && e.class_id == sk.pawn_class && e.get_i64(lens.pawn.team) > 0 {
            let id = PawnId { index: e.index, serial: e.serial, bucket: since };
            let key = pack_pawn(&id);
            proof {
                lemma_pawn_key(id, id);
            }
            let mut row = read_pawn(f, sk, lens, clans, e);
            if let Some(ctrl) = lens.follow(f, e.get_handle(lens.pawn.controller)) {
                row.steamid = ctrl.get_u64(lens.ctrl.steamid);
                row.name = ctrl.get_string(lens.ctrl.name);
                row.money = #[verifier::truncate]
                (ctrl.get_i64(lens.ctrl.money) as i32);
                row.ping = match ctrl.get_u64(sk.ping) {
                    Some(p) => Some(
                        #[verifier::truncate]
                        (p as i32),
                    ),
                    None => None,
                };
                row.cash_spent_this_round = #[verifier::truncate]
                (ctrl.get_i64(lens.ctrl.cash_spent_this_round) as i32);
                if row.steamid.is_some() {
                    let who = Identity { steamid: row.steamid, name: copy_text(&row.name) };
                    proof {
                        lemma_identities_insert(known@, id, who);
                    }
                    known.insert(key, who);
                }
            } else if let Some(who) = known.get(&key) {
                row.steamid = who.steamid;
                row.name = copy_text(&who.name);
            }
            out.push(row);
        }
        i = i + 1;
    }
    assert(f.entities@.take(n as int) =~= f.entities@);
}

/// Which ticks to take: of those between two ticks, all or the ones in either of two sets.
pub struct Query<'a> {
    pub all: bool,
    pub ticks: &'a HashSet<i32>,
    pub strided: HashSet<i32>,
    pub start: i32,
    pub end: i32,
}

impl<'a> Query<'a> {
    /// Whether a tick is to be taken.
    pub open spec fn wants(self, tick: i32) -> bool {
        self.start <= tick <= self.end && (self.all || self.ticks@.contains(tick)
            || self.strided@.contains(tick))
    }

    /// The ticks to be taken.
    pub open spec fn picks(self) -> spec_fn(i32) -> bool {
        |tick: i32| self.wants(tick)
    }

    /// Whether a tick is to be taken.
    pub fn wanted(&self, tick: i32) -> (b: bool)
        ensures
            b == self.wants(tick),
    {
        self.start <= tick && tick <= self.end && (self.all || self.ticks.contains(&tick)
            || self.strided.contains(&tick))
    }
}

/// The ticks that a query takes: within its window every tick, if neither a stride nor a set
/// of ticks is asked for, else those that the stride takes or that are in the set.
pub open spec fn sampled(
    every: Option<i32>,
    ticks: Set<i32>,
    start: i32,
    end: i32,
    frames: Seq<Frame>,
) -> spec_fn(i32) -> bool {
    |tick: i32|
        start <= tick <= end && match every {
            Some(step) => ticks.contains(tick) || stride(frames, step).taken.contains(tick),
            None => ticks.is_empty() || ticks.contains(tick),
        }
}

/// The states of a run of frames, at the ticks that are wanted.
pub open spec fn states_through(
    schema: Schema,
    lens: Lens,
    keyframes: Seq<i32>,
    wants: spec_fn(i32) -> bool,
    frames: Seq<Frame>,
) -> StatesState
    decreases frames.len(),
{
    if frames.len() == 0 {
        StatesState { rows: Seq::empty(), known: Map::empty() }
    } else {
        let f = frames.last();
        let before = states_through(schema, lens, keyframes, wants, frames.drop_last());
        if wants(f.tick) {
            states_in(
                before,
                f,
                snapshot_keys(schema),
                lens,
                bucket_of(keyframes, f.tick),
                resolve::clans_through(TeamKeys::of(schema), frames),
                f.entities@,
            )
        } else {
            before
        }
    }
}

/// Whether the flashbangs of every pawn at the wanted ticks can be counted in 32 bits.
pub open spec fn frames_fit(schema: Schema, lens: Lens, wants: spec_fn(i32) -> bool, frames: Seq<Frame>) -> bool {
    forall|i: int|
        0 <= i < frames.len() && wants((#[trigger] frames[i]).tick) ==> frame_fits(
            frames[i],
            snapshot_keys(schema),
            lens,
        )
}

/// Whether the flashbangs of every pawn in use can be counted in 32 bits.
fn can_count(f: &Frame, sk: &SnapshotKeys, lens: &Lens) -> (b: bool)
    requires
        sk.inventory.slots@.len() <= i32::MAX,
    ensures
        b == frame_fits(*f, sk@, *lens),
{
    let n: usize = f.entities.len();
    let mut i: usize = 0;
    while i < n
        invariant
            i <= n,
            n == f.entities@.len(),
            sk.inventory.slots@.len() <= i32::MAX,
            forall|j: int|
                0 <= j < i && (#[trigger] f.entities@[j]).active && f.entities@[j].class_id
                    == sk.pawn_class ==> flashbangs_fit(*lens, *f, f.entities@[j], sk@),
        decreases n - i,
    {
        let e = &f.entities[i];
        if e.active && e.class_id == sk.pawn_class {
            let l = read_loadout(f, lens, e, sk);
            let total = count_flashbangs(l.flash, e, sk.flashbang_ammo_key);
            if total < i32::MIN as i64 || total > i32::MAX as i64 {
                assert(!flashbangs_fit(*lens, *f, f.entities@[i as int], sk@));
                return false;
            }
        }
        i = i + 1;
    }
    true
}

/// Whether the states of one frame can be read: the flashbangs of every pawn can be counted
/// in 32 bits.
pub fn can_read(schema: &Schema, lens: &Lens, f: &Frame) -> (b: bool)
    ensures
        b == frame_fits(*f, snapshot_keys(*schema), *lens),
{
    let sk = SnapshotKeys::resolve(schema);
    can_count(f, &sk, lens)
}

/// Whether the states of a run of frames can be collected at the ticks that are wanted: the
/// flashbangs of every pawn can be counted in 32 bits.
pub fn can_collect(schema: &Schema, lens: &Lens, query: &Query, frames: &Vec<Frame>) -> (b: bool)
    ensures
        b == frames_fit(*schema, *lens, query.picks(), frames@),
{
    let sk = SnapshotKeys::resolve(schema);
    let n: usize = frames.len();
    let mut i: usize = 0;
    while i < n
        invariant
            i <= n,
            n == frames@.len(),
            sk@ == snapshot_keys(*schema),
            sk.inventory.slots@.len() <= i32::MAX,
            forall|j: int|
                0 <= j < i && query.wants((#[trigger] frames@[j]).tick) ==> frame_fits(
                    frames@[j],
                    sk@,
                    *lens,
                ),
        decreases n - i,
    {
        if query.wanted(frames[i].tick) && !can_count(&frames[i], &sk, lens) {
            assert(!frame_fits(frames@[i as int], sk@, *lens));
            return false;
        }
        i = i + 1;
    }
    true
}

/// Collect the player states of a run of frames, at the ticks that are wanted.
pub fn collect_run(
    schema: &Schema,
    lens: &Lens,
    keyframes: &Vec<i32>,
    query: &Query,
    frames: &Vec<Frame>,
) -> (out: Vec<PlayerState>)
    requires
        frames_fit(*schema, *lens, query.picks(), frames@),
    ensures
        text::views(out@) == states_through(*schema, *lens, keyframes@, query.picks(), frames@).rows,
{
    let sk = SnapshotKeys::resolve(schema);
    let tk = TeamKeys::resolve(schema);
    let mut clans: HashMap<i64, String> = HashMap::new();
    let mut known: HashMap<u128, Identity> = HashMap::new();
    let mut out: Vec<PlayerState> = Vec::new();
    let n: usize = frames.len();
    let mut i: usize = 0;
    assert(frames@.take(0) =~= Seq::<Frame>::empty());
    assert(resolve::clan_names(clans@) =~= Map::empty());
    assert(identities(known@) =~= Map::empty());
    while i < n
        invariant
            i <= n,
            n == frames@.len(),
            frames_fit(*schema, *lens, query.picks(), frames@),
            sk@ == snapshot_keys(*schema),
            sk.inventory.slots@.len() <= i32::MAX,
            tk == TeamKeys::of(*schema),
            resolve::clan_names(clans@) == resolve::clans_through(tk, frames@.take(i as int)),
            text::views(out@) == states_through(
                *schema,
                *lens,
                keyframes@,
                query.picks(),
                frames@.take(i as int),
            ).rows,
            identities(known@) == states_through(
                *schema,
                *lens,
                keyframes@,
                query.picks(),
                frames@.take(i as int),
            ).known,
        decreases n - i,
    {
        let f = &frames[i];
        assert(frames@.take(i + 1).drop_last() =~= frames@.take(i as int));
        assert(frames@.take(i + 1).last() == *f);
        update_clans(f, &tk, &mut clans);
        if query.wanted(f.tick) {
            assert(frame_fits(frames@[i as int], sk@, *lens));
            player_states(f, &sk, lens, keyframes, &mut known, &clans, &mut out);
        }
        i = i + 1;
    }
    assert(frames@.take(n as int) =~= frames@);
    out
}

/// States with the rounds they fall in.
pub open spec fn finished_states(
    told: Seq<PlayerState<Seq<char>>>,
    rounds: Seq<Round<Seq<char>>>,
) -> Seq<PlayerState<Seq<char>>> {
    told.map_values(
        |s: PlayerState<Seq<char>>|
            PlayerState { round_num: anchors::round_num_at(rounds, s.tick), ..s },
    )
}

/// Stamp states with the rounds they fall in.
pub fn finish_states(states: &mut Vec<PlayerState>, rounds: &Vec<Round>)
    ensures
        text::views(final(states)@) == finished_states(
            text::views(old(states)@),
            text::views(rounds@),
        ),
{
    let anchors = anchors::round_num_anchors(rounds.as_slice());
    let ghost told = text::views(states@);
    let ghost done = finished_states(told, text::views(rounds@));
    let n: usize = states.len();
    for i in 0..n
        invariant
            n == states@.len(),
            n == told.len(),
            done == finished_states(told, text::views(rounds@)),
            anchors::looks_up(text::views(rounds@), anchors@),
            forall|j: int| 0 <= j < i ==> (#[trigger] states@[j])@ == done[j],
            forall|j: int| i <= j < n ==> (#[trigger] states@[j])@ == told[j],
    {
        let num = round_num_for_tick(anchors.as_slice(), states[i].tick);
        proof {
            anchors::law_lookup_finds_round(text::views(rounds@), anchors@, told[i as int].tick);
        }
        states[i].round_num = num;
    }
    assert(text::views(states@) =~= done);
}

/// The states of one frame alone, of every class of entity.
pub open spec fn frame_states(schema: Schema, lens: Lens, f: Frame) -> Seq<PlayerState<Seq<char>>> {
    states_in(
        StatesState { rows: Seq::empty(), known: Map::empty() },
        f,
        snapshot_keys(schema),
        lens,
        i32::MIN,
        resolve::clans_after(Map::empty(), TeamKeys::of(schema), f.entities@),
        f.entities@,
    ).rows
}

/// Read the states of one frame.
pub fn read_frame(schema: &Schema, lens: &Lens, f: &Frame) -> (out: Vec<PlayerState>)
    requires
        frame_fits(*f, snapshot_keys(*schema), *lens),
    ensures
        text::views(out@) == frame_states(*schema, *lens, *f),
{
    let sk = SnapshotKeys::resolve(schema);
    let tk = TeamKeys::resolve(schema);
    let mut clans: HashMap<i64, String> = HashMap::new();
    let mut known: HashMap<u128, Identity> = HashMap::new();
    let mut out: Vec<PlayerState> = Vec::new();
    let keyframes: Vec<i32> = Vec::new();
    assert(resolve::clan_names(clans@) =~= Map::empty());
    assert(identities(known@) =~= Map::empty());
    update_clans(f, &tk, &mut clans);
    player_states(f, &sk, lens, &keyframes, &mut known, &clans, &mut out);
    out
}

/// The last frame at or before a tick.
pub open spec fn frame_at(frames: Seq<Frame>, tick: i32) -> Option<Frame>
    decreases frames.len(),
{
    if frames.len() == 0 {
        None
    } else if frames.last().tick <= tick {
        Some(frames.last())
    } else {
        frame_at(frames.drop_last(), tick)
    }
}

/// The last frame at or before a tick.
pub fn seek_frame(frames: &Vec<Frame>, tick: i32) -> (f: Option<&Frame>)
    ensures
        f is Some == frame_at(frames@, tick) is Some,
        f matches Some(g) ==> frame_at(frames@, tick) == Some(*g),
{
    let mut i: usize = frames.len();
    assert(frames@.take(i as int) =~= frames@);
    while i > 0
        invariant
            i <= frames@.len(),
            frame_at(frames@, tick) == frame_at(frames@.take(i as int), tick),
        decreases i,
    {
        assert(frames@.take(i as int).drop_last() =~= frames@.take(i - 1));
        if frames[i - 1].tick <= tick {
            return Some(&frames[i - 1]);
        }
        i = i - 1;
    }
    None
}

/// The ticks that a stride takes, and the last of them: a tick is taken once at least
/// `step` has gone by since the last one taken, however ticks are skipped.
pub struct Stride {
    pub taken: Set<i32>,
    pub last: Option<i32>,
}

pub open spec fn stride(frames: Seq<Frame>, step: i32) -> Stride
    decreases frames.len(),
{
    if frames.len() == 0 {
        Stride { taken: Set::empty(), last: None }
    } else {
        let before = stride(frames.drop_last(), step);
        let t = frames.last().tick;
        match before.last {
            Some(l) => if t - l >= step {
                Stride { taken: before.taken.insert(t), last: Some(t) }
            } else {
                before
            },
            None => Stride { taken: before.taken.insert(t), last: Some(t) },
        }
    }
}

/// The ticks that a stride takes.
pub fn stride_ticks(frames: &Vec<Frame>, step: i32) -> (ticks: HashSet<i32>)
    ensures
        ticks@ == stride(frames@, step).taken,
{
    let mut ticks: HashSet<i32> = HashSet::new();
    let mut last: Option<i32> = None;
    let n: usize = frames.len();
    let mut i: usize = 0;
    assert(frames@.take(0) =~= Seq::<Frame>::empty());
    assert(ticks@ =~= Set::empty());
    while i < n
        invariant
            i <= n,
            n == frames@.len(),
            last == stride(frames@.take(i as int), step).last,
            ticks@ == stride(frames@.take(i as int), step).taken,
        decreases n - i,
    {
        assert(frames@.take(i + 1).drop_last() =~= frames@.take(i as int));
        let t = frames[i].tick;
        let take = match last {
            Some(l) => t as i64 - l as i64 >= step as i64,
            None => true,
        };
        if take {
            ticks.insert(t);
            last = Some(t);
        }
        i = i + 1;
    }
    assert(frames@.take(n as int) =~= frames@);
    ticks
}

/// What is taken last is taken, and a tick of the frames.
proof fn lemma_stride_last(frames: Seq<Frame>, step: i32)
    ensures
        stride(frames, step).last is Some <==> frames.len() > 0,
        stride(frames, step).last matches Some(l) ==> stride(frames, step).taken.contains(l)
            && exists|j: int| 0 <= j < frames.len() && (#[trigger] frames[j]).tick == l,
    decreases frames.len(),
{
    if frames.len() > 0 {
        let init = frames.drop_last();
        lemma_stride_last(init, step);
        let l = stride(frames, step).last->0;
        if l == frames.last().tick {
            assert(frames[frames.len() - 1].tick == l);
        } else {
            let j = choose|j: int| 0 <= j < init.len() && (#[trigger] init[j]).tick == l;
            assert(frames[j].tick == l);
        }
    }
}

/// A stride leaves no gap: behind every tick of the demo lies one that is taken, less than
/// `step` away, however many ticks the demo skips.
pub proof fn law_stride_leaves_no_gap(frames: Seq<Frame>, step: i32, i: int)
    requires
        step > 0,
        0 <= i < frames.len(),
        forall|a: int, b: int|
            0 <= a <= b < frames.len() ==> (#[trigger] frames[a]).tick <= (#[trigger] frames[b]).tick,
    ensures
        exists|j: int|
            0 <= j <= i && stride(frames, step).taken.contains((#[trigger] frames[j]).tick)
                && frames[i].tick - frames[j].tick < step,
    decreases frames.len(),
{
    let init = frames.drop_last();
    assert forall|a: int, b: int| 0 <= a <= b < init.len() implies (#[trigger] init[a]).tick <= (
    #[trigger] init[b]).tick by {
        assert(frames[a].tick <= frames[b].tick);
    }
    if i < init.len() {
        law_stride_leaves_no_gap(init, step, i);
        let j = choose|j: int|
            0 <= j <= i && stride(init, step).taken.contains((#[trigger] init[j]).tick)
                && init[i].tick - init[j].tick < step;
        assert(frames[j].tick == init[j].tick);
        assert(frames[i].tick == init[i].tick);
    } else {
        lemma_stride_last(init, step);
        match stride(init, step).last {
            Some(l) => {
                let j = choose|j: int| 0 <= j < init.len() && (#[trigger] init[j]).tick == l;
                assert(frames[j].tick == l);
                if frames.last().tick - l >= step {
                    assert(stride(frames, step).taken.contains(frames[i].tick));
                }
            },
            None => {
                assert(stride(frames, step).taken.contains(frames[i].tick));
            },
        }
    }
}

/// A stride keeps its distance: of two ticks that it takes, the later is at least `step`
/// after the earlier.
pub proof fn law_stride_keeps_distance(frames: Seq<Frame>, step: i32, a: i32, b: i32)
    requires
        step > 0,
        stride(frames, step).taken.contains(a),
        stride(frames, step).taken.contains(b),
        a < b,
    ensures
        b - a >= step,
        stride(frames, step).last matches Some(l) && b <= l,
    decreases frames.len(),
{
    let init = frames.drop_last();
    let before = stride(init, step);
    lemma_stride_last(init, step);
    lemma_stride_bound(init, step);
    if before.taken.contains(a) && before.taken.contains(b) {
        law_stride_keeps_distance(init, step, a, b);
    }
}

/// Nothing that is taken is later than what is taken last.
proof fn lemma_stride_bound(frames: Seq<Frame>, step: i32)
    requires
        step > 0,
    ensures
        forall|t: i32| #[trigger]
            stride(frames, step).taken.contains(t) ==> (stride(frames, step).last matches Some(l)
                && t <= l),
    decreases frames.len(),
{
    if frames.len() > 0 {
        lemma_stride_bound(frames.drop_last(), step);
    }
}

/// Whether two sets of identities agree on the buckets that no frame of `a` is in.
spec fn agree_off(
    keyframes: Seq<i32>,
    a: Seq<Frame>,
    x: Map<PawnId, Identity<Seq<char>>>,
    y: Map<PawnId, Identity<Seq<char>>>,
) -> bool {
    forall|id: PawnId|
        #![trigger x.contains_key(id)]
        #![trigger y.contains_key(id)]
        apart(keyframes, a, id.bucket) ==> x.contains_key(id) == y.contains_key(id) && (
        x.contains_key(id) ==> x[id] == y[id])
}

/// Whether no frame of `a` is in a bucket.
spec fn apart(keyframes: Seq<i32>, a: Seq<Frame>, bucket: i32) -> bool {
    forall|i: int| 0 <= i < a.len() ==> bucket_of(keyframes, (#[trigger] a[i]).tick) != bucket
}

/// Whether two tables of clan names agree on the team of every pawn in play.
pub open spec fn clans_agree(
    sk: SnapshotKeys<Seq<Option<u64>>>,
    lens: Lens,
    c: Map<i64, Seq<char>>,
    d: Map<i64, Seq<char>>,
    entities: Seq<Entity>,
) -> bool {
    forall|i: int|
        0 <= i < entities.len() && in_play(sk, lens, #[trigger] entities[i]) ==> resolve::clan_of(
            c,
            entities[i].i64_at(lens.pawn.team),
        ) == resolve::clan_of(d, entities[i].i64_at(lens.pawn.team))
}

/// Whether the run `b` shows by itself, as of its first `n` frames, the clan names that are in
/// force for the pawns then in play when it goes on from `a`.
pub open spec fn shows_clans(schema: Schema, lens: Lens, a: Seq<Frame>, b: Seq<Frame>, n: int) -> bool {
    clans_agree(
        snapshot_keys(schema),
        lens,
        resolve::clans_through(TeamKeys::of(schema), a + b.take(n)),
        resolve::clans_through(TeamKeys::of(schema), b.take(n)),
        b[n - 1].entities@,
    )
}

/// Clan names come from a run alone, as of any of its frames, where its first one names the
/// team or nothing before it does.
proof fn lemma_clans_of_run(tk: TeamKeys, a: Seq<Frame>, b: Seq<Frame>, n: int, team: i64)
    requires
        0 < n <= b.len(),
        resolve::clans_through(tk, a).contains_key(team) ==> exists|i: int|
            0 <= i < b[0].entities@.len() && resolve::names_team(
                tk,
                #[trigger] b[0].entities@[i],
                team,
            ),
    ensures
        resolve::clan_of(resolve::clans_through(tk, a + b.take(n)), team) == resolve::clan_of(
            resolve::clans_through(tk, b.take(n)),
            team,
        ),
    decreases n,
{
    assert((a + b.take(n)).drop_last() =~= a + b.take(n - 1));
    assert(b.take(n).drop_last() =~= b.take(n - 1));
    assert((a + b.take(n)).last() == b[n - 1]);
    assert(b.take(n).last() == b[n - 1]);
    if n > 1 {
        lemma_clans_of_run(tk, a, b, n - 1, team);
    } else {
        assert(a + b.take(0) =~= a);
        assert(b.take(0) =~= Seq::<Frame>::empty());
    }
    resolve::lemma_clans_meet(
        resolve::clans_through(tk, a + b.take(n - 1)),
        resolve::clans_through(tk, b.take(n - 1)),
        tk,
        b[n - 1].entities@,
        team,
    );
}

/// A run that starts with the names of all teams shows clan names by itself: where its first
/// frame names every team that was named before, the clan names in force are its own, all
/// along.
pub proof fn law_named_teams_show_clans(
    schema: Schema,
    lens: Lens,
    a: Seq<Frame>,
    b: Seq<Frame>,
    n: int,
)
    requires
        0 < n <= b.len(),
        forall|team: i64| #[trigger]
            resolve::clans_through(TeamKeys::of(schema), a).contains_key(team) ==> exists|i: int|
                0 <= i < b[0].entities@.len() && resolve::names_team(
                    TeamKeys::of(schema),
                    #[trigger] b[0].entities@[i],
                    team,
                ),
    ensures
        shows_clans(schema, lens, a, b, n),
{
    let tk = TeamKeys::of(schema);
    let entities = b[n - 1].entities@;
    assert forall|i: int|
        0 <= i < entities.len() && in_play(
            snapshot_keys(schema),
            lens,
            #[trigger] entities[i],
        ) implies resolve::clan_of(
        resolve::clans_through(tk, a + b.take(n)),
        entities[i].i64_at(lens.pawn.team),
    ) == resolve::clan_of(
        resolve::clans_through(tk, b.take(n)),
        entities[i].i64_at(lens.pawn.team),
    ) by {
        lemma_clans_of_run(tk, a, b, n, entities[i].i64_at(lens.pawn.team));
    }
}

/// From identities that agree, a tick tells the same.
proof fn lemma_states_agree(
    keyframes: Seq<i32>,
    a: Seq<Frame>,
    prefix: Seq<PlayerState<Seq<char>>>,
    x: StatesState,
    y: StatesState,
    f: Frame,
    sk: SnapshotKeys<Seq<Option<u64>>>,
    lens: Lens,
    bucket: i32,
    c: Map<i64, Seq<char>>,
    d: Map<i64, Seq<char>>,
    entities: Seq<Entity>,
)
    requires
        apart(keyframes, a, bucket),
        agree_off(keyframes, a, x.known, y.known),
        x.rows == prefix + y.rows,
        clans_agree(sk, lens, c, d, entities),
    ensures
        ({
            let p = states_in(x, f, sk, lens, bucket, c, entities);
            let q = states_in(y, f, sk, lens, bucket, d, entities);
            &&& p.rows == prefix + q.rows
            &&& agree_off(keyframes, a, p.known, q.known)
        }),
    decreases entities.len(),
{
    if entities.len() > 0 {
        let init = entities.drop_last();
        assert forall|i: int| 0 <= i < init.len() implies init[i] == #[trigger] entities[i] by {}
        assert(clans_agree(sk, lens, c, d, init));
        assert(entities[entities.len() - 1] == entities.last());
        lemma_states_agree(keyframes, a, prefix, x, y, f, sk, lens, bucket, c, d, init);
        let p = states_in(x, f, sk, lens, bucket, c, init);
        let q = states_in(y, f, sk, lens, bucket, d, init);
        let e = entities.last();
        let id = PawnId { index: e.index, serial: e.serial, bucket };
        assert(p.known.contains_key(id) == q.known.contains_key(id));
        let p2 = states_step(p, f, sk, lens, bucket, c, e);
        let q2 = states_step(q, f, sk, lens, bucket, d, e);
        if in_play(sk, lens, e) {
            assert(p2.rows.last() == q2.rows.last());
            assert(p2.rows =~= p.rows.push(p2.rows.last()));
            assert(q2.rows =~= q.rows.push(q2.rows.last()));
            assert(p2.rows =~= prefix + q2.rows);
        }
        assert(agree_off(keyframes, a, p2.known, q2.known));
    }
}

/// A run of frames knows identities of its own buckets only.
proof fn lemma_known_buckets(
    schema: Schema,
    lens: Lens,
    keyframes: Seq<i32>,
    wants: spec_fn(i32) -> bool,
    a: Seq<Frame>,
    id: PawnId,
)
    requires
        apart(keyframes, a, id.bucket),
    ensures
        !states_through(schema, lens, keyframes, wants, a).known.contains_key(id),
    decreases a.len(),
{
    if a.len() > 0 {
        let init = a.drop_last();
        assert forall|i: int| 0 <= i < init.len() implies bucket_of(
            keyframes,
            (#[trigger] init[i]).tick,
        ) != id.bucket by {
            assert(a[i] == init[i]);
        }
        lemma_known_buckets(schema, lens, keyframes, wants, init, id);
        let f = a.last();
        assert(a[a.len() - 1] == f);
        lemma_known_in(
            states_through(schema, lens, keyframes, wants, init),
            f,
            snapshot_keys(schema),
            lens,
            bucket_of(keyframes, f.tick),
            resolve::clans_through(TeamKeys::of(schema), a),
            f.entities@,
            id,
        );
    }
}

/// A tick adds identities of its own bucket only.
proof fn lemma_known_in(
    s: StatesState,
    f: Frame,
    sk: SnapshotKeys<Seq<Option<u64>>>,
    lens: Lens,
    bucket: i32,
    clans: Map<i64, Seq<char>>,
    entities: Seq<Entity>,
    id: PawnId,
)
    requires
        id.bucket != bucket,
        !s.known.contains_key(id),
    ensures
        !states_in(s, f, sk, lens, bucket, clans, entities).known.contains_key(id),
    decreases entities.len(),
{
    if entities.len() > 0 {
        lemma_known_in(s, f, sk, lens, bucket, clans, entities.drop_last(), id);
    }
}

/// A keyframe that parts two runs parts their buckets.
proof fn lemma_bucket_parts(keyframes: Seq<i32>, k: i32, before: i32, after: i32)
    requires
        keyframes.contains(k),
        before < k <= after,
    ensures
        bucket_of(keyframes, before) < k <= bucket_of(keyframes, after),
    decreases keyframes.len(),
{
    let init = keyframes.drop_last();
    lemma_bucket_bound(keyframes, before);
    if keyframes.last() != k {
        let i = choose|i: int| 0 <= i < keyframes.len() && keyframes[i] == k;
        assert(init[i] == k);
        lemma_bucket_parts(init, k, before, after);
    }
}

/// A bucket begins at or before its ticks.
proof fn lemma_bucket_bound(keyframes: Seq<i32>, tick: i32)
    ensures
        bucket_of(keyframes, tick) <= tick,
    decreases keyframes.len(),
{
    if keyframes.len() > 0 {
        lemma_bucket_bound(keyframes.drop_last(), tick);
    }
}

/// Decoding a demo in segments gives what decoding it in one run gives: where two runs of
/// frames are parted by a keyframe, the states of both together are those of the first
/// and then those of the second, decoded on its own, as long as the second run shows by itself
/// the clan names that are in force for the pawns in play.
pub proof fn law_segments_stitch(
    schema: Schema,
    lens: Lens,
    keyframes: Seq<i32>,
    wants: spec_fn(i32) -> bool,
    a: Seq<Frame>,
    b: Seq<Frame>,
    k: i32,
)
    requires
        keyframes.contains(k),
        forall|i: int| 0 <= i < a.len() ==> (#[trigger] a[i]).tick < k,
        forall|i: int| 0 <= i < b.len() ==> k <= (#[trigger] b[i]).tick,
        forall|n: int|
            0 < n <= b.len() && wants(b[n - 1].tick) ==> #[trigger] shows_clans(
                schema,
                lens,
                a,
                b,
                n,
            ),
    ensures
        states_through(schema, lens, keyframes, wants, a + b).rows == states_through(
            schema,
            lens,
            keyframes,
            wants,
            a,
        ).rows + states_through(schema, lens, keyframes, wants, b).rows,
{
    lemma_segments_stitch(schema, lens, keyframes, wants, a, b, k);
}

proof fn lemma_segments_stitch(
    schema: Schema,
    lens: Lens,
    keyframes: Seq<i32>,
    wants: spec_fn(i32) -> bool,
    a: Seq<Frame>,
    b: Seq<Frame>,
    k: i32,
)
    requires
        keyframes.contains(k),
        forall|i: int| 0 <= i < a.len() ==> (#[trigger] a[i]).tick < k,
        forall|i: int| 0 <= i < b.len() ==> k <= (#[trigger] b[i]).tick,
        forall|n: int|
            0 < n <= b.len() && wants(b[n - 1].tick) ==> #[trigger] shows_clans(
                schema,
                lens,
                a,
                b,
                n,
            ),
    ensures
        states_through(schema, lens, keyframes, wants, a + b).rows == states_through(
            schema,
            lens,
            keyframes,
            wants,
            a,
        ).rows + states_through(schema, lens, keyframes, wants, b).rows,
        agree_off(
            keyframes,
            a,
            states_through(schema, lens, keyframes, wants, a + b).known,
            states_through(schema, lens, keyframes, wants, b).known,
        ),
    decreases b.len(),
{
    let prefix = states_through(schema, lens, keyframes, wants, a).rows;
    if b.len() == 0 {
        assert(a + b =~= a);
        assert(prefix + Seq::empty() =~= prefix);
        let x = states_through(schema, lens, keyframes, wants, a).known;
        assert forall|id: PawnId| apart(keyframes, a, id.bucket) implies !x.contains_key(id) by {
            lemma_known_buckets(schema, lens, keyframes, wants, a, id);
        }
    } else {
        let init = b.drop_last();
        let f = b.last();
        assert forall|i: int| 0 <= i < init.len() implies k <= (#[trigger] init[i]).tick by {
            assert(b[i] == init[i]);
        }
        assert forall|n: int|
            0 < n <= init.len() && wants(init[n - 1].tick) implies #[trigger] shows_clans(
            schema,
            lens,
            a,
            init,
            n,
        ) by {
            assert(init.take(n) =~= b.take(n));
            assert(init[n - 1] == b[n - 1]);
            assert(shows_clans(schema, lens, a, b, n));
        }
        lemma_segments_stitch(schema, lens, keyframes, wants, a, init, k);
        assert((a + b).drop_last() =~= a + init);
        assert((a + b).last() == f);
        if wants(f.tick) {
            assert(b.take(b.len() as int) =~= b);
            assert(b[b.len() - 1] == f);
            assert(shows_clans(schema, lens, a, b, b.len() as int));
            let bucket = bucket_of(keyframes, f.tick);
            assert forall|i: int| 0 <= i < a.len() implies bucket_of(
                keyframes,
                (#[trigger] a[i]).tick,
            ) != bucket by {
                lemma_bucket_parts(keyframes, k, a[i].tick, f.tick);
            }
            lemma_states_agree(
                keyframes,
                a,
                prefix,
                states_through(schema, lens, keyframes, wants, a + init),
                states_through(schema, lens, keyframes, wants, init),
                f,
                snapshot_keys(schema),
                lens,
                bucket,
                resolve::clans_through(TeamKeys::of(schema), a + b),
                resolve::clans_through(TeamKeys::of(schema), b),
                f.entities@,
            );
        }
    }
}

/// The frames from one tick on, up to another.
pub open spec fn frames_between(frames: Seq<Frame>, from: int, to: int) -> Seq<Frame> {
    frames.filter(|f: Frame| from <= f.tick < to)
}

/// The frames of segment `i` of `n`: those from its first tick on, up to that of the next one.
pub open spec fn segment_frames(
    frames: Seq<Frame>,
    keyframes: Seq<Keyframe>,
    n: int,
    i: int,
) -> Seq<Frame> {
    frames_between(
        frames,
        segments::first_tick(keyframes, n, i),
        segments::first_tick(keyframes, n, i + 1),
    )
}

/// The ticks of keyframes.
pub open spec fn ticks_of(keyframes: Seq<Keyframe>) -> Seq<i32> {
    keyframes.map_values(|k: Keyframe| k.tick)
}

/// The states of the first `many` of `n` segments, each decoded on its own, one segment after
/// the other.
pub open spec fn segments_through(
    schema: Schema,
    lens: Lens,
    keyframes: Seq<Keyframe>,
    wants: spec_fn(i32) -> bool,
    frames: Seq<Frame>,
    n: int,
    many: int,
) -> Seq<PlayerState<Seq<char>>>
    decreases many,
{
    if many <= 0 {
        Seq::empty()
    } else {
        segments_through(schema, lens, keyframes, wants, frames, n, many - 1) + states_through(
            schema,
            lens,
            ticks_of(keyframes),
            wants,
            segment_frames(frames, keyframes, n, many - 1),
        ).rows
    }
}

/// The frames up to one tick, and those from there up to another, are the frames up to the
/// other.
proof fn lemma_frames_meet(frames: Seq<Frame>, from: int, middle: int, to: int)
    requires
        forall|a: int, b: int|
            0 <= a <= b < frames.len() ==> (#[trigger] frames[a]).tick <= (#[trigger] frames[b]).tick,
        from <= middle <= to,
    ensures
        frames_between(frames, from, middle) + frames_between(frames, middle, to)
            == frames_between(frames, from, to),
        forall|i: int|
            0 <= i < frames_between(frames, from, to).len() ==> from <= (#[trigger] frames_between(
                frames,
                from,
                to,
            )[i]).tick < to,
        frames.len() > 0 && frames.last().tick < middle ==> frames_between(
            frames,
            middle,
            to,
        ).len() == 0,
    decreases frames.len(),
{
    reveal(Seq::filter);
    if frames.len() > 0 {
        let init = frames.drop_last();
        let f = frames.last();
        assert forall|a: int, b: int| 0 <= a <= b < init.len() implies (#[trigger] init[a]).tick <= (
        #[trigger] init[b]).tick by {
            assert(frames[a].tick <= frames[b].tick);
        }
        lemma_frames_meet(init, from, middle, to);
        if init.len() > 0 {
            assert(frames[frames.len() - 2].tick <= frames[frames.len() - 1].tick);
        }
        let a = frames_between(init, from, middle);
        let b = frames_between(init, middle, to);
        if middle <= f.tick < to {
            assert(a + b.push(f) =~= (a + b).push(f));
        } else if from <= f.tick < middle {
            assert(b =~= Seq::empty());
            assert(a.push(f) + b =~= (a + b).push(f));
        }
    }
}

/// The frames that fall into any ticks are all of them.
proof fn lemma_frames_all(frames: Seq<Frame>)
    ensures
        frames_between(frames, i32::MIN as int, i32::MAX + 1) == frames,
    decreases frames.len(),
{
    reveal(Seq::filter);
    if frames.len() > 0 {
        lemma_frames_all(frames.drop_last());
        assert(frames.drop_last().push(frames.last()) =~= frames);
    }
}

proof fn lemma_segments_through(
    schema: Schema,
    lens: Lens,
    keyframes: Seq<Keyframe>,
    wants: spec_fn(i32) -> bool,
    frames: Seq<Frame>,
    n: int,
    many: int,
)
    requires
        keyframes.len() > 0 || n <= 1,
        segments::in_tick_order(keyframes),
        forall|a: int, b: int|
            0 <= a <= b < frames.len() ==> (#[trigger] frames[a]).tick <= (#[trigger] frames[b]).tick,
        0 <= many <= n,
        segments_show_clans(schema, lens, keyframes, wants, frames, n),
    ensures
        segments_through(schema, lens, keyframes, wants, frames, n, many) == states_through(
            schema,
            lens,
            ticks_of(keyframes),
            wants,
            frames_between(
                frames,
                i32::MIN as int,
                segments::first_tick(keyframes, n, many),
            ),
        ).rows,
    decreases many,
{
    let first = i32::MIN as int;
    if many == 0 {
        lemma_frames_meet(frames, first, first, first);
        assert(frames_between(frames, first, first) =~= Seq::empty());
    } else {
        let i = many - 1;
        let t = segments::first_tick(keyframes, n, i);
        let u = segments::first_tick(keyframes, n, many);
        lemma_segments_through(schema, lens, keyframes, wants, frames, n, i);
        segments::law_segments_ascend(keyframes, n, i);
        lemma_frames_meet(frames, first, t, u);
        lemma_frames_meet(frames, first, t, t);
        lemma_frames_meet(frames, t, u, u);
        let a = frames_between(frames, first, t);
        let b = frames_between(frames, t, u);
        if i == 0 {
            assert(a + b =~= b);
        } else {
            let ticks = ticks_of(keyframes);
            let k = choose|k: int|
                0 <= k < keyframes.len() && t == (#[trigger] keyframes[k]).tick;
            assert(ticks[k] == t);
            assert forall|m: int|
                0 < m <= b.len() && wants(b[m - 1].tick) implies #[trigger] shows_clans(
                schema,
                lens,
                a,
                b,
                m,
            ) by {
                assert(segment_shows_clans(schema, lens, keyframes, wants, frames, n, i));
                assert(segment_frames(frames, keyframes, n, i) == b);
            }
            law_segments_stitch(schema, lens, ticks, wants, a, b, t as i32);
        }
    }
}

/// Whether segment `i` of `n` shows by itself, at each wanted tick, the clan names that are in
/// force there for the pawns in play.
pub open spec fn segment_shows_clans(
    schema: Schema,
    lens: Lens,
    keyframes: Seq<Keyframe>,
    wants: spec_fn(i32) -> bool,
    frames: Seq<Frame>,
    n: int,
    i: int,
) -> bool {
    let before = frames_between(
        frames,
        i32::MIN as int,
        segments::first_tick(keyframes, n, i),
    );
    let own = segment_frames(frames, keyframes, n, i);
    forall|m: int|
        0 < m <= own.len() && wants(own[m - 1].tick) ==> #[trigger] shows_clans(
            schema,
            lens,
            before,
            own,
            m,
        )
}

/// Whether every segment after the first shows its clan names by itself.
pub open spec fn segments_show_clans(
    schema: Schema,
    lens: Lens,
    keyframes: Seq<Keyframe>,
    wants: spec_fn(i32) -> bool,
    frames: Seq<Frame>,
    n: int,
) -> bool {
    forall|i: int|
        0 < i < n ==> #[trigger] segment_shows_clans(
            schema,
            lens,
            keyframes,
            wants,
            frames,
            n,
            i,
        )
}

/// However many segments a demo is decoded in, the states are those of one run: within any
/// budget, the states of all planned segments, each decoded on its own and one after the
/// other, are the states of the whole demo, as long as every segment shows by itself the clan
/// names that are in force for the pawns in play.
pub proof fn law_planned_segments_stitch(
    schema: Schema,
    lens: Lens,
    keyframes: Seq<Keyframe>,
    wants: spec_fn(i32) -> bool,
    frames: Seq<Frame>,
    budget: int,
)
    requires
        segments::in_tick_order(keyframes),
        forall|a: int, b: int|
            0 <= a <= b < frames.len() ==> (#[trigger] frames[a]).tick <= (#[trigger] frames[b]).tick,
        segments_show_clans(
            schema,
            lens,
            keyframes,
            wants,
            frames,
            segments::segments_within(budget, keyframes.len() as int),
        ),
    ensures
        ({
            let n = segments::segments_within(budget, keyframes.len() as int);
            segments_through(schema, lens, keyframes, wants, frames, n, n) == states_through(
                schema,
                lens,
                ticks_of(keyframes),
                wants,
                frames,
            ).rows
        }),
{
    let n = segments::segments_within(budget, keyframes.len() as int);
    lemma_segments_through(schema, lens, keyframes, wants, frames, n, n);
    lemma_frames_all(frames);
}

/// The rows of a tick say so.
proof fn lemma_states_in_ticks(
    s: StatesState,
    f: Frame,
    sk: SnapshotKeys<Seq<Option<u64>>>,
    lens: Lens,
    bucket: i32,
    clans: Map<i64, Seq<char>>,
    entities: Seq<Entity>,
)
    ensures
        ({
            let done = states_in(s, f, sk, lens, bucket, clans, entities);
            &&& s.rows.len() <= done.rows.len()
            &&& forall|i: int| 0 <= i < s.rows.len() ==> #[trigger] done.rows[i] == s.rows[i]
            &&& forall|i: int|
                s.rows.len() <= i < done.rows.len() ==> (#[trigger] done.rows[i]).tick == f.tick
        }),
    decreases entities.len(),
{
    if entities.len() > 0 {
        lemma_states_in_ticks(s, f, sk, lens, bucket, clans, entities.drop_last());
    }
}

/// States come in tick order, at wanted ticks only, as long as frames are in tick order.
pub proof fn law_states_in_tick_order(
    schema: Schema,
    lens: Lens,
    keyframes: Seq<i32>,
    wants: spec_fn(i32) -> bool,
    frames: Seq<Frame>,
)
    requires
        forall|a: int, b: int|
            0 <= a <= b < frames.len() ==> (#[trigger] frames[a]).tick <= (#[trigger] frames[b]).tick,
    ensures
        ({
            let rows = states_through(schema, lens, keyframes, wants, frames).rows;
            &&& forall|i: int, j: int|
                0 <= i <= j < rows.len() ==> (#[trigger] rows[i]).tick <= (#[trigger] rows[j]).tick
            &&& forall|i: int|
                0 <= i < rows.len() ==> wants((#[trigger] rows[i]).tick) && rows[i].tick
                    <= frames.last().tick
        }),
    decreases frames.len(),
{
    if frames.len() > 0 {
        let init = frames.drop_last();
        let f = frames.last();
        assert forall|a: int, b: int| 0 <= a <= b < init.len() implies (#[trigger] init[a]).tick <= (
        #[trigger] init[b]).tick by {
            assert(frames[a].tick <= frames[b].tick);
        }
        law_states_in_tick_order(schema, lens, keyframes, wants, init);
        let before = states_through(schema, lens, keyframes, wants, init);
        if init.len() > 0 {
            assert(init.last() == frames[frames.len() - 2]);
            assert(frames[frames.len() - 2].tick <= frames[frames.len() - 1].tick);
        }
        lemma_states_in_ticks(
            before,
            f,
            snapshot_keys(schema),
            lens,
            bucket_of(keyframes, f.tick),
            resolve::clans_through(TeamKeys::of(schema), frames),
            f.entities@,
        );
        let rows = states_through(schema, lens, keyframes, wants, frames).rows;
        assert forall|i: int| 0 <= i < rows.len() implies wants((#[trigger] rows[i]).tick)
            && rows[i].tick <= f.tick by {
            if i < before.rows.len() {
                assert(rows[i] == before.rows[i]);
            }
        }
        assert forall|i: int, j: int| 0 <= i <= j < rows.len() implies (#[trigger] rows[i]).tick <= (
        #[trigger] rows[j]).tick by {
            if j < before.rows.len() {
                assert(rows[i] == before.rows[i] && rows[j] == before.rows[j]);
            }
        }
    }
}

/// What a pawn without a link to its controller tells: its money and ping are not known, its
/// identity is the one known of it since the keyframe, and none where none is known. What is
/// known stays known.
pub proof fn law_dead_are_known_or_nobody(
    s: StatesState,
    f: Frame,
    sk: SnapshotKeys<Seq<Option<u64>>>,
    lens: Lens,
    bucket: i32,
    clans: Map<i64, Seq<char>>,
    corpse: Entity,
)
    requires
        in_play(sk, lens, corpse),
        lens.controller(f.entities@, corpse) is None,
    ensures
        ({
            let id = PawnId { index: corpse.index, serial: corpse.serial, bucket };
            let next = states_step(s, f, sk, lens, bucket, clans, corpse);
            let row = next.rows.last();
            &&& next.rows.len() == s.rows.len() + 1
            &&& next.known == s.known
            &&& row.money == 0
            &&& row.ping is None
            &&& s.known.contains_key(id) ==> row.steamid == s.known[id].steamid && row.name
                == s.known[id].name
            &&& !s.known.contains_key(id) ==> row.steamid is None && row.name is None
        }),
{
}

/// Whether no entity tells anew who a pawn is: under its index and serial number, no pawn in
/// play has a controller with a Steam id.
pub open spec fn tells_nothing_of(
    f: Frame,
    sk: SnapshotKeys<Seq<Option<u64>>>,
    lens: Lens,
    entities: Seq<Entity>,
    id: PawnId,
) -> bool {
    forall|i: int|
        0 <= i < entities.len() && in_play(sk, lens, #[trigger] entities[i]) && entities[i].index
            == id.index && entities[i].serial == id.serial ==> (lens.controller(
            f.entities@,
            entities[i],
        ) matches Some(c) ==> c.u64_at(lens.ctrl.steamid) is None)
}

/// An identity lasts: looking at a tick changes nothing about a pawn's identity since a
/// keyframe, neither that it is known nor that it is not, unless the tick falls under the same
/// keyframe and shows the pawn's controller.
pub proof fn law_identity_lasts(
    s: StatesState,
    f: Frame,
    sk: SnapshotKeys<Seq<Option<u64>>>,
    lens: Lens,
    bucket: i32,
    clans: Map<i64, Seq<char>>,
    entities: Seq<Entity>,
    id: PawnId,
)
    requires
        bucket != id.bucket || tells_nothing_of(f, sk, lens, entities, id),
    ensures
        ({
            let known = states_in(s, f, sk, lens, bucket, clans, entities).known;
            &&& known.contains_key(id) == s.known.contains_key(id)
            &&& known.contains_key(id) ==> known[id] == s.known[id]
        }),
    decreases entities.len(),
{
    if entities.len() > 0 {
        let init = entities.drop_last();
        assert forall|i: int| 0 <= i < init.len() implies init[i] == #[trigger] entities[i] by {}
        if bucket == id.bucket {
            assert(tells_nothing_of(f, sk, lens, init, id));
            assert(entities[entities.len() - 1] == entities.last());
        }
        law_identity_lasts(s, f, sk, lens, bucket, clans, init, id);
    }
}

/// The entities of a tick can be looked at in two goes.
proof fn lemma_states_in_splits(
    s: StatesState,
    f: Frame,
    sk: SnapshotKeys<Seq<Option<u64>>>,
    lens: Lens,
    bucket: i32,
    clans: Map<i64, Seq<char>>,
    a: Seq<Entity>,
    b: Seq<Entity>,
)
    ensures
        states_in(s, f, sk, lens, bucket, clans, a + b) == states_in(
            states_in(s, f, sk, lens, bucket, clans, a),
            f,
            sk,
            lens,
            bucket,
            clans,
            b,
        ),
    decreases b.len(),
{
    if b.len() == 0 {
        assert(a + b =~= a);
    } else {
        lemma_states_in_splits(s, f, sk, lens, bucket, clans, a, b.drop_last());
        assert((a + b).drop_last() =~= a + b.drop_last());
        assert((a + b).last() == b.last());
    }
}

/// A controller is remembered: once a tick is looked at, the last pawn in it whose controller
/// has a Steam id is known, by its index and serial number, under the tick's keyframe and by
/// what the controller says.
pub proof fn law_tick_remembers(
    s: StatesState,
    f: Frame,
    sk: SnapshotKeys<Seq<Option<u64>>>,
    lens: Lens,
    bucket: i32,
    clans: Map<i64, Seq<char>>,
    i: int,
)
    requires
        0 <= i < f.entities@.len(),
        in_play(sk, lens, f.entities@[i]),
        lens.controller(f.entities@, f.entities@[i]) matches Some(c) && c.u64_at(
            lens.ctrl.steamid,
        ) is Some,
        tells_nothing_of(
            f,
            sk,
            lens,
            f.entities@.skip(i + 1),
            PawnId { index: f.entities@[i].index, serial: f.entities@[i].serial, bucket },
        ),
    ensures
        ({
            let e = f.entities@[i];
            let id = PawnId { index: e.index, serial: e.serial, bucket };
            let c = lens.controller(f.entities@, e)->0;
            let done = states_in(s, f, sk, lens, bucket, clans, f.entities@);
            &&& done.known.contains_key(id)
            &&& done.known[id].steamid == c.u64_at(lens.ctrl.steamid)
            &&& done.known[id].name == c.text_at(lens.ctrl.name)
        }),
{
    let all = f.entities@;
    let e = all[i];
    let id = PawnId { index: e.index, serial: e.serial, bucket };
    let upto = all.take(i + 1);
    let rest = all.skip(i + 1);
    assert(upto + rest =~= all);
    lemma_states_in_splits(s, f, sk, lens, bucket, clans, upto, rest);
    assert(upto.last() == e);
    law_identity_lasts(
        states_in(s, f, sk, lens, bucket, clans, upto),
        f,
        sk,
        lens,
        bucket,
        clans,
        rest,
        id,
    );
}

/// The state of a pawn without a link to its controller, as somebody or as nobody.
pub open spec fn orphan_state(
    f: Frame,
    sk: SnapshotKeys<Seq<Option<u64>>>,
    lens: Lens,
    clans: Map<i64, Seq<char>>,
    e: Entity,
    who: Option<Identity<Seq<char>>>,
) -> PlayerState<Seq<char>> {
    match who {
        Some(w) => PlayerState {
            steamid: w.steamid,
            name: w.name,
            ..pawn_state(f, sk, lens, clans, e)
        },
        None => PlayerState { steamid: None, name: None, ..pawn_state(f, sk, lens, clans, e) },
    }
}

/// A tick tells of the dead: every pawn in play without a link to its controller has a row at
/// the tick, as who it is known to be since the keyframe, or as nobody where nothing is known,
/// and with neither money nor ping. What is known stays known.
pub proof fn law_tick_tells_of_the_dead(
    s: StatesState,
    f: Frame,
    sk: SnapshotKeys<Seq<Option<u64>>>,
    lens: Lens,
    bucket: i32,
    clans: Map<i64, Seq<char>>,
    j: int,
)
    requires
        0 <= j < f.entities@.len(),
        in_play(sk, lens, f.entities@[j]),
        lens.controller(f.entities@, f.entities@[j]) is None,
        tells_nothing_of(
            f,
            sk,
            lens,
            f.entities@,
            PawnId { index: f.entities@[j].index, serial: f.entities@[j].serial, bucket },
        ),
    ensures
        ({
            let e = f.entities@[j];
            let id = PawnId { index: e.index, serial: e.serial, bucket };
            let who = if s.known.contains_key(id) {
                Some(s.known[id])
            } else {
                None
            };
            let row = orphan_state(f, sk, lens, clans, e, who);
            let done = states_in(s, f, sk, lens, bucket, clans, f.entities@);
            &&& exists|k: int| s.rows.len() <= k < done.rows.len() && #[trigger] done.rows[k] == row
            &&& row.tick == f.tick
            &&& row.money == 0
            &&& row.ping is None
            &&& done.known.contains_key(id) == s.known.contains_key(id)
            &&& s.known.contains_key(id) ==> done.known[id] == s.known[id]
        }),
{
    let all = f.entities@;
    let e = all[j];
    let id = PawnId { index: e.index, serial: e.serial, bucket };
    let before = all.take(j);
    let upto = all.take(j + 1);
    let rest = all.skip(j + 1);
    assert(upto + rest =~= all);
    assert(upto.drop_last() =~= before);
    assert(upto.last() == e);
    assert(tells_nothing_of(f, sk, lens, before, id)) by {
        assert forall|i: int| 0 <= i < before.len() implies before[i] == #[trigger] all[i] by {}
    }
    law_identity_lasts(s, f, sk, lens, bucket, clans, before, id);
    law_identity_lasts(s, f, sk, lens, bucket, clans, all, id);
    lemma_states_in_splits(s, f, sk, lens, bucket, clans, upto, rest);
    let then = states_in(s, f, sk, lens, bucket, clans, before);
    let now = states_in(s, f, sk, lens, bucket, clans, upto);
    law_dead_are_known_or_nobody(then, f, sk, lens, bucket, clans, e);
    lemma_states_in_ticks(s, f, sk, lens, bucket, clans, before);
    lemma_states_in_ticks(now, f, sk, lens, bucket, clans, rest);
    let done = states_in(s, f, sk, lens, bucket, clans, all);
    assert(done.rows[now.rows.len() - 1] == now.rows[now.rows.len() - 1]);
}

/// The dead keep their names: a pawn whose controller was looked at last in one tick has a row
/// in another tick under the same keyframe, once the link to the controller is gone, with the
/// Steam id and the name that the controller had, but neither money nor ping, and goes on
/// being known. Under another keyframe or another serial number, where nothing is known, the
/// row is nobody's.
pub proof fn law_dead_keep_identity(
    s: StatesState,
    rows: Seq<PlayerState<Seq<char>>>,
    sk: SnapshotKeys<Seq<Option<u64>>>,
    lens: Lens,
    alive: Frame,
    bucket: i32,
    clans: Map<i64, Seq<char>>,
    i: int,
    dead: Frame,
    next_bucket: i32,
    later: Map<i64, Seq<char>>,
    j: int,
)
    requires
        0 <= i < alive.entities@.len(),
        0 <= j < dead.entities@.len(),
        in_play(sk, lens, alive.entities@[i]),
        in_play(sk, lens, dead.entities@[j]),
        alive.entities@[i].index == dead.entities@[j].index,
        lens.controller(alive.entities@, alive.entities@[i]) matches Some(c) && c.u64_at(
            lens.ctrl.steamid,
        ) is Some,
        lens.controller(dead.entities@, dead.entities@[j]) is None,
        tells_nothing_of(
            alive,
            sk,
            lens,
            alive.entities@.skip(i + 1),
            PawnId { index: alive.entities@[i].index, serial: alive.entities@[i].serial, bucket },
        ),
        tells_nothing_of(
            dead,
            sk,
            lens,
            dead.entities@,
            PawnId {
                index: dead.entities@[j].index,
                serial: dead.entities@[j].serial,
                bucket: next_bucket,
            },
        ),
    ensures
        ({
            let pawn = alive.entities@[i];
            let corpse = dead.entities@[j];
            let c = lens.controller(alive.entities@, pawn)->0;
            let first = states_in(s, alive, sk, lens, bucket, clans, alive.entities@);
            let then = states_in(
                StatesState { rows, known: first.known },
                dead,
                sk,
                lens,
                next_bucket,
                later,
                dead.entities@,
            );
            let id = PawnId { index: corpse.index, serial: corpse.serial, bucket: next_bucket };
            let same = pawn.serial == corpse.serial && bucket == next_bucket;
            &&& same || !first.known.contains_key(id) ==> exists|k: int|
                rows.len() <= k < then.rows.len() && (#[trigger] then.rows[k]).tick == dead.tick
                    && then.rows[k].money == 0 && then.rows[k].ping is None && then.rows[k].steamid
                    == (if same {
                    c.u64_at(lens.ctrl.steamid)
                } else {
                    None
                }) && then.rows[k].name == (if same {
                    c.text_at(lens.ctrl.name)
                } else {
                    None
                })
            &&& same ==> then.known.contains_key(id) && then.known[id].steamid == c.u64_at(
                lens.ctrl.steamid,
            ) && then.known[id].name == c.text_at(lens.ctrl.name)
        }),
{
    let corpse = dead.entities@[j];
    let first = states_in(s, alive, sk, lens, bucket, clans, alive.entities@);
    let start = StatesState { rows, known: first.known };
    let then = states_in(start, dead, sk, lens, next_bucket, later, dead.entities@);
    let id = PawnId { index: corpse.index, serial: corpse.serial, bucket: next_bucket };
    law_tick_remembers(s, alive, sk, lens, bucket, clans, i);
    law_tick_tells_of_the_dead(start, dead, sk, lens, next_bucket, later, j);
    let who = if start.known.contains_key(id) {
        Some(start.known[id])
    } else {
        None
    };
    let row = orphan_state(dead, sk, lens, later, corpse, who);
    let k = choose|k: int| rows.len() <= k < then.rows.len() && #[trigger] then.rows[k] == row;
    assert(then.rows[k] == row);
}

} // verus!
