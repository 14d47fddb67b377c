//! Bomb actions: pickups, drops, plants, defuses and explosions.
use crate::demo::{Entity, Frame, GameEvent, Schema};
use crate::float::Float;
use crate::keys;
use crate::keys::Keys;
use crate::names::PLANTED_C4_CLASS;
use crate::order;
use crate::resolve;
use crate::resolve::Lens;
use crate::text;
use crate::text::same_text;
use std::collections::HashMap;
use vstd::prelude::*;

verus! {

broadcast use vstd::string::group_string_axioms;

/// A single bomb action, with the acting player and their position.
#[derive(Clone, Debug, Default)]
pub struct BombEvent<T = String> {
    pub tick: i32,
    /// One of `pickup`, `drop`, `start_plant`, `interrupt_plant`, `finish_plant`,
    /// `start_defuse`, `defuse`, `explode`.
    pub event: T,
    pub steamid: Option<u64>,
    pub name: Option<T>,
    /// `A` or `B` while a bomb is planted; `None` before.
    pub bombsite: Option<T>,
    pub x: Option<Float>,
    pub y: Option<Float>,
    pub z: Option<Float>,
}

impl View for BombEvent {
    type V = BombEvent<Seq<char>>;

    open spec fn view(&self) -> BombEvent<Seq<char>> {
        BombEvent {
            tick: self.tick,
            event: self.event@,
            steamid: self.steamid,
            name: text::of(self.name),
            bombsite: text::of(self.bombsite),
            x: self.x,
            y: self.y,
            z: self.z,
        }
    }
}

/// The action that a game event stands for, if it is one of the bomb's.
pub open spec fn bomb_action(name: Seq<char>) -> Option<Seq<char>> {
    if name == "bomb_pickup"@ {
        Some("pickup"@)
    } else if name == "bomb_dropped"@ {
        Some("drop"@)
    } else if name == "bomb_beginplant"@ {
        Some("start_plant"@)
    } else if name == "bomb_abortplant"@ {
        Some("interrupt_plant"@)
    } else if name == "bomb_planted"@ {
        Some("finish_plant"@)
    } else if name == "bomb_defused"@ {
        Some("defuse"@)
    } else if name == "bomb_begindefuse"@ {
        Some("start_defuse"@)
    } else if name == "bomb_exploded"@ {
        Some("explode"@)
    } else {
        None
    }
}

/// The action that a game event stands for, if it is one of the bomb's.
pub fn bomb_label(name: &str) -> (label: Option<String>)
    ensures
        text::of(label) == bomb_action(name@),
{
    if same_text(name, "bomb_pickup") {
        Some("pickup".to_string())
    } else if same_text(name, "bomb_dropped") {
        Some("drop".to_string())
    } else if same_text(name, "bomb_beginplant") {
        Some("start_plant".to_string())
    } else if same_text(name, "bomb_abortplant") {
        Some("interrupt_plant".to_string())
    } else if same_text(name, "bomb_planted") {
        Some("finish_plant".to_string())
    } else if same_text(name, "bomb_defused") {
        Some("defuse".to_string())
    } else if same_text(name, "bomb_begindefuse") {
        Some("start_defuse".to_string())
    } else if same_text(name, "bomb_exploded") {
        Some("explode".to_string())
    } else {
        None
    }
}

/// The key of the bomb-site index.
pub open spec fn site_key(schema: Schema) -> Option<u64> {
    schema.key_of(PLANTED_C4_CLASS@, "m_nBombSite"@)
}

/// The key of the bomb-site index.
pub fn bomb_site_key(schema: &Schema) -> (key: Option<u64>)
    ensures
        key == site_key(*schema),
{
    schema.field_key(PLANTED_C4_CLASS, "m_nBombSite")
}

/// Whether an entity is a bomb that is planted: in use, and of the planted bomb's class.
pub open spec fn is_planted(e: Entity) -> bool {
    e.active && e.class_name@ == PLANTED_C4_CLASS@
}

/// The bomb that is planted, if one is: the first where there are several.
pub open spec fn planted_bomb(entities: Seq<Entity>) -> Option<Entity> {
    order::first_match(entities, |e: Entity| is_planted(e))
}

/// The bomb that is planted, if one is.
fn find_planted(f: &Frame) -> (bomb: Option<&Entity>)
    ensures
        bomb is Some == planted_bomb(f.entities@) is Some,
        bomb matches Some(b) ==> planted_bomb(f.entities@) == Some(*b),
{
    let n: usize = f.entities.len();
    let ghost p = |e: Entity| is_planted(e);
    let mut i: usize = 0;
    while i < n
        invariant
            i <= n,
            n == f.entities@.len(),
            p == (|e: Entity| is_planted(e)),
            forall|j: int| 0 <= j < i ==> !p(#[trigger] f.entities@[j]),
        decreases n - i,
    {
        if f.entities[i].active && f.entities[i].is_a(PLANTED_C4_CLASS) {
            proof {
                order::lemma_first_match(f.entities@, p, i as int);
            }
            return Some(&f.entities[i]);
        }
        i = i + 1;
    }
    proof {
        order::lemma_first_match(f.entities@, p, n as int);
    }
    None
}

/// The site of the planted bomb, if its index is known.
pub open spec fn planted_site(entities: Seq<Entity>, key: Option<u64>) -> Option<Seq<char>> {
    match planted_bomb(entities) {
        Some(bomb) => if !bomb.has(key) {
            None
        } else if bomb.i64_at(key) == 0 {
            Some("A"@)
        } else if bomb.i64_at(key) == 1 {
            Some("B"@)
        } else {
            None
        },
        None => None,
    }
}

/// The planted bomb's site (0 is A, 1 is B), or `None` when no bomb is planted.
pub fn bomb_site(f: &Frame, key: Option<u64>) -> (site: Option<String>)
    ensures
        text::of(site) == planted_site(f.entities@, key),
{
    match find_planted(f) {
        Some(bomb) => {
            if !bomb.contains(key) {
                return None;
            }
            let site = bomb.get_i64(key);
            if site == 0 {
                Some("A".to_string())
            } else if site == 1 {
                Some("B".to_string())
            } else {
                None
            }
        },
        None => None,
    }
}

/// A bomb action with its player and site, as the entities of its tick show them.
pub open spec fn bomb_filled(
    row: BombEvent<Seq<char>>,
    e: GameEvent,
    f: Frame,
    lens: Lens,
    site: Option<Seq<char>>,
    clans: Map<i64, Seq<char>>,
) -> BombEvent<Seq<char>> {
    let player = lens.player_of_handle(
        f.entities@,
        keys::key_i64(e.keys@, "userid_pawn"@),
        clans,
    );
    BombEvent {
        steamid: player.steamid,
        name: player.name,
        bombsite: site,
        x: player.x,
        y: player.y,
        z: player.z,
        ..row
    }
}

/// The bomb action that an event tells of, if it is one of the bomb's.
pub open spec fn bomb_of(
    lens: Lens,
    site_key: Option<u64>,
    f: Frame,
    clans: Map<i64, Seq<char>>,
    e: GameEvent,
) -> Option<BombEvent<Seq<char>>> {
    match bomb_action(e.name@) {
        Some(action) => Some(
            bomb_filled(
                BombEvent {
                    tick: e.tick,
                    event: action,
                    steamid: None,
                    name: None,
                    bombsite: None,
                    x: None,
                    y: None,
                    z: None,
                },
                e,
                f,
                lens,
                planted_site(f.entities@, site_key),
                clans,
            ),
        ),
        None => None,
    }
}

/// Fill a bomb action from the event, the acting player and the bomb site.
pub fn fill_bomb(
    row: &mut BombEvent,
    e: &GameEvent,
    f: &Frame,
    lens: &Lens,
    bombsite: Option<String>,
    clans: &HashMap<i64, String>,
)
    ensures
        final(row)@ == bomb_filled(
            old(row)@,
            *e,
            *f,
            *lens,
            text::of(bombsite),
            resolve::clan_names(clans@),
        ),
{
    let k = Keys(&e.keys);
    let player = lens.resolve_player(f, k.i64("userid_pawn"), clans);
    row.steamid = player.steamid;
    row.name = player.name;
    row.x = player.x;
    row.y = player.y;
    row.z = player.z;
    row.bombsite = bombsite;
}

/// The bomb action that an event tells of, if it is one of the bomb's.
pub fn take_bomb(
    lens: &Lens,
    site_key: Option<u64>,
    f: &Frame,
    clans: &HashMap<i64, String>,
    e: &GameEvent,
) -> (row: Option<BombEvent>)
    ensures
        row is Some == bomb_of(*lens, site_key, *f, resolve::clan_names(clans@), *e) is Some,
        row matches Some(r) ==> bomb_of(*lens, site_key, *f, resolve::clan_names(clans@), *e) == Some(
            r@,
        ),
{
    match bomb_label(e.name.as_str()) {
        Some(event) => {
            let mut row = BombEvent {
                tick: e.tick,
                event,
                steamid: None,
                name: None,
                bombsite: None,
                x: None,
                y: None,
                z: None,
            };
            fill_bomb(&mut row, e, f, lens, bomb_site(f, site_key), clans);
            Some(row)
        },
        None => None,
    }
}

/// A site is told only while a bomb is planted, and it is `A` or `B`.
pub proof fn law_site_needs_bomb(
    lens: Lens,
    site_key: Option<u64>,
    f: Frame,
    clans: Map<i64, Seq<char>>,
    e: GameEvent,
)
    requires
        bomb_of(lens, site_key, f, clans, e) matches Some(row) && row.bombsite is Some,
    ensures
        bomb_of(lens, site_key, f, clans, e)->0.bombsite == Some("A"@) || bomb_of(
            lens,
            site_key,
            f,
            clans,
            e,
        )->0.bombsite == Some("B"@),
        exists|i: int|
            0 <= i < f.entities@.len() && (#[trigger] f.entities@[i]).class_name@
                == PLANTED_C4_CLASS@ && f.entities@[i].active,
{
    order::lemma_first_match_holds(f.entities@, |b: Entity| is_planted(b));
    let bomb = planted_bomb(f.entities@)->0;
    let i = choose|i: int| 0 <= i < f.entities@.len() && f.entities@[i] == bomb;
    assert(is_planted(f.entities@[i]));
}

} // verus!
