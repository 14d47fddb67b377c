//! The name tables of the game: teams, hit groups, round-end reasons, weapons and
//! grenade projectiles.
use crate::order;
use crate::text;
use crate::text::same_text;
use vstd::prelude::*;

verus! {

/// Player pawn: carries position, side and a handle to the controller.
pub const PLAYER_PAWN_CLASS: &'static str = "CCSPlayerPawn";

/// Player controller: carries the persistent Steam id and name.
pub const PLAYER_CONTROLLER_CLASS: &'static str = "CCSPlayerController";

/// Team: one per team number, carrying the organization ("clan") name.
pub const TEAM_CLASS: &'static str = "CCSTeam";

/// Planted bomb: carries the bomb-site index while the bomb is down.
pub const PLANTED_C4_CLASS: &'static str = "CPlantedC4";

/// Burning inferno of a molotov or incendiary.
pub const INFERNO_CLASS: &'static str = "CInferno";

/// Smoke-cloud projectile.
pub const SMOKE_CLASS: &'static str = "CSmokeGrenadeProjectile";

/// A code and its name.
#[derive(Debug)]
pub struct CodeName {
    pub code: i64,
    pub name: String,
}

/// The names of a set of codes, and the name of every other code.
#[derive(Debug)]
pub struct CodeNames {
    pub entries: Vec<CodeName>,
    pub other: String,
}

impl CodeNames {
    /// The name of a code.
    pub open spec fn name(self, code: i64) -> Seq<char> {
        match order::first_match(self.entries@, |c: CodeName| c.code == code) {
            Some(c) => c.name@,
            None => self.other@,
        }
    }

    /// The name of a code.
    pub fn name_of(&self, code: i64) -> (name: String)
        ensures
            name@ == self.name(code),
    {
        let n: usize = self.entries.len();
        let ghost p = |c: CodeName| c.code == code;
        let mut i: usize = 0;
        while i < n
            invariant
                i <= n,
                n == self.entries@.len(),
                p == (|c: CodeName| c.code == code),
                forall|j: int| 0 <= j < i ==> !p(#[trigger] self.entries@[j]),
            decreases n - i,
        {
            if self.entries[i].code == code {
                proof {
                    order::lemma_first_match(self.entries@, p, i as int);
                }
                return self.entries[i].name.clone();
            }
            i = i + 1;
        }
        proof {
            order::lemma_first_match(self.entries@, p, n as int);
        }
        self.other.clone()
    }
}

/// Where a weapon is carried.
#[derive(Clone, Copy, Debug, PartialEq, Eq, Structural)]
pub enum WeaponSlot {
    Primary,
    Secondary,
    Melee,
    Grenade,
    C4,
    Equipment,
}

/// A weapon's entity class, short name and slot.
#[derive(Debug)]
pub struct WeaponInfo {
    pub class_name: String,
    pub name: String,
    pub slot: WeaponSlot,
}

/// A grenade projectile's entity class and its type.
#[derive(Debug)]
pub struct GrenadeClass {
    pub class_name: String,
    pub grenade_type: String,
}

/// All name tables.
#[derive(Debug)]
pub struct Names {
    pub teams: CodeNames,
    pub hitgroups: CodeNames,
    pub round_end_reasons: CodeNames,
    pub weapons: Vec<WeaponInfo>,
    pub grenades: Vec<GrenadeClass>,
}

impl Names {
    /// The weapon of an entity class.
    pub open spec fn weapon(self, class: Seq<char>) -> Option<WeaponInfo> {
        order::first_match(self.weapons@, |w: WeaponInfo| w.class_name@ == class)
    }

    /// The type of a grenade projectile class, if it is one.
    pub open spec fn grenade(self, class: Seq<char>) -> Option<Seq<char>> {
        match order::first_match(self.grenades@, |g: GrenadeClass| g.class_name@ == class) {
            Some(g) => Some(g.grenade_type@),
            None => None,
        }
    }

    /// The weapon of an entity class, if it is one.
    pub fn weapon_info(&self, class: &str) -> (info: Option<&WeaponInfo>)
        ensures
            info is Some == self.weapon(class@) is Some,
            info matches Some(w) ==> self.weapon(class@) == Some(*w),
    {
        let n: usize = self.weapons.len();
        let ghost p = |w: WeaponInfo| w.class_name@ == class@;
        let mut i: usize = 0;
        while i < n
            invariant
                i <= n,
                n == self.weapons@.len(),
                p == (|w: WeaponInfo| w.class_name@ == class@),
                forall|j: int| 0 <= j < i ==> !p(#[trigger] self.weapons@[j]),
            decreases n - i,
        {
            if same_text(self.weapons[i].class_name.as_str(), class) {
                proof {
                    order::lemma_first_match(self.weapons@, p, i as int);
                }
                return Some(&self.weapons[i]);
            }
            i = i + 1;
        }
        proof {
            order::lemma_first_match(self.weapons@, p, n as int);
        }
        None
    }

    /// The type of a grenade projectile class, if it is one.
    pub fn grenade_type(&self, class: &str) -> (kind: Option<String>)
        ensures
            text::of(kind) == self.grenade(class@),
    {
        let n: usize = self.grenades.len();
        let ghost p = |g: GrenadeClass| g.class_name@ == class@;
        let mut i: usize = 0;
        while i < n
            invariant
                i <= n,
                n == self.grenades@.len(),
                p == (|g: GrenadeClass| g.class_name@ == class@),
                forall|j: int| 0 <= j < i ==> !p(#[trigger] self.grenades@[j]),
            decreases n - i,
        {
            if same_text(self.grenades[i].class_name.as_str(), class) {
                proof {
                    order::lemma_first_match(self.grenades@, p, i as int);
                }
                return Some(self.grenades[i].grenade_type.clone());
            }
            i = i + 1;
        }
        proof {
            order::lemma_first_match(self.grenades@, p, n as int);
        }
        None
    }
}

/// The entity classes that a pass over a demo decodes. A handle to an entity of any
/// other class leads nowhere in that pass.
#[derive(Clone, Copy, Debug, PartialEq, Eq, Structural)]
pub enum Scope {
    /// Every class.
    All,
    /// Players, teams, the planted bomb and weapons.
    Events,
    /// Players, grenade projectiles, infernos and smokes.
    Projectiles,
    /// Players, teams and weapons.
    Snapshots,
}

impl Scope {
    /// Whether entities of a class are decoded.
    pub open spec fn sees(self, names: Names, class: Seq<char>) -> bool {
        let player = class == PLAYER_PAWN_CLASS@ || class == PLAYER_CONTROLLER_CLASS@;
        match self {
            Scope::All => true,
            Scope::Events => player || class == TEAM_CLASS@ || class == PLANTED_C4_CLASS@
                || names.weapon(class) is Some,
            Scope::Projectiles => player || class == INFERNO_CLASS@ || class == SMOKE_CLASS@
                || names.grenade(class) is Some,
            Scope::Snapshots => player || class == TEAM_CLASS@ || names.weapon(class) is Some,
        }
    }

    /// Whether entities of a class are decoded.
    pub fn admits(self, names: &Names, class: &str) -> (b: bool)
        ensures
            b == self.sees(*names, class@),
    {
        match self {
            Scope::All => true,
            Scope::Events => {
                same_text(class, PLAYER_PAWN_CLASS) || same_text(class, PLAYER_CONTROLLER_CLASS)
                    || same_text(class, TEAM_CLASS) || same_text(class, PLANTED_C4_CLASS)
                    || names.weapon_info(class).is_some()
            },
            Scope::Projectiles => {
                same_text(class, PLAYER_PAWN_CLASS) || same_text(class, PLAYER_CONTROLLER_CLASS)
                    || same_text(class, INFERNO_CLASS) || same_text(class, SMOKE_CLASS)
                    || names.grenade_type(class).is_some()
            },
            Scope::Snapshots => {
                same_text(class, PLAYER_PAWN_CLASS) || same_text(class, PLAYER_CONTROLLER_CLASS)
                    || same_text(class, TEAM_CLASS) || names.weapon_info(class).is_some()
            },
        }
    }
}

} // verus!
