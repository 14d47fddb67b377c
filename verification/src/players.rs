//! The roster: every player seen in the demo.
use crate::demo::{Entity, Frame, Schema};
use crate::names::{Names, PLAYER_CONTROLLER_CLASS};
use crate::resolve;
use crate::resolve::{clan_name, update_clans, TeamKeys};
use crate::text;
use crate::text::{copy_text, same_text};
use std::collections::HashMap;
use vstd::prelude::*;

verus! {

broadcast use crate::text::group_views;

/// A player seen in the demo, from controller state.
#[derive(Clone, Debug, Default)]
pub struct Player<T = String> {
    /// Steam id (0 for bots).
    pub steamid: Option<u64>,
    pub name: Option<T>,
    /// Last observed side (players swap at halftime).
    pub side: Option<T>,
    /// The organization the player's team was playing under when they were last observed.
    pub team_clan_name: Option<T>,
}

impl View for Player {
    type V = Player<Seq<char>>;

    open spec fn view(&self) -> Player<Seq<char>> {
        Player {
            steamid: self.steamid,
            name: text::of(self.name),
            side: text::of(self.side),
            team_clan_name: text::of(self.team_clan_name),
        }
    }
}

/// Field keys of a controller that the roster is read from.
#[derive(Clone, Copy, Debug)]
pub struct RosterKeys {
    pub steamid: Option<u64>,
    pub name: Option<u64>,
    pub team: Option<u64>,
}

impl RosterKeys {
    pub open spec fn of(schema: Schema) -> RosterKeys {
        RosterKeys {
            steamid: schema.key_of(PLAYER_CONTROLLER_CLASS@, "m_steamID"@),
            name: schema.key_of(PLAYER_CONTROLLER_CLASS@, "m_iszPlayerName"@),
            team: schema.key_of(PLAYER_CONTROLLER_CLASS@, "m_iTeamNum"@),
        }
    }

    pub fn resolve(schema: &Schema) -> (keys: RosterKeys)
        ensures
            keys == RosterKeys::of(*schema),
    {
        RosterKeys {
            steamid: schema.field_key(PLAYER_CONTROLLER_CLASS, "m_steamID"),
            name: schema.field_key(PLAYER_CONTROLLER_CLASS, "m_iszPlayerName"),
            team: schema.field_key(PLAYER_CONTROLLER_CLASS, "m_iTeamNum"),
        }
    }
}

/// A player's stay in a controller slot: the entity index, the position of the last frame
/// they were seen in and the player. An index that another player takes over has a stay for
/// each of them.
#[derive(Clone, Debug)]
pub struct Slot<T = String> {
    pub index: i32,
    pub seen: usize,
    pub player: Player<T>,
}

impl View for Slot {
    type V = Slot<Seq<char>>;

    open spec fn view(&self) -> Slot<Seq<char>> {
        Slot { index: self.index, seen: self.seen, player: self.player@ }
    }
}

impl Player {
    /// A copy of the player.
    fn copy(&self) -> (p: Player)
        ensures
            p@ == self@,
    {
        Player {
            steamid: self.steamid,
            name: copy_text(&self.name),
            side: copy_text(&self.side),
            team_clan_name: copy_text(&self.team_clan_name),
        }
    }
}

impl Slot {
    /// A copy of the slot.
    fn copy(&self) -> (s: Slot)
        ensures
            s@ == self@,
    {
        Slot { index: self.index, seen: self.seen, player: self.player.copy() }
    }
}

/// A player of whom nothing is known.
pub open spec fn unknown_player() -> Player<Seq<char>> {
    Player { steamid: None, name: None, side: None, team_clan_name: None }
}

/// A player once their controller is seen again: what it does not say stays as it was. The
/// clan is read together with the side, so that both describe the same moment: that of a team
/// without a name is none.
pub open spec fn player_seen(
    p: Player<Seq<char>>,
    names: Names,
    rk: RosterKeys,
    clans: Map<i64, Seq<char>>,
    e: Entity,
) -> Player<Seq<char>> {
    let team = e.i64_at(rk.team);
    Player {
        steamid: match e.u64_at(rk.steamid) {
            Some(id) => Some(id),
            None => p.steamid,
        },
        name: match e.text_at(rk.name) {
            Some(name) => Some(name),
            None => p.name,
        },
        side: if team > 0 {
            Some(names.teams.name(team))
        } else {
            p.side
        },
        team_clan_name: if team > 0 {
            resolve::clan_of(clans, team)
        } else {
            p.team_clan_name
        },
    }
}

/// Whether a controller is another player's than it was: its Steam id has changed or, where it
/// is no human's, its name, which is what bots go by. What was not known before is no change.
pub open spec fn is_taken_over(p: Player<Seq<char>>, rk: RosterKeys, e: Entity) -> bool {
    match (p.steamid, e.u64_at(rk.steamid)) {
        (Some(a), Some(b)) => a != b || (a == 0 && renamed(p, rk, e)),
        (Some(a), None) => a == 0 && renamed(p, rk, e),
        (None, Some(b)) => b == 0 && renamed(p, rk, e),
        (None, None) => renamed(p, rk, e),
    }
}

/// Whether a controller has another name than it had.
pub open spec fn renamed(p: Player<Seq<char>>, rk: RosterKeys, e: Entity) -> bool {
    p.name is Some && e.text_at(rk.name) is Some && p.name != e.text_at(rk.name)
}

/// The slots, by index, once a controller is seen in the frame at position `seen`: the player
/// in the slot is brought up to date, and one who takes it over has a stay of their own.
pub open spec fn slots_with(
    slots: Seq<Slot<Seq<char>>>,
    names: Names,
    rk: RosterKeys,
    clans: Map<i64, Seq<char>>,
    seen: usize,
    e: Entity,
) -> Seq<Slot<Seq<char>>>
    decreases slots.len(),
{
    let fresh = Slot {
        index: e.index,
        seen,
        player: player_seen(unknown_player(), names, rk, clans, e),
    };
    if slots.len() == 0 {
        seq![fresh]
    } else if slots.last().index < e.index || (slots.last().index == e.index && is_taken_over(
        slots.last().player,
        rk,
        e,
    )) {
        slots.push(fresh)
    } else if slots.last().index == e.index {
        slots.drop_last().push(
            Slot {
                index: e.index,
                seen,
                player: player_seen(slots.last().player, names, rk, clans, e),
            },
        )
    } else {
        slots_with(slots.drop_last(), names, rk, clans, seen, e).push(slots.last())
    }
}

/// The slots once the entities of a frame are seen.
pub open spec fn slots_after(
    slots: Seq<Slot<Seq<char>>>,
    names: Names,
    rk: RosterKeys,
    clans: Map<i64, Seq<char>>,
    seen: usize,
    entities: Seq<Entity>,
) -> Seq<Slot<Seq<char>>>
    decreases entities.len(),
{
    if entities.len() == 0 {
        slots
    } else {
        let before = slots_after(slots, names, rk, clans, seen, entities.drop_last());
        let e = entities.last();
        if e.active && e.class_name@ == PLAYER_CONTROLLER_CLASS@ {
            slots_with(before, names, rk, clans, seen, e)
        } else {
            before
        }
    }
}

/// The slots after a run of frames.
pub open spec fn slots_through(schema: Schema, names: Names, frames: Seq<Frame>) -> Seq<
    Slot<Seq<char>>,
>
    decreases frames.len(),
{
    if frames.len() == 0 {
        Seq::empty()
    } else {
        slots_after(
            slots_through(schema, names, frames.drop_last()),
            names,
            RosterKeys::of(schema),
            resolve::clans_through(TeamKeys::of(schema), frames),
            (frames.len() - 1) as usize,
            frames.last().entities@,
        )
    }
}

/// A human's Steam id.
pub open spec fn human(p: Player<Seq<char>>) -> Option<u64> {
    match p.steamid {
        Some(id) => if id != 0 {
            Some(id)
        } else {
            None
        },
        None => None,
    }
}

/// Whether two rows are of the same player: humans by Steam id, all others by name.
pub open spec fn same_player(a: Player<Seq<char>>, b: Player<Seq<char>>) -> bool {
    match (human(a), human(b)) {
        (Some(x), Some(y)) => x == y,
        (None, None) => a.name == b.name,
        _ => false,
    }
}

/// Whether a player has a row already.
pub open spec fn is_listed(out: Seq<Slot<Seq<char>>>, p: Player<Seq<char>>) -> bool {
    exists|k: int| 0 <= k < out.len() && same_player((#[trigger] out[k]).player, p)
}

/// The rows once another slot is looked at: the freshest state of a player counts, the
/// later slot's where two were seen last in the same frame.
pub open spec fn roster_step(out: Seq<Slot<Seq<char>>>, s: Slot<Seq<char>>) -> Seq<Slot<Seq<char>>> {
    if is_listed(out, s.player) {
        out.map_values(
            |t: Slot<Seq<char>>|
                if same_player(t.player, s.player) && t.seen <= s.seen {
                    s
                } else {
                    t
                },
        )
    } else {
        out.push(s)
    }
}

/// One slot per player, in the order in which they are first met.
pub open spec fn roster(slots: Seq<Slot<Seq<char>>>) -> Seq<Slot<Seq<char>>>
    decreases slots.len(),
{
    if slots.len() == 0 {
        Seq::empty()
    } else {
        roster_step(roster(slots.drop_last()), slots.last())
    }
}

/// The players of slots.
pub open spec fn players_of(slots: Seq<Slot<Seq<char>>>) -> Seq<Player<Seq<char>>> {
    slots.map_values(|s: Slot<Seq<char>>| s.player)
}

/// Every player seen in a run of frames.
pub open spec fn player_rows(schema: Schema, names: Names, frames: Seq<Frame>) -> Seq<
    Player<Seq<char>>,
> {
    players_of(roster(slots_through(schema, names, frames)))
}

/// Bring a player up to date with their controller.
fn see_player(
    p: &mut Player,
    names: &Names,
    rk: &RosterKeys,
    clans: &HashMap<i64, String>,
    e: &Entity,
)
    ensures
        final(p)@ == player_seen(old(p)@, *names, *rk, resolve::clan_names(clans@), *e),
{
    if let Some(id) = e.get_u64(rk.steamid) {
        p.steamid = Some(id);
    }
    if let Some(name) = e.get_string(rk.name) {
        p.name = Some(name);
    }
    let team = e.get_i64(rk.team);
    if team > 0 {
        p.side = Some(names.teams.name_of(team));
        p.team_clan_name = clan_name(clans, team);
    }
}

/// Whether a controller is another player's than it was.
fn took_over(p: &Player, rk: &RosterKeys, e: &Entity) -> (b: bool)
    ensures
        b == is_taken_over(p@, *rk, *e),
{
    let id = e.get_u64(rk.steamid);
    if let (Some(a), Some(b)) = (p.steamid, id) {
        if a != b {
            return true;
        }
    }
    let bot = match (p.steamid, id) {
        (Some(a), _) => a == 0,
        (None, Some(b)) => b == 0,
        (None, None) => true,
    };
    if !bot {
        return false;
    }
    match (&p.name, e.get_string(rk.name)) {
        (Some(was), Some(now)) => !same_text(was.as_str(), now.as_str()),
        _ => false,
    }
}

/// Where an entity index stands or belongs among slots in the order of their indices.
fn slot_place(slots: &Vec<Slot>, index: i32) -> (at: usize)
    ensures
        at <= slots@.len(),
        forall|k: int| at <= k < slots@.len() ==> (#[trigger] slots@[k]).index > index,
        at > 0 ==> slots@[at - 1].index <= index,
{
    let mut at: usize = slots.len();
    while at > 0 && slots[at - 1].index > index
        invariant
            at <= slots@.len(),
            forall|k: int| at <= k < slots@.len() ==> (#[trigger] slots@[k]).index > index,
        decreases at,
    {
        at = at - 1;
    }
    at
}

/// A new slot goes where its index belongs.
proof fn lemma_slots_with(
    slots: Seq<Slot<Seq<char>>>,
    names: Names,
    rk: RosterKeys,
    clans: Map<i64, Seq<char>>,
    seen: usize,
    e: Entity,
    at: int,
)
    requires
        0 <= at <= slots.len(),
        forall|k: int| at <= k < slots.len() ==> (#[trigger] slots[k]).index > e.index,
        at > 0 ==> slots[at - 1].index <= e.index,
    ensures
        slots_with(slots, names, rk, clans, seen, e) == (if at > 0 && slots[at - 1].index == e.index
            && !is_taken_over(slots[at - 1].player, rk, e) {
            slots.update(
                at - 1,
                Slot {
                    index: e.index,
                    seen,
                    player: player_seen(slots[at - 1].player, names, rk, clans, e),
                },
            )
        } else {
            slots.insert(
                at,
                Slot {
                    index: e.index,
                    seen,
                    player: player_seen(unknown_player(), names, rk, clans, e),
                },
            )
        }),
    decreases slots.len(),
{
    let fresh = Slot {
        index: e.index,
        seen,
        player: player_seen(unknown_player(), names, rk, clans, e),
    };
    let now = slots_with(slots, names, rk, clans, seen, e);
    if slots.len() == 0 {
        assert(now =~= slots.insert(at, fresh));
    } else if at == slots.len() {
        if slots.last().index == e.index && !is_taken_over(slots.last().player, rk, e) {
            assert(now =~= slots.update(at - 1, now.last()));
        } else {
            assert(now =~= slots.insert(at, fresh));
        }
    } else {
        assert(slots[slots.len() - 1].index > e.index);
        let init = slots.drop_last();
        lemma_slots_with(init, names, rk, clans, seen, e, at);
        if at > 0 && slots[at - 1].index == e.index && !is_taken_over(slots[at - 1].player, rk, e) {
            let s = Slot {
                index: e.index,
                seen,
                player: player_seen(slots[at - 1].player, names, rk, clans, e),
            };
            assert(init.update(at - 1, s).push(slots.last()) =~= slots.update(at - 1, s));
        } else {
            assert(init.insert(at, fresh).push(slots.last()) =~= slots.insert(at, fresh));
        }
    }
}

/// Take a controller in.
fn see_controller(
    slots: &mut Vec<Slot>,
    names: &Names,
    rk: &RosterKeys,
    clans: &HashMap<i64, String>,
    seen: usize,
    e: &Entity,
)
    ensures
        text::views(final(slots)@) == slots_with(
            text::views(old(slots)@),
            *names,
            *rk,
            resolve::clan_names(clans@),
            seen,
            *e,
        ),
{
    let at = slot_place(slots, e.index);
    let ghost was = text::views(slots@);
    proof {
        assert forall|k: int| at <= k < was.len() implies (#[trigger] was[k]).index > e.index by {
            assert(slots@[k].index > e.index);
        }
        lemma_slots_with(was, *names, *rk, resolve::clan_names(clans@), seen, *e, at as int);
    }
    if at > 0 && slots[at - 1].index == e.index && !took_over(&slots[at - 1].player, rk, e) {
        let mut player = slots[at - 1].player.copy();
        see_player(&mut player, names, rk, clans, e);
        let slot = Slot { index: e.index, seen, player };
        let ghost s = slot@;
        slots.set(at - 1, slot);
        assert(text::views(slots@) =~= was.update(at - 1, s));
    } else {
        let mut player = Player { steamid: None, name: None, side: None, team_clan_name: None };
        see_player(&mut player, names, rk, clans, e);
        let slot = Slot { index: e.index, seen, player };
        let ghost s = slot@;
        slots.insert(at, slot);
        assert(text::views(slots@) =~= was.insert(at as int, s));
    }
}

/// Take the controllers of a frame in.
fn see_frame(
    slots: &mut Vec<Slot>,
    names: &Names,
    rk: &RosterKeys,
    clans: &HashMap<i64, String>,
    seen: usize,
    f: &Frame,
)
    ensures
        text::views(final(slots)@) == slots_after(
            text::views(old(slots)@),
            *names,
            *rk,
            resolve::clan_names(clans@),
            seen,
            f.entities@,
        ),
{
    let ghost was = text::views(slots@);
    let n: usize = f.entities.len();
    let mut i: usize = 0;
    assert(f.entities@.take(0) =~= Seq::<Entity>::empty());
    while i < n
        invariant
            i <= n,
            n == f.entities@.len(),
            text::views(slots@) == slots_after(
                was,
                *names,
                *rk,
                resolve::clan_names(clans@),
                seen,
                f.entities@.take(i as int),
            ),
        decreases n - i,
    {
        assert(f.entities@.take(i + 1).drop_last() =~= f.entities@.take(i as int));
        let e = &f.entities[i];
        if e.active && e.is_a(PLAYER_CONTROLLER_CLASS) {
            see_controller(slots, names, rk, clans, seen, e);
        }
        i = i + 1;
    }
    assert(f.entities@.take(n as int) =~= f.entities@);
}

fn is_same_player(a: &Player, b: &Player) -> (same: bool)
    ensures
        same == same_player(a@, b@),
{
    let x: u64 = match a.steamid {
        Some(id) => id,
        None => 0,
    };
    let y: u64 = match b.steamid {
        Some(id) => id,
        None => 0,
    };
    if x != 0 || y != 0 {
        return x == y;
    }
    match (&a.name, &b.name) {
        (Some(p), Some(q)) => same_text(p.as_str(), q.as_str()),
        (None, None) => true,
        _ => false,
    }
}

/// Whether no two rows are of the same player.
pub open spec fn all_different(out: Seq<Slot<Seq<char>>>) -> bool {
    forall|a: int, b: int|
        0 <= a < b < out.len() ==> !same_player(
            (#[trigger] out[a]).player,
            (#[trigger] out[b]).player,
        )
}

/// A step of the roster leaves all rows different.
proof fn lemma_roster_step(out: Seq<Slot<Seq<char>>>, s: Slot<Seq<char>>)
    requires
        all_different(out),
    ensures
        all_different(roster_step(out, s)),
{
    let now = roster_step(out, s);
    if is_listed(out, s.player) {
        assert forall|a: int, b: int| 0 <= a < b < now.len() implies !same_player(
            (#[trigger] now[a]).player,
            (#[trigger] now[b]).player,
        ) by {
            assert(!same_player(out[a].player, out[b].player));
        }
    } else {
        assert forall|a: int, b: int| 0 <= a < b < now.len() implies !same_player(
            (#[trigger] now[a]).player,
            (#[trigger] now[b]).player,
        ) by {
            assert(now[a] == out[a]);
            if b < out.len() {
                assert(now[b] == out[b]);
            }
        }
    }
}

/// Whether slots are in the order of their indices.
pub open spec fn by_index(slots: Seq<Slot<Seq<char>>>) -> bool {
    forall|a: int, b: int|
        0 <= a <= b < slots.len() ==> (#[trigger] slots[a]).index <= (#[trigger] slots[b]).index
}

/// A controller that is seen leaves slots in order.
proof fn lemma_slots_with_by_index(
    slots: Seq<Slot<Seq<char>>>,
    names: Names,
    rk: RosterKeys,
    clans: Map<i64, Seq<char>>,
    seen: usize,
    e: Entity,
)
    requires
        by_index(slots),
    ensures
        by_index(slots_with(slots, names, rk, clans, seen, e)),
        slots_with(slots, names, rk, clans, seen, e).len() > 0,
        slots_with(slots, names, rk, clans, seen, e).last().index == e.index || (slots.len() > 0
            && slots_with(slots, names, rk, clans, seen, e).last().index == slots.last().index),
    decreases slots.len(),
{
    if slots.len() > 0 {
        let init = slots.drop_last();
        let now = slots_with(slots, names, rk, clans, seen, e);
        assert(slots[slots.len() - 1] == slots.last());
        assert(by_index(init)) by {
            assert forall|a: int, b: int| 0 <= a <= b < init.len() implies (#[trigger] init[a]).index
                <= (#[trigger] init[b]).index by {
                assert(slots[a].index <= slots[b].index);
            }
        }
        lemma_slots_with_by_index(init, names, rk, clans, seen, e);
        let inner = slots_with(init, names, rk, clans, seen, e);
        if init.len() > 0 {
            assert(slots[slots.len() - 2].index <= slots[slots.len() - 1].index);
        }
        assert forall|a: int, b: int| 0 <= a <= b < now.len() implies (#[trigger] now[a]).index <= (
        #[trigger] now[b]).index by {
            if slots.last().index > e.index {
                if b < inner.len() {
                    assert(now[a] == inner[a] && now[b] == inner[b]);
                } else if a < inner.len() {
                    assert(now[a] == inner[a]);
                    assert(inner[a].index <= inner[inner.len() - 1].index);
                }
            } else {
                if a < init.len() {
                    assert(slots[a].index <= slots[slots.len() - 1].index);
                    assert(now[a] == slots[a]);
                    if b < init.len() {
                        assert(now[b] == slots[b]);
                        assert(slots[a].index <= slots[b].index);
                    }
                }
            }
        }
    }
}

/// The entities of a frame leave slots in order.
proof fn lemma_slots_after_by_index(
    slots: Seq<Slot<Seq<char>>>,
    names: Names,
    rk: RosterKeys,
    clans: Map<i64, Seq<char>>,
    seen: usize,
    entities: Seq<Entity>,
)
    requires
        by_index(slots),
    ensures
        by_index(slots_after(slots, names, rk, clans, seen, entities)),
    decreases entities.len(),
{
    if entities.len() > 0 {
        lemma_slots_after_by_index(slots, names, rk, clans, seen, entities.drop_last());
        lemma_slots_with_by_index(
            slots_after(slots, names, rk, clans, seen, entities.drop_last()),
            names,
            rk,
            clans,
            seen,
            entities.last(),
        );
    }
}

/// Slots are looked at in the order of their indices.
pub proof fn law_slots_by_index(schema: Schema, names: Names, frames: Seq<Frame>)
    ensures
        by_index(slots_through(schema, names, frames)),
    decreases frames.len(),
{
    if frames.len() > 0 {
        law_slots_by_index(schema, names, frames.drop_last());
        lemma_slots_after_by_index(
            slots_through(schema, names, frames.drop_last()),
            names,
            RosterKeys::of(schema),
            resolve::clans_through(TeamKeys::of(schema), frames),
            (frames.len() - 1) as usize,
            frames.last().entities@,
        );
    }
}

/// Nobody is listed twice: no two rows have the same Steam id, and no two bots the same
/// name.
pub proof fn law_players_listed_once(slots: Seq<Slot<Seq<char>>>)
    ensures
        all_different(roster(slots)),
    decreases slots.len(),
{
    if slots.len() > 0 {
        law_players_listed_once(slots.drop_last());
        lemma_roster_step(roster(slots.drop_last()), slots.last());
    }
}

/// Whether a row is at least as fresh as a slot of the same player.
pub open spec fn as_fresh(out: Seq<Slot<Seq<char>>>, s: Slot<Seq<char>>) -> bool {
    exists|k: int|
        0 <= k < out.len() && same_player((#[trigger] out[k]).player, s.player) && s.seen
            <= out[k].seen
}

/// The freshest state is what is listed: every stay's player has a row that was seen no
/// earlier than the stay, and every row is one of the stays.
pub proof fn law_players_are_freshest(slots: Seq<Slot<Seq<char>>>)
    ensures
        forall|i: int| 0 <= i < slots.len() ==> #[trigger] as_fresh(roster(slots), slots[i]),
        forall|k: int| 0 <= k < roster(slots).len() ==> slots.contains(#[trigger] roster(slots)[k]),
    decreases slots.len(),
{
    if slots.len() > 0 {
        let init = slots.drop_last();
        let s = slots.last();
        law_players_are_freshest(init);
        let out = roster(init);
        let now = roster(slots);
        assert(slots[slots.len() - 1] == s);
        assert forall|k: int| 0 <= k < now.len() implies slots.contains(#[trigger] now[k]) by {
            if now[k] != s {
                assert(now[k] == out[k]);
                assert(init.contains(out[k]));
                let j = choose|j: int| 0 <= j < init.len() && init[j] == out[k];
                assert(slots[j] == now[k]);
            }
        }
        assert forall|i: int| 0 <= i < slots.len() implies #[trigger] as_fresh(now, slots[i]) by {
            if i < init.len() {
                assert(slots[i] == init[i]);
                assert(as_fresh(out, init[i]));
                let k = choose|k: int|
                    0 <= k < out.len() && same_player((#[trigger] out[k]).player, init[i].player)
                        && init[i].seen <= out[k].seen;
                assert(same_player(now[k].player, slots[i].player));
            } else if is_listed(out, s.player) {
                let k = choose|k: int|
                    0 <= k < out.len() && same_player((#[trigger] out[k]).player, s.player);
                assert(same_player(now[k].player, s.player));
            } else {
                assert(now[out.len() as int] == s);
            }
        }
    }
}

/// One slot per player, in the order in which they are first met.
fn list_players(slots: Vec<Slot>) -> (out: Vec<Slot>)
    ensures
        text::views(out@) == roster(text::views(slots@)),
{
    let mut out: Vec<Slot> = Vec::new();
    let ghost all = text::views(slots@);
    let n: usize = slots.len();
    let mut i: usize = 0;
    assert(all.take(0) =~= Seq::empty());
    while i < n
        invariant
            i <= n,
            n == slots@.len(),
            all == text::views(slots@),
            text::views(out@) == roster(all.take(i as int)),
        decreases n - i,
    {
        let ghost next = all.take(i + 1);
        assert(next.drop_last() =~= all.take(i as int));
        proof {
            law_players_listed_once(all.take(i as int));
        }
        let s = &slots[i];
        let ghost was = text::views(out@);
        assert(next.last() == s@);
        let m: usize = out.len();
        let mut k: usize = 0;
        while k < m && !is_same_player(&out[k].player, &s.player)
            invariant
                k <= m,
                m == out@.len(),
                was == text::views(out@),
                forall|j: int| 0 <= j < k ==> !same_player((#[trigger] was[j]).player, s@.player),
            decreases m - k,
        {
            assert(was[k as int] == out@[k as int]@);
            k = k + 1;
        }
        if k < m {
            assert(same_player(was[k as int].player, s@.player));
            if out[k].seen <= s.seen {
                out.set(k, s.copy());
            }
            proof {
                let now = text::views(out@);
                assert forall|j: int| 0 <= j < was.len() implies #[trigger] now[j] == roster_step(
                    was,
                    s@,
                )[j] by {
                    if j != k {
                        if k < j {
                            assert(!same_player(was[k as int].player, was[j].player));
                        }
                        assert(!same_player(was[j].player, s@.player));
                        assert(now[j] == was[j]);
                    }
                }
                assert(now =~= roster_step(was, s@));
            }
        } else {
            out.push(s.copy());
        }
        i = i + 1;
    }
    assert(all.take(n as int) =~= all);
    out
}

/// Find every player of a demo.
pub fn find_players(schema: &Schema, names: &Names, frames: &Vec<Frame>) -> (out: Vec<Player>)
    ensures
        text::views(out@) == player_rows(*schema, *names, frames@),
{
    let rk = RosterKeys::resolve(schema);
    let tk = TeamKeys::resolve(schema);
    let mut clans: HashMap<i64, String> = HashMap::new();
    let mut slots: Vec<Slot> = Vec::new();
    let n: usize = frames.len();
    let mut i: usize = 0;
    assert(frames@.take(0) =~= Seq::<Frame>::empty());
    assert(resolve::clan_names(clans@) =~= Map::empty());
    while i < n
        invariant
            i <= n,
            n == frames@.len(),
            rk == RosterKeys::of(*schema),
            tk == TeamKeys::of(*schema),
            resolve::clan_names(clans@) == resolve::clans_through(tk, frames@.take(i as int)),
            text::views(slots@) == slots_through(*schema, *names, frames@.take(i as int)),
        decreases n - i,
    {
        assert(frames@.take(i + 1).drop_last() =~= frames@.take(i as int));
        update_clans(&frames[i], &tk, &mut clans);
        see_frame(&mut slots, names, &rk, &clans, i, &frames[i]);
        i = i + 1;
    }
    assert(frames@.take(n as int) =~= frames@);
    let listed = list_players(slots);
    let mut out: Vec<Player> = Vec::new();
    let ghost all = text::views(listed@);
    let m: usize = listed.len();
    for k in 0..m
        invariant
            m == listed@.len(),
            all == text::views(listed@),
            out@.len() == k,
            forall|j: int| 0 <= j < k ==> (#[trigger] out@[j])@ == all[j].player,
    {
        assert(all[k as int] == listed@[k as int]@);
        out.push(listed[k].player.copy());
    }
    assert(text::views(out@) =~= players_of(all));
    out
}

/// A controller that is seen changes no other slot, and no stay of a player it is not any
/// more.
proof fn lemma_others_stay(
    slots: Seq<Slot<Seq<char>>>,
    names: Names,
    rk: RosterKeys,
    clans: Map<i64, Seq<char>>,
    seen: usize,
    e: Entity,
    s: Slot<Seq<char>>,
)
    requires
        slots.contains(s),
        s.index != e.index || is_taken_over(s.player, rk, e),
    ensures
        slots_with(slots, names, rk, clans, seen, e).contains(s),
    decreases slots.len(),
{
    let next = slots_with(slots, names, rk, clans, seen, e);
    let k = choose|k: int| 0 <= k < slots.len() && slots[k] == s;
    let last = slots.len() - 1;
    if slots.last().index <= e.index {
        assert(next[k] == s);
    } else if k == last {
        assert(next.last() == s);
        assert(next[next.len() - 1] == s);
    } else {
        let init = slots.drop_last();
        assert(init[k] == s);
        lemma_others_stay(init, names, rk, clans, seen, e, s);
        let rest = slots_with(init, names, rk, clans, seen, e);
        let j = choose|j: int| 0 <= j < rest.len() && rest[j] == s;
        assert(next[j] == s);
    }
}

/// Whoever leaves keeps what they were last seen with: a frame in which the slot's controller
/// is not seen, or is another player's, changes nothing about the stay, neither the side nor
/// the clan.
pub proof fn law_leavers_stay_as_they_were(
    slots: Seq<Slot<Seq<char>>>,
    names: Names,
    rk: RosterKeys,
    clans: Map<i64, Seq<char>>,
    seen: usize,
    entities: Seq<Entity>,
    s: Slot<Seq<char>>,
)
    requires
        slots.contains(s),
        forall|i: int|
            0 <= i < entities.len() && (#[trigger] entities[i]).active && entities[i].class_name@
                == PLAYER_CONTROLLER_CLASS@ ==> entities[i].index != s.index || is_taken_over(
                s.player,
                rk,
                entities[i],
            ),
    ensures
        slots_after(slots, names, rk, clans, seen, entities).contains(s),
    decreases entities.len(),
{
    if entities.len() > 0 {
        let init = entities.drop_last();
        assert forall|i: int|
            0 <= i < init.len() && (#[trigger] init[i]).active && init[i].class_name@
                == PLAYER_CONTROLLER_CLASS@ implies init[i].index != s.index || is_taken_over(
            s.player,
            rk,
            init[i],
        ) by {
            assert(init[i] == entities[i]);
        }
        law_leavers_stay_as_they_were(slots, names, rk, clans, seen, init, s);
        let e = entities.last();
        assert(e == entities[entities.len() - 1]);
        if e.active && e.class_name@ == PLAYER_CONTROLLER_CLASS@ {
            let before = slots_after(slots, names, rk, clans, seen, init);
            lemma_others_stay(before, names, rk, clans, seen, e, s);
        }
    }
}

/// Whether a player is the one with a Steam id, or, where the id is 0, the bot with a name.
pub open spec fn stands_for(p: Player<Seq<char>>, id: u64, name: Seq<char>) -> bool {
    p.steamid == Some(id) && (id == 0 ==> p.name == Some(name))
}

/// Whether slots have a stay of a player.
spec fn has_stay(slots: Seq<Slot<Seq<char>>>, id: u64, name: Seq<char>) -> bool {
    exists|k: int| 0 <= k < slots.len() && stands_for((#[trigger] slots[k]).player, id, name)
}

/// A controller that is seen leaves every player their stay, and gives its own player one.
proof fn lemma_stays(
    slots: Seq<Slot<Seq<char>>>,
    names: Names,
    rk: RosterKeys,
    clans: Map<i64, Seq<char>>,
    seen: usize,
    e: Entity,
    id: u64,
    name: Seq<char>,
)
    requires
        has_stay(slots, id, name) || (e.u64_at(rk.steamid) == Some(id) && (id == 0 ==> e.text_at(
            rk.name,
        ) == Some(name))),
    ensures
        has_stay(slots_with(slots, names, rk, clans, seen, e), id, name),
    decreases slots.len(),
{
    let next = slots_with(slots, names, rk, clans, seen, e);
    if slots.len() == 0 {
        assert(stands_for(next[0].player, id, name));
    } else {
        let init = slots.drop_last();
        let last = slots.len() - 1;
        if slots.last().index <= e.index {
            if has_stay(slots, id, name) {
                let k = choose|k: int|
                    0 <= k < slots.len() && stands_for((#[trigger] slots[k]).player, id, name);
                assert(stands_for(next[k].player, id, name));
            } else {
                assert(stands_for(next[next.len() - 1].player, id, name));
            }
        } else if stands_for(slots.last().player, id, name) {
            assert(next[next.len() - 1] == slots.last());
            assert(stands_for(next[next.len() - 1].player, id, name));
        } else {
            if has_stay(slots, id, name) {
                let k = choose|k: int|
                    0 <= k < slots.len() && stands_for((#[trigger] slots[k]).player, id, name);
                assert(init[k] == slots[k]);
            }
            lemma_stays(init, names, rk, clans, seen, e, id, name);
            let rest = slots_with(init, names, rk, clans, seen, e);
            let k = choose|k: int|
                0 <= k < rest.len() && stands_for((#[trigger] rest[k]).player, id, name);
            assert(next[k] == rest[k]);
        }
    }
}

/// Whether an entity is a player's controller in use: the one with a Steam id or, where the id
/// is 0, the bot with a name.
pub open spec fn is_controller_of(rk: RosterKeys, e: Entity, id: u64, name: Seq<char>) -> bool {
    &&& e.active
    &&& e.class_name@ == PLAYER_CONTROLLER_CLASS@
    &&& e.u64_at(rk.steamid) == Some(id)
    &&& id == 0 ==> e.text_at(rk.name) == Some(name)
}

/// A frame leaves every player their stay, and gives everybody in it one.
proof fn lemma_stays_after(
    slots: Seq<Slot<Seq<char>>>,
    names: Names,
    rk: RosterKeys,
    clans: Map<i64, Seq<char>>,
    seen: usize,
    entities: Seq<Entity>,
    id: u64,
    name: Seq<char>,
)
    requires
        has_stay(slots, id, name) || exists|j: int|
            0 <= j < entities.len() && is_controller_of(rk, #[trigger] entities[j], id, name),
    ensures
        has_stay(slots_after(slots, names, rk, clans, seen, entities), id, name),
    decreases entities.len(),
{
    if entities.len() > 0 {
        let init = entities.drop_last();
        let e = entities.last();
        if !is_controller_of(rk, e, id, name) && !has_stay(slots, id, name) {
            let j = choose|j: int|
                0 <= j < entities.len() && is_controller_of(rk, #[trigger] entities[j], id, name);
            assert(init[j] == entities[j]);
        }
        if has_stay(slots, id, name) || exists|j: int|
            0 <= j < init.len() && is_controller_of(rk, #[trigger] init[j], id, name) {
            lemma_stays_after(slots, names, rk, clans, seen, init, id, name);
        }
        let before = slots_after(slots, names, rk, clans, seen, init);
        if e.active && e.class_name@ == PLAYER_CONTROLLER_CLASS@ {
            lemma_stays(before, names, rk, clans, seen, e, id, name);
        }
    }
}

/// Everybody seen in a run of frames has a stay.
proof fn lemma_stays_through(
    schema: Schema,
    names: Names,
    frames: Seq<Frame>,
    i: int,
    j: int,
    id: u64,
    name: Seq<char>,
)
    requires
        0 <= i < frames.len(),
        0 <= j < frames[i].entities@.len(),
        is_controller_of(RosterKeys::of(schema), frames[i].entities@[j], id, name),
    ensures
        has_stay(slots_through(schema, names, frames), id, name),
    decreases frames.len(),
{
    let init = frames.drop_last();
    if i < init.len() {
        assert(init[i] == frames[i]);
        lemma_stays_through(schema, names, init, i, j, id, name);
    }
    lemma_stays_after(
        slots_through(schema, names, init),
        names,
        RosterKeys::of(schema),
        resolve::clans_through(TeamKeys::of(schema), frames),
        (frames.len() - 1) as usize,
        frames.last().entities@,
        id,
        name,
    );
}

/// Every player seen in the demo is listed: whoever's Steam id a controller in use shows, in
/// whatever frame, has a row with that id, even if another player takes the controller over.
pub proof fn law_every_player_is_listed(
    schema: Schema,
    names: Names,
    frames: Seq<Frame>,
    i: int,
    j: int,
)
    requires
        0 <= i < frames.len(),
        0 <= j < frames[i].entities@.len(),
        frames[i].entities@[j].active,
        frames[i].entities@[j].class_name@ == PLAYER_CONTROLLER_CLASS@,
        frames[i].entities@[j].u64_at(RosterKeys::of(schema).steamid) matches Some(id) && id != 0,
    ensures
        exists|k: int|
            0 <= k < player_rows(schema, names, frames).len() && (#[trigger] player_rows(
                schema,
                names,
                frames,
            )[k]).steamid == frames[i].entities@[j].u64_at(RosterKeys::of(schema).steamid),
{
    let id = frames[i].entities@[j].u64_at(RosterKeys::of(schema).steamid)->0;
    lemma_stays_through(schema, names, frames, i, j, id, Seq::empty());
    let slots = slots_through(schema, names, frames);
    let s = choose|s: int|
        0 <= s < slots.len() && stands_for((#[trigger] slots[s]).player, id, Seq::empty());
    law_players_are_freshest(slots);
    assert(as_fresh(roster(slots), slots[s]));
    let k = choose|k: int|
        0 <= k < roster(slots).len() && same_player(
            (#[trigger] roster(slots)[k]).player,
            slots[s].player,
        );
    assert(player_rows(schema, names, frames)[k].steamid == Some(id));
}

/// Every bot seen in the demo is listed: whatever name a controller in use with Steam id 0
/// shows, there is a row with that name that is no human's.
pub proof fn law_every_bot_is_listed(
    schema: Schema,
    names: Names,
    frames: Seq<Frame>,
    i: int,
    j: int,
)
    requires
        0 <= i < frames.len(),
        0 <= j < frames[i].entities@.len(),
        frames[i].entities@[j].active,
        frames[i].entities@[j].class_name@ == PLAYER_CONTROLLER_CLASS@,
        frames[i].entities@[j].u64_at(RosterKeys::of(schema).steamid) == Some(0u64),
        frames[i].entities@[j].text_at(RosterKeys::of(schema).name) is Some,
    ensures
        exists|k: int|
            0 <= k < player_rows(schema, names, frames).len() && human(
                #[trigger] player_rows(schema, names, frames)[k],
            ) is None && player_rows(schema, names, frames)[k].name
                == frames[i].entities@[j].text_at(RosterKeys::of(schema).name),
{
    let name = frames[i].entities@[j].text_at(RosterKeys::of(schema).name)->0;
    lemma_stays_through(schema, names, frames, i, j, 0, name);
    let slots = slots_through(schema, names, frames);
    let s = choose|s: int|
        0 <= s < slots.len() && stands_for((#[trigger] slots[s]).player, 0, name);
    law_players_are_freshest(slots);
    assert(as_fresh(roster(slots), slots[s]));
    let k = choose|k: int|
        0 <= k < roster(slots).len() && same_player(
            (#[trigger] roster(slots)[k]).player,
            slots[s].player,
        );
    assert(player_rows(schema, names, frames)[k].name == Some(name));
}

} // verus!
