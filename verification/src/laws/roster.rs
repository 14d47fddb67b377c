//! The roster: one row for every player that a controller shows.
use crate::demo::{Entity, Frame, Schema};
use crate::laws::reading;
use crate::names::Names;
use crate::players;
use crate::players::{Player, RosterKeys, Slot};
use crate::resolve;
use crate::resolve::TeamKeys;
use vstd::prelude::*;

verus! {

/// The key of a field of a controller.
pub open spec fn roster_key(schema: Schema, path: Seq<char>) -> Option<u64> {
    schema.key_of("CCSPlayerController"@, path)
}

/// The Steam id that a controller says, if it says one.
pub open spec fn id_of(schema: Schema, e: Entity) -> Option<u64> {
    e.u64_at(roster_key(schema, "m_steamID"@))
}

/// The name that a controller says, if it says one.
pub open spec fn name_of(schema: Schema, e: Entity) -> Option<Seq<char>> {
    e.text_at(roster_key(schema, "m_iszPlayerName"@))
}

/// The team that a controller says.
pub open spec fn team_of(schema: Schema, e: Entity) -> i64 {
    e.i64_at(roster_key(schema, "m_iTeamNum"@))
}

/// Whether a player is as a controller in frame `n - 1` shows them: it replaces what it says,
/// and the rest is as it was. The clan goes with the side.
pub open spec fn shows_player(
    schema: Schema,
    names: Names,
    frames: Seq<Frame>,
    n: int,
    e: Entity,
    was: Player<Seq<char>>,
    now: Player<Seq<char>>,
) -> bool {
    &&& id_of(schema, e) is Some ==> now.steamid == id_of(schema, e)
    &&& id_of(schema, e) is None ==> now.steamid == was.steamid
    &&& name_of(schema, e) is Some ==> now.name == name_of(schema, e)
    &&& name_of(schema, e) is None ==> now.name == was.name
    &&& if team_of(schema, e) > 0 {
        &&& now.side == Some(names.teams.name(team_of(schema, e)))
        &&& reading::is_clan(schema, frames, n, team_of(schema, e), now.team_clan_name)
    } else {
        &&& now.side == was.side
        &&& now.team_clan_name == was.team_clan_name
    }
}

/// Whether a Steam id is a human's.
pub open spec fn is_human(id: Option<u64>) -> bool {
    id is Some && id->0 != 0
}

/// Whether a controller has become another player's: it says another Steam id than before, or
/// another name where neither id is a human's.
pub open spec fn is_anothers(schema: Schema, was: Player<Seq<char>>, e: Entity) -> bool {
    ||| was.steamid is Some && id_of(schema, e) is Some && was.steamid != id_of(schema, e)
    ||| !is_human(was.steamid) && !is_human(id_of(schema, e)) && was.name is Some && name_of(
        schema,
        e,
    ) is Some && was.name != name_of(schema, e)
}

/// Whether nothing is known of a player.
pub open spec fn is_blank(p: Player<Seq<char>>) -> bool {
    p.steamid is None && p.name is None && p.side is None && p.team_clan_name is None
}

/// Whether a slot is what a controller in frame `n - 1` shows, from what was known.
pub open spec fn is_seen(
    schema: Schema,
    names: Names,
    frames: Seq<Frame>,
    n: int,
    e: Entity,
    was: Player<Seq<char>>,
    now: Slot<Seq<char>>,
) -> bool {
    &&& now.index == e.index
    &&& now.seen == n - 1
    &&& shows_player(schema, names, frames, n, e, was, now.player)
}

/// Whether the slots from position `k` on have larger indexes than a controller.
pub open spec fn larger_from(slots: Seq<Slot<Seq<char>>>, e: Entity, k: int) -> bool {
    forall|i: int| k <= i < slots.len() ==> (#[trigger] slots[i]).index > e.index
}

/// Whether a controller begins a new stay at position `k`: the slot before it has a smaller
/// index, or the same one with another player in it.
pub open spec fn joins(
    schema: Schema,
    names: Names,
    frames: Seq<Frame>,
    n: int,
    e: Entity,
    was: Seq<Slot<Seq<char>>>,
    now: Seq<Slot<Seq<char>>>,
    k: int,
) -> bool {
    &&& 0 <= k <= was.len()
    &&& larger_from(was, e, k)
    &&& k > 0 ==> was[k - 1].index < e.index || (was[k - 1].index == e.index && is_anothers(
        schema,
        was[k - 1].player,
        e,
    ))
    &&& now.len() == was.len() + 1
    &&& forall|i: int| 0 <= i < k ==> #[trigger] now[i] == was[i]
    &&& forall|i: int| k < i < now.len() ==> #[trigger] now[i] == was[i - 1]
    &&& exists|blank: Player<Seq<char>>| #[trigger]
        is_blank(blank) && is_seen(schema, names, frames, n, e, blank, now[k])
}

/// Whether a controller brings the stay at position `k` up to date: the slot has its index and
/// its player.
pub open spec fn goes_on(
    schema: Schema,
    names: Names,
    frames: Seq<Frame>,
    n: int,
    e: Entity,
    was: Seq<Slot<Seq<char>>>,
    now: Seq<Slot<Seq<char>>>,
    k: int,
) -> bool {
    &&& 0 <= k < was.len()
    &&& larger_from(was, e, k + 1)
    &&& was[k].index == e.index
    &&& !is_anothers(schema, was[k].player, e)
    &&& now.len() == was.len()
    &&& forall|i: int| 0 <= i < was.len() && i != k ==> #[trigger] now[i] == was[i]
    &&& is_seen(schema, names, frames, n, e, was[k].player, now[k])
}

/// Whether slots come from others by one entity of frame `n - 1`: an active controller begins a
/// stay or brings one up to date, and nothing else changes anything.
pub open spec fn is_step(
    schema: Schema,
    names: Names,
    frames: Seq<Frame>,
    n: int,
    e: Entity,
    was: Seq<Slot<Seq<char>>>,
    now: Seq<Slot<Seq<char>>>,
) -> bool {
    if e.active && e.class_name@ == "CCSPlayerController"@ {
        ||| exists|k: int| #[trigger] joins(schema, names, frames, n, e, was, now, k)
        ||| exists|k: int| #[trigger] goes_on(schema, names, frames, n, e, was, now, k)
    } else {
        now == was
    }
}

/// Whether slots come from others by the entities of frame `n - 1`, one after another.
pub open spec fn is_run(
    schema: Schema,
    names: Names,
    frames: Seq<Frame>,
    n: int,
    was: Seq<Slot<Seq<char>>>,
    now: Seq<Slot<Seq<char>>>,
    states: Seq<Seq<Slot<Seq<char>>>>,
) -> bool {
    let es = frames[n - 1].entities@;
    &&& states.len() == es.len() + 1
    &&& states[0] == was
    &&& states[es.len() as int] == now
    &&& forall|j: int|
        0 <= j < es.len() ==> is_step(
            schema,
            names,
            frames,
            n,
            #[trigger] es[j],
            states[j],
            states[j + 1],
        )
}

proof fn lemma_clan_shown(schema: Schema, frames: Seq<Frame>, n: int, team: i64)
    requires
        0 <= n <= frames.len(),
    ensures
        reading::is_clan(
            schema,
            frames,
            n,
            team,
            resolve::clan_of(resolve::clans_through(TeamKeys::of(schema), frames.take(n)), team),
        ),
{
    reading::law_clans_are_named_last(schema, frames, n, team);
}

proof fn lemma_step(
    schema: Schema,
    names: Names,
    frames: Seq<Frame>,
    n: int,
    e: Entity,
    was: Seq<Slot<Seq<char>>>,
) -> (k: int)
    requires
        0 < n <= frames.len(),
        frames.len() <= usize::MAX,
    ensures
        ({
            let clans = resolve::clans_through(TeamKeys::of(schema), frames.take(n));
            let now = players::slots_with(
                was,
                names,
                RosterKeys::of(schema),
                clans,
                (n - 1) as usize,
                e,
            );
            joins(schema, names, frames, n, e, was, now, k) || goes_on(
                schema,
                names,
                frames,
                n,
                e,
                was,
                now,
                k,
            )
        }),
    decreases was.len(),
{
    let rk = RosterKeys::of(schema);
    let clans = resolve::clans_through(TeamKeys::of(schema), frames.take(n));
    let seen = (n - 1) as usize;
    let now = players::slots_with(was, names, rk, clans, seen, e);
    lemma_clan_shown(schema, frames, n, team_of(schema, e));
    let blank = players::unknown_player();
    assert(is_blank(blank));
    let fresh = Slot {
        index: e.index,
        seen,
        player: players::player_seen(blank, names, rk, clans, e),
    };
    assert(is_seen(schema, names, frames, n, e, blank, fresh));
    if was.len() == 0 {
        assert(joins(schema, names, frames, n, e, was, now, 0));
        0
    } else {
        let last = was.last();
        if last.index < e.index || (last.index == e.index && players::is_taken_over(
            last.player,
            rk,
            e,
        )) {
            assert(joins(schema, names, frames, n, e, was, now, was.len() as int));
            was.len() as int
        } else if last.index == e.index {
            assert(goes_on(schema, names, frames, n, e, was, now, was.len() - 1));
            was.len() - 1
        } else {
            let init = was.drop_last();
            let k = lemma_step(schema, names, frames, n, e, init);
            let part = players::slots_with(init, names, rk, clans, seen, e);
            assert(now == part.push(last));
            if joins(schema, names, frames, n, e, init, part, k) {
                assert forall|i: int| k < i < now.len() implies #[trigger] now[i] == was[i
                    - 1] by {
                    if i < part.len() {
                        assert(part[i] == init[i - 1]);
                    }
                }
                assert forall|i: int| 0 <= i < k implies #[trigger] now[i] == was[i] by {
                    assert(part[i] == init[i]);
                }
                assert(now[k] == part[k]);
                assert forall|i: int| k <= i < was.len() implies (#[trigger] was[i]).index
                    > e.index by {
                    if i < init.len() {
                        assert(init[i].index > e.index);
                    }
                }
                assert(joins(schema, names, frames, n, e, was, now, k));
            } else {
                assert forall|i: int| 0 <= i < was.len() && i != k implies #[trigger] now[i]
                    == was[i] by {
                    if i < part.len() {
                        assert(part[i] == init[i]);
                    }
                }
                assert(now[k] == part[k]);
                assert forall|i: int| k + 1 <= i < was.len() implies (#[trigger] was[i]).index
                    > e.index by {
                    if i < init.len() {
                        assert(init[i].index > e.index);
                    }
                }
                assert(goes_on(schema, names, frames, n, e, was, now, k));
            }
            k
        }
    }
}

/// The stays of a demo are made by its controllers: there are none before the first frame, and
/// every frame begins stays and brings them up to date by its active controllers, one after
/// another.
pub proof fn law_stays_show_controllers(schema: Schema, names: Names, frames: Seq<Frame>, n: int)
    requires
        0 <= n <= frames.len(),
        frames.len() <= usize::MAX,
    ensures
        n == 0 ==> players::slots_through(schema, names, frames.take(n)).len() == 0,
        n > 0 ==> exists|states: Seq<Seq<Slot<Seq<char>>>>| #[trigger]
            is_run(
                schema,
                names,
                frames,
                n,
                players::slots_through(schema, names, frames.take(n - 1)),
                players::slots_through(schema, names, frames.take(n)),
                states,
            ),
{
    if n == 0 {
        assert(frames.take(0) =~= Seq::empty());
    } else {
        let es = frames[n - 1].entities@;
        let clans = resolve::clans_through(TeamKeys::of(schema), frames.take(n));
        let was = players::slots_through(schema, names, frames.take(n - 1));
        let now = players::slots_through(schema, names, frames.take(n));
        let rk = RosterKeys::of(schema);
        let seen = (n - 1) as usize;
        assert(frames.take(n).drop_last() =~= frames.take(n - 1));
        assert(frames.take(n).last() == frames[n - 1]);
        let states = Seq::new(
            es.len() + 1,
            |j: int| players::slots_after(was, names, rk, clans, seen, es.take(j)),
        );
        assert(es.take(0) =~= Seq::empty());
        assert(es.take(es.len() as int) =~= es);
        assert forall|j: int| 0 <= j < es.len() implies is_step(
            schema,
            names,
            frames,
            n,
            #[trigger] es[j],
            states[j],
            states[j + 1],
        ) by {
            assert(es.take(j + 1).drop_last() =~= es.take(j));
            assert(es.take(j + 1).last() == es[j]);
            let k = lemma_step(schema, names, frames, n, es[j], states[j]);
        }
        assert(is_run(schema, names, frames, n, was, now, states));
    }
}

/// What a player goes by: a human by their Steam id, everyone else by their name.
pub open spec fn goes_by(p: Player<Seq<char>>) -> (Option<u64>, Option<Seq<char>>) {
    if is_human(p.steamid) {
        (p.steamid, None)
    } else {
        (None, p.name)
    }
}

/// Whether two stays are of the same player.
pub open spec fn is_same(a: Player<Seq<char>>, b: Player<Seq<char>>) -> bool {
    goes_by(a) == goes_by(b)
}

proof fn lemma_same(a: Player<Seq<char>>, b: Player<Seq<char>>)
    ensures
        players::same_player(a, b) == is_same(a, b),
{
}

/// Whether stay `x` is the freshest of its player: no other of theirs was seen later, and none
/// after it was seen as late.
#[verifier::opaque]
pub open spec fn is_freshest(slots: Seq<Slot<Seq<char>>>, x: int) -> bool {
    &&& 0 <= x < slots.len()
    &&& forall|y: int|
        0 <= y < slots.len() && is_same((#[trigger] slots[y]).player, slots[x].player)
            ==> slots[y].seen < slots[x].seen || (slots[y].seen == slots[x].seen && y <= x)
}

/// Whether one player is met before another.
#[verifier::opaque]
pub open spec fn is_met_before(
    slots: Seq<Slot<Seq<char>>>,
    a: Player<Seq<char>>,
    b: Player<Seq<char>>,
) -> bool {
    exists|x: int|
        0 <= x < slots.len() && is_same((#[trigger] slots[x]).player, a) && forall|y: int|
            0 <= y < slots.len() && is_same((#[trigger] slots[y]).player, b) ==> x < y
}

/// Whether a row is the freshest stay of its player.
#[verifier::opaque]
pub open spec fn is_row_of(slots: Seq<Slot<Seq<char>>>, row: Slot<Seq<char>>) -> bool {
    exists|x: int| #[trigger] is_freshest(slots, x) && slots[x] == row
}

/// Whether a player has a row.
#[verifier::opaque]
pub open spec fn has_row(rows: Seq<Slot<Seq<char>>>, p: Player<Seq<char>>) -> bool {
    exists|k: int| 0 <= k < rows.len() && is_same((#[trigger] rows[k]).player, p)
}

spec fn is_roster(slots: Seq<Slot<Seq<char>>>, rows: Seq<Slot<Seq<char>>>) -> bool {
    &&& forall|k: int| 0 <= k < rows.len() ==> is_row_of(slots, #[trigger] rows[k])
    &&& forall|x: int| 0 <= x < slots.len() ==> has_row(rows, (#[trigger] slots[x]).player)
    &&& forall|i: int, j: int|
        0 <= i < j < rows.len() ==> !is_same((#[trigger] rows[i]).player, (
        #[trigger] rows[j]).player) && is_met_before(slots, rows[i].player, rows[j].player)
}

/// A row of another player stays the freshest.
proof fn lemma_kept_row(slots: Seq<Slot<Seq<char>>>, row: Slot<Seq<char>>)
    requires
        slots.len() > 0,
        is_row_of(slots.drop_last(), row),
        !is_same(row.player, slots.last().player) || row.seen > slots.last().seen,
    ensures
        is_row_of(slots, row),
{
    reveal(is_row_of);
    reveal(is_freshest);
    let init = slots.drop_last();
    let x = choose|x: int| #[trigger] is_freshest(init, x) && init[x] == row;
    assert(slots[x] == init[x]);
    assert forall|y: int|
        0 <= y < slots.len() && is_same(
            (#[trigger] slots[y]).player,
            slots[x].player,
        ) implies slots[y].seen < slots[x].seen || (slots[y].seen == slots[x].seen && y <= x) by {
        if y < slots.len() - 1 {
            assert(init[y] == slots[y]);
        }
    }
    assert(is_freshest(slots, x));
}

/// The last stay is the freshest of its player where their row is no fresher, and where they
/// have none.
proof fn lemma_last_row(slots: Seq<Slot<Seq<char>>>, row: Option<Slot<Seq<char>>>)
    requires
        slots.len() > 0,
        row matches Some(r) ==> is_row_of(slots.drop_last(), r) && is_same(
            r.player,
            slots.last().player,
        ) && r.seen <= slots.last().seen,
        row is None ==> forall|y: int|
            0 <= y < slots.len() - 1 ==> !is_same(
                (#[trigger] slots[y]).player,
                slots.last().player,
            ),
    ensures
        is_row_of(slots, slots.last()),
{
    reveal(is_row_of);
    reveal(is_freshest);
    let init = slots.drop_last();
    let l = slots.len() - 1;
    assert forall|y: int|
        0 <= y < slots.len() && is_same(
            (#[trigger] slots[y]).player,
            slots[l].player,
        ) implies slots[y].seen < slots[l].seen || (slots[y].seen == slots[l].seen && y <= l) by {
        if y < l && row is Some {
            let x = choose|x: int| #[trigger] is_freshest(init, x) && init[x] == row->0;
            assert(init[y] == slots[y]);
            assert(is_same(init[y].player, init[x].player));
        }
    }
    assert(is_freshest(slots, l));
}

/// Who is met before another is still, one stay later.
proof fn lemma_still_met(
    slots: Seq<Slot<Seq<char>>>,
    a: Player<Seq<char>>,
    b: Player<Seq<char>>,
    c: Player<Seq<char>>,
    d: Player<Seq<char>>,
)
    requires
        slots.len() > 0,
        is_met_before(slots.drop_last(), a, b),
        is_same(c, a),
        is_same(d, b),
    ensures
        is_met_before(slots, c, d),
{
    reveal(is_met_before);
    let init = slots.drop_last();
    let x = choose|x: int|
        0 <= x < init.len() && is_same((#[trigger] init[x]).player, a) && forall|y: int|
            0 <= y < init.len() && is_same((#[trigger] init[y]).player, b) ==> x < y;
    assert(slots[x] == init[x]);
    assert(is_same(slots[x].player, c));
    assert forall|y: int|
        0 <= y < slots.len() && is_same((#[trigger] slots[y]).player, d) implies x < y by {
        if y < slots.len() - 1 {
            assert(init[y] == slots[y]);
        }
    }
}

/// Everyone who has a row is met before a player whose only stay is the last.
proof fn lemma_met_first(slots: Seq<Slot<Seq<char>>>, row: Slot<Seq<char>>)
    requires
        slots.len() > 0,
        is_row_of(slots.drop_last(), row),
        forall|y: int|
            0 <= y < slots.len() - 1 ==> !is_same(
                (#[trigger] slots[y]).player,
                slots.last().player,
            ),
    ensures
        is_met_before(slots, row.player, slots.last().player),
{
    reveal(is_met_before);
    reveal(is_row_of);
    reveal(is_freshest);
    let init = slots.drop_last();
    let x = choose|x: int| #[trigger] is_freshest(init, x) && init[x] == row;
    assert(slots[x] == init[x]);
}

/// Rows that go by the same as others hold the same players.
proof fn lemma_has_row(
    rows: Seq<Slot<Seq<char>>>,
    now: Seq<Slot<Seq<char>>>,
    p: Player<Seq<char>>,
)
    requires
        has_row(rows, p),
        rows.len() <= now.len(),
        forall|k: int|
            0 <= k < rows.len() ==> is_same((#[trigger] now[k]).player, rows[k].player),
    ensures
        has_row(now, p),
{
    reveal(has_row);
    let k = choose|k: int| 0 <= k < rows.len() && is_same((#[trigger] rows[k]).player, p);
    assert(is_same(now[k].player, rows[k].player));
}

proof fn lemma_listed(slots: Seq<Slot<Seq<char>>>, rows: Seq<Slot<Seq<char>>>)
    requires
        slots.len() > 0,
        is_roster(slots.drop_last(), rows),
        players::is_listed(rows, slots.last().player),
    ensures
        is_roster(slots, players::roster_step(rows, slots.last())),
{
    let init = slots.drop_last();
    let s = slots.last();
    let now = players::roster_step(rows, s);
    assert(now.len() == rows.len());
    assert forall|k: int| 0 <= k < rows.len() implies is_same(
        (#[trigger] now[k]).player,
        rows[k].player,
    ) && is_row_of(slots, now[k]) by {
        lemma_same(rows[k].player, s.player);
        assert(is_row_of(init, rows[k]));
        if is_same(rows[k].player, s.player) && rows[k].seen <= s.seen {
            lemma_last_row(slots, Some(rows[k]));
        } else {
            lemma_kept_row(slots, rows[k]);
        }
    }
    assert forall|x: int| 0 <= x < slots.len() implies has_row(
        now,
        (#[trigger] slots[x]).player,
    ) by {
        if x < slots.len() - 1 {
            assert(init[x] == slots[x]);
            lemma_has_row(rows, now, init[x].player);
        } else {
            let k = choose|k: int|
                0 <= k < rows.len() && players::same_player((#[trigger] rows[k]).player, s.player);
            lemma_same(rows[k].player, s.player);
            assert(has_row(rows, s.player)) by {
                reveal(has_row);
            }
            lemma_has_row(rows, now, s.player);
        }
    }
    assert forall|i: int, j: int| 0 <= i < j < now.len() implies !is_same(
        (#[trigger] now[i]).player,
        (#[trigger] now[j]).player,
    ) && is_met_before(slots, now[i].player, now[j].player) by {
        assert(!is_same(rows[i].player, rows[j].player));
        lemma_still_met(slots, rows[i].player, rows[j].player, now[i].player, now[j].player);
    }
}

proof fn lemma_unlisted(slots: Seq<Slot<Seq<char>>>, rows: Seq<Slot<Seq<char>>>)
    requires
        slots.len() > 0,
        is_roster(slots.drop_last(), rows),
        !players::is_listed(rows, slots.last().player),
    ensures
        is_roster(slots, rows.push(slots.last())),
{
    let init = slots.drop_last();
    let s = slots.last();
    let now = rows.push(s);
    assert forall|k: int| 0 <= k < rows.len() implies !is_same(
        (#[trigger] rows[k]).player,
        s.player,
    ) by {
        lemma_same(rows[k].player, s.player);
        assert(!players::same_player(rows[k].player, s.player));
    }
    assert forall|y: int| 0 <= y < slots.len() - 1 implies !is_same(
        (#[trigger] slots[y]).player,
        s.player,
    ) by {
        assert(init[y] == slots[y]);
        assert(has_row(rows, init[y].player));
        reveal(has_row);
        let k = choose|k: int|
            0 <= k < rows.len() && is_same((#[trigger] rows[k]).player, init[y].player);
        assert(!is_same(rows[k].player, s.player));
    }
    lemma_last_row(slots, None);
    assert forall|k: int| 0 <= k < now.len() implies is_row_of(slots, #[trigger] now[k]) by {
        if k < rows.len() {
            assert(now[k] == rows[k]);
            lemma_kept_row(slots, rows[k]);
        }
    }
    assert forall|x: int| 0 <= x < slots.len() implies has_row(
        now,
        (#[trigger] slots[x]).player,
    ) by {
        if x < slots.len() - 1 {
            assert(init[x] == slots[x]);
            lemma_has_row(rows, now, init[x].player);
        } else {
            reveal(has_row);
            assert(now[rows.len() as int] == s);
        }
    }
    assert forall|i: int, j: int| 0 <= i < j < now.len() implies !is_same(
        (#[trigger] now[i]).player,
        (#[trigger] now[j]).player,
    ) && is_met_before(slots, now[i].player, now[j].player) by {
        assert(now[i] == rows[i]);
        if j < rows.len() {
            assert(now[j] == rows[j]);
            assert(!is_same(rows[i].player, rows[j].player));
            lemma_still_met(slots, rows[i].player, rows[j].player, rows[i].player, rows[j].player);
        } else {
            lemma_met_first(slots, rows[i]);
        }
    }
}

proof fn lemma_roster(slots: Seq<Slot<Seq<char>>>)
    ensures
        is_roster(slots, players::roster(slots)),
    decreases slots.len(),
{
    if slots.len() > 0 {
        let rows = players::roster(slots.drop_last());
        lemma_roster(slots.drop_last());
        if players::is_listed(rows, slots.last().player) {
            lemma_listed(slots, rows);
        } else {
            lemma_unlisted(slots, rows);
        }
    }
}

/// The roster lists the players of all stays: everyone has a row, nobody has two, and they come
/// in the order in which they are first met. A row is the freshest stay of its player.
pub proof fn law_roster_lists_players(schema: Schema, names: Names, frames: Seq<Frame>)
    ensures
        ({
            let slots = players::slots_through(schema, names, frames);
            let rows = players::player_rows(schema, names, frames);
            &&& forall|k: int|
                0 <= k < rows.len() ==> exists|x: int| #[trigger]
                    is_freshest(slots, x) && slots[x].player == #[trigger] rows[k]
            &&& forall|x: int|
                0 <= x < slots.len() ==> exists|k: int|
                    0 <= k < rows.len() && is_same(#[trigger] rows[k], (#[trigger] slots[x]).player)
            &&& forall|i: int, j: int|
                0 <= i < j < rows.len() ==> !is_same(#[trigger] rows[i], #[trigger] rows[j])
                    && is_met_before(slots, rows[i], rows[j])
        }),
{
    let slots = players::slots_through(schema, names, frames);
    let told = players::roster(slots);
    let rows = players::player_rows(schema, names, frames);
    lemma_roster(slots);
    reveal(is_row_of);
    reveal(has_row);
    assert forall|k: int| 0 <= k < rows.len() implies exists|x: int| #[trigger]
        is_freshest(slots, x) && slots[x].player == #[trigger] rows[k] by {
        assert(is_row_of(slots, told[k]));
        let x = choose|x: int| #[trigger] is_freshest(slots, x) && slots[x] == told[k];
        assert(slots[x].player == rows[k]);
    }
    assert forall|x: int| 0 <= x < slots.len() implies exists|k: int|
        0 <= k < rows.len() && is_same(#[trigger] rows[k], (#[trigger] slots[x]).player) by {
        assert(has_row(told, slots[x].player));
        let k = choose|k: int|
            0 <= k < told.len() && is_same((#[trigger] told[k]).player, slots[x].player);
        assert(rows[k] == told[k].player);
    }
    assert forall|i: int, j: int| 0 <= i < j < rows.len() implies !is_same(
        #[trigger] rows[i],
        #[trigger] rows[j],
    ) && is_met_before(slots, rows[i], rows[j]) by {
        assert(rows[i] == told[i].player && rows[j] == told[j].player);
        assert(!is_same(told[i].player, told[j].player));
    }
}

} // verus!
