//! Where a dataset cannot be told, and with which error.
use crate::blinds::FlashSum;
use crate::demo::DemoError;
use crate::laws::reading;
use crate::laws::rounds::{decisions, last_restart, law_rounds_are_decided};
use crate::parser::Parser;
use crate::rounds;
use vstd::prelude::*;

verus! {

/// How many rounds the game rules of a demo decide.
pub open spec fn rounds_decided(p: Parser) -> int {
    let rules = rounds::all_rules(p.schema, p.frames->Ok_0@);
    let n = rules.len() as int;
    reading::picks(n, decisions(rules, last_restart(rules, n))).len() as int
}

/// Whether the rounds fail with an error: that of the frames or, where a round is decided, that
/// of the events.
pub open spec fn rounds_fail(p: Parser, e: DemoError) -> bool {
    ||| p.frames matches Err(x) && x == e
    ||| p.frames is Ok && rounds_decided(p) > 0 && (p.events matches Err(x) && x == e)
}

/// Whether the projectiles fail with an error: that of the events, else that of the frames.
pub open spec fn projectiles_fail(p: Parser, e: DemoError) -> bool {
    ||| p.events matches Err(x) && x == e
    ||| p.events is Ok && (p.frames matches Err(x) && x == e)
}

/// Rounds, and what is joined with them, fail where the frames do, and where the events do
/// although there are rounds to mark. They fail in no other way.
pub proof fn law_rounds_fail(p: Parser, sums: Seq<FlashSum>, tick: i32, e: DemoError)
    ensures
        (p.round_rows() matches Err(x) && x == e) <==> rounds_fail(p, e),
        (p.kill_rows() matches Err(x) && x == e) <==> rounds_fail(p, e),
        (p.damage_rows() matches Err(x) && x == e) <==> rounds_fail(p, e),
        (p.bomb_rows() matches Err(x) && x == e) <==> rounds_fail(p, e),
        (p.shot_rows() matches Err(x) && x == e) <==> rounds_fail(p, e),
        (p.blind_rows(sums) matches Err(x) && x == e) <==> rounds_fail(p, e),
        (p.tick_rows(tick) matches Err(x) && x == e) <==> rounds_fail(p, e),
{
    if p.frames is Ok {
        law_rounds_are_decided(p.names, rounds::all_rules(p.schema, p.frames->Ok_0@));
    }
}

/// Projectiles fail where the events do, and where the frames do. They fail in no other way.
pub proof fn law_projectiles_fail(p: Parser, e: DemoError)
    ensures
        (p.grenade_rows() matches Err(x) && x == e) <==> projectiles_fail(p, e),
        (p.throw_rows() matches Err(x) && x == e) <==> projectiles_fail(p, e),
        (p.fire_rows() matches Err(x) && x == e) <==> projectiles_fail(p, e),
        (p.smoke_rows() matches Err(x) && x == e) <==> projectiles_fail(p, e),
{
}

/// States fail where the keyframes do, and where the rounds do; those that the economy is read
/// from fail where the rounds do, and where the keyframes do. They fail in no other way.
pub proof fn law_states_fail(p: Parser, wants: spec_fn(i32) -> bool, e: DemoError)
    ensures
        (p.state_rows(wants) matches Err(x) && x == e) <==> (p.keyframes matches Err(x) && x == e)
            || (p.keyframes is Ok && rounds_fail(p, e)),
        (p.buy_states() matches Err(x) && x == e) <==> rounds_fail(p, e) || (p.round_rows() is Ok
            && (p.keyframes matches Err(x) && x == e)),
{
    law_rounds_fail(p, Seq::empty(), 0, e);
}

} // verus!
