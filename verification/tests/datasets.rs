use awpy::anchors::{round_num_anchors, round_num_for_tick};
use awpy::damages::damage_event_fields;
use awpy::demo::{GameEvent, KeyValue};
use awpy::keys::Keys;
use awpy::kills::Kill;
use awpy::names::{CodeName, CodeNames, Names};
use awpy::rounds::Round;
use awpy::trades::trade_flags;

fn ev(name: &str, tick: i32, keys: &[(&str, &str)]) -> GameEvent {
    GameEvent {
        tick,
        name: name.to_string(),
        msg_type: 0,
        keys: keys
            .iter()
            .map(|(k, v)| KeyValue {
                key: k.to_string(),
                value: v.to_string(),
                number: None,
            })
            .collect(),
        payload: Vec::new(),
    }
}

#[test]
fn keys_typed_getters() {
    let e = ev("player_death", 10, &[("userid", "7"), ("headshot", "true")]);
    let k = Keys(&e.keys);
    assert_eq!(k.i32("userid"), 7);
    assert_eq!(k.i64("userid"), 7);
    assert!(k.bool("headshot"));
    assert_eq!(k.i32("missing"), 0);
    assert!(!k.bool("missing"));
    assert_eq!(k.string("userid"), "7");
}

fn names() -> Names {
    let none = || CodeNames {
        entries: Vec::new(),
        other: "unknown".to_string(),
    };
    Names {
        teams: none(),
        hitgroups: CodeNames {
            entries: vec![CodeName {
                code: 3,
                name: "stomach".to_string(),
            }],
            other: "generic".to_string(),
        },
        round_end_reasons: none(),
        weapons: Vec::new(),
        grenades: Vec::new(),
    }
}

#[test]
fn damage_event_fields_reconstructs_health() {
    let e = ev(
        "player_hurt",
        50,
        &[
            ("userid", "5"),
            ("attacker", "10"),
            ("health", "75"),
            ("armor", "90"),
            ("weapon", "glock"),
            ("dmg_health", "25"),
            ("dmg_armor", "10"),
            ("hitgroup", "3"),
        ],
    );
    let dmg = damage_event_fields(&e, &names());
    assert_eq!(dmg.tick, 50);
    assert_eq!(dmg.weapon, "glock");
    assert_eq!(dmg.hitgroup_name, "stomach");
    assert_eq!(dmg.dmg_health, 25);
    // pre = post + damage
    assert_eq!(dmg.health_post, 75);
    assert_eq!(dmg.health_pre, 100);
    assert_eq!(dmg.armor_post, 90);
    assert_eq!(dmg.armor_pre, 100);
    // Player fields are unresolved until an entity pass fills them.
    assert!(dmg.attacker_name.is_none());
}

#[test]
fn damage_overkill_clamps_pre_health() {
    // A lethal hit reports raw (uncapped) damage, so post + dmg can exceed
    // 100; pre-health must clamp to the 100 HP maximum.
    let e = ev("player_hurt", 10, &[("health", "0"), ("dmg_health", "444")]);
    let dmg = damage_event_fields(&e, &names());
    assert_eq!(dmg.dmg_health, 444); // raw damage is preserved
    assert_eq!(dmg.health_post, 0);
    assert_eq!(dmg.health_pre, 100); // clamped, not 444
}

fn round(round_num: i32, start_tick: Option<i32>, end_tick: i32) -> Round {
    Round {
        round_num,
        start_tick,
        end_tick,
        ..Default::default()
    }
}

#[test]
fn round_num_for_tick_picks_the_latest_anchor_at_or_before() {
    let rounds = [
        round(1, Some(0), 1000),
        round(2, Some(1100), 2000),
        round(3, Some(2100), 3000),
    ];
    let anchors = round_num_anchors(&rounds);
    assert_eq!(round_num_for_tick(&anchors, 0), Some(1));
    assert_eq!(round_num_for_tick(&anchors, 500), Some(1));
    assert_eq!(round_num_for_tick(&anchors, 1100), Some(2)); // exactly at round 2's start
    assert_eq!(round_num_for_tick(&anchors, 1050), Some(1)); // post-round-1, pre-round-2
    assert_eq!(round_num_for_tick(&anchors, 5000), Some(3)); // past the last round's start
    assert_eq!(round_num_for_tick(&anchors, -1), None); // before any round started
}

#[test]
fn round_num_anchors_falls_back_when_start_tick_unknown() {
    // A demo that starts mid-round has no start tick for round 1: the anchor falls
    // back to the end tick, the only boundary that is always known.
    let rounds = [round(1, None, 900)];
    let anchors = round_num_anchors(&rounds);
    assert_eq!(anchors, vec![(900, 1)]);
}

fn kill(tick: i32, attacker: u64, aside: &str, victim: u64, vside: &str) -> Kill {
    Kill {
        tick,
        attacker_steamid: Some(attacker),
        attacker_side: Some(aside.into()),
        victim_steamid: Some(victim),
        victim_side: Some(vside.into()),
        ..Default::default()
    }
}

const T: &str = "terrorist";
const CT: &str = "counter-terrorist";

#[test]
fn trade_flags_are_duals() {
    // CT 2 kills T 1; T 3 trades by killing CT 2 inside the window. The first
    // kill's victim was traded, and the second kill is that trade.
    let kills = vec![kill(100, 2, CT, 1, T), kill(300, 3, T, 2, CT)];
    let flags = trade_flags(&kills, 320);
    assert_eq!(flags[0], (false, true));
    assert_eq!(flags[1], (true, false));
}

#[test]
fn trade_flags_respect_the_window() {
    let kills = vec![kill(100, 2, CT, 1, T), kill(500, 3, T, 2, CT)];
    let flags = trade_flags(&kills, 320); // 400 ticks apart, window is 320
    assert_eq!(flags, vec![(false, false), (false, false)]);
}

#[test]
fn a_teammates_revenge_is_required_for_a_trade() {
    // CT 2 kills T 1, then a fellow CT kills CT 2 (a team kill). Nobody on T's side
    // avenged the death, so it is not traded.
    let kills = vec![kill(100, 2, CT, 1, T), kill(200, 4, CT, 2, CT)];
    let flags = trade_flags(&kills, 320);
    assert_eq!(flags[0], (false, false));
    assert_eq!(flags[1], (false, false));
}

#[test]
fn trade_flags_follow_ticks_not_input_order() {
    // The two kills of `trade_flags_are_duals`, out of tick order: the flags attach
    // to the same kills, positionally.
    let kills = vec![kill(300, 3, T, 2, CT), kill(100, 2, CT, 1, T)];
    let flags = trade_flags(&kills, 320);
    assert_eq!(flags[0], (true, false)); // the tick-300 revenge kill
    assert_eq!(flags[1], (false, true)); // the tick-100 death it avenged
}

#[test]
fn a_death_with_an_unresolved_side_cannot_be_traded() {
    // World and suicide deaths have no victim side, so there is no team to credit a
    // revenge kill to.
    let mut kills = vec![kill(100, 2, CT, 1, T), kill(200, 3, T, 2, CT)];
    kills[0].victim_side = None;
    let flags = trade_flags(&kills, 320);
    assert_eq!(flags[0], (false, false));
    assert_eq!(flags[1], (false, false));
}
