use awpy::blinds::FlashSum;
use awpy::demo::{
    ClassId, DemoError, ElementKey, Entity, FieldKey, FieldValue, Frame, GameEvent, KeyValue,
    Schema, Serializer,
};
use awpy::float::{Float, Vector};
use awpy::names::{
    CodeName, CodeNames, GrenadeClass, Names, Scope, WeaponInfo, WeaponSlot,
};
use awpy::parser::Parser;
use awpy::projectiles::{burn_intervals, Window};
use awpy::resolve::Lens;
use awpy::segments::{plan_segments, Keyframe};
use awpy::snapshots::{
    can_collect, can_read, collect_run, player_states, PlayerState, Query, SnapshotKeys,
};
use std::collections::{HashMap, HashSet};

const T: &str = "terrorist";
const CT: &str = "counter-terrorist";
const RULES: &str = "CCSGameRulesProxy";
const PAWN: &str = "CCSPlayerPawn";
const CONTROLLER: &str = "CCSPlayerController";
const TEAM: &str = "CCSTeam";
const C4: &str = "CPlantedC4";
const INFERNO: &str = "CInferno";
const SMOKE: &str = "CSmokeGrenadeProjectile";
const HE: &str = "CHEGrenadeProjectile";
const AK: &str = "CAK47";
const GLOCK: &str = "CWeaponGlock";
const KNIFE: &str = "CKnife";
const FLASHBANG: &str = "CFlashbang";
const HEGRENADE: &str = "CHEGrenade";
const BOMB: &str = "CC4";
const OFFSET: &str = "CBodyComponent.m_skeletonInstance.m_vecOrigin.m_vecX";
const WEAPONS: &str = "m_pWeaponServices.m_hMyWeapons";
const AMMO: &str = "m_pWeaponServices.m_iAmmo";

/// Every class and field of the demos below.
fn layout() -> Vec<(&'static str, Vec<&'static str>)> {
    let weapon = vec![
        "m_iClip1",
        "m_fAccuracyPenalty",
        "m_hOwnerEntity",
        "m_OriginalOwnerXuidLow",
        "m_OriginalOwnerXuidHigh",
        "m_flDroppedAtTime",
        "m_bDroppedNearBuyZone",
    ];
    let projectile = vec![OFFSET, "m_hThrower", "m_hOwnerEntity"];
    vec![
        (
            RULES,
            vec![
                "m_pGameRules.m_bWarmupPeriod",
                "m_pGameRules.m_bFreezePeriod",
                "m_pGameRules.m_totalRoundsPlayed",
                "m_pGameRules.m_iRoundWinStatus",
                "m_pGameRules.m_eRoundWinReason",
                "m_pGameRules.m_bTerroristTimeOutActive",
                "m_pGameRules.m_bCTTimeOutActive",
                "m_pGameRules.m_flTerroristTimeOutRemaining",
                "m_pGameRules.m_flCTTimeOutRemaining",
                "m_pGameRules.m_bGamePaused",
            ],
        ),
        (
            PAWN,
            vec![
                OFFSET,
                "m_iTeamNum",
                "m_hController",
                "m_angEyeAngles",
                "m_bIsScoped",
                "m_pWeaponServices.m_hActiveWeapon",
                "m_flFlashDuration",
                "m_iHealth",
                "m_ArmorValue",
                "m_unCurrentEquipmentValue",
                "m_unRoundStartEquipmentValue",
                "m_fFlags",
                "m_pMovementServices.m_bDucked",
                "m_bIsWalking",
                "m_bIsDefusing",
                "m_bInBombZone",
                "m_pItemServices.m_bHasHelmet",
                "m_pItemServices.m_bHasDefuser",
                "m_szLastPlaceName",
                WEAPONS,
            ],
        ),
        (
            CONTROLLER,
            vec![
                "m_steamID",
                "m_iszPlayerName",
                "m_iTeamNum",
                "m_iPing",
                "m_pInGameMoneyServices.m_iAccount",
                "m_pInGameMoneyServices.m_iCashSpentThisRound",
            ],
        ),
        (TEAM, vec!["m_iTeamNum", "m_szClanTeamname"]),
        (C4, vec!["m_nBombSite"]),
        (INFERNO, projectile.clone()),
        (SMOKE, projectile.clone()),
        (HE, projectile),
        (AK, weapon.clone()),
        (GLOCK, weapon.clone()),
        (KNIFE, weapon.clone()),
        (FLASHBANG, weapon.clone()),
        (HEGRENADE, weapon.clone()),
        (BOMB, weapon),
    ]
}

fn schema() -> Schema {
    let mut serializers = Vec::new();
    let mut classes = Vec::new();
    for (c, (class, paths)) in layout().into_iter().enumerate() {
        let base = 1000 * (c as u64 + 1);
        let fields = paths
            .iter()
            .enumerate()
            .map(|(i, p)| FieldKey {
                path: p.to_string(),
                key: base + i as u64,
            })
            .collect();
        let mut elements = Vec::new();
        if class == PAWN {
            for at in 0..64u8 {
                elements.push(ElementKey {
                    path: WEAPONS.to_string(),
                    at,
                    key: base + 100 + at as u64,
                });
            }
            elements.push(ElementKey {
                path: AMMO.to_string(),
                at: 14,
                key: base + 200,
            });
        }
        serializers.push(Serializer {
            class_name: class.to_string(),
            fields,
            elements,
        });
        classes.push(ClassId {
            class_name: class.to_string(),
            id: c as i32 + 1,
        });
    }
    Schema {
        serializers,
        classes,
    }
}

fn codes(entries: &[(i64, &str)], other: &str) -> CodeNames {
    CodeNames {
        entries: entries
            .iter()
            .map(|(code, name)| CodeName {
                code: *code,
                name: name.to_string(),
            })
            .collect(),
        other: other.to_string(),
    }
}

fn names() -> Names {
    let weapon = |class: &str, name: &str, slot: WeaponSlot| WeaponInfo {
        class_name: class.to_string(),
        name: name.to_string(),
        slot,
    };
    let grenade = |class: &str, kind: &str| GrenadeClass {
        class_name: class.to_string(),
        grenade_type: kind.to_string(),
    };
    Names {
        teams: codes(&[(2, T), (3, CT)], "unassigned"),
        hitgroups: codes(&[(1, "head"), (3, "stomach")], "generic"),
        round_end_reasons: codes(&[(7, "bomb_defused"), (9, "t_win")], "unknown"),
        weapons: vec![
            weapon(AK, "ak47", WeaponSlot::Primary),
            weapon(GLOCK, "glock", WeaponSlot::Secondary),
            weapon(KNIFE, "knife", WeaponSlot::Melee),
            weapon(FLASHBANG, "flashbang", WeaponSlot::Grenade),
            weapon(HEGRENADE, "hegrenade", WeaponSlot::Grenade),
            weapon(BOMB, "c4", WeaponSlot::C4),
        ],
        grenades: vec![grenade(SMOKE, "smoke"), grenade(HE, "he")],
    }
}

fn float(v: f32) -> Float {
    Float { bits: v.to_bits() }
}

fn num(v: f32) -> FieldValue {
    FieldValue::Real(float(v))
}

fn whole(v: i64) -> FieldValue {
    FieldValue::I64(v)
}

fn flag(v: bool) -> FieldValue {
    FieldValue::Bool(v)
}

fn text(v: &str) -> FieldValue {
    FieldValue::Text(v.to_string())
}

fn vector(x: f32, y: f32, z: f32) -> Vector {
    Vector {
        x: float(x),
        y: float(y),
        z: float(z),
    }
}

/// An entity with fields by path; `path#3` is the fourth element of an array.
fn entity(class: &str, index: i32, fields: Vec<(&str, FieldValue)>) -> Entity {
    let schema = schema();
    let mut map = HashMap::new();
    for (path, value) in fields {
        let key = match path.split_once('#') {
            Some((array, at)) => schema.element_key(class, array, at.parse().unwrap()),
            None => schema.field_key(class, path),
        };
        map.insert(key.expect(path), value);
    }
    Entity {
        index,
        serial: 1,
        active: true,
        class_id: schema.id_of(class).unwrap_or(0),
        class_name: class.to_string(),
        fields: map,
        world: vector(0.0, 0.0, 0.0),
    }
}

fn at(mut e: Entity, x: f32, y: f32, z: f32) -> Entity {
    let key = schema().field_key(&e.class_name, OFFSET).unwrap();
    e.fields.insert(key, num(x));
    e.world = vector(x, y, z);
    e
}

/// A player's pawn, linked to the controller ten indices on.
fn pawn(index: i32, team: i64, mut fields: Vec<(&str, FieldValue)>) -> Entity {
    fields.push(("m_iTeamNum", whole(team)));
    fields.push(("m_hController", FieldValue::Handle(index as u32 + 10)));
    entity(PAWN, index, fields)
}

fn controller(index: i32, steamid: u64, name: &str, team: i64) -> Entity {
    entity(
        CONTROLLER,
        index,
        vec![
            ("m_steamID", FieldValue::U64(steamid)),
            ("m_iszPlayerName", text(name)),
            ("m_iTeamNum", whole(team)),
        ],
    )
}

fn ev(name: &str, tick: i32, keys: &[(&str, &str)]) -> GameEvent {
    GameEvent {
        tick,
        name: name.to_string(),
        msg_type: 0,
        keys: keys
            .iter()
            .map(|(k, v)| KeyValue {
                key: k.to_string(),
                value: v.to_string(),
                number: v.parse::<f32>().ok().map(float),
            })
            .collect(),
        payload: Vec::new(),
    }
}

fn frame(tick: i32, entities: Vec<Entity>, events: Vec<GameEvent>) -> Frame {
    Frame {
        tick,
        entities,
        events,
    }
}

fn parser(frames: Vec<Frame>, events: Vec<GameEvent>) -> Parser {
    Parser {
        schema: schema(),
        names: names(),
        frames: Ok(frames),
        events: Ok(events),
        keyframes: Ok(Vec::new()),
        trade_ticks: 320,
    }
}

fn rules(fields: Vec<(&str, FieldValue)>) -> Entity {
    entity(RULES, 1, fields)
}

/// Game rules at a tick: freeze, rounds played, winner and reason.
fn state(tick: i32, freeze: bool, total: i64, winner: i64, reason: i64) -> Frame {
    frame(
        tick,
        vec![rules(vec![
            ("m_pGameRules.m_bFreezePeriod", flag(freeze)),
            ("m_pGameRules.m_totalRoundsPlayed", whole(total)),
            ("m_pGameRules.m_iRoundWinStatus", whole(winner)),
            ("m_pGameRules.m_eRoundWinReason", whole(reason)),
        ])],
        Vec::new(),
    )
}

#[test]
fn rounds_are_told_from_the_rules() {
    let p = parser(
        vec![
            state(10, true, 0, 0, 0),
            state(20, false, 0, 0, 0),
            state(100, false, 1, 2, 9),
            state(120, true, 1, 0, 0),
            state(140, false, 1, 0, 0),
            state(200, true, 2, 3, 7),
        ],
        Vec::new(),
    );
    let rounds = p.rounds().unwrap();
    assert_eq!(rounds.len(), 2);
    assert_eq!(rounds[0].round_num, 1);
    assert_eq!(rounds[0].start_tick, Some(10));
    assert_eq!(rounds[0].freeze_end_tick, Some(20));
    assert_eq!(rounds[0].freeze_ticks, Some(10));
    assert_eq!(rounds[0].end_tick, 100);
    assert_eq!(rounds[0].official_end_tick, Some(120));
    assert_eq!(rounds[0].winner, 2);
    assert_eq!(rounds[0].winner_side, T);
    assert_eq!(rounds[0].reason, 9);
    assert_eq!(rounds[0].reason_name, "t_win");
    assert!(!rounds[0].is_knife_round);
    // The deciding round turns the freeze back on with its last tick: it keeps its own
    // ticks, and no round follows it.
    assert_eq!(rounds[1].round_num, 2);
    assert_eq!(rounds[1].start_tick, Some(120));
    assert_eq!(rounds[1].freeze_end_tick, Some(140));
    assert_eq!(rounds[1].end_tick, 200);
    assert_eq!(rounds[1].official_end_tick, None);
    assert_eq!(rounds[1].winner_side, CT);
}

#[test]
fn a_restart_discards_the_knife_round() {
    let p = parser(
        vec![
            state(10, true, 0, 0, 0),
            state(20, false, 0, 0, 0),
            state(30, false, 1, 2, 9),
            state(40, true, 0, 0, 0),
            state(50, false, 0, 0, 0),
            state(90, false, 1, 3, 7),
        ],
        Vec::new(),
    );
    let rounds = p.rounds().unwrap();
    assert_eq!(rounds.len(), 1);
    assert_eq!(rounds[0].round_num, 1);
    assert_eq!(rounds[0].start_tick, Some(40));
    assert_eq!(rounds[0].end_tick, 90);
    assert_eq!(rounds[0].winner_side, CT);
}

#[test]
fn a_count_that_jumps_or_warmup_gives_no_round() {
    let mut warm = state(30, false, 6, 2, 9);
    let key = schema()
        .field_key(RULES, "m_pGameRules.m_bWarmupPeriod")
        .unwrap();
    warm.entities[0].fields.insert(key, flag(true));
    let p = parser(
        vec![state(10, false, 5, 0, 0), warm, state(40, false, 7, 2, 9)],
        Vec::new(),
    );
    let rounds = p.rounds().unwrap();
    assert_eq!(rounds.len(), 1);
    assert_eq!(rounds[0].round_num, 7);
    assert_eq!(rounds[0].start_tick, None);
}

#[test]
fn knife_rounds_have_knife_kills_only() {
    let frames = || {
        vec![
            state(10, true, 0, 0, 0),
            state(20, false, 0, 0, 0),
            state(100, false, 1, 2, 9),
        ]
    };
    let knife = ev("player_death", 50, &[("weapon", "knife_karambit")]);
    let world = ev("player_death", 60, &[("weapon", "world")]);
    let gun = ev("player_death", 70, &[("weapon", "ak47")]);
    let early = ev("player_death", 5, &[("weapon", "ak47")]);
    let marked = parser(frames(), vec![early, knife, world]).rounds().unwrap();
    assert!(marked[0].is_knife_round);
    let knife = ev("player_death", 50, &[("weapon", "bayonet")]);
    let shot = parser(frames(), vec![knife, gun]).rounds().unwrap();
    assert!(!shot[0].is_knife_round);
    assert!(!parser(frames(), Vec::new()).rounds().unwrap()[0].is_knife_round);
}

#[test]
fn a_long_freeze_is_extended() {
    let p = parser(
        vec![
            state(0, true, 0, 0, 0),
            state(100, false, 0, 0, 0),
            state(200, false, 1, 2, 9),
            state(300, true, 1, 0, 0),
            state(400, false, 1, 0, 0),
            state(500, false, 2, 2, 9),
            state(600, true, 2, 0, 0),
            state(751, false, 2, 0, 0),
            state(800, false, 3, 2, 9),
        ],
        Vec::new(),
    );
    let rounds = p.rounds().unwrap();
    let extended: Vec<bool> = rounds.iter().map(|r| r.extended_freeze).collect();
    assert_eq!(extended, vec![false, false, true]);
    assert_eq!(rounds[2].freeze_ticks, Some(151));
}

#[test]
fn a_demo_that_does_not_decode_says_why() {
    let broken = |frames: bool| Parser {
        schema: schema(),
        names: names(),
        frames: if frames {
            Err(DemoError { code: 7 })
        } else {
            Ok(vec![
                state(10, false, 0, 0, 0),
                state(20, false, 1, 2, 9),
            ])
        },
        events: Err(DemoError { code: 8 }),
        keyframes: Err(DemoError { code: 9 }),
        trade_ticks: 320,
    };
    assert_eq!(broken(true).rounds().unwrap_err(), DemoError { code: 7 });
    assert_eq!(broken(false).rounds().unwrap_err(), DemoError { code: 8 });
    assert_eq!(broken(true).timeouts().unwrap_err(), DemoError { code: 7 });
    assert_eq!(broken(false).kills().unwrap_err(), DemoError { code: 8 });
    assert_eq!(broken(true).chat().unwrap_err(), DemoError { code: 8 });
    assert_eq!(broken(true).grenades().unwrap_err(), DemoError { code: 8 });
    assert_eq!(broken(true).players().unwrap_err(), DemoError { code: 7 });
    let none = HashSet::new();
    let query = |p: &Parser, every| p.snapshots_query(every, &none, 0, 10).unwrap_err();
    assert_eq!(query(&broken(true), None), DemoError { code: 9 });
    assert_eq!(query(&broken(true), Some(4)), DemoError { code: 7 });
    assert_eq!(
        broken(false).round_economy().unwrap_err(),
        DemoError { code: 8 }
    );
}

#[test]
fn timeouts_open_and_close_with_their_flags() {
    let clock = |tick: i32, t: bool, ct: bool, paused: bool, total: i64| {
        frame(
            tick,
            vec![rules(vec![
                ("m_pGameRules.m_bTerroristTimeOutActive", flag(t)),
                ("m_pGameRules.m_bCTTimeOutActive", flag(ct)),
                ("m_pGameRules.m_flTerroristTimeOutRemaining", num(30.0)),
                ("m_pGameRules.m_flCTTimeOutRemaining", num(29.5)),
                ("m_pGameRules.m_bGamePaused", flag(paused)),
                ("m_pGameRules.m_totalRoundsPlayed", whole(total)),
            ])],
            Vec::new(),
        )
    };
    let p = parser(
        vec![
            clock(10, false, false, false, 8),
            clock(20, false, true, false, 8),
            clock(30, true, true, false, 8),
            clock(40, true, false, false, 9),
            clock(50, false, false, true, 9),
        ],
        Vec::new(),
    );
    let rows = p.timeouts().unwrap();
    assert_eq!(rows.len(), 3);
    assert_eq!(rows[0].side.as_deref(), Some(CT));
    assert_eq!(rows[0].kind, "tactical");
    assert_eq!((rows[0].start_tick, rows[0].end_tick), (20, Some(40)));
    assert_eq!(rows[0].remaining_at_start, Some(float(29.5)));
    // The round in progress when the timeout started, not when it ended.
    assert_eq!(rows[0].round_num, 9);
    assert_eq!(rows[1].side.as_deref(), Some(T));
    assert_eq!((rows[1].start_tick, rows[1].end_tick), (30, Some(50)));
    assert_eq!(rows[1].remaining_at_start, Some(float(30.0)));
    assert_eq!(rows[1].round_num, 9);
    assert_eq!(rows[2].side, None);
    assert_eq!(rows[2].kind, "technical");
    assert_eq!((rows[2].start_tick, rows[2].end_tick), (50, None));
    assert_eq!(rows[2].remaining_at_start, None);
    assert_eq!(rows[2].round_num, 10);
}

/// Two players: a terrorist at index 1 and a counter-terrorist at index 2.
fn duel() -> Vec<Entity> {
    vec![
        at(pawn(1, 2, vec![]), 1.0, 2.0, 3.0),
        at(pawn(2, 3, vec![]), 4.0, 5.0, 6.0),
        controller(11, 111, "ann", 2),
        controller(12, 222, "bob", 3),
        entity(
            TEAM,
            20,
            vec![("m_iTeamNum", whole(2)), ("m_szClanTeamname", text("Imperial"))],
        ),
    ]
}

#[test]
fn kills_name_their_players_and_rounds() {
    let mut frames = vec![
        state(10, true, 0, 0, 0),
        state(20, false, 0, 0, 0),
        state(200, false, 1, 2, 9),
    ];
    let death = ev(
        "player_death",
        50,
        &[
            ("attacker_pawn", "1"),
            ("userid_pawn", "2"),
            ("assister", "65535"),
            ("assister_pawn", "1"),
            ("weapon", "ak47"),
            ("headshot", "true"),
            ("hitgroup", "1"),
            ("distance", "12.5"),
            ("penetrated", "2"),
        ],
    );
    let revenge = ev(
        "player_death",
        60,
        &[("attacker_pawn", "2"), ("userid_pawn", "1"), ("weapon", "world")],
    );
    frames.insert(2, frame(50, duel(), vec![death]));
    frames.insert(3, frame(60, duel(), vec![revenge]));
    let kills = parser(frames, Vec::new()).kills().unwrap();
    assert_eq!(kills.len(), 2);
    let k = &kills[0];
    assert_eq!(k.tick, 50);
    assert_eq!(k.round_num, Some(1));
    assert_eq!(k.attacker_steamid, Some(111));
    assert_eq!(k.attacker_name.as_deref(), Some("ann"));
    assert_eq!(k.attacker_side.as_deref(), Some(T));
    assert_eq!(k.attacker_x, Some(float(1.0)));
    assert_eq!(k.attacker_team_clan_name.as_deref(), Some("Imperial"));
    assert_eq!(k.attacker_cash_spent_this_round, Some(0));
    assert_eq!(k.victim_steamid, Some(222));
    assert_eq!(k.victim_side.as_deref(), Some(CT));
    assert_eq!(k.victim_z, Some(float(6.0)));
    assert_eq!(k.victim_team_clan_name, None);
    // User id 65535 means nobody, whatever the handle says.
    assert_eq!(k.assister_steamid, None);
    assert_eq!(k.assister_side, None);
    assert_eq!(k.weapon, "ak47");
    assert!(k.headshot);
    assert_eq!(k.hitgroup_name, "head");
    assert_eq!(k.distance, float(12.5));
    assert_eq!(k.penetrated, 2);
    // Ann is killed from Bob's side within the window: the one kill trades the other.
    assert!(!k.is_trade && k.victim_traded);
    assert!(kills[1].is_trade && !kills[1].victim_traded);
    assert_eq!(kills[1].distance, float(0.0));
    assert_eq!(kills[1].attacker_name.as_deref(), Some("bob"));
}

#[test]
fn a_handle_to_anything_but_a_pawn_is_nobody() {
    let death = ev(
        "player_death",
        50,
        &[("attacker_pawn", "11"), ("userid_pawn", "77")],
    );
    let kills = parser(vec![frame(50, duel(), vec![death])], Vec::new())
        .kills()
        .unwrap();
    assert_eq!(kills[0].attacker_steamid, None);
    assert_eq!(kills[0].attacker_side, None);
    assert_eq!(kills[0].victim_side, None);
    assert_eq!(kills[0].round_num, None);
}

#[test]
fn a_handles_high_bits_are_a_serial_number() {
    let death = ev(
        "player_death",
        50,
        &[("attacker_pawn", "16385"), ("userid_pawn", "32770")],
    );
    let kills = parser(vec![frame(50, duel(), vec![death])], Vec::new())
        .kills()
        .unwrap();
    assert_eq!(kills[0].attacker_steamid, Some(111));
    assert_eq!(kills[0].victim_steamid, Some(222));
}

#[test]
fn real_damage_is_what_the_victim_lost() {
    let hurt = |tick: i32, health: &str, dmg: &str| {
        ev(
            "player_hurt",
            tick,
            &[
                ("attacker_pawn", "1"),
                ("userid_pawn", "2"),
                ("health", health),
                ("dmg_health", dmg),
            ],
        )
    };
    let spawn = ev("player_spawn", 40, &[("userid_pawn", "2")]);
    let frames = vec![
        frame(10, duel(), vec![hurt(10, "70", "30"), hurt(10, "60", "10")]),
        frame(20, duel(), vec![hurt(20, "0", "400")]),
        frame(40, duel(), vec![spawn, hurt(41, "75", "25")]),
    ];
    let rows = parser(frames, Vec::new()).damages().unwrap();
    let lost: Vec<i32> = rows.iter().map(|d| d.dmg_health_real).collect();
    assert_eq!(lost, vec![30, 10, 60, 25]);
    let raw: Vec<i32> = rows.iter().map(|d| d.dmg_health).collect();
    assert_eq!(raw, vec![30, 10, 400, 25]);
    assert_eq!(rows[0].attacker_steamid, Some(111));
    assert_eq!(rows[3].tick, 41);
}

#[test]
fn bomb_actions_have_a_site_while_it_is_planted() {
    let planted = |site: i64| {
        let mut all = duel();
        all.push(entity(C4, 30, vec![("m_nBombSite", whole(site))]));
        all
    };
    let act = |name: &str, tick: i32| ev(name, tick, &[("userid_pawn", "1")]);
    let frames = vec![
        frame(10, duel(), vec![act("bomb_pickup", 10), act("other", 10)]),
        frame(20, planted(1), vec![act("bomb_planted", 20)]),
        frame(30, planted(0), vec![act("bomb_begindefuse", 30)]),
        frame(40, planted(5), vec![act("bomb_exploded", 40)]),
    ];
    let rows = parser(frames, Vec::new()).bomb().unwrap();
    let told: Vec<(&str, Option<&str>)> = rows
        .iter()
        .map(|b| (b.event.as_str(), b.bombsite.as_deref()))
        .collect();
    assert_eq!(
        told,
        vec![
            ("pickup", None),
            ("finish_plant", Some("B")),
            ("start_defuse", Some("A")),
            ("explode", None),
        ]
    );
    assert_eq!(rows[0].name.as_deref(), Some("ann"));
    assert_eq!(rows[0].y, Some(float(2.0)));
}

#[test]
fn shots_show_the_weapon_fired() {
    let mut all = vec![
        at(
            pawn(
                1,
                2,
                vec![
                    ("m_pWeaponServices.m_hActiveWeapon", FieldValue::Handle(5)),
                    ("m_angEyeAngles", FieldValue::Angles(vector(10.0, 20.0, 0.0))),
                    ("m_bIsScoped", flag(true)),
                ],
            ),
            1.0,
            2.0,
            3.0,
        ),
        entity(
            AK,
            5,
            vec![("m_iClip1", whole(29)), ("m_fAccuracyPenalty", num(0.25))],
        ),
    ];
    all.push(controller(11, 111, "ann", 2));
    let fire = ev("weapon_fire", 10, &[("userid_pawn", "1"), ("weapon", "weapon_ak47")]);
    let miss = ev("weapon_fire", 10, &[("userid_pawn", "40"), ("weapon", "weapon_ak47")]);
    let rows = parser(vec![frame(10, all, vec![fire, miss])], Vec::new())
        .shots()
        .unwrap();
    assert_eq!(rows[0].steamid, Some(111));
    assert_eq!(rows[0].weapon, "weapon_ak47");
    assert_eq!((rows[0].pitch, rows[0].yaw), (Some(float(10.0)), Some(float(20.0))));
    assert_eq!(rows[0].scoped, Some(true));
    assert_eq!(rows[0].num_bullets_remaining, Some(29));
    assert_eq!(rows[0].inaccuracy, Some(float(0.25)));
    assert_eq!(rows[1].steamid, None);
    assert_eq!(rows[1].pitch, None);
    assert_eq!(rows[1].num_bullets_remaining, None);
}

#[test]
fn blinds_are_blamed_on_the_nearest_flash() {
    let flashed = |one: f32, two: f32| {
        let mut all = duel();
        let key = schema().field_key(PAWN, "m_flFlashDuration").unwrap();
        all[0].fields.insert(key, num(one));
        all[1].fields.insert(key, num(two));
        all
    };
    let pop = |pawn: &str, x: &str| {
        ev(
            "flashbang_detonate",
            20,
            &[("userid_pawn", pawn), ("x", x), ("y", "0"), ("z", "0")],
        )
    };
    let frames = vec![
        frame(10, flashed(0.0, 2.0), vec![]),
        frame(20, flashed(3.0, 2.0), vec![pop("1", "9"), pop("2", "1")]),
    ];
    let p = parser(frames, Vec::new());
    let candidates = p.flash_candidates().unwrap();
    assert_eq!(candidates.len(), 2);
    assert_eq!(candidates[0].prev, float(0.0));
    assert_eq!(candidates[0].cur, float(3.0));
    assert_eq!(candidates[0].victim, Some(vector(1.0, 2.0, 3.0)));
    assert_eq!(candidates[0].sites, vec![Some(vector(9.0, 0.0, 0.0)), Some(vector(1.0, 0.0, 0.0))]);
    assert_eq!(candidates[1].prev, float(2.0));
    let sums: Vec<FlashSum> = candidates
        .iter()
        .map(|c| FlashSum {
            edge: float(f32::from_bits(c.prev.bits) + 0.05),
            distances: vec![float(77.0), float(13.0)],
        })
        .collect();
    let rows = p.blinds(&sums).unwrap();
    // Bob's duration did not rise, so Bob is not blinded anew.
    assert_eq!(rows.len(), 1);
    assert_eq!(rows[0].tick, 20);
    assert_eq!(rows[0].victim_steamid, Some(111));
    assert_eq!(rows[0].attacker_steamid, Some(222));
    assert_eq!(rows[0].duration, float(3.0));
    assert!(!rows[0].is_teammate);
    let all = p.event_datasets(&sums).unwrap();
    assert_eq!(all.blinds.len(), 1);
    assert!(all.kills.is_empty() && all.damages.is_empty() && all.bomb.is_empty());
}

#[test]
fn a_flash_without_coordinates_is_the_farthest() {
    let mut all = duel();
    let key = schema().field_key(PAWN, "m_flFlashDuration").unwrap();
    all[0].fields.insert(key, num(3.0));
    let blank = ev("flashbang_detonate", 20, &[("userid_pawn", "2")]);
    let here = ev(
        "flashbang_detonate",
        20,
        &[("userid_pawn", "1"), ("x", "0"), ("y", "0"), ("z", "0")],
    );
    let p = parser(vec![frame(20, all, vec![blank, here])], Vec::new());
    let sums = vec![FlashSum {
        edge: float(0.05),
        distances: vec![float(0.0), float(14.0)],
    }];
    let rows = p.blinds(&sums).unwrap();
    assert_eq!(rows[0].attacker_steamid, Some(111));
    assert!(rows[0].is_teammate);
}

/// A projectile at a place, thrown by the pawn at index 1.
fn thrown(class: &str, index: i32, x: f32) -> Entity {
    at(
        entity(class, index, vec![("m_hThrower", FieldValue::Handle(1))]),
        x,
        0.0,
        0.0,
    )
}

fn with_duel(mut extra: Vec<Entity>) -> Vec<Entity> {
    let mut all = duel();
    all.append(&mut extra);
    all
}

#[test]
fn grenades_are_followed_on_every_tick() {
    let frames = vec![
        frame(10, with_duel(vec![thrown(HE, 50, 1.0)]), vec![]),
        frame(11, with_duel(vec![thrown(HE, 50, 1.0)]), vec![]),
        frame(12, with_duel(vec![thrown(HE, 50, 4.0)]), vec![]),
        frame(13, duel(), vec![]),
        frame(14, with_duel(vec![thrown(HE, 50, 9.0)]), vec![]),
    ];
    let blast = ev(
        "hegrenade_detonate",
        12,
        &[("entityid", "50"), ("x", "5"), ("y", "6"), ("z", "7")],
    );
    let p = parser(frames, vec![blast]);
    let rows = p.grenades().unwrap();
    let ticks: Vec<i32> = rows.iter().map(|g| g.tick).collect();
    // The second tick has a row, too, though nothing moves.
    assert_eq!(ticks, vec![10, 11, 12, 14]);
    assert_eq!(rows[0].grenade_type, "he");
    assert_eq!(rows[0].thrower_name.as_deref(), Some("ann"));
    assert_eq!((rows[1].x, rows[2].x), (float(1.0), float(4.0)));
    let throws = p.grenade_throws().unwrap();
    assert_eq!(throws.len(), 2);
    assert_eq!((throws[0].throw_tick, throws[0].land_tick), (10, 12));
    assert_eq!(throws[0].throw_x, float(1.0));
    // The detonation's position, but the last tracked tick.
    assert!(throws[0].land_is_precise);
    assert_eq!(
        (throws[0].land_x, throws[0].land_y, throws[0].land_z),
        (float(5.0), float(6.0), float(7.0))
    );
    // The grenade that has the index next did not go off.
    assert_eq!((throws[1].throw_tick, throws[1].land_tick), (14, 14));
    assert!(!throws[1].land_is_precise);
    assert_eq!(throws[1].land_x, float(9.0));
}

#[test]
fn a_grenade_that_lies_still_lands_when_it_is_last_seen() {
    let lying = |tick: i32| frame(tick, with_duel(vec![thrown(SMOKE, 50, 3.0)]), vec![]);
    let p = parser(vec![lying(10), lying(11), lying(12), frame(13, duel(), vec![])], vec![]);
    assert_eq!(p.grenades().unwrap().len(), 3);
    let throws = p.grenade_throws().unwrap();
    assert_eq!((throws[0].throw_tick, throws[0].land_tick), (10, 12));
}

#[test]
fn each_grenade_lands_at_its_own_detonation() {
    let blast = |tick: i32, x: &str| {
        ev(
            "hegrenade_detonate",
            tick,
            &[("entityid", "50"), ("x", x), ("y", "0"), ("z", "0")],
        )
    };
    let frames = vec![
        frame(10, with_duel(vec![thrown(HE, 50, 1.0)]), vec![]),
        frame(11, duel(), vec![]),
        frame(20, with_duel(vec![thrown(SMOKE, 50, 2.0)]), vec![]),
        frame(21, duel(), vec![]),
        frame(30, with_duel(vec![thrown(HE, 50, 3.0)]), vec![]),
        frame(31, duel(), vec![]),
        frame(40, with_duel(vec![thrown(HE, 50, 4.0)]), vec![]),
    ];
    // One before every throw, one each for the first and third, and one with the fourth.
    let events = vec![blast(5, "99"), blast(11, "7"), blast(32, "8"), blast(40, "9")];
    let throws = parser(frames, events).grenade_throws().unwrap();
    let told: HashSet<(i32, i32)> = throws.iter().map(|t| (t.entity_id, t.throw_tick)).collect();
    assert_eq!(told, HashSet::from([(50, 10), (50, 20), (50, 30), (50, 40)]));
    assert_eq!(throws.len(), told.len());
    let landed: Vec<(bool, Float)> = throws.iter().map(|t| (t.land_is_precise, t.land_x)).collect();
    assert_eq!(
        landed,
        vec![
            (true, float(7.0)),
            (false, float(2.0)),
            (true, float(8.0)),
            (true, float(9.0)),
        ]
    );
}

#[test]
fn smokes_and_fires_fill_their_windows() {
    let fire = |x: f32| {
        at(
            entity(INFERNO, 60, vec![("m_hOwnerEntity", FieldValue::Handle(2))]),
            x,
            0.0,
            0.0,
        )
    };
    let frames = vec![
        frame(10, with_duel(vec![thrown(SMOKE, 50, 1.0)]), vec![]),
        frame(20, with_duel(vec![thrown(SMOKE, 50, 2.0), fire(7.0)]), vec![]),
        frame(30, with_duel(vec![thrown(SMOKE, 50, 2.0), fire(7.0)]), vec![]),
        frame(40, with_duel(vec![thrown(SMOKE, 50, 2.0), fire(7.0)]), vec![]),
    ];
    let about = |name: &str, tick: i32, id: &str| ev(name, tick, &[("entityid", id)]);
    let p = parser(
        frames,
        vec![
            about("smokegrenade_detonate", 15, "50"),
            about("inferno_startburn", 25, "60"),
            about("smokegrenade_expired", 35, "50"),
            about("inferno_expire", 36, "60"),
            about("inferno_expire", 37, "61"),
        ],
    );
    let smokes = p.smokes().unwrap();
    assert_eq!(smokes.len(), 1);
    assert_eq!((smokes[0].start_tick, smokes[0].end_tick), (15, 35));
    assert_eq!(smokes[0].x, float(2.0));
    assert_eq!(smokes[0].thrower_steamid, Some(111));
    let fires = p.fires().unwrap();
    assert_eq!(fires.len(), 1);
    assert_eq!((fires[0].start_tick, fires[0].end_tick), (25, 36));
    assert_eq!(fires[0].fire_type, "inferno");
    assert_eq!(fires[0].thrower_name.as_deref(), Some("bob"));
    let throws = p.grenade_throws().unwrap();
    assert_eq!(throws.len(), 1);
    assert_eq!(throws[0].grenade_type, "smoke");
    assert!(!throws[0].land_is_precise);
    // The last tick on which the projectile is seen.
    assert_eq!((throws[0].throw_tick, throws[0].land_tick), (10, 40));
    assert_eq!(p.projectiles().unwrap().grenades.len(), 4);
}

#[test]
fn a_lost_thrower_is_recovered() {
    let gone = || {
        vec![at(
            entity(INFERNO, 60, vec![("m_hOwnerEntity", FieldValue::Handle(1))]),
            7.0,
            0.0,
            0.0,
        )]
    };
    let frames = vec![
        frame(10, gone(), vec![]),
        frame(11, with_duel(gone()), vec![]),
        frame(12, gone(), vec![]),
    ];
    let p = parser(
        frames,
        vec![
            ev("inferno_startburn", 9, &[("entityid", "60")]),
            ev("inferno_expire", 20, &[("entityid", "60")]),
        ],
    );
    let fires = p.fires().unwrap();
    assert_eq!(fires.len(), 1);
    assert_eq!(fires[0].thrower_steamid, Some(111));
}

#[test]
fn players_are_listed_once_with_their_freshest_state() {
    let clan = |name: &str| {
        entity(
            TEAM,
            30,
            vec![("m_iTeamNum", whole(2)), ("m_szClanTeamname", text(name))],
        )
    };
    let frames = vec![
        frame(
            10,
            vec![
                controller(3, 111, "ann", 2),
                controller(5, 222, "bob", 3),
                controller(7, 0, "bot", 3),
                clan("Imperial"),
            ],
            vec![],
        ),
        // Ann is back in another slot and on another side; an empty clan name is no news.
        frame(
            20,
            vec![
                controller(5, 222, "bob", 0),
                controller(8, 0, "bot", 2),
                controller(9, 111, "ann!", 3),
                clan(""),
            ],
            vec![],
        ),
        // Bob is back in a lower slot.
        frame(30, vec![controller(4, 222, "bobby", 2)], vec![]),
    ];
    let rows = parser(frames, Vec::new()).players().unwrap();
    assert_eq!(rows.len(), 3);
    assert_eq!(rows[0].steamid, Some(111));
    assert_eq!(rows[0].name.as_deref(), Some("ann!"));
    assert_eq!(rows[0].side.as_deref(), Some(CT));
    assert_eq!(rows[0].team_clan_name, None);
    assert_eq!(rows[1].name.as_deref(), Some("bobby"));
    assert_eq!(rows[1].side.as_deref(), Some(T));
    assert_eq!(rows[1].team_clan_name.as_deref(), Some("Imperial"));
    assert_eq!(rows[2].name.as_deref(), Some("bot"));
    assert_eq!(rows[2].side.as_deref(), Some(T));
}

/// A player with a full loadout, and the entities of it.
fn armed() -> Vec<Entity> {
    vec![
        at(
            pawn(
                1,
                2,
                vec![
                    (WEAPONS, whole(5)),
                    ("m_pWeaponServices.m_hMyWeapons#0", FieldValue::Handle(40)),
                    ("m_pWeaponServices.m_hMyWeapons#1", FieldValue::Handle(41)),
                    ("m_pWeaponServices.m_hMyWeapons#2", FieldValue::Handle(42)),
                    ("m_pWeaponServices.m_hMyWeapons#3", FieldValue::Handle(43)),
                    ("m_pWeaponServices.m_hMyWeapons#4", FieldValue::Handle(44)),
                    ("m_pWeaponServices.m_hMyWeapons#5", FieldValue::Handle(45)),
                    ("m_pWeaponServices.m_iAmmo#14", whole(2)),
                    ("m_pWeaponServices.m_hActiveWeapon", FieldValue::Handle(41)),
                    ("m_iHealth", whole(87)),
                    ("m_fFlags", FieldValue::U64(2)),
                    ("m_unCurrentEquipmentValue", whole(5200)),
                    ("m_szLastPlaceName", text("Mid")),
                    ("m_angEyeAngles", FieldValue::Angles(vector(1.5, 2.5, 0.0))),
                ],
            ),
            1.0,
            2.0,
            3.0,
        ),
        entity(
            CONTROLLER,
            11,
            vec![
                ("m_steamID", FieldValue::U64(111)),
                ("m_iszPlayerName", text("ann")),
                ("m_iPing", FieldValue::U64(35)),
                ("m_pInGameMoneyServices.m_iAccount", whole(800)),
                ("m_pInGameMoneyServices.m_iCashSpentThisRound", whole(2700)),
            ],
        ),
        entity(KNIFE, 40, vec![]),
        entity(AK, 41, vec![]),
        entity(FLASHBANG, 42, vec![]),
        entity(HEGRENADE, 43, vec![]),
        entity(BOMB, 44, vec![]),
        entity(GLOCK, 45, vec![]),
    ]
}

#[test]
fn a_snapshot_shows_the_loadout() {
    let p = parser(
        vec![frame(10, armed(), vec![]), frame(20, vec![], vec![])],
        Vec::new(),
    );
    let rows = p.snapshot(15).unwrap();
    assert_eq!(rows.len(), 1);
    let s = &rows[0];
    assert_eq!(s.tick, 10);
    assert_eq!(s.round_num, None);
    assert_eq!(s.steamid, Some(111));
    assert_eq!(s.side.as_deref(), Some(T));
    assert_eq!(s.ping, Some(35));
    assert_eq!(s.place.as_deref(), Some("Mid"));
    assert_eq!((s.pitch, s.yaw), (float(1.5), float(2.5)));
    assert_eq!(s.health, 87);
    assert_eq!(s.money, 800);
    assert_eq!(s.cash_spent_this_round, 2700);
    assert_eq!(s.equipment_value, 5200);
    assert!(s.is_jumping);
    assert_eq!(s.active_weapon.as_deref(), Some("ak47"));
    assert_eq!(s.primary_weapon.as_deref(), Some("ak47"));
    // The sixth slot is beyond the count.
    assert_eq!(s.secondary_weapon, None);
    assert_eq!(s.inventory, "knife,ak47,flashbang,hegrenade,c4");
    // Two flashbangs to one entity.
    assert_eq!(s.flashbangs, 2);
    assert_eq!(s.he_grenades, 1);
    assert!(s.has_bomb);
    assert!(p.snapshot(5).unwrap().is_empty());
    assert!(p.snapshot(20).unwrap().is_empty());
}

#[test]
fn dead_players_keep_their_identity_until_the_next_keyframe() {
    let dead = || {
        let mut all = armed();
        all[0].fields.remove(&schema().field_key(PAWN, "m_hController").unwrap());
        all
    };
    let mut p = parser(
        vec![
            frame(10, armed(), vec![]),
            frame(20, dead(), vec![]),
            frame(30, dead(), vec![]),
        ],
        Vec::new(),
    );
    p.keyframes = Ok(vec![
        Keyframe { offset: 0, tick: 0 },
        Keyframe { offset: 9, tick: 25 },
    ]);
    let none = HashSet::new();
    let rows = p.snapshots_query(None, &none, 0, 100).unwrap();
    let ids: Vec<Option<u64>> = rows.iter().map(|s| s.steamid).collect();
    assert_eq!(ids, vec![Some(111), Some(111), None]);
    // Money and ping are live state and are not carried over.
    assert_eq!(rows[1].money, 0);
    assert_eq!(rows[1].ping, None);
    assert_eq!(rows[1].name.as_deref(), Some("ann"));
}

#[test]
fn a_query_takes_a_stride_a_set_and_a_window() {
    let frames = |ticks: &[i32]| ticks.iter().map(|t| frame(*t, armed(), vec![])).collect();
    let p = parser(frames(&[1, 2, 3, 9, 10, 11, 14]), Vec::new());
    let taken = |every: Option<i32>, ticks: &[i32], start: i32, end: i32| {
        let set: HashSet<i32> = ticks.iter().copied().collect();
        let rows = p.snapshots_query(every, &set, start, end).unwrap();
        rows.iter().map(|s| s.tick).collect::<Vec<i32>>()
    };
    assert_eq!(taken(None, &[], 2, 10), vec![2, 3, 9, 10]);
    assert_eq!(taken(Some(4), &[], 0, 100), vec![1, 9, 14]);
    assert_eq!(taken(Some(4), &[3, 50], 0, 100), vec![1, 3, 9, 14]);
    assert_eq!(taken(Some(4), &[3], 2, 9), vec![3, 9]);
    assert_eq!(taken(None, &[3, 11], 0, 100), vec![3, 11]);
}

#[test]
fn the_economy_is_read_when_the_buy_is_locked() {
    let money = |index: i32, team: i64, value: i64| {
        pawn(index, team, vec![("m_unCurrentEquipmentValue", whole(value))])
    };
    let teams = |tick: i32, freeze: bool, total: i64, swap: bool, value: i64| {
        let (a, b) = if swap { (3, 2) } else { (2, 3) };
        let mut f = state(tick, freeze, total, 2, 9);
        f.entities.push(money(2, a, value));
        f.entities.push(money(3, b, 21_000));
        f.entities.push(money(4, b, 500));
        f.entities.push(controller(12, 1, "ann", a));
        f.entities.push(controller(13, 2, "bob", b));
        f.entities.push(controller(14, 3, "cat", b));
        f
    };
    let p = parser(
        vec![
            teams(10, true, 0, false, 0),
            teams(20, false, 0, false, 800),
            teams(30, false, 1, false, 0),
            teams(40, true, 1, false, 0),
            teams(50, false, 1, false, 4_999),
            teams(60, false, 2, false, 0),
            teams(70, true, 2, true, 0),
            teams(80, false, 2, true, 19_999),
            teams(90, false, 3, true, 0),
            teams(100, true, 3, true, 0),
            teams(110, false, 3, true, 5_000),
            teams(120, false, 4, true, 0),
        ],
        Vec::new(),
    );
    let rows = p.round_economy().unwrap();
    let told: Vec<(i32, &str, i32, &str, i32)> = rows
        .iter()
        .map(|r| {
            (
                r.round_num,
                r.side.as_str(),
                r.equipment_value,
                r.buy_type.as_str(),
                r.n_players,
            )
        })
        .collect();
    assert_eq!(
        told,
        vec![
            (1, CT, 21_500, "pistol", 2),
            (1, T, 800, "pistol", 1),
            (2, CT, 21_500, "full", 2),
            (2, T, 4_999, "eco", 1),
            (3, CT, 19_999, "pistol", 1),
            (3, T, 21_500, "pistol", 2),
            (4, CT, 5_000, "force", 1),
            (4, T, 21_500, "full", 2),
        ]
    );
}

#[test]
fn knife_rounds_have_no_economy() {
    let p = parser(
        vec![
            state(10, true, 0, 0, 0),
            frame(20, with_duel(state(20, false, 0, 0, 0).entities), vec![]),
            state(30, false, 1, 2, 9),
        ],
        vec![ev("player_death", 25, &[("weapon", "knife")])],
    );
    assert!(p.rounds().unwrap()[0].is_knife_round);
    assert!(p.round_economy().unwrap().is_empty());
}

#[test]
fn items_are_bought_picked_up_and_dropped() {
    let holder = |slots: &[u32], account: i64| {
        let paths = [
            "m_pWeaponServices.m_hMyWeapons#0",
            "m_pWeaponServices.m_hMyWeapons#1",
            "m_pWeaponServices.m_hMyWeapons#2",
        ];
        let mut fields = vec![(WEAPONS, whole(slots.len() as i64))];
        for (path, h) in paths.iter().zip(slots) {
            fields.push((*path, FieldValue::Handle(*h)));
        }
        vec![
            at(pawn(1, 2, fields), 1.0, 2.0, 3.0),
            entity(
                CONTROLLER,
                11,
                vec![
                    ("m_steamID", FieldValue::U64(0x1_0000_006f)),
                    ("m_iszPlayerName", text("ann")),
                    ("m_pInGameMoneyServices.m_iAccount", whole(account)),
                ],
            ),
        ]
    };
    let weapon = |class: &str, index: i32, high: u32, low: u32, owner: u32, dropped: f32| {
        entity(
            class,
            index,
            vec![
                ("m_OriginalOwnerXuidHigh", FieldValue::U32(high)),
                ("m_OriginalOwnerXuidLow", FieldValue::U32(low)),
                ("m_hOwnerEntity", FieldValue::Handle(owner)),
                ("m_flDroppedAtTime", num(dropped)),
                ("m_bDroppedNearBuyZone", flag(true)),
            ],
        )
    };
    let tick = |t: i32, slots: &[u32], account: i64, rest: Vec<Entity>| {
        let mut all = holder(slots, account);
        all.extend(rest);
        frame(t, all, vec![])
    };
    let own_glock = || weapon(GLOCK, 45, 1, 0x6f, 1, 0.0);
    let own_ak = |owner: u32, dropped: f32| weapon(AK, 41, 1, 0x6f, owner, dropped);
    let other_he = || weapon(HEGRENADE, 43, 0, 9, 1, 0.0);
    let p = parser(
        vec![
            // The default loadout tells nothing.
            tick(10, &[45], 4000, vec![own_glock()]),
            // A purchase, with the money that went.
            tick(20, &[45, 41], 1300, vec![own_glock(), own_ak(1, 0.0)]),
            // Someone else's grenade.
            tick(30, &[45, 41, 43], 1300, vec![own_glock(), own_ak(1, 0.0), other_he()]),
            // The rifle is left on the ground; the grenade is thrown and gone.
            tick(40, &[45], 1300, vec![own_glock(), own_ak(99, 3.0)]),
            // And picked up again.
            tick(50, &[45, 41], 1300, vec![own_glock(), own_ak(1, 3.0)]),
            // A money reset is no purchase, nor is a free pistol one.
            tick(60, &[41], 8000, vec![own_ak(1, 3.0), own_glock()]),
            tick(70, &[41, 45], 800, vec![own_ak(1, 3.0), own_glock()]),
        ],
        Vec::new(),
    );
    let rows = p.item_events().unwrap();
    let told: Vec<(i32, &str, &str)> = rows
        .iter()
        .map(|r| (r.tick, r.action.as_str(), r.item.as_str()))
        .collect();
    assert_eq!(
        told,
        vec![
            (20, "purchase", "ak47"),
            (30, "pickup", "hegrenade"),
            (40, "drop", "ak47"),
            (50, "pickup", "ak47"),
        ]
    );
    assert_eq!(rows[0].cost, Some(2700));
    assert_eq!(rows[0].steamid, Some(0x1_0000_006f));
    assert_eq!(rows[0].original_owner_steamid, rows[0].steamid);
    assert_eq!(rows[1].original_owner_steamid, Some(9));
    assert_eq!(rows[1].cost, None);
    assert_eq!(rows[2].near_buy_zone, Some(true));
    assert_eq!(rows[3].near_buy_zone, None);
}

#[test]
fn event_ticks_are_those_of_the_named_events() {
    let p = parser(
        Vec::new(),
        vec![ev("a", 1, &[]), ev("b", 2, &[]), ev("c", 3, &[]), ev("a", 4, &[])],
    );
    let ticks = p.event_ticks(&vec!["a".to_string(), "c".to_string()]).unwrap();
    assert_eq!(ticks, HashSet::from([1, 3, 4]));
}

#[test]
fn freezes_beyond_a_tick_count_are_told_apart() {
    let decided = |start: i32, end: i32| {
        parser(
            vec![
                state(start, true, 0, 0, 0),
                state(end, false, 0, 0, 0),
                state(end, false, 1, 2, 9),
            ],
            Vec::new(),
        )
    };
    assert!(decided(10, 20).has_countable_freezes());
    assert!(decided(20, 10).has_countable_freezes());
    assert_eq!(decided(20, 10).rounds().unwrap()[0].freeze_ticks, Some(-10));
    assert!(!decided(-1, i32::MAX).has_countable_freezes());
    assert!(decided(0, i32::MAX).has_countable_freezes());
    // A freeze of no round is not measured.
    let open = parser(
        vec![state(-1, true, 0, 0, 0), state(i32::MAX, false, 0, 0, 0)],
        Vec::new(),
    );
    assert!(open.has_countable_freezes());
    assert!(open.rounds().unwrap().is_empty());
}

#[test]
fn a_count_of_rounds_without_room_is_told_apart() {
    let count = |total: i64| parser(vec![state(10, false, total, 0, 0)], Vec::new());
    assert!(count(i32::MAX as i64 - 1).has_countable_rounds());
    assert!(!count(i32::MAX as i64).has_countable_rounds());
}

#[test]
fn hits_beyond_32_bits_are_told_apart() {
    let hit = |health: &str, damage: &str| {
        let e = ev(
            "player_hurt",
            10,
            &[("health", health), ("dmg_health", damage), ("userid_pawn", "2")],
        );
        parser(vec![frame(10, duel(), vec![e])], Vec::new())
    };
    assert!(hit("0", "444").has_countable_hurts());
    assert!(!hit("2147483647", "1").has_countable_hurts());
    // The health lost does not fit, though the sum does.
    assert!(!hit("-2147483648", "0").has_countable_hurts());
    assert!(hit("-2147483547", "0").has_countable_hurts());
}

#[test]
fn every_flash_candidate_needs_its_sums() {
    let flash = ev("flashbang_detonate", 20, &[("userid_pawn", "1")]);
    let mut blind = duel();
    let key = schema().field_key(PAWN, "m_flFlashDuration").unwrap();
    blind[1].fields.insert(key, num(2.0));
    let p = parser(vec![frame(20, blind, vec![flash])], Vec::new());
    let sum = |distances: Vec<Float>| FlashSum {
        edge: float(0.05),
        distances,
    };
    assert_eq!(p.flash_candidates().unwrap().len(), 1);
    assert!(p.has_all_sums(&vec![sum(vec![float(1.0)])]));
    assert!(!p.has_all_sums(&vec![sum(vec![])]));
    assert!(!p.has_all_sums(&vec![]));
    assert!(!p.has_all_sums(&vec![sum(vec![float(1.0)]), sum(vec![float(1.0)])]));
}

#[test]
fn flashbangs_beyond_32_bits_are_told_apart() {
    let flashbangs = |ammo: i64| {
        let mut all = armed();
        let schema = schema();
        let ammo_key = schema.element_key(PAWN, AMMO, 14).unwrap();
        let slot_key = schema.element_key(PAWN, WEAPONS, 0).unwrap();
        all[0].fields.insert(ammo_key, whole(ammo));
        // The first slot holds the flashbang, too.
        all[0].fields.insert(slot_key, FieldValue::Handle(42));
        parser(vec![frame(10, all, vec![])], Vec::new())
    };
    let none = HashSet::new();
    let few = flashbangs(0x3fff_ffff);
    assert!(few.can_snapshot(10));
    assert!(few.can_query(None, &none, 0, 100));
    assert_eq!(few.snapshot(10).unwrap()[0].flashbangs, 0x7fff_fffe);
    let many = flashbangs(0x4000_0000);
    assert!(!many.can_snapshot(10));
    assert!(many.can_snapshot(9));
    assert!(!many.can_query(None, &none, 0, 100));
    assert!(many.can_query(None, &none, 11, 100));
    assert!(!many.can_query(Some(5), &none, 0, 100));
}

#[test]
fn an_economy_beyond_32_bits_is_told_apart() {
    let worth = |value: i64| {
        let mut buy = state(20, false, 0, 0, 0);
        for index in [2, 3] {
            buy.entities
                .push(pawn(index, 2, vec![("m_unCurrentEquipmentValue", whole(value))]));
        }
        parser(
            vec![state(10, true, 0, 0, 0), buy, state(30, false, 1, 2, 9)],
            Vec::new(),
        )
    };
    assert!(worth(0x3fff_ffff).has_countable_economy());
    assert_eq!(worth(0x3fff_ffff).round_economy().unwrap()[0].equipment_value, 0x7fff_fffe);
    assert!(!worth(0x4000_0000).has_countable_economy());

    // Both sides together are not added up, nor is what is held on other ticks.
    let mut buy = state(20, false, 0, 0, 0);
    let mut after = state(25, false, 0, 0, 0);
    for (index, team) in [(2, 2), (3, 3)] {
        let rich = |index: i32| {
            pawn(index, team, vec![("m_unCurrentEquipmentValue", whole(0x7fff_ffff))])
        };
        buy.entities.push(rich(index));
        after.entities.push(rich(index));
        after.entities.push(rich(index + 2));
    }
    let p = parser(
        vec![state(10, true, 0, 0, 0), buy, after, state(30, false, 1, 2, 9)],
        Vec::new(),
    );
    assert!(p.has_countable_economy());
    let values: Vec<i32> =
        p.round_economy().unwrap().iter().map(|r| r.equipment_value).collect();
    assert_eq!(values, vec![0x7fff_ffff, 0x7fff_ffff]);
}

#[test]
fn a_clan_name_outlives_blanks() {
    let mut blank = duel();
    let key = schema().field_key(TEAM, "m_szClanTeamname").unwrap();
    blank[4].fields.insert(key, text(""));
    let shot = ev("weapon_fire", 20, &[("userid_pawn", "1")]);
    let p = parser(
        vec![frame(10, duel(), vec![]), frame(20, blank, vec![shot])],
        Vec::new(),
    );
    assert_eq!(p.shots().unwrap()[0].team_clan_name.as_deref(), Some("Imperial"));

    // Nor does an entity that is not in use, or one without a name, change it.
    let mut idle = duel();
    idle[4].fields.insert(key, text("Others"));
    idle[4].active = false;
    let mut nameless = duel();
    nameless[4].fields.remove(&key);
    for entities in [idle, nameless] {
        let shot = ev("weapon_fire", 20, &[("userid_pawn", "1")]);
        let p = parser(
            vec![frame(10, duel(), vec![]), frame(20, entities, vec![shot])],
            Vec::new(),
        );
        assert_eq!(p.shots().unwrap()[0].team_clan_name.as_deref(), Some("Imperial"));
    }
}

#[test]
fn leavers_keep_the_clan_they_played_for() {
    let clan = |name: &str| {
        entity(
            TEAM,
            30,
            vec![("m_iTeamNum", whole(2)), ("m_szClanTeamname", text(name))],
        )
    };
    let frames = vec![
        frame(10, vec![controller(3, 111, "ann", 2), clan("Imperial")], vec![]),
        frame(20, vec![controller(5, 222, "bob", 2), clan("Others")], vec![]),
    ];
    let rows = parser(frames, Vec::new()).players().unwrap();
    assert_eq!(rows[0].team_clan_name.as_deref(), Some("Imperial"));
    assert_eq!(rows[0].side.as_deref(), Some(T));
    assert_eq!(rows[1].team_clan_name.as_deref(), Some("Others"));
}

#[test]
fn segments_stitch_to_the_whole() {
    let dead = || {
        let mut all = armed();
        all[0].fields.remove(&schema().field_key(PAWN, "m_hController").unwrap());
        all
    };
    let first = || vec![frame(10, armed(), vec![]), frame(20, dead(), vec![])];
    let second = || vec![frame(30, dead(), vec![]), frame(40, armed(), vec![])];
    let (schema, names, none) = (schema(), names(), HashSet::new());
    let lens = Lens::new(&schema, &names, Scope::Snapshots);
    let keyframes = vec![0, 25];
    let query = Query {
        all: true,
        ticks: &none,
        strided: HashSet::new(),
        start: 0,
        end: 100,
    };
    let states = |frames: Vec<Frame>| {
        assert!(can_collect(&schema, &lens, &query, &frames));
        collect_run(&schema, &lens, &keyframes, &query, &frames)
            .iter()
            .map(|s| (s.tick, s.steamid))
            .collect::<Vec<(i32, Option<u64>)>>()
    };
    let mut whole = first();
    whole.extend(second());
    let mut parts = states(first());
    parts.extend(states(second()));
    assert_eq!(states(whole), parts);
    assert_eq!(
        parts,
        vec![(10, Some(111)), (20, Some(111)), (30, None), (40, Some(111))]
    );
}

#[test]
fn a_bomb_that_is_not_active_is_not_planted() {
    let site = |index: i32, active: bool, site: i64| {
        let mut e = entity(C4, index, vec![("m_nBombSite", whole(site))]);
        e.active = active;
        e
    };
    let sites = |bombs: Vec<Entity>| {
        let act = ev("bomb_pickup", 10, &[("userid_pawn", "1")]);
        let p = parser(vec![frame(10, with_duel(bombs), vec![act])], Vec::new());
        p.bomb().unwrap()[0].bombsite.clone()
    };
    assert_eq!(sites(vec![site(30, false, 0)]), None);
    assert_eq!(sites(vec![site(30, true, 0)]).as_deref(), Some("A"));
    assert_eq!(sites(vec![site(30, false, 0), site(31, true, 1)]).as_deref(), Some("B"));
}

#[test]
fn a_player_whose_slot_is_taken_over_is_listed() {
    let seen = |tick: i32, steamid: u64, name: &str, team: i64| {
        frame(tick, vec![controller(5, steamid, name, team)], vec![])
    };
    let frames = vec![
        seen(10, 111, "ann", 2),
        seen(20, 111, "ann!", 2),
        seen(30, 222, "bob", 3),
        seen(40, 0, "bot", 3),
        seen(50, 0, "bit", 2),
        // Bob is back: one row, with the freshest state.
        seen(60, 222, "bobby", 2),
    ];
    let rows = parser(frames, Vec::new()).players().unwrap();
    let told: Vec<(Option<u64>, Option<&str>, Option<&str>)> = rows
        .iter()
        .map(|p| (p.steamid, p.name.as_deref(), p.side.as_deref()))
        .collect();
    assert_eq!(
        told,
        vec![
            (Some(111), Some("ann!"), Some(T)),
            (Some(222), Some("bobby"), Some(T)),
            (Some(0), Some("bot"), Some(CT)),
            (Some(0), Some("bit"), Some(T)),
        ]
    );
}

#[test]
fn a_steam_id_that_comes_late_is_no_new_player() {
    let mut first = controller(5, 111, "ann", 2);
    first.fields.remove(&schema().field_key(CONTROLLER, "m_steamID").unwrap());
    let frames = vec![
        frame(10, vec![first], vec![]),
        frame(20, vec![controller(5, 111, "ann", 2)], vec![]),
    ];
    let rows = parser(frames, Vec::new()).players().unwrap();
    assert_eq!(rows.len(), 1);
    assert_eq!(rows[0].steamid, Some(111));
}

#[test]
fn what_is_bought_is_the_buyers_own() {
    let tick = |t: i32, count: i64, account: i64| {
        frame(
            t,
            vec![
                pawn(
                    1,
                    2,
                    vec![
                        (WEAPONS, whole(count)),
                        ("m_pWeaponServices.m_hMyWeapons#0", FieldValue::Handle(41)),
                    ],
                ),
                entity(
                    CONTROLLER,
                    11,
                    vec![
                        ("m_steamID", FieldValue::U64(111)),
                        ("m_pInGameMoneyServices.m_iAccount", whole(account)),
                    ],
                ),
                entity(AK, 41, vec![("m_OriginalOwnerXuidLow", FieldValue::U32(9))]),
            ],
            vec![],
        )
    };
    let p = parser(vec![tick(10, 0, 4000), tick(20, 1, 1300)], Vec::new());
    let rows = p.item_events().unwrap();
    assert_eq!(rows.len(), 1);
    assert_eq!(rows[0].action, "purchase");
    assert_eq!(rows[0].original_owner_steamid, Some(111));
}

#[test]
fn a_corpse_with_another_serial_number_is_nobody() {
    let dead = |serial: u32| {
        let mut all = armed();
        all[0].fields.remove(&schema().field_key(PAWN, "m_hController").unwrap());
        all[0].serial = serial;
        all
    };
    let p = parser(
        vec![
            frame(10, armed(), vec![]),
            frame(20, dead(1), vec![]),
            frame(30, dead(2), vec![]),
            frame(40, dead(1), vec![]),
        ],
        Vec::new(),
    );
    let rows = p.snapshots_query(None, &HashSet::new(), 0, 100).unwrap();
    let who: Vec<(Option<u64>, Option<&str>, i32)> = rows
        .iter()
        .map(|s| (s.steamid, s.name.as_deref(), s.money))
        .collect();
    assert_eq!(
        who,
        vec![
            (Some(111), Some("ann"), 800),
            (Some(111), Some("ann"), 0),
            (None, None, 0),
            (Some(111), Some("ann"), 0),
        ]
    );
}

#[test]
fn clan_and_side_describe_the_same_moment() {
    let clan = entity(
        TEAM,
        30,
        vec![("m_iTeamNum", whole(2)), ("m_szClanTeamname", text("Imperial"))],
    );
    let frames = vec![
        frame(10, vec![controller(5, 111, "ann", 2), clan], vec![]),
        // Ann's new team has no name; without a team, the player keeps the last side.
        frame(20, vec![controller(5, 111, "ann", 3)], vec![]),
        frame(30, vec![controller(5, 111, "ann", 0)], vec![]),
    ];
    let rows = parser(frames, Vec::new()).players().unwrap();
    assert_eq!(rows[0].side.as_deref(), Some(CT));
    assert_eq!(rows[0].team_clan_name, None);
}

#[test]
fn all_planned_segments_stitch_to_the_whole() {
    let dead = || {
        let mut all = armed();
        all[0].fields.remove(&schema().field_key(PAWN, "m_hController").unwrap());
        all
    };
    let frames = || {
        vec![
            frame(10, armed(), vec![]),
            frame(20, dead(), vec![]),
            frame(30, dead(), vec![]),
            frame(40, armed(), vec![]),
            frame(50, dead(), vec![]),
            frame(60, dead(), vec![]),
            frame(70, armed(), vec![]),
            frame(80, dead(), vec![]),
        ]
    };
    let keyframes: Vec<Keyframe> = [0, 25, 45, 55, 75]
        .iter()
        .enumerate()
        .map(|(offset, tick)| Keyframe { offset, tick: *tick })
        .collect();
    let ticks: Vec<i32> = keyframes.iter().map(|k| k.tick).collect();
    let (schema, names, none) = (schema(), names(), HashSet::new());
    let lens = Lens::new(&schema, &names, Scope::Snapshots);
    let query = Query {
        all: true,
        ticks: &none,
        strided: HashSet::new(),
        start: 0,
        end: 100,
    };
    let states = |frames: Vec<Frame>| {
        assert!(can_collect(&schema, &lens, &query, &frames));
        collect_run(&schema, &lens, &ticks, &query, &frames)
            .iter()
            .map(|s| (s.tick, s.steamid, s.money))
            .collect::<Vec<(i32, Option<u64>, i32)>>()
    };
    let whole = states(frames());
    assert_eq!(
        whole,
        vec![
            (10, Some(111), 800),
            (20, Some(111), 0),
            (30, None, 0),
            (40, Some(111), 800),
            (50, None, 0),
            (60, None, 0),
            (70, Some(111), 800),
            (80, None, 0),
        ]
    );
    for budget in [1, 2, 3, 4, 5, 9] {
        let plan = plan_segments(&keyframes, budget);
        assert_eq!(plan.len(), budget.min(5));
        let mut first = i32::MIN;
        let mut stitched = Vec::new();
        for (i, (_, end)) in plan.iter().enumerate() {
            let last = i + 1 == plan.len();
            let part: Vec<Frame> = frames()
                .into_iter()
                .filter(|f| first <= f.tick && (last || f.tick < *end))
                .collect();
            stitched.extend(states(part));
            first = *end;
        }
        assert_eq!(stitched, whole);
    }
}

#[test]
fn a_pawn_without_a_controller_is_who_it_was_known_to_be() {
    let (schema, names) = (schema(), names());
    let lens = Lens::new(&schema, &names, Scope::Snapshots);
    let sk = SnapshotKeys::resolve(&schema);
    let alive = frame(10, armed(), vec![]);
    let dead = |tick: i32, serial: Option<u32>| {
        let mut all = armed();
        all[0].fields.remove(&schema.field_key(PAWN, "m_hController").unwrap());
        if let Some(n) = serial {
            all[0].serial = n;
        }
        frame(tick, all, vec![])
    };
    let (mut known, clans, keyframes) = (HashMap::new(), HashMap::new(), vec![0, 25]);
    let mut look = |f: &Frame| {
        assert!(can_read(&schema, &lens, f));
        let mut out: Vec<PlayerState> = Vec::new();
        player_states(f, &sk, &lens, &keyframes, &mut known, &clans, &mut out);
        assert_eq!(out.len(), 1);
        let s = out.remove(0);
        (s.tick, s.steamid, s.name, s.money, s.ping)
    };
    let ann = Some("ann".to_string());
    let seen = look(&alive);
    assert_eq!((seen.0, seen.1, seen.2, seen.3), (10, Some(111), ann.clone(), 800));
    assert_eq!(look(&dead(20, None)), (20, Some(111), ann.clone(), 0, None));
    assert_eq!(look(&dead(21, Some(77))), (21, None, None, 0, None));
    assert_eq!(look(&dead(30, None)), (30, None, None, 0, None));
    // Nothing was forgotten.
    assert_eq!(look(&dead(22, None)), (22, Some(111), ann, 0, None));
}

#[test]
fn items_come_in_tick_order() {
    let holder = |index: i32, id: u64, held: u32| {
        vec![
            at(
                pawn(
                    index,
                    2,
                    vec![
                        (WEAPONS, whole(if held > 0 { 1 } else { 0 })),
                        ("m_pWeaponServices.m_hMyWeapons#0", FieldValue::Handle(held)),
                    ],
                ),
                1.0,
                2.0,
                3.0,
            ),
            controller(index + 10, id, "somebody", 2),
        ]
    };
    let rifle = || {
        entity(
            AK,
            41,
            vec![
                ("m_OriginalOwnerXuidLow", FieldValue::U32(9)),
                ("m_flDroppedAtTime", num(3.0)),
            ],
        )
    };
    let tick = |t: i32, first: u32, second: u32| {
        let mut all = holder(1, 111, first);
        all.extend(holder(2, 222, second));
        all.push(rifle());
        frame(t, all, vec![])
    };
    // Passed from hand to hand: on each tick, what the first player does comes first.
    let p = parser(
        vec![tick(10, 41, 0), tick(20, 0, 41), tick(30, 41, 0)],
        Vec::new(),
    );
    let rows = p.item_events().unwrap();
    let told: Vec<(i32, Option<u64>, &str)> =
        rows.iter().map(|r| (r.tick, r.steamid, r.action.as_str())).collect();
    assert_eq!(
        told,
        vec![
            (10, Some(111), "pickup"),
            (20, Some(111), "drop"),
            (20, Some(222), "pickup"),
            (30, Some(111), "pickup"),
            (30, Some(222), "drop"),
        ]
    );
}

#[test]
fn windows_pair_a_start_with_the_next_end() {
    let told = |name: &str, tick: i32, id: &str| ev(name, tick, &[("entityid", id)]);
    let events = vec![
        // An end without a start, and a start that another one of the same entity replaces.
        told("inferno_expire", 5, "7"),
        told("inferno_startburn", 10, "7"),
        told("inferno_startburn", 20, "8"),
        told("inferno_startburn", 30, "7"),
        told("smokegrenade_expired", 35, "7"),
        told("inferno_expire", 40, "7"),
        told("inferno_expire", 50, "7"),
        told("inferno_expire", 60, "8"),
        // One that never ends.
        told("inferno_startburn", 70, "8"),
    ];
    assert_eq!(
        burn_intervals("inferno_startburn", "inferno_expire", &events),
        vec![
            Window { entity_id: 7, start: 30, end: 40 },
            Window { entity_id: 8, start: 20, end: 60 },
        ]
    );
}
