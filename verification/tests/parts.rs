use awpy::chat::{chat_of_event, collect_chat, decode_say_text, decode_say_text2};
use awpy::demo::GameEvent;
use awpy::display::{
    footer, shown_rows, throw_cells, timeout_cells, write_decimal, write_signed,
};
use awpy::economy::{buy_type, sides_flipped};
use awpy::float::{Float, Vector};
use awpy::order::{stable_order, stable_sort};
use awpy::projectiles::{collapse_instances, fill_trajectory_ends, GrenadeThrow, TrackedRow};
use awpy::resolve::ResolvedPlayer;
use awpy::segments::{plan_segments, segment_budget, segment_ranges, Keyframe};
use awpy::text::{contains_text, parse_i32, parse_i64, parse_usize, same_text, sorts_before};
use awpy::timeouts::Timeout;
use prost::bytes::BytesMut;
use prost::encoding::{bool as boolean, int32, string};

fn float(v: f32) -> Float {
    Float { bits: v.to_bits() }
}

fn message(msg_type: u32, payload: Vec<u8>) -> GameEvent {
    GameEvent {
        tick: 42,
        name: String::new(),
        msg_type,
        keys: Vec::new(),
        payload,
    }
}

fn say_text2(index: i32, channel: &str, name: &str, said: &str) -> Vec<u8> {
    let mut buf = BytesMut::new();
    int32::encode(1, &index, &mut buf);
    boolean::encode(2, &true, &mut buf);
    string::encode(3, &channel.to_string(), &mut buf);
    string::encode(4, &name.to_string(), &mut buf);
    string::encode(5, &said.to_string(), &mut buf);
    buf.to_vec()
}

#[test]
fn say_text2_messages_are_chat() {
    for kind in [118, 306] {
        let payload = say_text2(7, "Cstrike_Chat_All", "ann", "gg \u{1f44d}");
        let row = chat_of_event(&message(kind, payload)).unwrap();
        assert_eq!(row.tick, 42);
        assert_eq!(row.entity_index, Some(7));
        assert_eq!(row.name.as_deref(), Some("ann"));
        assert_eq!(row.message, "gg \u{1f44d}");
        assert_eq!(row.channel.as_deref(), Some("Cstrike_Chat_All"));
    }
}

#[test]
fn empty_and_negative_chat_fields_are_none() {
    let row = chat_of_event(&message(118, say_text2(-1, "", "", ""))).unwrap();
    assert_eq!(row.entity_index, None);
    assert_eq!(row.name, None);
    assert_eq!(row.message, "");
    assert_eq!(row.channel, None);
}

#[test]
fn say_text_messages_have_no_name() {
    let mut buf = BytesMut::new();
    string::encode(2, &"hello".to_string(), &mut buf);
    int32::encode(1, &3, &mut buf);
    boolean::encode(3, &false, &mut buf);
    string::encode(9, &"of no meaning".to_string(), &mut buf);
    for kind in [117, 305] {
        let row = chat_of_event(&message(kind, buf.to_vec())).unwrap();
        assert_eq!(row.entity_index, Some(3));
        assert_eq!(row.name, None);
        assert_eq!(row.message, "hello");
        assert_eq!(row.channel, None);
    }
    let m = decode_say_text(&buf).unwrap();
    assert_eq!(m.chat, Some(false));
}

#[test]
fn what_does_not_decode_is_no_chat() {
    // A length that runs past the end, a wrong wire type and a broken tag.
    assert!(decode_say_text2(&[0x1a, 0x05, b'a']).is_none());
    assert!(decode_say_text2(&[0x08 | 2, 0x00]).is_none());
    assert!(decode_say_text(&[0x00]).is_none());
    assert!(decode_say_text(&[0x12, 0x01, 0xff]).is_none());
    assert!(chat_of_event(&message(118, vec![0x1a, 0x05, b'a'])).is_none());
    assert!(chat_of_event(&message(4, say_text2(7, "c", "n", "m"))).is_none());
}

#[test]
fn numbers_are_read_seven_bits_at_a_time() {
    let index = |bytes: &[u8]| {
        let mut payload = vec![0x08];
        payload.extend(bytes);
        decode_say_text(&payload).map(|m| m.playerindex)
    };
    assert_eq!(index(&[0x05]), Some(Some(5)));
    assert_eq!(index(&[0x85, 0x01]), Some(Some(133)));
    // Zeros above do no harm.
    assert_eq!(index(&[0x85, 0x80, 0x00]), Some(Some(5)));
    // Of 64 bits the lowest 32 count.
    assert_eq!(index(&[0xff, 0xff, 0xff, 0xff, 0xff, 0xff, 0xff, 0xff, 0xff, 0x01]), Some(Some(-1)));
    assert_eq!(index(&[0x87, 0x80, 0x80, 0x80, 0x80, 0x01]), Some(Some(7)));
    // Neither more than 64 bits, nor more than ten bytes, nor an end before the last one.
    assert_eq!(index(&[0xff, 0xff, 0xff, 0xff, 0xff, 0xff, 0xff, 0xff, 0xff, 0x02]), None);
    assert_eq!(
        index(&[0x80, 0x80, 0x80, 0x80, 0x80, 0x80, 0x80, 0x80, 0x80, 0x80, 0x00]),
        None
    );
    assert_eq!(index(&[0x85]), None);
    assert_eq!(index(&[]), None);
    // Any number but 0 is true.
    let chat = |bytes: &[u8]| {
        let mut payload = vec![0x18];
        payload.extend(bytes);
        decode_say_text(&payload).map(|m| m.chat)
    };
    assert_eq!(chat(&[0x00]), Some(Some(false)));
    assert_eq!(chat(&[0x80, 0x02]), Some(Some(true)));
    // The last value of a field counts.
    assert_eq!(index(&[0x05, 0x08, 0x06]), Some(Some(6)));
}

#[test]
fn keys_hold_a_tag_and_a_wire_type() {
    // A tag of 0, wire types that there are not, and a key of more than 32 bits.
    assert!(decode_say_text(&[0x00, 0x05]).is_none());
    assert!(decode_say_text(&[0x0e, 0x05]).is_none());
    assert!(decode_say_text(&[0x0f, 0x05]).is_none());
    assert!(decode_say_text(&[0x88, 0x80, 0x80, 0x80, 0x10, 0x05]).is_none());
    // A number of another wire type.
    assert!(decode_say_text(&[0x0d, 0x05, 0x00, 0x00, 0x00]).is_none());
    assert!(decode_say_text(&[0x10, 0x05]).is_none());
}

#[test]
fn unknown_fields_are_skipped() {
    let after = |field: &[u8]| {
        let mut payload = field.to_vec();
        payload.extend([0x08, 0x05]);
        decode_say_text(&payload).map(|m| m.playerindex)
    };
    // A varint, eight bytes, a delimited value, a group with a field in it and four bytes.
    assert_eq!(after(&[0x48, 0x81, 0x01]), Some(Some(5)));
    assert_eq!(after(&[0x49, 1, 2, 3, 4, 5, 6, 7, 8]), Some(Some(5)));
    assert_eq!(after(&[0x4a, 0x02, 0x08, 0x09]), Some(Some(5)));
    assert_eq!(after(&[0x4b, 0x08, 0x09, 0x4c]), Some(Some(5)));
    assert_eq!(after(&[0x4d, 1, 2, 3, 4]), Some(Some(5)));
    // One that ends where none began, and ones that are too short.
    assert_eq!(after(&[0x4c]), None);
    assert!(decode_say_text(&[0x49, 1, 2, 3, 4, 5, 6, 7]).is_none());
    assert!(decode_say_text(&[0x4a, 0x02, 0x08]).is_none());
    assert!(decode_say_text(&[0x4d, 1, 2, 3]).is_none());
    // The longest message text that fits is read whole.
    let m = decode_say_text(&[0x12, 0x03, b'a', 0xc3, 0xa9, 0x08, 0x05]).unwrap();
    assert_eq!(m.text.as_deref(), Some("a\u{e9}"));
    assert_eq!(m.playerindex, Some(5));
}

#[test]
fn chat_keeps_the_order_of_events() {
    let said = |tick: i32, kind: u32, words: &str| {
        let mut e = message(kind, say_text2(1, "c", "n", words));
        e.tick = tick;
        e
    };
    let events = vec![
        said(10, 118, "one"),
        said(20, 4, "no chat"),
        said(20, 306, "two"),
        said(30, 118, "three"),
    ];
    let rows: Vec<(i32, String)> = collect_chat(&events)
        .into_iter()
        .map(|m| (m.tick, m.message))
        .collect();
    assert_eq!(
        rows,
        vec![
            (10, "one".to_string()),
            (20, "two".to_string()),
            (30, "three".to_string()),
        ]
    );
}

#[test]
fn an_empty_message_decodes() {
    let row = chat_of_event(&message(306, Vec::new())).unwrap();
    assert_eq!(row.entity_index, None);
    assert_eq!(row.message, "");
}

#[test]
fn texts_compare_search_and_sort() {
    assert!(same_text("de_nuke", "de_nuke"));
    assert!(!same_text("de_nuke", "de_nuk"));
    assert!(!same_text("\u{e9}", "e"));
    assert!(contains_text("knife_karambit", "karam"));
    assert!(contains_text("x", ""));
    assert!(!contains_text("knif", "knife"));
    assert!(sorts_before("counter-terrorist", "terrorist"));
    assert!(sorts_before("a", "ab"));
    assert!(!sorts_before("b", "ab"));
    assert!(!sorts_before("a", "a"));
}

#[test]
fn decimal_texts_read_as_numbers() {
    assert_eq!(parse_i32("-12"), Some(-12));
    assert_eq!(parse_i32("+12"), Some(12));
    assert_eq!(parse_i32("2147483648"), None);
    assert_eq!(parse_i32("-2147483648"), Some(i32::MIN));
    assert_eq!(parse_i32(""), None);
    assert_eq!(parse_i32("-"), None);
    assert_eq!(parse_i32(" 1"), None);
    assert_eq!(parse_i64("9223372036854775807"), Some(i64::MAX));
    assert_eq!(parse_i64("9223372036854775808"), None);
    assert_eq!(parse_usize("16"), Some(16));
    assert_eq!(parse_usize("-1"), None);
}

#[test]
fn numbers_written_in_decimal_read_back() {
    for n in [0u64, 7, 10, 4096, 18446744073709551615] {
        assert_eq!(write_decimal(n), n.to_string());
    }
    for n in [0, -1, i32::MIN, i32::MAX] {
        assert_eq!(write_signed(n), n.to_string());
        assert_eq!(parse_i32(&write_signed(n)), Some(n));
    }
}

#[test]
fn sorting_keeps_equal_keys_in_order() {
    let sorted = stable_sort(vec!['a', 'b', 'c', 'd'], &vec![2, 1, 2, 1]);
    assert_eq!(sorted, vec!['b', 'd', 'a', 'c']);
    assert_eq!(stable_order(&vec![3, 1, 2]), vec![1, 2, 0]);
}

#[test]
fn numbers_compare_by_their_bits() {
    let (minus, zero, one) = (float(-0.0), float(0.0), float(1.0));
    let nan = float(f32::NAN);
    assert!(minus.total_place() < zero.total_place());
    assert!(one.is_above(zero) && !zero.is_above(one));
    assert!(zero.is_at_most(minus) && minus.is_at_most(zero));
    assert!(!nan.is_at_most(nan) && !nan.is_at_most(one) && !nan.is_above(one));
    assert!(float(-2.0).is_at_most(float(-1.0)));
    assert!(nan.total_place() > float(f32::INFINITY).total_place());
}

#[test]
fn segments_split_at_keyframes() {
    let keyframes: Vec<Keyframe> = (0..10)
        .map(|i| Keyframe {
            offset: 100 * i,
            tick: 64 * i as i32,
        })
        .collect();
    assert_eq!(
        segment_ranges(&keyframes, 3),
        vec![(None, 192), (Some(300), 384), (Some(600), i32::MAX)]
    );
    assert_eq!(segment_ranges(&[], 1), vec![(None, i32::MAX)]);
    assert_eq!(plan_segments(&keyframes, 1), vec![(None, i32::MAX)]);
    assert_eq!(plan_segments(&keyframes, 64).len(), 10);
    assert_eq!(plan_segments(&[], 8), vec![(None, i32::MAX)]);
}

#[test]
fn the_segment_budget_is_the_setting_or_the_processors() {
    assert_eq!(segment_budget(Some("1"), Some(8)), 1);
    assert_eq!(segment_budget(Some("many"), Some(8)), 8);
    assert_eq!(segment_budget(None, Some(8)), 8);
    assert_eq!(segment_budget(None, None), 1);
    assert_eq!(segment_budget(Some("0"), None), 0);
}

#[test]
fn buys_are_classified_by_value() {
    assert_eq!(buy_type(4_999), "eco");
    assert_eq!(buy_type(5_000), "force");
    assert_eq!(buy_type(19_999), "force");
    assert_eq!(buy_type(20_000), "full");
}

#[test]
fn sides_flip_when_most_shared_players_move() {
    let line = |sides: &[(u64, &str)]| -> Vec<(u64, String)> {
        sides.iter().map(|(id, s)| (*id, s.to_string())).collect()
    };
    let before = line(&[(1, "a"), (2, "a"), (3, "b")]);
    assert!(!sides_flipped(&before, &before));
    assert!(sides_flipped(&before, &line(&[(1, "b"), (2, "b"), (3, "b")])));
    assert!(!sides_flipped(&before, &line(&[(1, "b"), (2, "a")])));
    assert!(!sides_flipped(&before, &line(&[(7, "b"), (8, "a")])));
}

fn sample(tick: i32, start_tick: i32, end_tick: i32, x: f32, steamid: Option<u64>) -> TrackedRow {
    let at = Vector {
        x: float(x),
        y: float(0.0),
        z: float(0.0),
    };
    TrackedRow {
        tick,
        entity_id: 5,
        class_name: "c".to_string(),
        at,
        thrower: ResolvedPlayer {
            steamid,
            ..Default::default()
        },
        start_tick,
        end_tick,
        end_at: at,
    }
}

#[test]
fn instances_collapse_to_one_row() {
    let rows = vec![
        sample(1, 1, 10, 1.0, None),
        sample(2, 1, 30, 2.0, Some(8)),
        sample(3, 3, 40, 3.0, None),
        sample(4, 1, 20, 4.0, Some(9)),
    ];
    let kept = collapse_instances(&rows);
    assert_eq!(kept.len(), 2);
    assert_eq!((kept[0].tick, kept[0].end_tick), (1, 30));
    assert_eq!(kept[0].at.x, float(1.0));
    assert_eq!(kept[0].end_at.x, float(2.0));
    assert_eq!(kept[0].thrower.steamid, Some(8));
    assert_eq!((kept[1].tick, kept[1].end_tick), (3, 40));
}

#[test]
fn trajectories_end_with_their_last_sample() {
    let mut rows = vec![
        sample(1, 1, 0, 1.0, None),
        sample(7, 1, 0, 2.0, None),
        sample(4, 1, 0, 3.0, None),
        sample(9, 8, 0, 4.0, None),
    ];
    fill_trajectory_ends(&mut rows);
    let ends: Vec<(i32, Float)> = rows.iter().map(|r| (r.end_tick, r.end_at.x)).collect();
    assert_eq!(
        ends,
        vec![
            (7, float(2.0)),
            (7, float(2.0)),
            (7, float(2.0)),
            (9, float(4.0)),
        ]
    );
}

#[test]
fn tables_show_as_many_rows_as_asked_for() {
    assert_eq!(shown_rows(None, 6), 6);
    assert_eq!(shown_rows(Some(2), 6), 2);
    assert_eq!(shown_rows(Some(9), 6), 6);
    assert_eq!(footer(6, "timeouts", None), "6 timeouts total");
    assert_eq!(footer(6, "timeouts", Some(6)), "6 timeouts total");
    assert_eq!(
        footer(6, "throws", Some(2)),
        "6 throws total (showing first 2)"
    );
}

#[test]
fn cells_have_signs_for_what_there_is_not() {
    let pause = Timeout {
        side: None,
        kind: "technical".to_string(),
        start_tick: 100,
        end_tick: None,
        remaining_at_start: None,
        round_num: 3,
    };
    assert_eq!(
        timeout_cells(&pause, "30.0s".to_string()),
        vec!["-", "technical", "100", "-", "-", "3"]
    );
    let called = Timeout {
        side: Some("terrorist".to_string()),
        kind: "tactical".to_string(),
        start_tick: 100,
        end_tick: Some(160),
        remaining_at_start: Some(float(30.0)),
        round_num: 3,
    };
    assert_eq!(
        timeout_cells(&called, "30.0s".to_string()),
        vec!["terrorist", "tactical", "100", "160", "30.0s", "3"]
    );
    let throw = GrenadeThrow {
        thrower_name: None,
        thrower_steamid: None,
        thrower_side: None,
        grenade_type: "he".to_string(),
        entity_id: 1,
        throw_tick: -5,
        throw_x: float(0.0),
        throw_y: float(0.0),
        throw_z: float(0.0),
        land_tick: 60,
        land_x: float(0.0),
        land_y: float(0.0),
        land_z: float(0.0),
        land_is_precise: true,
    };
    assert_eq!(throw_cells(&throw), vec!["-5", "he", "?", "60", "true"]);
}
