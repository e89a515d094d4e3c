use sdr_acars::frame::AcarsMessage;
use sdr_acars::json::{byte_to_string, json_fields, label_to_string, JsonField, JsonValue};
use sdr_acars::label_parsers::Oooi;

const NANOS_PER_SECOND: u128 = 1_000_000_000;

fn make_uplink_msg() -> AcarsMessage {
    AcarsMessage {
        timestamp: 1_700_000_000 * NANOS_PER_SECOND,
        channel_idx: 2,
        freq_hz: 131_550_000,
        level_tenths_db: 120,
        error_count: 0,
        mode: b'2',
        label: *b"H1",
        block_id: 0,
        ack: 0x15,
        aircraft: ".N12345".to_string(),
        flight_id: None,
        message_no: None,
        text: String::new(),
        end_of_message: true,
        reassembled_block_count: 1,
        parsed: None,
    }
}

fn make_downlink_msg() -> AcarsMessage {
    let mut m = make_uplink_msg();
    m.block_id = b'1';
    m.ack = b'\x15';
    m.flight_id = Some("UA1234".to_string());
    m.message_no = Some("M01A".to_string());
    m.text = "REPORT".to_string();
    m
}

fn get<'a>(fields: &'a [JsonField], key: &str) -> Option<&'a JsonValue> {
    fields.iter().find(|f| f.key == key).map(|f| &f.value)
}

fn text(s: &str) -> JsonValue {
    JsonValue::Text(s.to_string())
}

#[test]
fn minimal_uplink_message_fields() {
    let msg = make_uplink_msg();
    let f = json_fields(&msg, None);
    assert_eq!(get(&f, "timestamp"), Some(&JsonValue::Seconds(1_700_000_000 * NANOS_PER_SECOND)));
    assert_eq!(get(&f, "channel"), Some(&JsonValue::Number(2)));
    assert_eq!(get(&f, "freq"), Some(&JsonValue::Megahertz(131_550_000)));
    assert_eq!(get(&f, "level"), Some(&JsonValue::Decibels(120)));
    assert_eq!(get(&f, "error"), Some(&JsonValue::Number(0)));
    assert_eq!(get(&f, "mode"), Some(&text("2")));
    assert_eq!(get(&f, "label"), Some(&text("H1")));
    assert_eq!(get(&f, "tail"), Some(&text(".N12345")));
    assert!(get(&f, "station_id").is_none());
    assert!(get(&f, "block_id").is_none());
    assert!(get(&f, "flight").is_none());
    assert!(get(&f, "text").is_none());
    assert_eq!(get(&f, "end"), Some(&JsonValue::Flag(true)));
    let keys: Vec<&str> = f.iter().map(|x| x.key.as_str()).collect();
    assert_eq!(
        keys,
        vec!["timestamp", "channel", "freq", "level", "error", "mode", "label", "tail", "end"]
    );
}

#[test]
fn omits_station_id_when_none_or_empty() {
    let msg = make_uplink_msg();
    assert!(get(&json_fields(&msg, None), "station_id").is_none());
    assert!(get(&json_fields(&msg, Some("")), "station_id").is_none());
}

#[test]
fn includes_station_id_when_set() {
    let msg = make_uplink_msg();
    let f = json_fields(&msg, Some("ABCD"));
    assert_eq!(get(&f, "station_id"), Some(&text("ABCD")));
    assert_eq!(f[1].key, "station_id");
}

#[test]
fn serializes_full_downlink_message() {
    let msg = make_downlink_msg();
    let f = json_fields(&msg, Some("STN1"));
    assert_eq!(get(&f, "block_id"), Some(&text("1")));
    assert_eq!(get(&f, "ack"), Some(&text("\x15")));
    assert_eq!(get(&f, "flight"), Some(&text("UA1234")));
    assert_eq!(get(&f, "msgno"), Some(&text("M01A")));
    assert_eq!(get(&f, "station_id"), Some(&text("STN1")));
    assert_eq!(get(&f, "text"), Some(&text("REPORT")));
}

#[test]
fn omits_block_id_and_ack_when_block_id_zero() {
    let mut msg = make_downlink_msg();
    msg.block_id = 0;
    let f = json_fields(&msg, None);
    assert!(get(&f, "block_id").is_none());
    assert!(get(&f, "ack").is_none());
}

#[test]
fn ack_serializes_as_false_when_bang() {
    let mut msg = make_downlink_msg();
    msg.ack = b'!';
    let f = json_fields(&msg, None);
    assert_eq!(get(&f, "ack"), Some(&JsonValue::Flag(false)));
}

#[test]
fn omits_flight_and_msgno_for_uplink() {
    let msg = make_uplink_msg();
    let f = json_fields(&msg, None);
    assert!(get(&f, "flight").is_none());
    assert!(get(&f, "msgno").is_none());
}

#[test]
fn omits_empty_text_field() {
    let msg = make_uplink_msg();
    let f = json_fields(&msg, None);
    assert!(get(&f, "text").is_none());
}

#[test]
fn end_field_only_when_end_of_message() {
    let mut msg = make_uplink_msg();
    msg.end_of_message = false;
    assert!(get(&json_fields(&msg, None), "end").is_none());
    msg.end_of_message = true;
    assert_eq!(get(&json_fields(&msg, None), "end"), Some(&JsonValue::Flag(true)));
}

#[test]
fn reassembled_blocks_field_only_when_gt_one() {
    let mut msg = make_uplink_msg();
    msg.reassembled_block_count = 1;
    assert!(get(&json_fields(&msg, None), "reassembled_blocks").is_none());
    msg.reassembled_block_count = 3;
    assert_eq!(
        get(&json_fields(&msg, None), "reassembled_blocks"),
        Some(&JsonValue::Number(3))
    );
}

#[test]
fn oooi_fields_appear_when_parsed_some() {
    let mut msg = make_downlink_msg();
    msg.parsed = Some(Oooi {
        sa: Some("KORD".to_string()),
        da: Some("KSFO".to_string()),
        eta: Some("0830".to_string()),
        gout: Some("0700".to_string()),
        gin: None,
        woff: Some("0715".to_string()),
        won: Some("1015".to_string()),
    });
    let f = json_fields(&msg, None);
    assert_eq!(get(&f, "depa"), Some(&text("KORD")));
    assert_eq!(get(&f, "dsta"), Some(&text("KSFO")));
    assert_eq!(get(&f, "eta"), Some(&text("0830")));
    assert_eq!(get(&f, "gtout"), Some(&text("0700")));
    assert_eq!(get(&f, "wloff"), Some(&text("0715")));
    assert_eq!(get(&f, "wlin"), Some(&text("1015")));
    assert!(get(&f, "gtin").is_none());
}

#[test]
fn oooi_fields_omitted_when_parsed_none() {
    let msg = make_uplink_msg();
    assert!(msg.parsed.is_none());
    let f = json_fields(&msg, None);
    for key in ["depa", "dsta", "eta", "gtout", "gtin", "wloff", "wlin"] {
        assert!(get(&f, key).is_none(), "{key} should be absent");
    }
}

#[test]
fn negative_level_and_raw_label_bytes() {
    let mut msg = make_uplink_msg();
    msg.level_tenths_db = -46;
    msg.label = [b'_', 0x7F];
    let f = json_fields(&msg, None);
    assert_eq!(get(&f, "level"), Some(&JsonValue::Decibels(-46)));
    assert_eq!(get(&f, "label"), Some(&text("_\u{7f}")));
}

#[test]
fn byte_and_label_text() {
    assert_eq!(byte_to_string(b'2'), "2");
    assert_eq!(byte_to_string(0x15), "\u{15}");
    assert_eq!(label_to_string(*b"H1"), "H1");
    assert_eq!(label_to_string([b'_', 0x7F]), "_\u{7f}");
}
