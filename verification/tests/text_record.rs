use sdr_acars::frame::AcarsMessage;
use sdr_acars::label_parsers::Oooi;
use sdr_acars::text_record::{format_record, format_timestamp, is_downlink_blk};

fn message() -> AcarsMessage {
    AcarsMessage {
        timestamp: 1_777_469_730_394_999_999,
        channel_idx: 2,
        freq_hz: 131_550_000,
        level_tenths_db: 0,
        error_count: 0,
        mode: b'2',
        label: *b"5V",
        block_id: b'4',
        ack: b'!',
        aircraft: ".N12345".to_string(),
        flight_id: Some("UA1234".to_string()),
        message_no: Some("S53A".to_string()),
        text: "BODY".to_string(),
        end_of_message: true,
        reassembled_block_count: 1,
        parsed: None,
    }
}

#[test]
fn timestamp_has_seconds_and_truncated_milliseconds() {
    assert_eq!(format_timestamp(1_777_469_730_394_999_999), "1777469730.394");
    assert_eq!(format_timestamp(0), "0.000");
    assert_eq!(format_timestamp(5_007_000_000), "5.007");
}

#[test]
fn downlink_block_ids_are_digits() {
    assert!(is_downlink_blk(b'0'));
    assert!(is_downlink_blk(b'9'));
    assert!(!is_downlink_blk(b'A'));
    assert!(!is_downlink_blk(b'/'));
    assert!(!is_downlink_blk(b':'));
}

#[test]
fn downlink_record_layout() {
    let r = format_record(&message());
    assert_eq!(
        r,
        "\n[#3 (L: +0.0 E:0) 1777469730.394 --------------------------------\n\
         Mode : 2 Label : 5V Id : 4 Nak\n\
         Aircraft reg: N12345 Flight id: UA1234\n\
         No: S53A\n\
         BODY\n"
    );
}

#[test]
fn uplink_record_with_ack_and_etb() {
    let mut m = message();
    m.block_id = b'A';
    m.ack = b'3';
    m.level_tenths_db = -46;
    m.error_count = 2;
    m.end_of_message = false;
    m.flight_id = None;
    m.message_no = None;
    let r = format_record(&m);
    assert_eq!(
        r,
        "\n[#3 (L: -4.6 E:2) 1777469730.394 --------------------------------\n\
         Mode : 2 Label : 5V Id : A Ack : 3\n\
         Aircraft reg: N12345 \n\
         BODY\n\
         ETB\n"
    );
}

#[test]
fn record_without_block_id_or_text() {
    let mut m = message();
    m.block_id = 0;
    m.text = String::new();
    m.level_tenths_db = -1200;
    let r = format_record(&m);
    assert_eq!(
        r,
        "\n[#3 (L:-120.0 E:0) 1777469730.394 --------------------------------\n\
         Mode : 2 Label : 5V \n"
    );
}

#[test]
fn short_message_number_is_right_aligned_and_missing_fields_are_blank() {
    let mut m = message();
    m.message_no = Some("S5".to_string());
    m.flight_id = None;
    let r = format_record(&m);
    assert!(r.contains("Aircraft reg: N12345 Flight id: \nNo:   S5\n"));
}

#[test]
fn invalid_utf8_label_prints_question_marks() {
    let mut m = message();
    m.label = [0xFF, b'1'];
    assert!(format_record(&m).contains("Label : ?? "));
    m.label = [0xC3, 0xA9];
    assert!(format_record(&m).contains("Label : \u{e9} "));
}

#[test]
fn parsed_metadata_does_not_change_the_record() {
    let mut m = message();
    let plain = format_record(&m);
    m.parsed = Some(Oooi { sa: Some("KORD".to_string()), ..Default::default() });
    assert_eq!(format_record(&m), plain);
}
