use sdr_acars::frame::AcarsMessage;
use sdr_acars::reassembly::{MessageAssembler, MAX_PENDING_MESSAGES, REASSEMBLY_TIMEOUT};

const UNIX_EPOCH: u128 = 0;
const ONE_SECOND: u128 = 1_000_000_000;
const ONE_MILLISECOND: u128 = 1_000_000;

fn make_msg(aircraft: &str, message_no: &str, block_id: u8, etx: bool, text: &str) -> AcarsMessage {
    AcarsMessage {
        timestamp: UNIX_EPOCH,
        channel_idx: 0,
        freq_hz: 131_550_000,
        level_tenths_db: 0,
        error_count: 0,
        mode: b'2',
        label: *b"H1",
        block_id,
        ack: 0x15,
        aircraft: aircraft.to_string(),
        flight_id: None,
        message_no: Some(message_no.to_string()),
        text: text.to_string(),
        end_of_message: etx,
        reassembled_block_count: 1,
        parsed: None,
    }
}

#[test]
fn passthrough_for_single_block_etx() {
    let mut a = MessageAssembler::new();
    let msg = make_msg(".N12345", "M01A", 1, true, "PART1");
    let out = a.observe(msg, UNIX_EPOCH);
    assert_eq!(out.len(), 1);
    assert_eq!(out[0].text, "PART1");
    assert_eq!(out[0].reassembled_block_count, 1);
    assert!(out[0].end_of_message);
    assert_eq!(a.pending_count(), 0);
}

#[test]
fn passthrough_when_message_no_missing() {
    let mut a = MessageAssembler::new();
    let mut msg = make_msg(".N12345", "M01A", 1, false, "X");
    msg.message_no = None;
    let out = a.observe(msg, UNIX_EPOCH);
    assert_eq!(out.len(), 1);
    assert_eq!(a.pending_count(), 0);
}

#[test]
fn etb_then_etx_reassembles_in_order() {
    let mut a = MessageAssembler::new();
    let etb = make_msg(".N12345", "M01A", 1, false, "FIRST_HALF");
    let etx = make_msg(".N12345", "M01A", 2, true, "_SECOND_HALF");
    let now = UNIX_EPOCH;
    let out1 = a.observe(etb, now);
    assert_eq!(out1.len(), 0, "ETB parked, no emission yet");
    assert_eq!(a.pending_count(), 1);
    let out2 = a.observe(etx, now);
    assert_eq!(out2.len(), 1);
    let merged = &out2[0];
    assert_eq!(merged.text, "FIRST_HALF_SECOND_HALF");
    assert_eq!(merged.reassembled_block_count, 2);
    assert!(merged.end_of_message);
    assert_eq!(merged.block_id, 2, "block_id from final ETX");
    assert_eq!(a.pending_count(), 0);
}

#[test]
fn out_of_order_blocks_sort_by_block_id() {
    let now = UNIX_EPOCH;
    let mut a = MessageAssembler::new();
    let _ = a.observe(make_msg(".N12345", "M01A", 2, false, "MIDDLE_"), now);
    let _ = a.observe(make_msg(".N12345", "M01A", 3, true, "LAST"), now);
    let mut a = MessageAssembler::new();
    let _ = a.observe(make_msg(".N12345", "M02B", 2, false, "MIDDLE_"), now);
    let out = a.observe(make_msg(".N12345", "M02B", 3, true, "LAST"), now);
    assert_eq!(out.len(), 1);
    assert_eq!(out[0].text, "MIDDLE_LAST");
    assert_eq!(out[0].reassembled_block_count, 2);
}

#[test]
fn out_of_order_etx_before_etb() {
    let mut a = MessageAssembler::new();
    let now = UNIX_EPOCH;
    let etx = make_msg(".N12345", "M03C", 3, true, "FINAL");
    let out_etx = a.observe(etx, now);
    assert_eq!(out_etx.len(), 1, "ETX emits even without prior ETBs");
    assert_eq!(out_etx[0].text, "FINAL");
    assert_eq!(out_etx[0].reassembled_block_count, 1);

    let etb = make_msg(".N12345", "M03C", 1, false, "EARLY");
    let out_etb = a.observe(etb, now);
    assert_eq!(out_etb.len(), 0, "late ETB parked, will time out");
    assert_eq!(a.pending_count(), 1);
}

#[test]
fn timeout_emits_partial_reassembly() {
    let mut a = MessageAssembler::new();
    let t0 = UNIX_EPOCH;
    let etb = make_msg(".N12345", "M04D", 1, false, "ONLY_BLOCK");
    let _ = a.observe(etb, t0);
    assert_eq!(a.pending_count(), 1);

    let later = t0 + REASSEMBLY_TIMEOUT + ONE_SECOND;
    let new = make_msg(".N99999", "M99Z", 1, true, "OTHER");
    let out = a.observe(new, later);
    assert_eq!(out.len(), 2);
    assert_eq!(out[0].text, "ONLY_BLOCK");
    assert_eq!(out[0].reassembled_block_count, 1);
    assert!(!out[0].end_of_message, "partial keeps ETB flag");
    assert_eq!(out[1].text, "OTHER");
    assert_eq!(a.pending_count(), 0);
}

#[test]
fn flush_drains_all_pending() {
    let mut a = MessageAssembler::new();
    let now = UNIX_EPOCH;
    let _ = a.observe(make_msg(".A", "M1", 1, false, "AAA"), now);
    let _ = a.observe(make_msg(".B", "M2", 1, false, "BBB"), now);
    let _ = a.observe(make_msg(".A", "M1", 2, false, "_more"), now);
    assert_eq!(a.pending_count(), 2);
    let mut flushed = a.flush();
    flushed.sort_by(|x, y| x.aircraft.as_str().cmp(y.aircraft.as_str()));
    assert_eq!(flushed.len(), 2);
    assert_eq!(flushed[0].aircraft.as_str(), ".A");
    assert_eq!(flushed[0].text, "AAA_more");
    assert_eq!(flushed[0].reassembled_block_count, 2);
    assert!(!flushed[0].end_of_message);
    assert_eq!(flushed[1].aircraft.as_str(), ".B");
    assert_eq!(flushed[1].text, "BBB");
    assert_eq!(flushed[1].reassembled_block_count, 1);
    assert_eq!(a.pending_count(), 0);
}

#[test]
fn cap_evicts_oldest_pending() {
    let mut a = MessageAssembler::new();
    let base = UNIX_EPOCH;
    for i in 0..=MAX_PENDING_MESSAGES {
        let aircraft = format!(".N{i:05}");
        let msg_no = format!("M{i:03}");
        let m = make_msg(&aircraft, &msg_no, 1, false, "X");
        let now = base + ONE_MILLISECOND * u128::try_from(i).expect("loop bound fits u128");
        let _ = a.observe(m, now);
    }
    assert_eq!(a.pending_count(), MAX_PENDING_MESSAGES);
    let etx = make_msg(".N00000", "M000", 2, true, "_etx");
    let out = a.observe(etx, base);
    assert_eq!(out.len(), 1);
    assert_eq!(out[0].text, "_etx", "evicted ETB body did NOT come through");
}

#[test]
fn drain_timeouts_emits_only_stale_buckets() {
    let mut a = MessageAssembler::new();
    let t0 = UNIX_EPOCH;
    let _ = a.observe(make_msg(".A", "M1", 1, false, "AAA"), t0);
    let _ = a.observe(make_msg(".B", "M2", 1, false, "BBB"), t0 + REASSEMBLY_TIMEOUT);
    let later = t0 + REASSEMBLY_TIMEOUT + REASSEMBLY_TIMEOUT;
    let drained = a.drain_timeouts(later);
    assert_eq!(drained.len(), 1);
    assert_eq!(drained[0].aircraft.as_str(), ".A");
    assert_eq!(drained[0].text, "AAA");
    assert!(!drained[0].end_of_message, "partial keeps ETB flag");
    assert_eq!(a.pending_count(), 1, "fresh .B bucket survives");
}

#[test]
fn first_seen_uses_observation_clock_not_msg_timestamp() {
    const ONE_HOUR_SECS: u128 = 60 * 60;
    let mut a = MessageAssembler::new();
    let now = UNIX_EPOCH + ONE_HOUR_SECS * ONE_SECOND;
    let mut etb = make_msg(".A", "M1", 1, false, "X");
    etb.timestamp = UNIX_EPOCH;
    let _ = a.observe(etb, now);
    assert_eq!(a.pending_count(), 1);
    let drained = a.drain_timeouts(now + REASSEMBLY_TIMEOUT / 2);
    assert_eq!(drained.len(), 0);
    assert_eq!(a.pending_count(), 1);
}

#[test]
fn distinct_keys_dont_cross_pollute() {
    let mut a = MessageAssembler::new();
    let now = UNIX_EPOCH;
    let _ = a.observe(make_msg(".A", "M1", 1, false, "AAA"), now);
    let _ = a.observe(make_msg(".B", "M1", 1, false, "BBB"), now);
    let out_a = a.observe(make_msg(".A", "M1", 2, true, "_a_end"), now);
    let out_b = a.observe(make_msg(".B", "M1", 2, true, "_b_end"), now);
    assert_eq!(out_a.len(), 1);
    assert_eq!(out_a[0].text, "AAA_a_end");
    assert_eq!(out_b.len(), 1);
    assert_eq!(out_b[0].text, "BBB_b_end");
}

#[test]
fn timed_out_buckets_come_out_oldest_first_then_by_key() {
    let mut a = MessageAssembler::new();
    let _ = a.observe(make_msg(".C", "M1", 1, false, "C1"), 2 * ONE_SECOND);
    let _ = a.observe(make_msg(".B", "M2", 1, false, "B2"), ONE_SECOND);
    let _ = a.observe(make_msg(".A", "M9", 1, false, "A9"), 2 * ONE_SECOND);
    let _ = a.observe(make_msg(".A", "M3", 1, false, "A3"), 2 * ONE_SECOND);
    let drained = a.drain_timeouts(10 * REASSEMBLY_TIMEOUT);
    let texts: Vec<&str> = drained.iter().map(|m| m.text.as_str()).collect();
    assert_eq!(texts, vec!["B2", "A3", "A9", "C1"]);
    assert_eq!(a.pending_count(), 0);
}

#[test]
fn reassembly_merges_metadata_from_first_and_last_blocks() {
    let mut a = MessageAssembler::new();
    let mut b2 = make_msg(".N1", "M7", 2, false, "two_");
    b2.flight_id = Some("UA1".to_string());
    b2.timestamp = 5;
    let mut b1 = make_msg(".N1", "M7", 1, false, "one_");
    b1.timestamp = 7;
    let mut b3 = make_msg(".N1", "M7", 3, true, "three");
    b3.timestamp = 9;
    b3.label = *b"5Z";
    let _ = a.observe(b2, 0);
    let _ = a.observe(b1, 0);
    let out = a.observe(b3, 0);
    assert_eq!(out.len(), 1);
    assert_eq!(out[0].text, "one_two_three");
    assert_eq!(out[0].reassembled_block_count, 3);
    assert_eq!(out[0].timestamp, 9);
    assert_eq!(out[0].label, *b"5Z");
    assert_eq!(out[0].block_id, 3);
    assert_eq!(out[0].flight_id.as_deref(), Some("UA1"));
    assert!(out[0].end_of_message);
}

#[test]
fn blocks_with_equal_ids_keep_arrival_order() {
    let mut a = MessageAssembler::new();
    let _ = a.observe(make_msg(".N1", "M8", 1, false, "x"), 0);
    let _ = a.observe(make_msg(".N1", "M8", 1, false, "y"), 0);
    let out = a.observe(make_msg(".N1", "M8", 2, true, "z"), 0);
    assert_eq!(out[0].text, "xyz");
}

#[test]
fn empty_aircraft_passes_through() {
    let mut a = MessageAssembler::new();
    let out = a.observe(make_msg("", "M1", 1, false, "X"), 0);
    assert_eq!(out.len(), 1);
    assert!(!out[0].end_of_message);
    assert_eq!(a.pending_count(), 0);
}

#[test]
fn flush_of_empty_assembler_is_empty() {
    let mut a = MessageAssembler::new();
    assert!(a.flush().is_empty());
    assert!(a.drain_timeouts(u128::MAX).is_empty());
}

#[test]
fn closed_message_takes_its_metadata_from_the_etx() {
    let mut a = MessageAssembler::new();
    let _ = a.observe(make_msg(".A", "M1", 3, false, "X"), 0);
    let mut etx = make_msg(".A", "M1", 2, true, "Y");
    etx.timestamp = 77;
    etx.label = *b"5Z";
    let out = a.observe(etx, 0);
    assert_eq!(out.len(), 1);
    assert_eq!(out[0].text, "YX");
    assert_eq!(out[0].reassembled_block_count, 2);
    assert_eq!(out[0].block_id, 2);
    assert!(out[0].end_of_message);
    assert_eq!(out[0].timestamp, 77);
    assert_eq!(out[0].label, *b"5Z");
    assert_eq!(a.pending_count(), 0);
}

#[test]
fn etb_blocks_in_any_order_then_etx_give_block_order_text() {
    let mut a = MessageAssembler::new();
    let _ = a.observe(make_msg(".N1", "M5", 2, false, "B"), 0);
    let _ = a.observe(make_msg(".N1", "M5", 1, false, "A"), 0);
    let out = a.observe(make_msg(".N1", "M5", 3, true, "C"), 0);
    assert_eq!(out.len(), 1);
    assert_eq!(out[0].text, "ABC");
    assert_eq!(out[0].reassembled_block_count, 3);
    assert_eq!(out[0].block_id, 3);
    assert!(out[0].end_of_message);
}
