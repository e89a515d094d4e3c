use sdr_acars::channel::{
    deliver_frames, deliver_timeouts, record_delivery, service_channel, ChannelActivity,
    ChannelLockState, NO_SIGNAL_FLOOR_TENTHS_DB,
};
use sdr_acars::crc::compute;
use sdr_acars::frame::{AcarsMessage, FrameParser};
use sdr_acars::reassembly::{MessageAssembler, REASSEMBLY_TIMEOUT};

fn add_odd_parity(bytes: &mut [u8]) {
    for b in bytes.iter_mut() {
        if (b.count_ones() & 1) == 0 {
            *b |= 0x80;
        }
    }
}

/// A frame with the given label, block id, closing byte and text.
fn frame(label: &[u8; 2], block_id: u8, text: &[u8], close: u8) -> Vec<u8> {
    let mut buf = vec![0x16, 0x16, 0x01];
    buf.push(b'2');
    buf.extend_from_slice(b".N12345");
    buf.push(0x15);
    buf.extend_from_slice(label);
    buf.push(block_id);
    buf.push(0x02);
    buf.extend_from_slice(text);
    buf.push(close);
    add_odd_parity(&mut buf[3..]);
    let crc = compute(&buf[3..]);
    buf.push((crc & 0xFF) as u8);
    buf.push((crc >> 8) as u8);
    buf
}

fn message(text: &str) -> AcarsMessage {
    AcarsMessage {
        timestamp: 42,
        channel_idx: 1,
        freq_hz: 131_525_000,
        level_tenths_db: -33,
        error_count: 0,
        mode: b'2',
        label: *b"Q2",
        block_id: b'A',
        ack: b'!',
        aircraft: ".N1".to_string(),
        flight_id: None,
        message_no: None,
        text: text.to_string(),
        end_of_message: true,
        reassembled_block_count: 1,
        parsed: None,
    }
}

#[test]
fn lock_state_defaults_to_idle() {
    assert_eq!(ChannelLockState::default(), ChannelLockState::Idle);
}

#[test]
fn idle_activity_is_at_the_noise_floor() {
    let a = ChannelActivity::default();
    assert_eq!(a, ChannelActivity::idle());
    assert_eq!(a.msg_count, 0);
    assert_eq!(a.last_msg_at, None);
    assert_eq!(a.level_tenths_db, NO_SIGNAL_FLOOR_TENTHS_DB);
    assert_eq!(a.lock_state, ChannelLockState::Idle);
}

#[test]
fn recording_a_delivery_counts_it_and_decodes_oooi() {
    let mut a = ChannelActivity::idle();
    let m = record_delivery(&mut a, message("KORD0830"));
    assert_eq!(a.msg_count, 1);
    assert_eq!(a.last_msg_at, Some(42));
    assert_eq!(a.level_tenths_db, -33);
    assert_eq!(a.lock_state, ChannelLockState::Locked);
    let o = m.parsed.expect("Q2 carries origin and ETA");
    assert_eq!(o.sa.as_deref(), Some("KORD"));
    assert_eq!(o.eta.as_deref(), Some("0830"));
    assert_eq!(m.text, "KORD0830");
}

#[test]
fn message_count_saturates() {
    let mut a = ChannelActivity::idle();
    a.msg_count = u32::MAX;
    let _ = record_delivery(&mut a, message("X"));
    assert_eq!(a.msg_count, u32::MAX);
}

#[test]
fn frames_flow_through_reassembly_and_are_labeled() {
    let mut parser = FrameParser::new(0, 131_550_000);
    let mut assembler = MessageAssembler::new();
    let mut activity = ChannelActivity::idle();
    let mut bytes = frame(b"Q2", b'1', b"M01AUA0001KORD", 0x17);
    bytes.extend(frame(b"Q2", b'2', b"M01AUA00010830", 0x03));
    for bit in bytes.iter().flat_map(|&b| (0..8).map(move |i| (b >> i) & 1 == 1)) {
        parser.put_bit(bit);
    }
    let out = deliver_frames(&mut parser, &mut assembler, &mut activity);
    assert_eq!(out.len(), 1);
    assert_eq!(out[0].text, "KORD0830");
    assert_eq!(out[0].reassembled_block_count, 2);
    let o = out[0].parsed.as_ref().expect("reassembled text decodes");
    assert_eq!(o.sa.as_deref(), Some("KORD"));
    assert_eq!(o.eta.as_deref(), Some("0830"));
    assert_eq!(activity.msg_count, 1);
    assert_eq!(activity.lock_state, ChannelLockState::Locked);
    assert!(parser.drain().is_empty());
    assert_eq!(assembler.pending_count(), 0);
}

#[test]
fn nothing_decoded_leaves_the_activity_alone() {
    let mut parser = FrameParser::new(0, 0);
    let mut assembler = MessageAssembler::new();
    let mut activity = ChannelActivity::idle();
    let out = deliver_frames(&mut parser, &mut assembler, &mut activity);
    assert!(out.is_empty());
    assert_eq!(activity, ChannelActivity::idle());
}

#[test]
fn timeouts_are_delivered_as_partials() {
    let mut assembler = MessageAssembler::new();
    let mut activity = ChannelActivity::idle();
    let mut etb = message("HALF");
    etb.end_of_message = false;
    etb.message_no = Some("M1".to_string());
    let _ = assembler.observe(etb, 0);
    let early = deliver_timeouts(&mut assembler, &mut activity, REASSEMBLY_TIMEOUT);
    assert!(early.is_empty());
    let late = deliver_timeouts(&mut assembler, &mut activity, REASSEMBLY_TIMEOUT + 1);
    assert_eq!(late.len(), 1);
    assert_eq!(late[0].text, "HALF");
    assert!(!late[0].end_of_message);
    assert_eq!(activity.msg_count, 1);
}

#[test]
fn a_service_pass_drains_the_parser() {
    let mut parser = FrameParser::new(4, 130_025_000);
    let mut assembler = MessageAssembler::new();
    let mut activity = ChannelActivity::idle();
    let _ = parser.feed_bytes(&[]);
    let bytes = frame(b"H1", b'A', b"HELLO", 0x03);
    for bit in bytes.iter().flat_map(|&b| (0..8).map(move |i| (b >> i) & 1 == 1)) {
        parser.put_bit(bit);
    }
    let out = service_channel(&mut parser, &mut assembler, &mut activity);
    assert_eq!(out.len(), 1);
    assert_eq!(out[0].text, "HELLO");
    assert_eq!(out[0].channel_idx, 4);
    assert_eq!(activity.msg_count, 1);
    assert!(parser.drain().is_empty());
}
