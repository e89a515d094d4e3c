use sdr_acars::crc::compute;
use sdr_acars::frame::{has_odd_parity, FrameParser, DLE, SOH, SYN, SYN_INV};

/// Set bit 7 where needed so that every byte has odd parity.
fn add_odd_parity(bytes: &mut [u8]) {
    for b in bytes.iter_mut() {
        if (b.count_ones() & 1) == 0 {
            *b |= 0x80;
        }
    }
}

/// A known-good frame: address ".N12345", label "H1", the given block id
/// and text, closed by ETX, with its BCS.
fn synthesize_frame(block_id: u8, text: &[u8]) -> Vec<u8> {
    let mut buf = vec![0x16, 0x16, 0x01];
    buf.push(b'2');
    buf.extend_from_slice(b".N12345");
    buf.push(b'!');
    buf.extend_from_slice(b"H1");
    buf.push(block_id);
    buf.push(0x02);
    buf.extend_from_slice(text);
    buf.push(0x03);
    let payload_start = 3;
    let payload_end = buf.len();
    add_odd_parity(&mut buf[payload_start..payload_end]);
    let crc = compute(&buf[payload_start..payload_end]);
    buf.push((crc & 0xFF) as u8);
    buf.push((crc >> 8) as u8);
    buf
}

fn synthesize_minimal_frame() -> Vec<u8> {
    synthesize_frame(b'A', b"TEST")
}

/// The bits of `bytes`, least significant bit first.
fn bits_of(bytes: &[u8]) -> Vec<bool> {
    let mut bits = Vec::new();
    for &b in bytes {
        for i in 0..8 {
            bits.push((b >> i) & 1 == 1);
        }
    }
    bits
}

#[test]
fn parses_a_known_good_uplink_frame() {
    let bytes = synthesize_minimal_frame();
    let mut parser = FrameParser::new(0, 0);
    let decoded = parser.feed_bytes(&bytes);

    assert_eq!(decoded.len(), 1, "expected exactly one frame");
    let msg = &decoded[0];
    assert_eq!(msg.mode, b'2');
    assert_eq!(&msg.aircraft[..], ".N12345");
    assert_eq!(msg.label, *b"H1");
    assert_eq!(msg.block_id, b'A');
    assert_eq!(msg.ack, b'!');
    assert_eq!(msg.text, "TEST");
    assert!(msg.end_of_message);
    assert_eq!(msg.channel_idx, 0);
    assert!(msg.flight_id.is_none(), "uplink has no flight_id");
    assert!(msg.message_no.is_none(), "uplink has no message_no");
}

#[test]
fn parses_a_known_good_downlink_frame() {
    let bytes = synthesize_frame(b'0', b"S64ABA031TBODY");
    let mut parser = FrameParser::new(0, 0);
    let decoded = parser.feed_bytes(&bytes);

    assert_eq!(decoded.len(), 1, "expected exactly one frame");
    let msg = &decoded[0];
    assert_eq!(msg.block_id, b'0');
    assert_eq!(msg.message_no.as_deref(), Some("S64A"));
    assert_eq!(msg.flight_id.as_deref(), Some("BA031T"));
    assert_eq!(msg.text, "BODY");
}

#[test]
fn rejects_a_corrupted_frame_when_fec_cant_recover() {
    let mut bytes = synthesize_minimal_frame();
    let n = bytes.len();
    bytes[n - 2] = 0x00;
    bytes[n - 1] = 0x00;

    let mut parser = FrameParser::new(0, 0);
    let decoded = parser.feed_bytes(&bytes);

    assert!(decoded.is_empty(), "corrupted frame must not decode");
}

#[test]
fn ignores_bytes_outside_a_frame() {
    let mut parser = FrameParser::new(0, 0);
    let decoded = parser.feed_bytes(b"\x00\xFF\x00\xFF\x00");
    assert!(decoded.is_empty());
}

#[test]
fn dle_recovery_drops_stale_parity_offsets() {
    let mut bytes = vec![SYN, SYN, SOH];
    bytes.extend(std::iter::repeat_n(0x80, 22));
    bytes.extend_from_slice(&[0x00, 0x00, 0x00]);
    bytes.push(DLE);

    let mut parser = FrameParser::new(0, 0);
    let decoded = parser.feed_bytes(&bytes);
    assert!(
        decoded.is_empty(),
        "synthetic DLE-recovery frame must not decode"
    );
}

#[test]
fn stamps_channel_and_frequency_and_counts_no_errors() {
    let bytes = synthesize_minimal_frame();
    let mut parser = FrameParser::new(3, 131_550_000);
    let decoded = parser.feed_bytes(&bytes);
    assert_eq!(decoded.len(), 1);
    assert_eq!(decoded[0].channel_idx, 3);
    assert_eq!(decoded[0].freq_hz, 131_550_000);
    assert_eq!(decoded[0].error_count, 0);
    assert_eq!(decoded[0].level_tenths_db, 0);
    assert_eq!(decoded[0].reassembled_block_count, 1);
    assert!(decoded[0].parsed.is_none());
}

#[test]
fn etb_closed_frame_is_not_final() {
    let mut bytes = synthesize_minimal_frame();
    // Replace the closing ETX with ETB and recompute the BCS.
    let n = bytes.len();
    bytes.truncate(n - 2);
    let last = bytes.len() - 1;
    bytes[last] = 0x17;
    add_odd_parity(&mut bytes[last..]);
    let crc = compute(&bytes[3..]);
    bytes.push((crc & 0xFF) as u8);
    bytes.push((crc >> 8) as u8);
    let mut parser = FrameParser::new(0, 0);
    let decoded = parser.feed_bytes(&bytes);
    assert_eq!(decoded.len(), 1);
    assert!(!decoded[0].end_of_message);
}

#[test]
fn single_bit_error_in_a_parity_flagged_character_is_corrected() {
    let mut bytes = synthesize_minimal_frame();
    // Flip one bit of the first text character ('T'): its parity turns even.
    let pos = 3 + 13;
    bytes[pos] ^= 0x04;
    let mut parser = FrameParser::new(0, 0);
    let decoded = parser.feed_bytes(&bytes);
    assert_eq!(decoded.len(), 1);
    assert_eq!(decoded[0].text, "TEST");
    assert_eq!(decoded[0].error_count, 1);
}

#[test]
fn two_frames_in_a_row_both_decode() {
    let mut bytes = synthesize_frame(b'A', b"ONE");
    bytes.extend(synthesize_frame(b'B', b"TWO"));
    let mut parser = FrameParser::new(0, 0);
    let decoded = parser.feed_bytes(&bytes);
    assert_eq!(decoded.len(), 2);
    assert_eq!(decoded[0].text, "ONE");
    assert_eq!(decoded[1].text, "TWO");
}

#[test]
fn bit_by_bit_feeding_finds_the_frame_after_noise() {
    let mut bytes = vec![0x55, 0xAA, 0x00];
    bytes.extend(synthesize_minimal_frame());
    let mut parser = FrameParser::new(0, 0);
    for bit in bits_of(&bytes) {
        parser.put_bit(bit);
    }
    let decoded = parser.drain();
    assert_eq!(decoded.len(), 1);
    assert_eq!(decoded[0].text, "TEST");
    assert!(parser.drain().is_empty());
}

#[test]
fn inverted_syn_requests_a_polarity_flip() {
    let mut parser = FrameParser::new(0, 0);
    assert!(!parser.take_polarity_flip());
    let _ = parser.feed_bytes(&[SYN_INV]);
    assert!(parser.take_polarity_flip());
    assert!(!parser.take_polarity_flip());
}

#[test]
fn odd_parity_check() {
    assert!(has_odd_parity(0x80));
    assert!(has_odd_parity(0x83));
    assert!(!has_odd_parity(0x00));
    assert!(!has_odd_parity(0x03));
    assert!(has_odd_parity(0x7F));
}

#[test]
fn fresh_parser_decodes_a_frame_fed_bit_by_bit() {
    let bytes = synthesize_frame(b'2', b"M01AUA0001HELLO");
    let mut parser = FrameParser::new(1, 130_025_000);
    for bit in bits_of(&bytes) {
        parser.put_bit(bit);
    }
    let decoded = parser.drain();
    assert_eq!(decoded.len(), 1);
    assert_eq!(decoded[0].message_no.as_deref(), Some("M01A"));
    assert_eq!(decoded[0].flight_id.as_deref(), Some("UA0001"));
    assert_eq!(decoded[0].text, "HELLO");
    assert_eq!(decoded[0].error_count, 0);
}

#[test]
fn noise_without_syn_bytes_decodes_nothing() {
    let noise: Vec<u8> = (0u8..=255).filter(|&b| b != SYN && b != SYN_INV).collect();
    let mut parser = FrameParser::new(0, 0);
    assert!(parser.feed_bytes(&noise).is_empty());
    // The parser is still hunting: a frame right after the noise decodes.
    assert_eq!(parser.feed_bytes(&synthesize_minimal_frame()).len(), 1);
}

/// SYN SYN SOH, `n` odd-parity characters and ETX, then the BCS.
fn frame_of_length(n: usize) -> Vec<u8> {
    let mut body = vec![0x80u8; n];
    body.push(0x83);
    let crc = compute(&body);
    let mut bytes = vec![SYN, SYN, SOH];
    bytes.extend_from_slice(&body);
    bytes.push((crc & 0xFF) as u8);
    bytes.push((crc >> 8) as u8);
    bytes
}

#[test]
fn longest_frame_is_240_bytes_through_the_closing_byte() {
    let mut parser = FrameParser::new(0, 0);
    assert_eq!(parser.feed_bytes(&frame_of_length(239)).len(), 1);
    for n in [240, 241] {
        let mut parser = FrameParser::new(0, 0);
        assert!(parser.feed_bytes(&frame_of_length(n)).is_empty(), "n = {n}");
        // The parser is hunting for SYN again: a good frame decodes.
        assert_eq!(parser.feed_bytes(&synthesize_minimal_frame()).len(), 1);
    }
}

#[test]
fn frame_is_found_after_any_number_of_zero_bits() {
    let bytes = synthesize_frame(b'A', b"SYNC");
    for k in 0..24 {
        let mut parser = FrameParser::new(0, 0);
        for _ in 0..k {
            parser.put_bit(false);
        }
        for bit in bits_of(&bytes) {
            parser.put_bit(bit);
        }
        let decoded = parser.drain();
        assert_eq!(decoded.len(), 1, "k = {k}");
        assert_eq!(decoded[0].text, "SYNC");
    }
}

#[test]
fn short_checking_body_is_not_accepted() {
    // Twelve characters and ETX is one short of the minimum.
    let mut body = vec![0x80u8; 11];
    body.push(0x83);
    let crc = compute(&body);
    let mut bytes = vec![SYN, SYN, SOH];
    bytes.extend_from_slice(&body);
    bytes.push((crc & 0xFF) as u8);
    bytes.push((crc >> 8) as u8);
    let mut parser = FrameParser::new(0, 0);
    assert!(parser.feed_bytes(&bytes).is_empty());
}
