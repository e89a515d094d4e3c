use sdr_acars::crc::{compute, update};

#[test]
fn crc_matches_known_test_vector() {
    // CRC-CCITT (KERMIT) "123456789": the raw register is 0x2189 (the
    // published 0x8921 reads the low-byte-first wire order MSB first).
    let crc = compute(b"123456789");
    assert_eq!(crc, 0x2189, "raw KERMIT register for '123456789'");
}

#[test]
fn crc_is_zero_after_appending_its_own_value() {
    let payload = b"HELLO ACARS";
    let crc = compute(payload);
    let mut frame = payload.to_vec();
    frame.push((crc & 0xff) as u8);
    frame.push((crc >> 8) as u8);
    assert_eq!(compute(&frame), 0);
}

#[test]
fn crc_of_empty_input_is_zero() {
    assert_eq!(compute(b""), 0);
}

#[test]
fn compute_folds_update_byte_by_byte() {
    let bytes = b"ACARS";
    let mut crc: u16 = 0;
    for &b in bytes {
        crc = update(crc, b);
    }
    assert_eq!(crc, compute(bytes));
}

#[test]
fn update_of_zero_register_and_zero_byte_is_zero() {
    assert_eq!(update(0, 0), 0);
}

#[test]
fn crc_law_holds_for_every_short_payload_prefix() {
    let payload = b"\x02.N12345!H1A\x02TEST\x83";
    for n in 0..=payload.len() {
        let p = &payload[..n];
        let crc = compute(p);
        let mut frame = p.to_vec();
        frame.push((crc & 0xff) as u8);
        frame.push((crc >> 8) as u8);
        assert_eq!(compute(&frame), 0, "prefix of length {n}");
    }
}
