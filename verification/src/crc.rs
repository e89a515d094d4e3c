use vstd::prelude::*;

verus! {

/// Initial value of the CRC register at frame start (KERMIT variant).
pub const ACARS_CRC_INIT: u16 = 0x0000;

/// Reflected polynomial (`0x1021` reflected), used by the LSB-first update.
pub const ACARS_CRC_POLY_REFLECTED: u16 = 0x8408;

/// One LSB-first shift of the CRC register.
pub open spec fn crc_shift(crc: u16) -> u16 {
    if crc & 1 != 0 {
        ((crc >> 1) ^ ACARS_CRC_POLY_REFLECTED) as u16
    } else {
        (crc >> 1) as u16
    }
}

/// `n` successive shifts of the CRC register.
pub open spec fn crc_shifts(crc: u16, n: nat) -> u16
    decreases n,
{
    if n == 0 {
        crc
    } else {
        crc_shift(crc_shifts(crc, (n - 1) as nat))
    }
}

/// The register after feeding one byte, LSB first.
pub open spec fn crc_step(crc: u16, byte: u8) -> u16 {
    crc_shifts(crc ^ (byte as u16), 8)
}

/// The register after feeding `bytes` in order, starting from `init`.
pub open spec fn crc_fold(init: u16, bytes: Seq<u8>) -> u16
    decreases bytes.len(),
{
    if bytes.len() == 0 {
        init
    } else {
        crc_step(crc_fold(init, bytes.drop_last()), bytes.last())
    }
}

/// CRC of a byte sequence from the ACARS initial value.
pub open spec fn crc_of(bytes: Seq<u8>) -> u16 {
    crc_fold(ACARS_CRC_INIT, bytes)
}

/// Update a running CRC-CCITT-16 register with one byte, LSB first.
pub fn update(crc: u16, byte: u8) -> (r: u16)
    ensures
        r == crc_step(crc, byte),
{
    let mut c: u16 = crc ^ (byte as u16);
    let mut i: usize = 0;
    while i < 8
        invariant
            i <= 8,
            c == crc_shifts(crc ^ (byte as u16), i as nat),
        decreases 8 - i,
    {
        if c & 1 != 0 {
            c = (c >> 1) ^ ACARS_CRC_POLY_REFLECTED;
        } else {
            c = c >> 1;
        }
        i = i + 1;
    }
    c
}

/// CRC over a byte slice from the standard ACARS initial value.
pub fn compute(bytes: &[u8]) -> (r: u16)
    ensures
        r == crc_of(bytes@),
{
    let mut c: u16 = ACARS_CRC_INIT;
    let mut i: usize = 0;
    while i < bytes.len()
        invariant
            i <= bytes@.len(),
            c == crc_fold(ACARS_CRC_INIT, bytes@.subrange(0, i as int)),
        decreases bytes.len() - i,
    {
        proof {
            assert(bytes@.subrange(0, i + 1).drop_last() =~= bytes@.subrange(0, i as int));
        }
        c = update(c, bytes[i]);
        i = i + 1;
    }
    proof {
        assert(bytes@.subrange(0, bytes@.len() as int) =~= bytes@);
    }
    c
}


/// Folding a sequence followed by two more bytes is folding the sequence,
/// then the two bytes.
pub proof fn lemma_crc_of_append_two(bytes: Seq<u8>, x: u8, y: u8)
    ensures
        crc_of(bytes + seq![x, y]) == crc_step(crc_step(crc_of(bytes), x), y),
{
    let full = bytes + seq![x, y];
    assert(full.drop_last() =~= bytes.push(x));
    assert(full.drop_last().drop_last() =~= bytes);
    assert(crc_fold(ACARS_CRC_INIT, full.drop_last()) == crc_step(crc_of(bytes), x));
}

/// Shifting a register whose low byte is clear never taps the polynomial.
proof fn lemma_shifts_clear_low_byte(x: u16, n: nat)
    requires
        x & 0xff == 0,
        n <= 8,
    ensures
        crc_shifts(x, n) == x >> (n as u16),
    decreases n,
{
    if n == 0 {
        assert(x >> 0u16 == x) by (bit_vector);
    } else {
        let k: u16 = (n - 1) as u16;
        lemma_shifts_clear_low_byte(x, (n - 1) as nat);
        let y: u16 = x >> k;
        assert(y & 1 == 0 && (y >> 1u16) == x >> ((k + 1) as u16)) by (bit_vector)
            requires x & 0xff == 0, k < 8, y == x >> k;
        assert(crc_shifts(x, n) == crc_shift(y));
        assert((k + 1) as u16 == n as u16);
    }
}

/// Feeding a register's own low byte leaves its high byte.
proof fn lemma_step_own_low_byte(c: u16)
    ensures
        crc_step(c, (c & 0xff) as u8) == c >> 8u16,
{
    let x: u16 = c ^ (((c & 0xff) as u8) as u16);
    assert(x & 0xff == 0 && x >> 8u16 == c >> 8u16) by (bit_vector)
        requires x == c ^ (((c & 0xff) as u8) as u16);
    lemma_shifts_clear_low_byte(x, 8);
}

/// Feeding a register that is below 256 its own value clears it.
proof fn lemma_step_own_value(h: u16)
    requires
        h < 256,
    ensures
        crc_step(h, h as u8) == 0,
{
    let x: u16 = h ^ ((h as u8) as u16);
    assert(x == 0 && x & 0xff == 0 && x >> 8u16 == 0) by (bit_vector)
        requires x == h ^ ((h as u8) as u16), h < 256;
    lemma_shifts_clear_low_byte(x, 8);
}

/// Receiver property: folding a payload followed by its own CRC,
/// low byte first, gives a zero register.
pub proof fn lemma_crc_of_payload_and_bcs_is_zero(payload: Seq<u8>)
    ensures
        crc_of(payload + seq![(crc_of(payload) & 0xff) as u8, (crc_of(payload) >> 8u16) as u8]) == 0,
{
    let c = crc_of(payload);
    let lo = (c & 0xff) as u8;
    let hi = (c >> 8u16) as u8;
    let full = payload + seq![lo, hi];
    assert(full.drop_last() =~= payload.push(lo));
    assert(full.drop_last().drop_last() =~= payload);
    assert(crc_fold(ACARS_CRC_INIT, full.drop_last()) == crc_step(c, lo));
    assert(crc_of(full) == crc_step(crc_step(c, lo), hi));
    lemma_step_own_low_byte(c);
    assert((c >> 8u16) < 256 && ((c >> 8u16) as u8) as u16 == c >> 8u16) by (bit_vector);
    lemma_step_own_value(c >> 8u16);
}

} // verus!
