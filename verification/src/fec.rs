//! Forward error correction for ACARS frames whose CRC check fails.
use vstd::prelude::*;
use crate::crc::{compute, update, crc_of, crc_step, lemma_crc_of_append_two};

verus! {

/// Most parity-flagged characters a frame may carry and still be a
/// candidate for parity-guided correction.
pub const MAX_PARITY_ERRORS: usize = 3;

/// `x` with bit `i` (0..8) inverted.
pub open spec fn flip_bit(x: u8, i: int) -> u8 {
    x ^ (1u8 << (i as u8))
}

/// The frame bytes followed by the two BCS bytes fold to a zero register.
pub open spec fn crc_valid(buf: Seq<u8>, bcs0: u8, bcs1: u8) -> bool {
    crc_of(buf + seq![bcs0, bcs1]) == 0
}

/// Inverting bit `bit` of the BCS (0..8 in the first byte, 8..16 in the
/// second) makes the frame check.
pub open spec fn bcs_bit_fixes(buf: Seq<u8>, bcs0: u8, bcs1: u8, bit: int) -> bool {
    if bit < 8 {
        crc_valid(buf, flip_bit(bcs0, bit), bcs1)
    } else {
        crc_valid(buf, bcs0, flip_bit(bcs1, bit - 8))
    }
}

/// The only error is a single flipped bit inside the BCS itself; the frame
/// bytes are intact.
pub open spec fn error_in_bcs_only(buf: Seq<u8>, bcs0: u8, bcs1: u8) -> bool {
    exists|bit: int| 0 <= bit < 16 && #[trigger] bcs_bit_fixes(buf, bcs0, bcs1, bit)
}

/// `buf` with bits `i` and `j` of byte `k` inverted.
pub open spec fn double_flip(buf: Seq<u8>, k: int, i: int, j: int) -> Seq<u8> {
    buf.update(k, flip_bit(flip_bit(buf[k], i), j))
}

/// Inverting two distinct bits of byte `k` (which keeps its parity) makes
/// the frame check.
pub open spec fn double_fix(buf: Seq<u8>, bcs0: u8, bcs1: u8, k: int, i: int, j: int) -> bool {
    &&& 0 <= k < buf.len()
    &&& 0 <= i < 8
    &&& 0 <= j < 8
    &&& i != j
    &&& crc_valid(double_flip(buf, k, i, j), bcs0, bcs1)
}

/// `(k2, i2, j2)` comes before `(k, i, j)` in the search order.
pub open spec fn earlier3(k2: int, i2: int, j2: int, k: int, i: int, j: int) -> bool {
    k2 < k || (k2 == k && (i2 < i || (i2 == i && j2 < j)))
}

/// `(k, i, j)` is the first double-bit correction in search order.
pub open spec fn first_double_fix(buf: Seq<u8>, bcs0: u8, bcs1: u8, k: int, i: int, j: int) -> bool {
    &&& double_fix(buf, bcs0, bcs1, k, i, j)
    &&& forall|k2: int, i2: int, j2: int|
        earlier3(k2, i2, j2, k, i, j) ==> !#[trigger] double_fix(buf, bcs0, bcs1, k2, i2, j2)
}

/// The BCS bytes with bit `bit` flipped fold a zero register.
fn bcs_single_error(buf: &[u8], bcs0: u8, bcs1: u8) -> (r: bool)
    ensures
        r == error_in_bcs_only(buf@, bcs0, bcs1),
{
    let base = compute(buf);
    let mut bit: u8 = 0;
    while bit < 16
        invariant
            bit <= 16,
            base == crc_of(buf@),
            forall|b: int| 0 <= b < bit ==> !#[trigger] bcs_bit_fixes(buf@, bcs0, bcs1, b),
        decreases 16 - bit,
    {
        let x: u8;
        let y: u8;
        if bit < 8 {
            x = bcs0 ^ (1u8 << bit);
            y = bcs1;
        } else {
            x = bcs0;
            y = bcs1 ^ (1u8 << (bit - 8));
        }
        let c = update(update(base, x), y);
        proof {
            lemma_crc_of_append_two(buf@, x, y);
        }
        if c == 0 {
            assert(bcs_bit_fixes(buf@, bcs0, bcs1, bit as int));
            return true;
        }
        bit = bit + 1;
    }
    false
}

/// Whether the frame plus BCS checks.
pub fn frame_checks(buf: &[u8], bcs0: u8, bcs1: u8) -> (r: bool)
    ensures
        r == crc_valid(buf@, bcs0, bcs1),
{
    let c = update(update(compute(buf), bcs0), bcs1);
    proof {
        lemma_crc_of_append_two(buf@, bcs0, bcs1);
    }
    c == 0
}

/// Recover a frame with no parity-flagged character whose CRC fails: accept
/// it unchanged when the only error is one bit inside the BCS; otherwise
/// correct the first pair of distinct bits within one byte (in byte, then
/// bit, then bit order) whose inversion makes the frame check. Returns
/// `false`, leaving the bytes unchanged, when neither applies.
pub fn fix_double_error(buf: &mut Vec<u8>, bcs0: u8, bcs1: u8) -> (r: bool)
    ensures
        error_in_bcs_only(old(buf)@, bcs0, bcs1) ==> r && final(buf)@ == old(buf)@,
        !error_in_bcs_only(old(buf)@, bcs0, bcs1) ==> (r <==> exists|k: int, i: int, j: int|
            #[trigger] double_fix(old(buf)@, bcs0, bcs1, k, i, j)),
        !error_in_bcs_only(old(buf)@, bcs0, bcs1) && r ==> exists|k: int, i: int, j: int|
            #[trigger] first_double_fix(old(buf)@, bcs0, bcs1, k, i, j) && final(buf)@
                == double_flip(old(buf)@, k, i, j),
        !r ==> final(buf)@ == old(buf)@,
{
    if bcs_single_error(buf.as_slice(), bcs0, bcs1) {
        return true;
    }
    let ghost b0 = buf@;
    let n = buf.len();
    let mut k: usize = 0;
    while k < n
        invariant
            n == b0.len(),
            buf@ == b0,
            b0 == old(buf)@,
            k <= n,
            !error_in_bcs_only(b0, bcs0, bcs1),
            forall|k2: int, i2: int, j2: int|
                k2 < k ==> !#[trigger] double_fix(b0, bcs0, bcs1, k2, i2, j2),
        decreases n - k,
    {
        let orig = buf[k];
        let mut i: u8 = 0;
        while i < 8
            invariant
                n == b0.len(),
                buf@ == b0,
                b0 == old(buf)@,
                k < n,
                i <= 8,
                orig == b0[k as int],
                !error_in_bcs_only(b0, bcs0, bcs1),
                forall|k2: int, i2: int, j2: int|
                    (k2 < k || (k2 == k && i2 < i)) ==> !#[trigger] double_fix(
                        b0,
                        bcs0,
                        bcs1,
                        k2,
                        i2,
                        j2,
                    ),
            decreases 8 - i,
        {
            let mut j: u8 = 0;
            while j < 8
                invariant
                    n == b0.len(),
                    buf@ == b0,
                    b0 == old(buf)@,
                    k < n,
                    i < 8,
                    j <= 8,
                    orig == b0[k as int],
                    !error_in_bcs_only(b0, bcs0, bcs1),
                    forall|k2: int, i2: int, j2: int|
                        earlier3(k2, i2, j2, k as int, i as int, j as int) ==> !#[trigger] double_fix(
                            b0,
                            bcs0,
                            bcs1,
                            k2,
                            i2,
                            j2,
                        ),
                decreases 8 - j,
            {
                if i != j {
                    let v = (orig ^ (1u8 << i)) ^ (1u8 << j);
                    buf[k] = v;
                    assert(buf@ == double_flip(b0, k as int, i as int, j as int));
                    if frame_checks(buf.as_slice(), bcs0, bcs1) {
                        assert(first_double_fix(b0, bcs0, bcs1, k as int, i as int, j as int));
                        assert(double_fix(b0, bcs0, bcs1, k as int, i as int, j as int));
                        return true;
                    }
                    buf[k] = orig;
                    assert(buf@ =~= b0);
                }
                j = j + 1;
            }
            i = i + 1;
        }
        k = k + 1;
    }
    false
}

/// There is only one first double-bit correction.
pub proof fn lemma_first_double_fix_unique(
    buf: Seq<u8>,
    bcs0: u8,
    bcs1: u8,
    k: int,
    i: int,
    j: int,
    k2: int,
    i2: int,
    j2: int,
)
    requires
        first_double_fix(buf, bcs0, bcs1, k, i, j),
        first_double_fix(buf, bcs0, bcs1, k2, i2, j2),
    ensures
        k == k2 && i == i2 && j == j2,
{
    if earlier3(k2, i2, j2, k, i, j) {
        assert(!double_fix(buf, bcs0, bcs1, k2, i2, j2));
    } else if earlier3(k, i, j, k2, i2, j2) {
        assert(!double_fix(buf, bcs0, bcs1, k, i, j));
    }
}

/// `8^n`.
pub open spec fn pow8(n: nat) -> nat
    decreases n,
{
    if n == 0 {
        1
    } else {
        8 * pow8((n - 1) as nat)
    }
}

/// The bit chosen for the `m`-th flagged character by candidate `c` among
/// `n` flagged characters: digit `m` of `c` in base 8, most significant
/// first.
pub open spec fn chosen_bit(c: nat, n: nat, m: nat) -> nat {
    (c / pow8((n - 1 - m) as nat)) % 8
}

/// `buf` with the chosen bit of each of the first `m` flagged characters
/// inverted.
pub open spec fn apply_flips(buf: Seq<u8>, pos: Seq<usize>, c: nat, m: nat) -> Seq<u8>
    decreases m,
{
    if m == 0 {
        buf
    } else {
        let b = apply_flips(buf, pos, c, (m - 1) as nat);
        let p = pos[m - 1] as int;
        b.update(p, flip_bit(b[p], chosen_bit(c, pos.len(), (m - 1) as nat) as int))
    }
}

/// Candidate `c` (one bit per flagged character) makes the frame check,
/// either outright or with a single remaining error inside the BCS.
pub open spec fn parity_fix(buf: Seq<u8>, bcs0: u8, bcs1: u8, pos: Seq<usize>, c: nat) -> bool {
    let f = apply_flips(buf, pos, c, pos.len());
    crc_valid(f, bcs0, bcs1) || error_in_bcs_only(f, bcs0, bcs1)
}

fn exec_pow8(n: usize) -> (r: usize)
    requires
        n <= MAX_PARITY_ERRORS,
    ensures
        r == pow8(n as nat),
        r <= 512,
{
    let mut r: usize = 1;
    let mut i: usize = 0;
    while i < n
        invariant
            i <= n <= MAX_PARITY_ERRORS,
            r == pow8(i as nat),
        decreases n - i,
    {
        proof {
            reveal_with_fuel(pow8, 4);
            assert(i < 3);
            assert(r <= 64) by {
                if i == 0 {
                } else if i == 1 {
                } else {
                }
            }
        }
        r = r * 8;
        i = i + 1;
    }
    proof {
        reveal_with_fuel(pow8, 4);
        assert(r <= 512) by {
            if n == 0 {
            } else if n == 1 {
            } else if n == 2 {
            } else {
            }
        }
    }
    r
}

/// Recover a frame whose CRC fails using its parity-flagged characters
/// (at positions `pos`, each known to hold an odd number of flipped bits):
/// try inverting one bit in each flagged character, candidates in
/// lexicographic order of the chosen bits, and keep the first candidate
/// that checks outright or with one remaining error inside the BCS. More
/// than [`MAX_PARITY_ERRORS`] flagged characters are not corrected. Returns
/// `false`, leaving the bytes unchanged, when no candidate applies.
pub fn fix_parity_errors(buf: &mut Vec<u8>, bcs0: u8, bcs1: u8, pos: &[usize]) -> (r: bool)
    requires
        forall|m: int| 0 <= m < pos@.len() ==> (pos@[m] as int) < old(buf)@.len(),
    ensures
        r <==> (pos@.len() <= MAX_PARITY_ERRORS && exists|c: nat|
            c < pow8(pos@.len()) && #[trigger] parity_fix(old(buf)@, bcs0, bcs1, pos@, c)),
        r ==> exists|c: nat|
            c < pow8(pos@.len()) && #[trigger] parity_fix(old(buf)@, bcs0, bcs1, pos@, c) && (
            forall|c2: nat| c2 < c ==> !#[trigger] parity_fix(old(buf)@, bcs0, bcs1, pos@, c2))
                && final(buf)@ == apply_flips(old(buf)@, pos@, c, pos@.len()),
        !r ==> final(buf)@ == old(buf)@,
{
    let n = pos.len();
    if n > MAX_PARITY_ERRORS {
        return false;
    }
    let ghost b0 = buf@;
    let total = exec_pow8(n);
    let mut c: usize = 0;
    while c < total
        invariant
            buf@ == b0,
            b0 == old(buf)@,
            n == pos@.len(),
            n <= MAX_PARITY_ERRORS,
            total == pow8(n as nat),
            c <= total,
            forall|m: int| 0 <= m < pos@.len() ==> (pos@[m] as int) < b0.len(),
            forall|c2: nat| c2 < c ==> !#[trigger] parity_fix(b0, bcs0, bcs1, pos@, c2),
        decreases total - c,
    {
        let cand = candidate(buf, pos, c);
        let ok = frame_checks(cand.as_slice(), bcs0, bcs1) || bcs_single_error(
            cand.as_slice(),
            bcs0,
            bcs1,
        );
        if ok {
            assert(parity_fix(b0, bcs0, bcs1, pos@, c as nat));
            *buf = cand;
            return true;
        }
        c = c + 1;
    }
    false
}

/// The candidate correction `c` applied to a copy of `buf`.
fn candidate(buf: &Vec<u8>, pos: &[usize], c: usize) -> (r: Vec<u8>)
    requires
        pos@.len() <= MAX_PARITY_ERRORS,
        c < pow8(pos@.len()),
        forall|m: int| 0 <= m < pos@.len() ==> (pos@[m] as int) < buf@.len(),
    ensures
        r@ == apply_flips(buf@, pos@, c as nat, pos@.len()),
{
    let n = pos.len();
    let mut r = buf.clone();
    assert(r@ =~= buf@);
    let mut m: usize = 0;
    while m < n
        invariant
            n == pos@.len() <= MAX_PARITY_ERRORS,
            c < pow8(n as nat),
            m <= n,
            forall|q: int| 0 <= q < pos@.len() ==> (pos@[q] as int) < buf@.len(),
            r@ == apply_flips(buf@, pos@, c as nat, m as nat),
            r@.len() == buf@.len(),
        decreases n - m,
    {
        let scale = exec_pow8(n - 1 - m);
        let bit = (c / scale) % 8;
        let p = pos[m];
        let old_byte = r[p];
        r[p] = old_byte ^ (1u8 << (bit as u8));
        proof {
            assert(bit as nat == chosen_bit(c as nat, n as nat, m as nat));
        }
        m = m + 1;
    }
    r
}

} // verus!
