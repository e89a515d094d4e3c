//! ACARS frame parser: a bit-by-bit streaming state machine that assembles
//! bytes, finds the SYN/SYN/SOH preamble, accumulates the frame body up to
//! ETX/ETB, checks odd parity and the BCS (with error correction), and emits
//! an [`AcarsMessage`] per accepted frame.
use vstd::prelude::*;
use crate::clock::now_unix_nanos;
use crate::crc::crc_of;
use crate::fec::{
    apply_flips, crc_valid, double_fix, double_flip, earlier3, error_in_bcs_only, first_double_fix,
    fix_double_error, fix_parity_errors, flip_bit, parity_fix, pow8, MAX_PARITY_ERRORS,
};
use crate::label_parsers::{copy_opt_string, Oooi};

verus! {

/// Synchronisation character.
pub const SYN: u8 = 0x16;
/// SYN received with inverted polarity.
pub const SYN_INV: u8 = 0xE9;
/// Start of heading.
pub const SOH: u8 = 0x01;
/// End of text (with its odd-parity bit): the final block of a message.
pub const ETX: u8 = 0x83;
/// End of transmission block (with its odd-parity bit): more blocks follow.
pub const ETB: u8 = 0x97;
/// Data-link escape.
pub const DLE: u8 = 0x7F;
/// Longest frame body (mode through ETX/ETB) before the parser gives up.
pub const MAX_FRAME_LEN: usize = 240;
/// A DLE ends the body early only once the body is longer than this.
pub const DLE_ESCAPE_MIN_LEN: usize = 20;
/// Shortest accepted body: mode, address (7), ack, label (2), block id, STX
/// and the closing ETX/ETB.
pub const MIN_FRAME_LEN: usize = 13;

/// One decoded ACARS message.
#[derive(Clone, Debug)]
pub struct AcarsMessage {
    /// Wall-clock time when the closing byte arrived, in nanoseconds since
    /// the Unix epoch.
    pub timestamp: u128,
    /// Channel index this message came from.
    pub channel_idx: u8,
    /// Channel center frequency in Hz (`0` if unknown).
    pub freq_hz: u64,
    /// Signal level in tenths of a dB (the parser leaves it at `0`).
    pub level_tenths_db: i32,
    /// Number of characters flagged by the parity check.
    pub error_count: u8,
    /// Mode character.
    pub mode: u8,
    /// 2-byte label code (e.g. `H1`).
    pub label: [u8; 2],
    /// Block id.
    pub block_id: u8,
    /// Acknowledgement character (`!` for NAK).
    pub ack: u8,
    /// Aircraft registration including its leading dot (7 characters).
    pub aircraft: String,
    /// Flight id (downlink only), up to 6 characters.
    pub flight_id: Option<String>,
    /// Message number (downlink only), up to 4 characters.
    pub message_no: Option<String>,
    /// Text body.
    pub text: String,
    /// `true` when the closing byte was ETX (final block), `false` for ETB.
    pub end_of_message: bool,
    /// Number of frames merged into this message (`1` for a single block).
    pub reassembled_block_count: u8,
    /// OOOI metadata extracted from the text, once decoded.
    pub parsed: Option<Oooi>,
}

/// A copy of an optional OOOI record.
pub fn copy_opt_oooi(o: &Option<Oooi>) -> (r: Option<Oooi>)
    ensures
        r == *o,
{
    match o {
        Some(v) => Some(v.copy()),
        None => None,
    }
}

impl AcarsMessage {
    /// A field-by-field copy.
    pub fn copy(&self) -> (r: AcarsMessage)
        ensures
            r == *self,
    {
        AcarsMessage {
            timestamp: self.timestamp,
            channel_idx: self.channel_idx,
            freq_hz: self.freq_hz,
            level_tenths_db: self.level_tenths_db,
            error_count: self.error_count,
            mode: self.mode,
            label: self.label,
            block_id: self.block_id,
            ack: self.ack,
            aircraft: self.aircraft.clone(),
            flight_id: copy_opt_string(&self.flight_id),
            message_no: copy_opt_string(&self.message_no),
            text: self.text.clone(),
            end_of_message: self.end_of_message,
            reassembled_block_count: self.reassembled_block_count,
            parsed: copy_opt_oooi(&self.parsed),
        }
    }
}

/// The byte-level state of the parser.
#[derive(Clone, Copy, Debug, PartialEq, Eq, Structural)]
pub enum FrameState {
    /// Looking for the first SYN, one bit at a time.
    WaitingSyn,
    /// Looking for the second SYN.
    Syn2,
    /// Looking for SOH.
    SeekingSoh,
    /// Accumulating the body up to ETX/ETB.
    Text,
    /// Expecting the first BCS byte.
    Crc1,
    /// Expecting the second BCS byte.
    Crc2,
}

/// The abstract state of a [`FrameParser`], without its message queue.
pub struct ParserModel {
    pub state: FrameState,
    pub out_bits: u8,
    pub n_bits: u8,
    pub buf: Seq<u8>,
    pub parity_errors: Seq<usize>,
    pub parity_err_count: u8,
    pub bcs0: u8,
    pub bcs1: u8,
    pub polarity_flip_pending: bool,
}

/// An accepted frame: its (corrected) body and parity-error count.
pub struct FrameOutcome {
    pub body: Seq<u8>,
    pub error_count: u8,
}

/// Number of one bits among the `n` lowest bits of `b`.
pub open spec fn ones(b: u8, n: nat) -> nat
    decreases n,
{
    if n == 0 {
        0
    } else {
        ones(b, (n - 1) as nat) + (((b >> ((n - 1) as u8)) & 1) as nat)
    }
}

/// The byte has an odd number of one bits (a valid ACARS character).
pub open spec fn odd_parity(b: u8) -> bool {
    ones(b, 8) % 2 == 1
}

/// The positions in `s` below `n`, in order.
pub open spec fn keep_below(s: Seq<usize>, n: int) -> Seq<usize>
    decreases s.len(),
{
    if s.len() == 0 {
        s
    } else if (s.last() as int) < n {
        keep_below(s.drop_last(), n).push(s.last())
    } else {
        keep_below(s.drop_last(), n)
    }
}

/// The parser after a reset: waiting for SYN one bit at a time, all frame
/// accumulators cleared; the bit register and the polarity flag are kept.
pub open spec fn reset(m: ParserModel) -> ParserModel {
    ParserModel {
        state: FrameState::WaitingSyn,
        n_bits: 1,
        buf: seq![],
        parity_errors: seq![],
        parity_err_count: 0,
        bcs0: 0,
        bcs1: 0,
        ..m
    }
}

/// The frame body after the BCS check and error correction, or `None` when
/// the frame cannot be recovered. A body that checks is kept as is; one that
/// does not is corrected by the double-bit search when no character was
/// flagged by the parity check, and by the parity-guided search otherwise.
pub open spec fn corrected_body(buf: Seq<u8>, bcs0: u8, bcs1: u8, perr: Seq<usize>) -> Option<Seq<u8>> {
    if crc_valid(buf, bcs0, bcs1) {
        Some(buf)
    } else if perr.len() == 0 {
        if error_in_bcs_only(buf, bcs0, bcs1) {
            Some(buf)
        } else if exists|k: int, i: int, j: int| first_double_fix(buf, bcs0, bcs1, k, i, j) {
            let (k, i, j) = choose|k: int, i: int, j: int| first_double_fix(buf, bcs0, bcs1, k, i, j);
            Some(double_flip(buf, k, i, j))
        } else {
            None
        }
    } else if perr.len() <= MAX_PARITY_ERRORS && exists|c: nat|
        c < pow8(perr.len()) && parity_fix(buf, bcs0, bcs1, perr, c) {
        let c = choose|c: nat|
            c < pow8(perr.len()) && parity_fix(buf, bcs0, bcs1, perr, c) && forall|c2: nat|
                c2 < c ==> !#[trigger] parity_fix(buf, bcs0, bcs1, perr, c2);
        Some(apply_flips(buf, perr, c, perr.len()))
    } else {
        None
    }
}

/// Close the current frame: the parser resets, and the frame is accepted
/// when its body can be recovered and is at least [`MIN_FRAME_LEN`] long.
pub open spec fn finalize(m: ParserModel) -> (ParserModel, Option<FrameOutcome>) {
    (
        reset(m),
        match corrected_body(m.buf, m.bcs0, m.bcs1, m.parity_errors) {
            Some(b) => if b.len() >= MIN_FRAME_LEN {
                Some(FrameOutcome { body: b, error_count: m.parity_err_count })
            } else {
                None
            },
            None => None,
        },
    )
}

/// One body byte: append it, flag it when its parity is even (resetting
/// after more than `MAX_PARITY_ERRORS + 1` flags), move on to the BCS at
/// ETX/ETB, close the frame early at a DLE once the body is longer than
/// [`DLE_ESCAPE_MIN_LEN`] (the three bytes before the DLE being padding and
/// the BCS); the parser resets instead as soon as the body, closing byte
/// included, would grow past [`MAX_FRAME_LEN`].
pub open spec fn text_step(m: ParserModel, byte: u8) -> (ParserModel, Option<FrameOutcome>) {
    let buf = m.buf.push(byte);
    let bad = !odd_parity(byte);
    let cnt: u8 = if bad {
        if m.parity_err_count == 255 { 255 } else { (m.parity_err_count + 1) as u8 }
    } else {
        m.parity_err_count
    };
    let perr = if bad { m.parity_errors.push(m.buf.len() as usize) } else { m.parity_errors };
    let m1 = ParserModel { buf, parity_errors: perr, parity_err_count: cnt, ..m };
    if bad && (cnt as int) > MAX_PARITY_ERRORS + 1 {
        (reset(m1), None)
    } else if buf.len() > MAX_FRAME_LEN {
        (reset(m1), None)
    } else if byte == ETX || byte == ETB {
        (ParserModel { state: FrameState::Crc1, n_bits: 8, ..m1 }, None)
    } else if buf.len() > DLE_ESCAPE_MIN_LEN && byte == DLE {
        let nl = buf.len() - 3;
        let kept = keep_below(perr, nl);
        finalize(
            ParserModel {
                buf: buf.subrange(0, nl),
                bcs0: buf[nl],
                bcs1: buf[nl + 1],
                parity_errors: kept,
                parity_err_count: if kept.len() > 255 { 255 } else { kept.len() as u8 },
                ..m1
            },
        )
    } else {
        (ParserModel { n_bits: 8, ..m1 }, None)
    }
}

/// One assembled byte through the state machine.
pub open spec fn step(m: ParserModel, byte: u8) -> (ParserModel, Option<FrameOutcome>) {
    match m.state {
        FrameState::WaitingSyn => if byte == SYN {
            (ParserModel { state: FrameState::Syn2, n_bits: 8, ..m }, None)
        } else if byte == SYN_INV {
            (
                ParserModel {
                    state: FrameState::Syn2,
                    n_bits: 8,
                    polarity_flip_pending: true,
                    ..m
                },
                None,
            )
        } else {
            (ParserModel { n_bits: 1, ..m }, None)
        },
        FrameState::Syn2 => if byte == SYN {
            (ParserModel { state: FrameState::SeekingSoh, n_bits: 8, ..m }, None)
        } else if byte == SYN_INV {
            (ParserModel { n_bits: 8, polarity_flip_pending: true, ..m }, None)
        } else {
            (reset(m), None)
        },
        FrameState::SeekingSoh => if byte == SOH {
            (
                ParserModel {
                    state: FrameState::Text,
                    n_bits: 8,
                    buf: seq![],
                    parity_errors: seq![],
                    parity_err_count: 0,
                    bcs0: 0,
                    bcs1: 0,
                    ..m
                },
                None,
            )
        } else {
            (reset(m), None)
        },
        FrameState::Text => text_step(m, byte),
        FrameState::Crc1 => (ParserModel { state: FrameState::Crc2, n_bits: 8, bcs0: byte, ..m }, None),
        FrameState::Crc2 => finalize(ParserModel { bcs1: byte, ..m }),
    }
}

/// Bytes fed in order: the final state and the accepted frames.
pub open spec fn run(m: ParserModel, bytes: Seq<u8>) -> (ParserModel, Seq<FrameOutcome>)
    decreases bytes.len(),
{
    if bytes.len() == 0 {
        (m, seq![])
    } else {
        let (m1, out) = run(m, bytes.drop_last());
        let (m2, o) = step(m1, bytes.last());
        (
            m2,
            match o {
                Some(f) => out.push(f),
                None => out,
            },
        )
    }
}

/// Characters of the bytes with their parity bit stripped.
pub open spec fn seven_bit_chars(b: Seq<u8>) -> Seq<char> {
    Seq::new(b.len(), |i: int| ((b[i] & 0x7f) as u8) as char)
}

/// Block ids `0`..`9` mark downlink (aircraft-to-ground) blocks.
pub open spec fn is_downlink_block(bid: u8) -> bool {
    0x30 <= bid <= 0x39
}

/// Position of the closing ETX/ETB.
pub open spec fn text_end(body: Seq<u8>) -> int {
    body.len() - 1
}

/// The body carries the downlink prefix (message number, flight id).
pub open spec fn has_downlink_prefix(body: Seq<u8>) -> bool {
    is_downlink_block((body[11] & 0x7f) as u8) && text_end(body) > 13
}

/// End of the message number: four bytes after STX, cut at the closing byte.
pub open spec fn msgno_end(body: Seq<u8>) -> int {
    if text_end(body) < 17 { text_end(body) } else { 17 }
}

/// End of the flight id: six bytes after the message number, cut at the
/// closing byte.
pub open spec fn flight_end(body: Seq<u8>) -> int {
    if text_end(body) < 23 { text_end(body) } else { 23 }
}

/// Start of the visible text.
pub open spec fn text_start(body: Seq<u8>) -> int {
    if has_downlink_prefix(body) { flight_end(body) } else { 13 }
}

/// The acknowledgement character, NAK (0x15) shown as `!`.
pub open spec fn ack_of(b: u8) -> u8 {
    if b & 0x7f == 0x15 { 0x21 } else { (b & 0x7f) as u8 }
}

/// The second label character, DEL shown as `d`.
pub open spec fn label_second_of(b: u8) -> u8 {
    if b & 0x7f == 0x7f { 0x64 } else { (b & 0x7f) as u8 }
}

/// The message number of a body.
pub open spec fn message_no_of(body: Seq<u8>) -> Option<Seq<char>> {
    if has_downlink_prefix(body) {
        Some(seven_bit_chars(body.subrange(13, msgno_end(body))))
    } else {
        None
    }
}

/// The flight id of a body.
pub open spec fn flight_id_of(body: Seq<u8>) -> Option<Seq<char>> {
    if has_downlink_prefix(body) && msgno_end(body) < flight_end(body) {
        Some(seven_bit_chars(body.subrange(msgno_end(body), flight_end(body))))
    } else {
        None
    }
}

/// The visible text of a body.
pub open spec fn text_of(body: Seq<u8>) -> Seq<char> {
    if text_end(body) > text_start(body) {
        seven_bit_chars(body.subrange(text_start(body), text_end(body)))
    } else {
        seq![]
    }
}

/// The characters of an optional string.
pub open spec fn opt_chars(o: Option<String>) -> Option<Seq<char>> {
    match o {
        Some(s) => Some(s@),
        None => None,
    }
}

/// `msg` is the message the parser builds from accepted frame `f` on the
/// given channel (every field but the timestamp, which is the clock's).
pub open spec fn message_matches(msg: AcarsMessage, f: FrameOutcome, chan: u8, freq: u64) -> bool {
    let b = f.body;
    &&& msg.channel_idx == chan
    &&& msg.freq_hz == freq
    &&& msg.level_tenths_db == 0
    &&& msg.error_count == f.error_count
    &&& msg.mode == (b[0] & 0x7f) as u8
    &&& msg.aircraft@ == seven_bit_chars(b.subrange(1, 8))
    &&& msg.ack == ack_of(b[8])
    &&& msg.label@ == seq![(b[9] & 0x7f) as u8, label_second_of(b[10])]
    &&& msg.block_id == (b[11] & 0x7f) as u8
    &&& opt_chars(msg.message_no) == message_no_of(b)
    &&& opt_chars(msg.flight_id) == flight_id_of(b)
    &&& msg.text@ == text_of(b)
    &&& msg.end_of_message == (b[text_end(b)] & 0x7f == 0x03)
    &&& msg.reassembled_block_count == 1
    &&& msg.parsed is None
}

/// `msgs` are `prefix` followed by the messages of `frames`, in order.
pub open spec fn queued_after(
    msgs: Seq<AcarsMessage>,
    prefix: Seq<AcarsMessage>,
    frames: Seq<FrameOutcome>,
    chan: u8,
    freq: u64,
) -> bool {
    &&& msgs.len() == prefix.len() + frames.len()
    &&& forall|i: int| 0 <= i < prefix.len() ==> msgs[i] == prefix[i]
    &&& forall|i: int|
        0 <= i < frames.len() ==> message_matches(#[trigger] msgs[prefix.len() + i], frames[i], chan, freq)
}


/// The parser state after one demodulated bit: the bit enters the byte
/// register at the top (bytes arrive LSB first), and when the bit count
/// runs out the register is handed to the byte state machine.
pub open spec fn bit_step(m: ParserModel, bit: bool) -> (ParserModel, Option<FrameOutcome>) {
    let out: u8 = if bit { ((m.out_bits >> 1u8) | 0x80) as u8 } else { (m.out_bits >> 1u8) as u8 };
    let n: u8 = if m.n_bits == 0 { 0 } else { (m.n_bits - 1) as u8 };
    let m1 = ParserModel { out_bits: out, n_bits: n, ..m };
    if n == 0 {
        step(m1, out)
    } else {
        (m1, None)
    }
}

/// Odd-parity check: `true` if the byte has an odd number of one bits.
pub fn has_odd_parity(b: u8) -> (r: bool)
    ensures
        r == odd_parity(b),
{
    let mut count: u8 = 0;
    let mut i: u8 = 0;
    while i < 8
        invariant
            i <= 8,
            count as nat == ones(b, i as nat),
            count <= i,
        decreases 8 - i,
    {
        let bit = (b >> i) & 1;
        assert(bit <= 1) by (bit_vector)
            requires bit == (b >> i) & 1;
        count = count + bit;
        i = i + 1;
    }
    count % 2 == 1
}

/// The characters of `b[start..end]` with parity bits stripped.
fn seven_bit_string(b: &[u8], start: usize, end: usize) -> (s: String)
    requires
        start <= end <= b@.len(),
    ensures
        s@ == seven_bit_chars(b@.subrange(start as int, end as int)),
{
    let mut s = String::new();
    let mut i = start;
    while i < end
        invariant
            start <= i <= end <= b@.len(),
            s@ == seven_bit_chars(b@.subrange(start as int, i as int)),
        decreases end - i,
    {
        let c = (b[i] & 0x7f) as char;
        push_char(&mut s, c);
        proof {
            assert(seven_bit_chars(b@.subrange(start as int, i + 1)) =~= seven_bit_chars(
                b@.subrange(start as int, i as int),
            ).push(c));
        }
        i = i + 1;
    }
    s
}

/// `String::push`: appends one character.
#[verifier::external_body]
pub(crate) fn push_char(s: &mut String, c: char)
    ensures
        final(s)@ == old(s)@.push(c),
{
    s.push(c);
}

/// The positions in `s` below `n`, in order.
fn keep_positions_below(s: &Vec<usize>, n: usize) -> (r: Vec<usize>)
    ensures
        r@ == keep_below(s@, n as int),
{
    let mut r: Vec<usize> = Vec::new();
    let mut i: usize = 0;
    while i < s.len()
        invariant
            i <= s@.len(),
            r@ == keep_below(s@.subrange(0, i as int), n as int),
        decreases s.len() - i,
    {
        proof {
            assert(s@.subrange(0, i + 1).drop_last() =~= s@.subrange(0, i as int));
        }
        if s[i] < n {
            r.push(s[i]);
        }
        i = i + 1;
    }
    proof {
        assert(s@.subrange(0, s@.len() as int) =~= s@);
    }
    r
}

/// Build the message for an accepted frame body.
fn build_message(body: &Vec<u8>, error_count: u8, chan: u8, freq: u64) -> (msg: AcarsMessage)
    requires
        body@.len() >= MIN_FRAME_LEN,
    ensures
        message_matches(msg, FrameOutcome { body: body@, error_count }, chan, freq),
{
    let b = body.as_slice();
    let mode = b[0] & 0x7f;
    let aircraft = seven_bit_string(b, 1, 8);
    let mut ack = b[8] & 0x7f;
    if ack == 0x15 {
        ack = 0x21;
    }
    let l0 = b[9] & 0x7f;
    let mut l1 = b[10] & 0x7f;
    if l1 == 0x7f {
        l1 = 0x64;
    }
    let block_id = b[11] & 0x7f;
    let is_downlink = 0x30 <= block_id && block_id <= 0x39;
    let text_end = b.len() - 1;
    let mut message_no: Option<String> = None;
    let mut flight_id: Option<String> = None;
    let text_start: usize = if is_downlink && text_end > 13 {
        let msgno_finish = if text_end < 17 { text_end } else { 17 };
        if msgno_finish > 13 {
            message_no = Some(seven_bit_string(b, 13, msgno_finish));
        }
        let flight_finish = if text_end < 23 { text_end } else { 23 };
        if msgno_finish < flight_finish {
            flight_id = Some(seven_bit_string(b, msgno_finish, flight_finish));
        }
        flight_finish
    } else {
        13
    };
    let text = if text_end > text_start {
        seven_bit_string(b, text_start, text_end)
    } else {
        String::new()
    };
    let end_of_message = (b[text_end] & 0x7f) == 0x03;
    let label = [l0, l1];
    let msg = AcarsMessage {
        timestamp: now_unix_nanos(),
        channel_idx: chan,
        freq_hz: freq,
        level_tenths_db: 0,
        error_count,
        mode,
        label,
        block_id,
        ack,
        aircraft,
        flight_id,
        message_no,
        text,
        end_of_message,
        reassembled_block_count: 1,
        parsed: None,
    };
    proof {
        assert(msg.label@ =~= seq![(body@[9] & 0x7f) as u8, label_second_of(body@[10])]);
    }
    msg
}

/// Frame parser. One per channel.
pub struct FrameParser {
    state: FrameState,
    /// Bits accumulated for the current byte (LSB first). Kept across
    /// resets so that every new bit yields a fresh shifted candidate byte.
    out_bits: u8,
    /// Bits still needed to complete `out_bits` (1 while hunting for SYN).
    n_bits: u8,
    /// Body bytes: mode through the closing ETX/ETB.
    buf: Vec<u8>,
    /// Positions in `buf` of characters with even parity.
    parity_errors: Vec<usize>,
    /// Running parity-error count.
    parity_err_count: u8,
    /// The two BCS bytes, in wire order.
    crc_bytes: [u8; 2],
    /// Set when an inverted SYN was seen; taken by the demodulator.
    polarity_flip_pending: bool,
    /// Decoded messages awaiting `drain`.
    pending_messages: Vec<AcarsMessage>,
    /// Channel index stamped on emitted messages.
    channel_idx: u8,
    /// Channel frequency stamped on emitted messages.
    channel_freq_hz: u64,
}

impl FrameParser {
    /// Every flagged parity position lies inside the body.
    #[verifier::type_invariant]
    spec fn positions_in_body(self) -> bool {
        forall|i: int|
            0 <= i < self.parity_errors@.len() ==> (self.parity_errors@[i] as int) < self.buf@.len()
    }

    /// The abstract state.
    pub closed spec fn model(self) -> ParserModel {
        ParserModel {
            state: self.state,
            out_bits: self.out_bits,
            n_bits: self.n_bits,
            buf: self.buf@,
            parity_errors: self.parity_errors@,
            parity_err_count: self.parity_err_count,
            bcs0: self.crc_bytes@[0],
            bcs1: self.crc_bytes@[1],
            polarity_flip_pending: self.polarity_flip_pending,
        }
    }

    /// Decoded messages not yet drained.
    pub closed spec fn pending(self) -> Seq<AcarsMessage> {
        self.pending_messages@
    }

    /// Channel index stamped on messages.
    pub closed spec fn channel(self) -> u8 {
        self.channel_idx
    }

    /// Channel frequency stamped on messages.
    pub closed spec fn frequency(self) -> u64 {
        self.channel_freq_hz
    }

    /// Create a parser stamping the given channel index and frequency onto
    /// every emitted message.
    pub fn new(channel_idx: u8, channel_freq_hz: u64) -> (r: Self)
        ensures
            r.model() == (ParserModel {
                state: FrameState::WaitingSyn,
                out_bits: 0,
                n_bits: 8,
                buf: seq![],
                parity_errors: seq![],
                parity_err_count: 0,
                bcs0: 0,
                bcs1: 0,
                polarity_flip_pending: false,
            }),
            r.pending() == Seq::<AcarsMessage>::empty(),
            r.channel() == channel_idx,
            r.frequency() == channel_freq_hz,
    {
        let r = FrameParser {
            state: FrameState::WaitingSyn,
            out_bits: 0,
            n_bits: 8,
            buf: Vec::new(),
            parity_errors: Vec::new(),
            parity_err_count: 0,
            crc_bytes: [0, 0],
            polarity_flip_pending: false,
            pending_messages: Vec::new(),
            channel_idx,
            channel_freq_hz,
        };
        proof {
            assert(r.model().buf =~= seq![]);
            assert(r.model().parity_errors =~= seq![]);
        }
        r
    }

    /// Reset to look for the next frame's preamble. The bit register is
    /// left intact so that re-synchronisation proceeds bit by bit.
    fn reset_to_idle(&mut self)
        ensures
            final(self).model() == reset(old(self).model()),
            final(self).pending() == old(self).pending(),
            final(self).channel() == old(self).channel(),
            final(self).frequency() == old(self).frequency(),
    {
        proof {
            use_type_invariant(&*self);
        }
        self.state = FrameState::WaitingSyn;
        self.n_bits = 1;
        self.parity_errors = Vec::new();
        self.buf = Vec::new();
        self.parity_err_count = 0;
        self.crc_bytes = [0, 0];
        proof {
            assert(self.model().buf =~= seq![]);
            assert(self.model().parity_errors =~= seq![]);
        }
    }

    /// Polarity-flip handshake: returns whether an inverted SYN was seen
    /// since the last call, and clears the flag.
    pub fn take_polarity_flip(&mut self) -> (r: bool)
        ensures
            r == old(self).model().polarity_flip_pending,
            final(self).model() == (ParserModel {
                polarity_flip_pending: false,
                ..old(self).model()
            }),
            final(self).pending() == old(self).pending(),
            final(self).channel() == old(self).channel(),
            final(self).frequency() == old(self).frequency(),
    {
        proof {
            use_type_invariant(&*self);
        }
        let r = self.polarity_flip_pending;
        self.polarity_flip_pending = false;
        r
    }

    /// Hand out the decoded messages, oldest first, and empty the queue.
    pub fn drain(&mut self) -> (r: Vec<AcarsMessage>)
        ensures
            r@ == old(self).pending(),
            final(self).pending() == Seq::<AcarsMessage>::empty(),
            final(self).model() == old(self).model(),
            final(self).channel() == old(self).channel(),
            final(self).frequency() == old(self).frequency(),
    {
        proof {
            use_type_invariant(&*self);
        }
        let mut out: Vec<AcarsMessage> = Vec::new();
        std::mem::swap(&mut out, &mut self.pending_messages);
        out
    }

    /// Check the BCS, correct the body if needed, queue the message for an
    /// accepted frame, and reset.
    fn finalize_frame(&mut self)
        ensures
            final(self).model() == finalize(old(self).model()).0,
            final(self).channel() == old(self).channel(),
            final(self).frequency() == old(self).frequency(),
            finalize(old(self).model()).1 is None ==> final(self).pending() == old(self).pending(),
            finalize(old(self).model()).1 matches Some(f) ==> queued_after(
                final(self).pending(),
                old(self).pending(),
                seq![f],
                old(self).channel(),
                old(self).frequency(),
            ),
    {
        proof {
            use_type_invariant(&*self);
        }
        let ghost m0 = self.model();
        let (mut body, errs) = self.take_body();
        let bcs0 = self.crc_bytes[0];
        let bcs1 = self.crc_bytes[1];
        let ok = if crate::fec::frame_checks(body.as_slice(), bcs0, bcs1) {
            true
        } else if errs.len() == 0 {
            fix_double_error(&mut body, bcs0, bcs1)
        } else {
            fix_parity_errors(&mut body, bcs0, bcs1, errs.as_slice())
        };
        proof {
            let cb = corrected_body(m0.buf, m0.bcs0, m0.bcs1, m0.parity_errors);
            if crc_valid(m0.buf, bcs0, bcs1) {
                assert(ok && body@ == m0.buf && cb == Some(m0.buf));
            } else if errs@.len() == 0 {
                if error_in_bcs_only(m0.buf, bcs0, bcs1) {
                } else if ok {
                    let (k, i, j) = choose|k: int, i: int, j: int|
                        first_double_fix(m0.buf, bcs0, bcs1, k, i, j) && body@ == double_flip(m0.buf, k, i, j);
                    let (k2, i2, j2) = choose|k: int, i: int, j: int|
                        first_double_fix(m0.buf, bcs0, bcs1, k, i, j);
                    crate::fec::lemma_first_double_fix_unique(m0.buf, bcs0, bcs1, k, i, j, k2, i2, j2);
                    assert(cb == Some(body@));
                } else {
                    assert(cb is None);
                }
            } else {
                if ok {
                    let c = choose|c: nat|
                        c < pow8(errs@.len()) && parity_fix(m0.buf, bcs0, bcs1, errs@, c) && (
                        forall|c2: nat| c2 < c ==> !#[trigger] parity_fix(m0.buf, bcs0, bcs1, errs@, c2))
                            && body@ == apply_flips(m0.buf, errs@, c, errs@.len());
                    let c2 = choose|c: nat|
                        c < pow8(errs@.len()) && parity_fix(m0.buf, bcs0, bcs1, errs@, c) && forall|c2: nat|
                            c2 < c ==> !#[trigger] parity_fix(m0.buf, bcs0, bcs1, errs@, c2);
                    if c < c2 {
                        assert(!parity_fix(m0.buf, bcs0, bcs1, errs@, c));
                    } else if c2 < c {
                        assert(!parity_fix(m0.buf, bcs0, bcs1, errs@, c2));
                    }
                    assert(cb == Some(body@));
                } else {
                    assert(cb is None);
                }
            }
        }
        if !ok || body.len() < MIN_FRAME_LEN {
            self.reset_to_idle();
            return;
        }
        let msg = build_message(&body, self.parity_err_count, self.channel_idx, self.channel_freq_hz);
        let mut q: Vec<AcarsMessage> = Vec::new();
        std::mem::swap(&mut q, &mut self.pending_messages);
        q.push(msg);
        self.pending_messages = q;
        self.reset_to_idle();
    }

    /// Move the body and its parity positions out, leaving both empty.
    fn take_body(&mut self) -> (r: (Vec<u8>, Vec<usize>))
        ensures
            r.0@ == old(self).buf@,
            r.1@ == old(self).parity_errors@,
            forall|i: int| 0 <= i < r.1@.len() ==> (r.1@[i] as int) < r.0@.len(),
            final(self).buf@ == Seq::<u8>::empty(),
            final(self).parity_errors@ == Seq::<usize>::empty(),
            final(self).state == old(self).state,
            final(self).out_bits == old(self).out_bits,
            final(self).n_bits == old(self).n_bits,
            final(self).parity_err_count == old(self).parity_err_count,
            final(self).crc_bytes == old(self).crc_bytes,
            final(self).polarity_flip_pending == old(self).polarity_flip_pending,
            final(self).pending_messages == old(self).pending_messages,
            final(self).channel_idx == old(self).channel_idx,
            final(self).channel_freq_hz == old(self).channel_freq_hz,
    {
        proof {
            use_type_invariant(&*self);
        }
        let mut p: Vec<usize> = Vec::new();
        std::mem::swap(&mut p, &mut self.parity_errors);
        let mut b: Vec<u8> = Vec::new();
        std::mem::swap(&mut b, &mut self.buf);
        (b, p)
    }

    /// Put a body and its parity positions back.
    fn put_body(&mut self, b: Vec<u8>, p: Vec<usize>)
        requires
            old(self).parity_errors@ == Seq::<usize>::empty(),
            forall|i: int| 0 <= i < p@.len() ==> (p@[i] as int) < b@.len(),
        ensures
            final(self).buf@ == b@,
            final(self).parity_errors@ == p@,
            final(self).state == old(self).state,
            final(self).out_bits == old(self).out_bits,
            final(self).n_bits == old(self).n_bits,
            final(self).parity_err_count == old(self).parity_err_count,
            final(self).crc_bytes == old(self).crc_bytes,
            final(self).polarity_flip_pending == old(self).polarity_flip_pending,
            final(self).pending_messages == old(self).pending_messages,
            final(self).channel_idx == old(self).channel_idx,
            final(self).channel_freq_hz == old(self).channel_freq_hz,
    {
        self.buf = b;
        self.parity_errors = p;
    }

    /// One body byte in the `Text` state.
    fn text_byte(&mut self, byte: u8)
        requires
            old(self).state == FrameState::Text,
        ensures
            final(self).model() == text_step(old(self).model(), byte).0,
            final(self).channel() == old(self).channel(),
            final(self).frequency() == old(self).frequency(),
            text_step(old(self).model(), byte).1 is None ==> final(self).pending() == old(self).pending(),
            text_step(old(self).model(), byte).1 matches Some(f) ==> queued_after(
                final(self).pending(),
                old(self).pending(),
                seq![f],
                old(self).channel(),
                old(self).frequency(),
            ),
    {
        proof {
            use_type_invariant(&*self);
        }
        let ghost m0 = self.model();
        let (mut b, mut p) = self.take_body();
        let pos = b.len();
        b.push(byte);
        let bad = !has_odd_parity(byte);
        if bad {
            self.parity_err_count = if self.parity_err_count == 255 {
                255
            } else {
                self.parity_err_count + 1
            };
            p.push(pos);
        }
        if bad && (self.parity_err_count as usize) > MAX_PARITY_ERRORS + 1 {
            self.put_body(b, p);
            self.reset_to_idle();
            return;
        }
        if b.len() > MAX_FRAME_LEN {
            self.put_body(b, p);
            self.reset_to_idle();
            return;
        }
        if byte == ETX || byte == ETB {
            self.put_body(b, p);
            self.state = FrameState::Crc1;
            self.n_bits = 8;
            return;
        }
        if b.len() > DLE_ESCAPE_MIN_LEN && byte == DLE {
            let new_len = b.len() - 3;
            self.crc_bytes = [b[new_len], b[new_len + 1]];
            let kept = keep_positions_below(&p, new_len);
            let kept_len = kept.len();
            b.truncate(new_len);
            proof {
                lemma_keep_below(p@, new_len as int);
            }
            self.put_body(b, kept);
            self.parity_err_count = if kept_len > 255 {
                255
            } else {
                kept_len as u8
            };
            proof {
                assert(self.model().buf =~= m0.buf.push(byte).subrange(0, new_len as int));
            }
            self.finalize_frame();
            return;
        }
        self.put_body(b, p);
        self.n_bits = 8;
    }

    /// Consume one assembled byte: drive the state machine, queueing a
    /// message when a frame is accepted.
    fn consume_byte(&mut self, byte: u8)
        ensures
            final(self).model() == step(old(self).model(), byte).0,
            final(self).channel() == old(self).channel(),
            final(self).frequency() == old(self).frequency(),
            step(old(self).model(), byte).1 is None ==> final(self).pending() == old(self).pending(),
            step(old(self).model(), byte).1 matches Some(f) ==> queued_after(
                final(self).pending(),
                old(self).pending(),
                seq![f],
                old(self).channel(),
                old(self).frequency(),
            ),
    {
        proof {
            use_type_invariant(&*self);
        }
        match self.state {
            FrameState::WaitingSyn => {
                if byte == SYN {
                    self.state = FrameState::Syn2;
                    self.n_bits = 8;
                } else if byte == SYN_INV {
                    self.polarity_flip_pending = true;
                    self.state = FrameState::Syn2;
                    self.n_bits = 8;
                } else {
                    self.n_bits = 1;
                }
            },
            FrameState::Syn2 => {
                if byte == SYN {
                    self.state = FrameState::SeekingSoh;
                    self.n_bits = 8;
                } else if byte == SYN_INV {
                    self.polarity_flip_pending = true;
                    self.n_bits = 8;
                } else {
                    self.reset_to_idle();
                }
            },
            FrameState::SeekingSoh => {
                if byte == SOH {
                    self.parity_errors = Vec::new();
                    self.buf = Vec::new();
                    self.parity_err_count = 0;
                    self.crc_bytes = [0, 0];
                    self.state = FrameState::Text;
                    self.n_bits = 8;
                    proof {
                        assert(self.model().buf =~= seq![]);
                        assert(self.model().parity_errors =~= seq![]);
                    }
                } else {
                    self.reset_to_idle();
                }
            },
            FrameState::Text => {
                self.text_byte(byte);
            },
            FrameState::Crc1 => {
                self.crc_bytes = [byte, self.crc_bytes[1]];
                self.state = FrameState::Crc2;
                self.n_bits = 8;
            },
            FrameState::Crc2 => {
                self.crc_bytes = [self.crc_bytes[0], byte];
                self.finalize_frame();
            },
        }
    }

    /// Feed one demodulated bit (`true` for a one). Bytes arrive LSB first;
    /// each completed byte goes through the state machine at once, so that
    /// while hunting for SYN every bit yields a new candidate byte.
    pub fn put_bit(&mut self, bit: bool)
        ensures
            final(self).model() == bit_step(old(self).model(), bit).0,
            final(self).channel() == old(self).channel(),
            final(self).frequency() == old(self).frequency(),
            bit_step(old(self).model(), bit).1 is None ==> final(self).pending() == old(self).pending(),
            bit_step(old(self).model(), bit).1 matches Some(f) ==> queued_after(
                final(self).pending(),
                old(self).pending(),
                seq![f],
                old(self).channel(),
                old(self).frequency(),
            ),
    {
        proof {
            use_type_invariant(&*self);
        }
        self.out_bits = self.out_bits >> 1;
        if bit {
            self.out_bits = self.out_bits | 0x80;
        }
        self.n_bits = if self.n_bits == 0 {
            0
        } else {
            self.n_bits - 1
        };
        if self.n_bits == 0 {
            let byte = self.out_bits;
            self.consume_byte(byte);
        }
    }

    /// Drive the parser with whole bytes, then hand out every queued
    /// message (those queued before and those the bytes completed).
    pub fn feed_bytes(&mut self, bytes: &[u8]) -> (r: Vec<AcarsMessage>)
        ensures
            final(self).model() == run(old(self).model(), bytes@).0,
            queued_after(
                r@,
                old(self).pending(),
                run(old(self).model(), bytes@).1,
                old(self).channel(),
                old(self).frequency(),
            ),
            final(self).pending() == Seq::<AcarsMessage>::empty(),
            final(self).channel() == old(self).channel(),
            final(self).frequency() == old(self).frequency(),
    {
        let ghost m0 = self.model();
        let ghost q0 = self.pending();
        let mut i: usize = 0;
        while i < bytes.len()
            invariant
                i <= bytes@.len(),
                self.model() == run(m0, bytes@.subrange(0, i as int)).0,
                queued_after(
                    self.pending(),
                    q0,
                    run(m0, bytes@.subrange(0, i as int)).1,
                    self.channel(),
                    self.frequency(),
                ),
                self.channel() == old(self).channel(),
                self.frequency() == old(self).frequency(),
            decreases bytes.len() - i,
        {
            proof {
                assert(bytes@.subrange(0, i + 1).drop_last() =~= bytes@.subrange(0, i as int));
            }
            let ghost before = self.pending();
            let ghost mi = self.model();
            self.consume_byte(bytes[i]);
            proof {
                let prev = run(m0, bytes@.subrange(0, i as int));
                let st = step(prev.0, bytes@[i as int]);
                assert(run(m0, bytes@.subrange(0, i + 1)).0 == st.0);
                match st.1 {
                    Some(f) => {
                        assert(run(m0, bytes@.subrange(0, i + 1)).1 == prev.1.push(f));
                        lemma_queued_extend(before, self.pending(), q0, prev.1, f, self.channel(), self.frequency());
                    },
                    None => {
                        assert(run(m0, bytes@.subrange(0, i + 1)).1 == prev.1);
                    },
                }
            }
            i = i + 1;
        }
        proof {
            assert(bytes@.subrange(0, bytes@.len() as int) =~= bytes@);
        }
        self.drain()
    }
}

/// Positions kept below `n` are below `n`.
proof fn lemma_keep_below(s: Seq<usize>, n: int)
    ensures
        forall|i: int| 0 <= i < keep_below(s, n).len() ==> (keep_below(s, n)[i] as int) < n,
    decreases s.len(),
{
    if s.len() > 0 {
        lemma_keep_below(s.drop_last(), n);
        let k = keep_below(s.drop_last(), n);
        if (s.last() as int) < n {
            assert forall|i: int| 0 <= i < k.push(s.last()).len() implies (k.push(s.last())[i] as int) < n by {
                if i < k.len() {
                    assert(k.push(s.last())[i] == k[i]);
                }
            }
        }
    }
}

/// Queueing one more frame's message after a queue that already follows
/// `prefix` with `frames`.
proof fn lemma_queued_extend(
    before: Seq<AcarsMessage>,
    after: Seq<AcarsMessage>,
    prefix: Seq<AcarsMessage>,
    frames: Seq<FrameOutcome>,
    f: FrameOutcome,
    chan: u8,
    freq: u64,
)
    requires
        queued_after(before, prefix, frames, chan, freq),
        queued_after(after, before, seq![f], chan, freq),
    ensures
        queued_after(after, prefix, frames.push(f), chan, freq),
{
    let fs = frames.push(f);
    assert forall|i: int| 0 <= i < fs.len() implies message_matches(
        #[trigger] after[prefix.len() + i],
        fs[i],
        chan,
        freq,
    ) by {
        if i < frames.len() {
            assert(message_matches(before[prefix.len() + i], frames[i], chan, freq));
            assert(after[prefix.len() + i] == before[prefix.len() + i]);
            assert(fs[i] == frames[i]);
        } else {
            let z: int = 0;
            assert(message_matches(after[before.len() + z], seq![f][z], chan, freq));
            assert(before.len() + z == prefix.len() + i);
            assert(fs[i] == f);
        }
    }
    assert forall|i: int| 0 <= i < prefix.len() implies after[i] == prefix[i] by {
        assert(after[i] == before[i]);
    }
}


/// A body as the parser expects it: at least [`MIN_FRAME_LEN`] characters,
/// all with odd parity, closed by its only ETX/ETB; at most
/// [`MAX_FRAME_LEN`] bytes, closing byte included; and with no DLE past
/// the first [`DLE_ESCAPE_MIN_LEN`] characters.
pub open spec fn well_formed_body(body: Seq<u8>) -> bool {
    &&& MIN_FRAME_LEN <= body.len() <= MAX_FRAME_LEN
    &&& forall|i: int| 0 <= i < body.len() ==> odd_parity(#[trigger] body[i])
    &&& body.last() == ETX || body.last() == ETB
    &&& forall|i: int| 0 <= i < body.len() - 1 ==> #[trigger] body[i] != ETX && body[i] != ETB
    &&& forall|i: int| DLE_ESCAPE_MIN_LEN <= i < body.len() - 1 ==> #[trigger] body[i] != DLE
}

/// The bytes of a frame after the bit-level preamble: SYN, SYN, SOH, the
/// body and its two BCS bytes (low byte first).
pub open spec fn wire_frame(body: Seq<u8>) -> Seq<u8> {
    seq![SYN, SYN, SOH] + body + seq![(crc_of(body) & 0xff) as u8, (crc_of(body) >> 8u16) as u8]
}

/// Running over `a + b` runs over `a`, then over `b`.
pub proof fn lemma_run_concat(m: ParserModel, a: Seq<u8>, b: Seq<u8>)
    ensures
        run(m, a + b).0 == run(run(m, a).0, b).0,
        run(m, a + b).1 == run(m, a).1 + run(run(m, a).0, b).1,
    decreases b.len(),
{
    if b.len() == 0 {
        assert(a + b =~= a);
        assert(run(m, a).1 + run(run(m, a).0, b).1 =~= run(m, a).1);
    } else {
        lemma_run_concat(m, a, b.drop_last());
        assert((a + b).drop_last() =~= a + b.drop_last());
        assert((a + b).last() == b.last());
        let (m1, out) = run(m, a + b.drop_last());
        let (m2, o) = step(m1, b.last());
        match o {
            Some(f) => {
                assert(run(m, a).1 + run(run(m, a).0, b.drop_last()).1.push(f) =~= (run(m, a).1 + run(
                    run(m, a).0,
                    b.drop_last(),
                ).1).push(f));
            },
            None => {},
        }
    }
}

/// The parser reading a body: in the text state with `buf` so far and no
/// parity error.
pub open spec fn reading_body(m: ParserModel, buf: Seq<u8>) -> ParserModel {
    ParserModel {
        state: FrameState::Text,
        n_bits: 8,
        buf,
        parity_errors: seq![],
        parity_err_count: 0,
        bcs0: 0,
        bcs1: 0,
        ..m
    }
}

/// The characters of a well-formed body before its closing byte are
/// accumulated one by one, with no frame emitted.
proof fn lemma_body_prefix(m: ParserModel, body: Seq<u8>, k: int)
    requires
        well_formed_body(body),
        0 <= k < body.len(),
    ensures
        run(reading_body(m, seq![]), body.subrange(0, k)) == (reading_body(m, body.subrange(0, k)), Seq::<FrameOutcome>::empty()),
    decreases k,
{
    if k == 0 {
        assert(body.subrange(0, 0) =~= Seq::<u8>::empty());
    } else {
        lemma_body_prefix(m, body, k - 1);
        let p = body.subrange(0, k);
        assert(p.drop_last() =~= body.subrange(0, k - 1));
        assert(p.last() == body[k - 1]);
        let b = body[k - 1];
        assert(odd_parity(b));
        assert(b != ETX && b != ETB);
        let mk = reading_body(m, body.subrange(0, k - 1));
        assert(body.subrange(0, k - 1).push(b) =~= p);
        if k > DLE_ESCAPE_MIN_LEN {
            assert(b != DLE);
        }
        assert(step(mk, b).0 == reading_body(m, p));
    }
}

/// A well-formed frame fed to a parser that is hunting for SYN comes out as
/// exactly one accepted frame carrying the body, with no parity error; the
/// parser is then hunting for SYN again.
pub proof fn lemma_well_formed_frame_accepted(m: ParserModel, body: Seq<u8>)
    requires
        m.state == FrameState::WaitingSyn,
        well_formed_body(body),
    ensures
        run(m, wire_frame(body)).1 == seq![FrameOutcome { body, error_count: 0 }],
        run(m, wire_frame(body)).0.state == FrameState::WaitingSyn,
{
    let pre = seq![SYN, SYN, SOH];
    let bcs = seq![(crc_of(body) & 0xff) as u8, (crc_of(body) >> 8u16) as u8];
    let n = body.len() as int;
    // Preamble.
    let s1 = seq![SYN];
    let s2 = seq![SYN, SYN];
    assert(pre.drop_last() =~= s2);
    assert(pre.last() == SOH);
    assert(s2.drop_last() =~= s1);
    assert(s2.last() == SYN);
    assert(s1.drop_last() =~= Seq::<u8>::empty());
    assert(s1.last() == SYN);
    let e = Seq::<u8>::empty();
    assert(run(m, e) == (m, Seq::<FrameOutcome>::empty()));
    let m1 = step(m, SYN).0;
    assert(run(m, s1) == (m1, Seq::<FrameOutcome>::empty()));
    assert(m1.state == FrameState::Syn2);
    let m2 = step(m1, SYN).0;
    assert(run(m, s2) == (m2, Seq::<FrameOutcome>::empty()));
    assert(m2.state == FrameState::SeekingSoh);
    let m3 = step(m2, SOH).0;
    assert(run(m, pre) == (m3, Seq::<FrameOutcome>::empty()));
    assert(m3 =~= reading_body(m, seq![]));
    // Body up to the closing byte.
    lemma_body_prefix(m, body, n - 1);
    assert(body.subrange(0, n - 1).push(body.last()) =~= body);
    lemma_run_concat(m3, body.subrange(0, n - 1), seq![body.last()]);
    assert(body.subrange(0, n - 1) + seq![body.last()] =~= body);
    assert(seq![body.last()].drop_last() =~= Seq::<u8>::empty());
    let mb = run(m3, body).0;
    assert(run(m3, body).1 =~= Seq::<FrameOutcome>::empty());
    assert(mb == ParserModel { state: FrameState::Crc1, n_bits: 8, ..reading_body(m, body) });
    // BCS.
    assert(bcs.drop_last() =~= seq![bcs[0]]);
    assert(seq![bcs[0]].drop_last() =~= Seq::<u8>::empty());
    crate::crc::lemma_crc_of_payload_and_bcs_is_zero(body);
    assert(crc_valid(body, bcs[0], bcs[1]));
    let c1 = seq![bcs[0]];
    assert(bcs.last() == bcs[1]);
    assert(c1.last() == bcs[0]);
    let mc1 = step(mb, bcs[0]).0;
    assert(c1.drop_last() =~= Seq::<u8>::empty());
    assert(run(mb, Seq::<u8>::empty()) == (mb, Seq::<FrameOutcome>::empty()));
    assert(step(mb, bcs[0]).1 is None);
    assert(run(mb, c1) == (mc1, Seq::<FrameOutcome>::empty()));
    assert(mc1.state == FrameState::Crc2 && mc1.bcs0 == bcs[0] && mc1.buf == body);
    assert(mc1.parity_errors == Seq::<usize>::empty() && mc1.parity_err_count == 0);
    let mc2 = ParserModel { bcs1: bcs[1], ..mc1 };
    assert(step(mc1, bcs[1]) == finalize(mc2));
    assert(corrected_body(body, bcs[0], bcs[1], Seq::<usize>::empty()) == Some(body));
    assert(finalize(mc2).1 == Some(FrameOutcome { body, error_count: 0 }));
    assert(finalize(mc2).0.state == FrameState::WaitingSyn);
    let fin = run(mb, bcs);
    assert(fin.1 =~= seq![FrameOutcome { body, error_count: 0 }]);
    assert(fin.0.state == FrameState::WaitingSyn);
    // Whole frame.
    lemma_run_concat(m, pre, body);
    lemma_run_concat(m, pre + body, bcs);
    assert(wire_frame(body) =~= pre + body + bcs);
    assert(run(m, wire_frame(body)).1 =~= seq![FrameOutcome { body, error_count: 0 }]);
}

/// Bytes that are neither SYN nor inverted SYN, fed to a parser hunting for
/// SYN, produce nothing and leave it hunting.
pub proof fn lemma_noise_ignored(m: ParserModel, bytes: Seq<u8>)
    requires
        m.state == FrameState::WaitingSyn,
        forall|i: int| 0 <= i < bytes.len() ==> #[trigger] bytes[i] != SYN && bytes[i] != SYN_INV,
    ensures
        run(m, bytes).1 == Seq::<FrameOutcome>::empty(),
        run(m, bytes).0.state == FrameState::WaitingSyn,
    decreases bytes.len(),
{
    if bytes.len() > 0 {
        let d = bytes.drop_last();
        assert forall|i: int| 0 <= i < d.len() implies #[trigger] d[i] != SYN && d[i] != SYN_INV by {
            assert(d[i] == bytes[i]);
        }
        lemma_noise_ignored(m, d);
        assert(bytes.last() == bytes[bytes.len() - 1]);
    }
}


/// Demodulated bits fed in order: the final state and the accepted frames.
pub open spec fn run_bits(m: ParserModel, bits: Seq<bool>) -> (ParserModel, Seq<FrameOutcome>)
    decreases bits.len(),
{
    if bits.len() == 0 {
        (m, seq![])
    } else {
        let (m1, out) = run_bits(m, bits.drop_last());
        let (m2, o) = bit_step(m1, bits.last());
        (
            m2,
            match o {
                Some(f) => out.push(f),
                None => out,
            },
        )
    }
}

/// The bits of a byte, least significant first.
pub open spec fn byte_bits(b: u8) -> Seq<bool> {
    Seq::new(8, |i: int| (b >> (i as u8)) & 1 == 1)
}

/// The bits of bytes sent in order, each least significant bit first.
pub open spec fn bits_of(bytes: Seq<u8>) -> Seq<bool>
    decreases bytes.len(),
{
    if bytes.len() == 0 {
        seq![]
    } else {
        bits_of(bytes.drop_last()) + byte_bits(bytes.last())
    }
}

/// The parser expects a whole byte before each of `bytes`.
pub open spec fn byte_aligned(m: ParserModel, bytes: Seq<u8>) -> bool {
    forall|k: int| 0 <= k < bytes.len() ==> (#[trigger] run(m, bytes.subrange(0, k))).0.n_bits == 8
}

/// Running over bits `a + b` runs over `a`, then over `b`.
proof fn lemma_run_bits_concat(m: ParserModel, a: Seq<bool>, b: Seq<bool>)
    ensures
        run_bits(m, a + b).0 == run_bits(run_bits(m, a).0, b).0,
        run_bits(m, a + b).1 == run_bits(m, a).1 + run_bits(run_bits(m, a).0, b).1,
    decreases b.len(),
{
    if b.len() == 0 {
        assert(a + b =~= a);
        assert(run_bits(m, a).1 + run_bits(run_bits(m, a).0, b).1 =~= run_bits(m, a).1);
    } else {
        lemma_run_bits_concat(m, a, b.drop_last());
        assert((a + b).drop_last() =~= a + b.drop_last());
        assert((a + b).last() == b.last());
        let (m1, out) = run_bits(m, a + b.drop_last());
        let (m2, o) = bit_step(m1, b.last());
        match o {
            Some(f) => {
                assert(run_bits(m, a).1 + run_bits(run_bits(m, a).0, b.drop_last()).1.push(f) =~= (
                run_bits(m, a).1 + run_bits(run_bits(m, a).0, b.drop_last()).1).push(f));
            },
            None => {},
        }
    }
}

/// The bit register after `j` of the bits of `b` have been shifted in on
/// top of register `r`.
spec fn register_after(r: u8, b: u8, j: u32) -> u8 {
    (((r as u32) >> j) | ((b as u32) << ((8 - j) as u32))) as u8
}

/// Shifting in one more bit of `b`.
proof fn lemma_register_step(r: u8, b: u8, j: u32)
    requires
        j < 8,
    ensures
        register_after(r, b, (j + 1) as u32) == (if (b >> (j as u8)) & 1 == 1 {
            ((register_after(r, b, j) >> 1u8) | 0x80) as u8
        } else {
            (register_after(r, b, j) >> 1u8) as u8
        }),
{
    let x = register_after(r, b, j);
    let y = register_after(r, b, (j + 1) as u32);
    assert(x == (((r as u32) >> j) | ((b as u32) << ((8 - j) as u32))) as u8);
    assert(y == (((r as u32) >> ((j + 1) as u32)) | ((b as u32) << ((8 - (j + 1)) as u32))) as u8);
    assert((b >> (j as u8)) & 1 == 1 ==> y == ((x >> 1u8) | 0x80) as u8) by (bit_vector)
        requires
            j < 8,
            x == (((r as u32) >> j) | ((b as u32) << ((8 - j) as u32))) as u8,
            y == (((r as u32) >> ((j + 1) as u32)) | ((b as u32) << ((8 - (j + 1)) as u32))) as u8,
    ;
    assert((b >> (j as u8)) & 1 != 1 ==> y == (x >> 1u8) as u8) by (bit_vector)
        requires
            j < 8,
            x == (((r as u32) >> j) | ((b as u32) << ((8 - j) as u32))) as u8,
            y == (((r as u32) >> ((j + 1) as u32)) | ((b as u32) << ((8 - (j + 1)) as u32))) as u8,
    ;
}

/// The first `j` bits of a byte fill the register without completing it.
proof fn lemma_partial_byte(m: ParserModel, b: u8, j: int)
    requires
        m.n_bits == 8,
        0 <= j < 8,
    ensures
        run_bits(m, byte_bits(b).subrange(0, j)) == (
            ParserModel { out_bits: register_after(m.out_bits, b, j as u32), n_bits: (8 - j) as u8, ..m },
            Seq::<FrameOutcome>::empty(),
        ),
    decreases j,
{
    let bits = byte_bits(b);
    if j == 0 {
        assert(bits.subrange(0, 0) =~= Seq::<bool>::empty());
        let r = m.out_bits;
        assert(register_after(r, b, 0) == r) by (bit_vector);
    } else {
        lemma_partial_byte(m, b, j - 1);
        let p = bits.subrange(0, j);
        assert(p.drop_last() =~= bits.subrange(0, j - 1));
        assert(p.last() == bits[j - 1]);
        lemma_register_step(m.out_bits, b, (j - 1) as u32);
    }
}

/// Eight bits of a byte, fed to a parser that expects a whole byte, hand
/// that byte to the state machine.
proof fn lemma_whole_byte(m: ParserModel, b: u8)
    requires
        m.n_bits == 8,
    ensures
        run_bits(m, byte_bits(b)) == (
            step(ParserModel { out_bits: b, n_bits: 0, ..m }, b).0,
            match step(ParserModel { out_bits: b, n_bits: 0, ..m }, b).1 {
                Some(f) => seq![f],
                None => Seq::<FrameOutcome>::empty(),
            },
        ),
{
    let bits = byte_bits(b);
    lemma_partial_byte(m, b, 7);
    assert(bits.drop_last() =~= bits.subrange(0, 7));
    assert(bits.last() == bits[7]);
    lemma_register_step(m.out_bits, b, 7);
    let r = m.out_bits;
    assert(register_after(r, b, 8) == b) by (bit_vector);
    let o = step(ParserModel { out_bits: b, n_bits: 0, ..m }, b).1;
    match o {
        Some(f) => {
            assert(Seq::<FrameOutcome>::empty().push(f) =~= seq![f]);
        },
        None => {},
    }
}

/// Two models that differ only in their bit register.
pub open spec fn same_but_register(a: ParserModel, b: ParserModel) -> bool {
    a == ParserModel { out_bits: a.out_bits, ..b }
}

/// The byte state machine does not look at the bit register or the bit
/// count: it carries the register and sets the count itself.
proof fn lemma_step_ignores_register(a: ParserModel, c: ParserModel, b: u8)
    requires
        a == (ParserModel { out_bits: a.out_bits, n_bits: a.n_bits, ..c }),
    ensures
        step(a, b).1 == step(c, b).1,
        step(a, b).0 == (ParserModel { out_bits: a.out_bits, ..step(c, b).0 }),
{
}

/// Feeding the bits of `bytes`, least significant bit first, to a parser
/// that expects a whole byte before each of them accepts the frames that
/// feeding the bytes accepts, and ends in the same state but for the bit
/// register.
pub proof fn lemma_bits_follow_bytes(m: ParserModel, bytes: Seq<u8>)
    requires
        byte_aligned(m, bytes),
    ensures
        run_bits(m, bits_of(bytes)).1 == run(m, bytes).1,
        same_but_register(run_bits(m, bits_of(bytes)).0, run(m, bytes).0),
    decreases bytes.len(),
{
    if bytes.len() > 0 {
        let d = bytes.drop_last();
        let last = bytes.last();
        assert(byte_aligned(m, d)) by {
            assert forall|k: int| 0 <= k < d.len() implies (#[trigger] run(m, d.subrange(0, k))).0.n_bits
                == 8 by {
                assert(d.subrange(0, k) =~= bytes.subrange(0, k));
                assert(run(m, bytes.subrange(0, k)).0.n_bits == 8);
            }
        }
        lemma_bits_follow_bytes(m, d);
        let n = d.len() as int;
        assert(bytes.subrange(0, n) =~= d);
        assert(run(m, bytes.subrange(0, n)).0.n_bits == 8);
        let mb = run_bits(m, bits_of(d)).0;
        let mm = run(m, d).0;
        lemma_run_bits_concat(m, bits_of(d), byte_bits(last));
        lemma_whole_byte(mb, last);
        let a = ParserModel { out_bits: last, n_bits: 0, ..mb };
        lemma_step_ignores_register(a, mm, last);
        match step(mm, last).1 {
            Some(f) => {
                assert(run_bits(m, bits_of(d)).1 + seq![f] =~= run(m, d).1.push(f));
            },
            None => {
                assert(run_bits(m, bits_of(d)).1 + Seq::<FrameOutcome>::empty() =~= run(m, d).1);
            },
        }
    }
}

/// Along a well-formed frame the parser expects a whole byte before each
/// byte (it only goes back to bit-by-bit hunting after the BCS).
proof fn lemma_frame_byte_aligned(m: ParserModel, body: Seq<u8>)
    requires
        m.state == FrameState::WaitingSyn,
        m.n_bits == 8,
        well_formed_body(body),
    ensures
        byte_aligned(m, wire_frame(body)),
{
    let pre = seq![SYN, SYN, SOH];
    let bcs = seq![(crc_of(body) & 0xff) as u8, (crc_of(body) >> 8u16) as u8];
    let w = wire_frame(body);
    let n = body.len() as int;
    assert(w =~= pre + body + bcs);
    let s1 = seq![SYN];
    let s2 = seq![SYN, SYN];
    assert(s2.drop_last() =~= s1);
    assert(s1.drop_last() =~= Seq::<u8>::empty());
    assert(pre.drop_last() =~= s2);
    let m3 = run(m, pre).0;
    assert(run(m, Seq::<u8>::empty()) == (m, Seq::<FrameOutcome>::empty()));
    assert(run(m, s1).0.n_bits == 8 && run(m, s1).0.state == FrameState::Syn2);
    assert(run(m, s2).0.n_bits == 8 && run(m, s2).0.state == FrameState::SeekingSoh);
    assert(m3 == reading_body(m, seq![]));
    assert forall|k: int| 0 <= k < w.len() implies (#[trigger] run(m, w.subrange(0, k))).0.n_bits == 8 by {
        if k == 0 {
            assert(w.subrange(0, 0) =~= Seq::<u8>::empty());
        } else if k == 1 {
            assert(w.subrange(0, 1) =~= s1);
        } else if k == 2 {
            assert(w.subrange(0, 2) =~= s2);
        } else if k < 3 + n {
            let j = k - 3;
            assert(w.subrange(0, k) =~= pre + body.subrange(0, j));
            lemma_run_concat(m, pre, body.subrange(0, j));
            lemma_body_prefix(m, body, j);
        } else {
            lemma_body_prefix(m, body, n - 1);
            lemma_run_concat(m3, body.subrange(0, n - 1), seq![body.last()]);
            assert(body.subrange(0, n - 1) + seq![body.last()] =~= body);
            assert(seq![body.last()].drop_last() =~= Seq::<u8>::empty());
            lemma_run_concat(m, pre, body);
            let mb = run(m, pre + body).0;
            assert(mb.state == FrameState::Crc1 && mb.n_bits == 8);
            if k == 3 + n {
                assert(w.subrange(0, k) =~= pre + body);
            } else {
                assert(k == 4 + n);
                assert(w.subrange(0, k) =~= (pre + body) + seq![bcs[0]]);
                lemma_run_concat(m, pre + body, seq![bcs[0]]);
                assert(seq![bcs[0]].drop_last() =~= Seq::<u8>::empty());
                assert(run(mb, Seq::<u8>::empty()) == (mb, Seq::<FrameOutcome>::empty()));
                assert(run(mb, seq![bcs[0]]).0.n_bits == 8);
            }
        }
    }
}

/// The bits of a well-formed frame, each byte least significant bit first,
/// fed to a parser that is hunting for SYN on a byte boundary come out as
/// exactly one accepted frame carrying the body, with no parity error.
pub proof fn lemma_well_formed_frame_bits_accepted(m: ParserModel, body: Seq<u8>)
    requires
        m.state == FrameState::WaitingSyn,
        m.n_bits == 8,
        well_formed_body(body),
    ensures
        run_bits(m, bits_of(wire_frame(body))).1 == seq![FrameOutcome { body, error_count: 0 }],
{
    lemma_frame_byte_aligned(m, body);
    lemma_bits_follow_bytes(m, wire_frame(body));
    lemma_well_formed_frame_accepted(m, body);
}


/// Closing a frame whose body checks against its BCS accepts it, with its
/// parity-error count, exactly when it holds at least [`MIN_FRAME_LEN`]
/// bytes; either way the parser goes back to hunting for SYN with an empty
/// body.
pub proof fn lemma_checking_body_accepted(m: ParserModel)
    requires
        crc_valid(m.buf, m.bcs0, m.bcs1),
    ensures
        finalize(m).1 == (if m.buf.len() >= MIN_FRAME_LEN {
            Some(FrameOutcome { body: m.buf, error_count: m.parity_err_count })
        } else {
            None
        }),
        finalize(m).0.state == FrameState::WaitingSyn,
        finalize(m).0.buf == Seq::<u8>::empty(),
        finalize(m).0.parity_errors == Seq::<usize>::empty(),
{
}


/// `k` zero bits (the demodulator's output on silence).
pub open spec fn zero_bits(k: nat) -> Seq<bool> {
    Seq::new(k, |i: int| false)
}

/// Hunting for SYN with a cleared register, zero bits keep the parser
/// hunting with a cleared register and emit nothing.
proof fn lemma_zero_bits(m: ParserModel, k: nat)
    requires
        m.state == FrameState::WaitingSyn,
        m.out_bits == 0,
        1 <= m.n_bits <= 8,
    ensures
        run_bits(m, zero_bits(k)).1 == Seq::<FrameOutcome>::empty(),
        run_bits(m, zero_bits(k)).0 == (ParserModel { n_bits: run_bits(m, zero_bits(k)).0.n_bits, ..m }),
        1 <= run_bits(m, zero_bits(k)).0.n_bits <= 8,
    decreases k,
{
    if k > 0 {
        let z = zero_bits(k);
        assert(z.drop_last() =~= zero_bits((k - 1) as nat));
        assert(z.last() == false);
        lemma_zero_bits(m, (k - 1) as nat);
        let r: u8 = run_bits(m, zero_bits((k - 1) as nat)).0.out_bits;
        assert((r >> 1u8) as u8 == 0) by (bit_vector)
            requires
                r == 0,
        ;
    }
}

/// The bits of SYN, fed to a parser hunting for SYN with a cleared register
/// and at most `8 - j` bits to go, are recognised exactly when the eighth
/// arrives: no shorter tail of them looks like SYN or an inverted SYN.
proof fn lemma_syn_bits(m: ParserModel, j: int)
    requires
        m.state == FrameState::WaitingSyn,
        m.out_bits == 0,
        1 <= m.n_bits <= 8,
        0 <= j <= 8,
    ensures
        j < 8 ==> {
            let r = run_bits(m, byte_bits(SYN).subrange(0, j));
            &&& r.1 == Seq::<FrameOutcome>::empty()
            &&& r.0 == (ParserModel { out_bits: register_after(0, SYN, j as u32), n_bits: r.0.n_bits, ..m })
            &&& 1 <= r.0.n_bits <= 8 - j
        },
        j == 8 ==> run_bits(m, byte_bits(SYN)) == (
            ParserModel { state: FrameState::Syn2, out_bits: SYN, n_bits: 8, ..m },
            Seq::<FrameOutcome>::empty(),
        ),
    decreases j,
{
    let bits = byte_bits(SYN);
    if j == 0 {
        assert(bits.subrange(0, 0) =~= Seq::<bool>::empty());
        assert(register_after(0, SYN, 0) == 0) by (bit_vector);
    } else {
        lemma_syn_bits(m, j - 1);
        let p = bits.subrange(0, j);
        assert(p.drop_last() =~= bits.subrange(0, j - 1));
        assert(p.last() == bits[j - 1]);
        lemma_register_step(0, SYN, (j - 1) as u32);
        let jj = j as u32;
        assert(1 <= jj < 8 ==> register_after(0, SYN, jj) != SYN && register_after(0, SYN, jj) != SYN_INV)
            by (bit_vector);
        assert(register_after(0, SYN, 8) == SYN) by (bit_vector);
        if j == 8 {
            assert(p =~= bits);
        }
    }
}

/// Bits of `a + b` are the bits of `a`, then those of `b`.
proof fn lemma_bits_of_concat(a: Seq<u8>, b: Seq<u8>)
    ensures
        bits_of(a + b) == bits_of(a) + bits_of(b),
    decreases b.len(),
{
    if b.len() == 0 {
        assert(a + b =~= a);
        assert(bits_of(a) + bits_of(b) =~= bits_of(a));
    } else {
        lemma_bits_of_concat(a, b.drop_last());
        assert((a + b).drop_last() =~= a + b.drop_last());
        assert((a + b).last() == b.last());
        assert(bits_of(a) + bits_of(b) =~= bits_of(a) + bits_of(b.drop_last()) + byte_bits(b.last()));
    }
}

/// The byte state machine carries the bit register along: runs from models
/// that differ only in it accept the same frames.
proof fn lemma_run_ignores_register(a: ParserModel, c: ParserModel, bytes: Seq<u8>)
    requires
        same_but_register(a, c),
    ensures
        run(a, bytes).1 == run(c, bytes).1,
        same_but_register(run(a, bytes).0, run(c, bytes).0),
    decreases bytes.len(),
{
    if bytes.len() > 0 {
        lemma_run_ignores_register(a, c, bytes.drop_last());
        let ma = run(a, bytes.drop_last()).0;
        let mc = run(c, bytes.drop_last()).0;
        lemma_step_ignores_register(ma, mc, bytes.last());
    }
}

/// Per-bit re-synchronisation: after any number of zero bits, the bits of a
/// well-formed frame (each byte least significant bit first) fed to a parser
/// hunting for SYN with a cleared register come out as exactly one accepted
/// frame carrying the body, with no parity error.
pub proof fn lemma_frame_found_after_zero_bits(m: ParserModel, k: nat, body: Seq<u8>)
    requires
        m.state == FrameState::WaitingSyn,
        m.out_bits == 0,
        1 <= m.n_bits <= 8,
        well_formed_body(body),
    ensures
        run_bits(m, zero_bits(k) + bits_of(wire_frame(body))).1 == seq![FrameOutcome { body, error_count: 0 }],
{
    let f = wire_frame(body);
    let r = f.drop_first();
    assert(f[0] == SYN);
    assert(f =~= seq![SYN] + r);
    assert(seq![SYN].drop_last() =~= Seq::<u8>::empty());
    assert(seq![SYN].last() == SYN);
    assert(bits_of(Seq::<u8>::empty()) == Seq::<bool>::empty());
    assert(bits_of(seq![SYN]) =~= byte_bits(SYN));
    lemma_bits_of_concat(seq![SYN], r);
    let z = zero_bits(k);
    // Zeros, then SYN.
    lemma_zero_bits(m, k);
    let mz = run_bits(m, z).0;
    lemma_syn_bits(mz, 8);
    let m1 = run_bits(mz, byte_bits(SYN)).0;
    // Byte-level counterpart.
    let m0 = ParserModel { n_bits: 8, ..mz };
    lemma_frame_byte_aligned(m0, body);
    lemma_well_formed_frame_accepted(m0, body);
    assert(run(m0, Seq::<u8>::empty()) == (m0, Seq::<FrameOutcome>::empty()));
    let m1b = run(m0, seq![SYN]).0;
    assert(run(m0, seq![SYN]).1 =~= Seq::<FrameOutcome>::empty());
    assert(same_but_register(m1, m1b));
    lemma_run_concat(m0, seq![SYN], r);
    assert(byte_aligned(m1, r)) by {
        assert forall|q: int| 0 <= q < r.len() implies (#[trigger] run(m1, r.subrange(0, q))).0.n_bits == 8 by {
            lemma_run_concat(m0, seq![SYN], r.subrange(0, q));
            assert(f.subrange(0, q + 1) =~= seq![SYN] + r.subrange(0, q));
            assert(run(m0, f.subrange(0, q + 1)).0.n_bits == 8);
            lemma_run_ignores_register(m1, m1b, r.subrange(0, q));
        }
    }
    lemma_bits_follow_bytes(m1, r);
    lemma_run_ignores_register(m1, m1b, r);
    // Composition.
    lemma_run_bits_concat(m, z, bits_of(f));
    lemma_run_bits_concat(mz, byte_bits(SYN), bits_of(r));
    assert(run(m0, f).1 =~= run(m1b, r).1);
    assert(run_bits(m, z + bits_of(f)).1 =~= run_bits(m1, bits_of(r)).1);
}

/// The label of every message the parser builds is the two label characters
/// of its frame with the parity bit stripped, except that a DEL (0x7F) in the
/// second character is shown as `d`: a frame labelled `_` DEL carries the
/// ordinary general-downlink label `_d`, which the label table names
/// "General downlink". Likewise the mode and block id are the frame's
/// characters with the parity bit stripped, and the acknowledgement is the
/// frame's, a NAK (0x15) being shown as `!`.
pub proof fn lemma_message_label(msg: AcarsMessage, f: FrameOutcome, chan: u8, freq: u64)
    requires
        message_matches(msg, f, chan, freq),
    ensures
        msg.mode == f.body[0] & 0x7f,
        msg.block_id == f.body[11] & 0x7f,
        f.body[8] & 0x7f == 0x15 ==> msg.ack == 0x21u8,
        f.body[8] & 0x7f != 0x15 ==> msg.ack == f.body[8] & 0x7f,
        msg.label@[0] == f.body[9] & 0x7f,
        f.body[10] & 0x7f == 0x7f ==> msg.label@[1] == 0x64u8,
        f.body[10] & 0x7f != 0x7f ==> msg.label@[1] == f.body[10] & 0x7f,
        f.body[9] & 0x7f == 0x5f && f.body[10] & 0x7f == 0x7f ==> crate::label::label_name(
            msg.label@[0],
            msg.label@[1],
        ) == Some("General downlink"),
{
}

/// Applying the chosen flips keeps the length and touches only the flagged
/// positions.
proof fn lemma_apply_flips_frame(buf: Seq<u8>, pos: Seq<usize>, c: nat, m: nat)
    requires
        m <= pos.len(),
        forall|q: int| 0 <= q < pos.len() ==> (pos[q] as int) < buf.len(),
    ensures
        apply_flips(buf, pos, c, m).len() == buf.len(),
        forall|k: int|
            0 <= k < buf.len() && (forall|q: int| 0 <= q < m ==> pos[q] as int != k) ==> #[trigger] apply_flips(
                buf,
                pos,
                c,
                m,
            )[k] == buf[k],
    decreases m,
{
    if m > 0 {
        lemma_apply_flips_frame(buf, pos, c, (m - 1) as nat);
    }
}

/// Below any parity-guided correction there is a first one.
proof fn lemma_first_parity_fix(buf: Seq<u8>, bcs0: u8, bcs1: u8, perr: Seq<usize>, c: nat)
    requires
        parity_fix(buf, bcs0, bcs1, perr, c),
    ensures
        exists|c1: nat|
            c1 <= c && parity_fix(buf, bcs0, bcs1, perr, c1) && forall|c2: nat|
                c2 < c1 ==> !#[trigger] parity_fix(buf, bcs0, bcs1, perr, c2),
    decreases c,
{
    if exists|c2: nat| c2 < c && parity_fix(buf, bcs0, bcs1, perr, c2) {
        let c2 = choose|c2: nat| c2 < c && parity_fix(buf, bcs0, bcs1, perr, c2);
        lemma_first_parity_fix(buf, bcs0, bcs1, perr, c2);
    } else {
        assert(forall|c2: nat| c2 < c ==> !#[trigger] parity_fix(buf, bcs0, bcs1, perr, c2));
    }
}

/// Parity-guided correction, for any number of flagged characters from one
/// to [`MAX_PARITY_ERRORS`]: when a frame fails its BCS check and inverting
/// one bit in each flagged character makes it check (outright or up to a
/// single bit inside the BCS), the frame is recovered. The recovered body is
/// the first such correction in search order (no earlier one than the given
/// candidate), has the frame's length, keeps every unflagged byte, and
/// checks; closing the frame accepts it with the parity-error count when it
/// is long enough.
pub proof fn lemma_parity_guided_recovery(m: ParserModel, c: nat)
    requires
        !crc_valid(m.buf, m.bcs0, m.bcs1),
        1 <= m.parity_errors.len() <= MAX_PARITY_ERRORS,
        forall|q: int| 0 <= q < m.parity_errors.len() ==> (m.parity_errors[q] as int) < m.buf.len(),
        c < pow8(m.parity_errors.len()),
        parity_fix(m.buf, m.bcs0, m.bcs1, m.parity_errors, c),
    ensures
        corrected_body(m.buf, m.bcs0, m.bcs1, m.parity_errors) matches Some(r) && {
            &&& r.len() == m.buf.len()
            &&& crc_valid(r, m.bcs0, m.bcs1) || error_in_bcs_only(r, m.bcs0, m.bcs1)
            &&& exists|c1: nat|
                c1 <= c && r == apply_flips(m.buf, m.parity_errors, c1, m.parity_errors.len())
                    && forall|c2: nat|
                    c2 < c1 ==> !#[trigger] parity_fix(m.buf, m.bcs0, m.bcs1, m.parity_errors, c2)
            &&& forall|k: int|
                0 <= k < m.buf.len() && !m.parity_errors.contains(k as usize) ==> #[trigger] r[k]
                    == m.buf[k]
            &&& finalize(m).1 == (if r.len() >= MIN_FRAME_LEN {
                Some(FrameOutcome { body: r, error_count: m.parity_err_count })
            } else {
                None
            })
        },
{
    let buf = m.buf;
    let perr = m.parity_errors;
    let n = perr.len();
    lemma_first_parity_fix(buf, m.bcs0, m.bcs1, perr, c);
    let c1 = choose|c1: nat|
        c1 <= c && parity_fix(buf, m.bcs0, m.bcs1, perr, c1) && forall|c2: nat|
            c2 < c1 ==> !#[trigger] parity_fix(buf, m.bcs0, m.bcs1, perr, c2);
    assert(c1 < pow8(n));
    let cm = choose|cm: nat|
        cm < pow8(n) && parity_fix(buf, m.bcs0, m.bcs1, perr, cm) && forall|c2: nat|
            c2 < cm ==> !#[trigger] parity_fix(buf, m.bcs0, m.bcs1, perr, c2);
    assert(cm == c1) by {
        if cm < c1 {
            assert(!parity_fix(buf, m.bcs0, m.bcs1, perr, cm));
        } else if c1 < cm {
            assert(!parity_fix(buf, m.bcs0, m.bcs1, perr, c1));
        }
    }
    let r = apply_flips(buf, perr, cm, n);
    assert(corrected_body(buf, m.bcs0, m.bcs1, perr) == Some(r));
    lemma_apply_flips_frame(buf, perr, cm, n);
    assert forall|k: int| 0 <= k < buf.len() && !perr.contains(k as usize) implies #[trigger] r[k]
        == buf[k] by {
        assert forall|q: int| 0 <= q < n implies perr[q] as int != k by {
            if perr[q] as int == k {
                assert(perr[q] == k as usize);
                assert(perr.contains(k as usize));
            }
        }
    }
}

/// Below any double-bit correction there is a first one in search order.
proof fn lemma_first_double_fix(buf: Seq<u8>, bcs0: u8, bcs1: u8, k: int, i: int, j: int)
    requires
        double_fix(buf, bcs0, bcs1, k, i, j),
    ensures
        exists|k1: int, i1: int, j1: int|
            #[trigger] first_double_fix(buf, bcs0, bcs1, k1, i1, j1) && !earlier3(k, i, j, k1, i1, j1),
    decreases k * 64 + i * 8 + j,
{
    if exists|k2: int, i2: int, j2: int|
        earlier3(k2, i2, j2, k, i, j) && #[trigger] double_fix(buf, bcs0, bcs1, k2, i2, j2) {
        let (k2, i2, j2) = choose|k2: int, i2: int, j2: int|
            earlier3(k2, i2, j2, k, i, j) && #[trigger] double_fix(buf, bcs0, bcs1, k2, i2, j2);
        lemma_first_double_fix(buf, bcs0, bcs1, k2, i2, j2);
        let (k1, i1, j1) = choose|k1: int, i1: int, j1: int|
            #[trigger] first_double_fix(buf, bcs0, bcs1, k1, i1, j1) && !earlier3(k2, i2, j2, k1, i1, j1);
        assert(first_double_fix(buf, bcs0, bcs1, k1, i1, j1) && !earlier3(k, i, j, k1, i1, j1));
    } else {
        assert(first_double_fix(buf, bcs0, bcs1, k, i, j));
        assert(!earlier3(k, i, j, k, i, j));
    }
}

/// Recovery of a frame with no parity-flagged character whose BCS check
/// fails. When the only error is a single flipped bit inside the BCS, the
/// body is kept as it is; otherwise, when inverting two distinct bits of one
/// byte makes the frame check, the body is corrected by the first such pair
/// in byte, then bit order (none later than the given one): every other
/// byte is kept and the corrected body checks. Closing the frame then
/// accepts the recovered body, with the parity-error count, when it is long
/// enough.
pub proof fn lemma_double_bit_recovery(m: ParserModel, k: int, i: int, j: int)
    requires
        !crc_valid(m.buf, m.bcs0, m.bcs1),
        m.parity_errors.len() == 0,
        error_in_bcs_only(m.buf, m.bcs0, m.bcs1) || double_fix(m.buf, m.bcs0, m.bcs1, k, i, j),
    ensures
        corrected_body(m.buf, m.bcs0, m.bcs1, m.parity_errors) matches Some(r) && {
            &&& error_in_bcs_only(m.buf, m.bcs0, m.bcs1) ==> r == m.buf
            &&& !error_in_bcs_only(m.buf, m.bcs0, m.bcs1) ==> {
                &&& r.len() == m.buf.len()
                &&& crc_valid(r, m.bcs0, m.bcs1)
                &&& exists|k1: int, i1: int, j1: int|
                    #![trigger first_double_fix(m.buf, m.bcs0, m.bcs1, k1, i1, j1)]
                    !earlier3(k, i, j, k1, i1, j1) && 0 <= k1 < m.buf.len() && i1 != j1 && r[k1]
                        == flip_bit(flip_bit(m.buf[k1], i1), j1) && forall|q: int|
                        0 <= q < m.buf.len() && q != k1 ==> #[trigger] r[q] == m.buf[q]
            }
            &&& finalize(m).1 == (if r.len() >= MIN_FRAME_LEN {
                Some(FrameOutcome { body: r, error_count: m.parity_err_count })
            } else {
                None
            })
        },
{
    let buf = m.buf;
    if !error_in_bcs_only(buf, m.bcs0, m.bcs1) {
        lemma_first_double_fix(buf, m.bcs0, m.bcs1, k, i, j);
        let (k1, i1, j1) = choose|k1: int, i1: int, j1: int|
            #[trigger] first_double_fix(buf, m.bcs0, m.bcs1, k1, i1, j1) && !earlier3(k, i, j, k1, i1, j1);
        let (kc, ic, jc) = choose|kc: int, ic: int, jc: int|
            first_double_fix(buf, m.bcs0, m.bcs1, kc, ic, jc);
        crate::fec::lemma_first_double_fix_unique(buf, m.bcs0, m.bcs1, k1, i1, j1, kc, ic, jc);
        let r = double_flip(buf, k1, i1, j1);
        assert(corrected_body(buf, m.bcs0, m.bcs1, m.parity_errors) == Some(r));
        assert(first_double_fix(buf, m.bcs0, m.bcs1, k1, i1, j1));
    }
}

} // verus!
