//! The plain-text record printed for each decoded message: a header with
//! channel, level, error count and timestamp, then the mode / label / block
//! line, the addressing fields, the text and an `ETB` marker for non-final
//! blocks.
use vstd::prelude::*;
use vstd::string::StringExecFns;
use vstd::string::StrSliceExecFns;
use vstd::string::StringSliceAdditionalSpecFns;
use crate::frame::{is_downlink_block, push_char, AcarsMessage};

verus! {

/// The decimal digit `d` (0 to 9) as a character.
pub open spec fn digit(d: int) -> char {
    ((d + 48) as u8) as char
}

/// Decimal notation of `n`, without leading zeros.
pub open spec fn decimal(n: nat) -> Seq<char>
    decreases n,
{
    if n < 10 {
        seq![digit(n as int)]
    } else {
        decimal(n / 10).push(digit((n % 10) as int))
    }
}

/// `s` right-aligned in a field of `w` characters (padded with spaces on the
/// left; never cut).
pub open spec fn pad_left(s: Seq<char>, w: nat) -> Seq<char> {
    if s.len() < w {
        Seq::new((w - s.len()) as nat, |i: int| ' ') + s
    } else {
        s
    }
}

/// A nanosecond timestamp as seconds with three decimals (truncated).
pub open spec fn timestamp_text(ns: u128) -> Seq<char> {
    let ms: int = ((ns % 1_000_000_000) / 1_000_000) as int;
    decimal((ns / 1_000_000_000) as nat) + seq!['.', digit(ms / 100), digit((ms / 10) % 10), digit(ms % 10)]
}

/// A level in tenths of a dB with an explicit sign and one decimal,
/// right-aligned in five characters.
pub open spec fn level_text(t: i32) -> Seq<char> {
    let a: int = if t < 0 { -t } else { t as int };
    let sign = if t < 0 { '-' } else { '+' };
    pad_left(seq![sign] + decimal((a / 10) as nat) + seq!['.', digit(a % 10)], 5)
}

/// The label bytes as text when they are valid UTF-8, `??` otherwise.
pub open spec fn label_text(label: [u8; 2]) -> Seq<char> {
    let b = seq![label@[0], label@[1]];
    if vstd::utf8::valid_utf8(b) {
        vstd::utf8::decode_utf8(b)
    } else {
        "??"@
    }
}

/// `s` without its `.` characters.
pub open spec fn without_dots(s: Seq<char>) -> Seq<char>
    decreases s.len(),
{
    if s.len() == 0 {
        s
    } else if s.last() == '.' {
        without_dots(s.drop_last())
    } else {
        without_dots(s.drop_last()).push(s.last())
    }
}

/// The characters of an optional string, empty when absent.
pub open spec fn or_empty(o: Option<String>) -> Seq<char> {
    match o {
        Some(s) => s@,
        None => seq![],
    }
}

/// The header line: blank line, 1-based channel, level, error count and
/// timestamp.
pub open spec fn header_text(msg: AcarsMessage) -> Seq<char> {
    "\n[#"@ + decimal((msg.channel_idx + 1) as nat) + " (L:"@ + level_text(msg.level_tenths_db)
        + " E:"@ + decimal(msg.error_count as nat) + ") "@ + timestamp_text(msg.timestamp)
        + " --------------------------------\n"@
}

/// Block id, acknowledgement, aircraft and (for downlink blocks) flight id
/// and message number; empty when there is no block id.
pub open spec fn addressing_text(msg: AcarsMessage) -> Seq<char> {
    if msg.block_id == 0 {
        seq![]
    } else {
        "Id : "@ + seq![msg.block_id as char, ' '] + (if msg.ack == 0x21 {
            "Nak\n"@
        } else {
            "Ack : "@ + seq![msg.ack as char, '\n']
        }) + "Aircraft reg: "@ + without_dots(msg.aircraft@) + " "@ + (if is_downlink_block(
            msg.block_id,
        ) {
            "Flight id: "@ + or_empty(msg.flight_id) + "\n"@ + "No: "@ + pad_left(
                or_empty(msg.message_no),
                4,
            )
        } else {
            seq![]
        })
    }
}

/// The whole record for a message.
pub open spec fn record_text(msg: AcarsMessage) -> Seq<char> {
    header_text(msg) + "Mode : "@ + seq![msg.mode as char, ' '] + "Label : "@ + label_text(msg.label)
        + " "@ + addressing_text(msg) + "\n"@ + (if msg.text@.len() > 0 {
        msg.text@ + "\n"@
    } else {
        seq![]
    }) + (if msg.end_of_message {
        seq![]
    } else {
        "ETB\n"@
    })
}

/// `std::str::from_utf8`: the bytes as a string slice when they are valid
/// UTF-8. The claim is the function's documented one: it succeeds exactly on
/// valid UTF-8, and the slice holds the same bytes.
#[verifier::external_body]
fn utf8_str(b: &[u8]) -> (r: Option<&str>)
    ensures
        r is Some <==> vstd::utf8::valid_utf8(b@),
        r matches Some(s) ==> s.spec_bytes() == b@,
{
    std::str::from_utf8(b).ok()
}

/// Block ids `0` to `9` mark downlink (aircraft-to-ground) blocks, the only
/// ones that carry a flight id and a message number.
pub fn is_downlink_blk(bid: u8) -> (r: bool)
    ensures
        r == is_downlink_block(bid),
{
    0x30 <= bid && bid <= 0x39
}

/// Append the decimal notation of `n`.
fn push_decimal(s: &mut String, n: u128)
    ensures
        final(s)@ == old(s)@ + decimal(n as nat),
    decreases n,
{
    if n >= 10 {
        push_decimal(s, n / 10);
    }
    let d = (n % 10) as u8;
    push_char(s, (d + 48) as char);
    proof {
        if n >= 10 {
            assert(decimal(n as nat) == decimal((n / 10) as nat).push(digit((n % 10) as int)));
        }
    }
}

/// Append `s` right-aligned in `w` characters.
fn push_padded(out: &mut String, s: &String, w: usize)
    ensures
        final(out)@ == old(out)@ + pad_left(s@, w as nat),
{
    let n = s.as_str().unicode_len();
    let ghost start = out@;
    if n < w {
        let mut k: usize = 0;
        while k < w - n
            invariant
                n < w,
                k <= w - n,
                out@ == start + Seq::new(k as nat, |i: int| ' '),
            decreases w - n - k,
        {
            push_char(out, ' ');
            proof {
                assert(Seq::new(k as nat, |i: int| ' ').push(' ') =~= Seq::new((k + 1) as nat, |i: int| ' '));
            }
            k = k + 1;
        }
    }
    out.append(s.as_str());
    proof {
        assert(out@ =~= start + pad_left(s@, w as nat));
    }
}

/// Append the characters of `s` other than `.`.
fn push_without_dots(out: &mut String, s: &String)
    ensures
        final(out)@ == old(out)@ + without_dots(s@),
{
    let n = s.as_str().unicode_len();
    let ghost start = out@;
    let mut i: usize = 0;
    proof {
        assert(s@.subrange(0, 0) =~= Seq::<char>::empty());
        assert(start + without_dots(Seq::<char>::empty()) =~= start);
    }
    while i < n
        invariant
            n == s@.len(),
            i <= n,
            out@ == start + without_dots(s@.subrange(0, i as int)),
        decreases n - i,
    {
        let c = s.as_str().get_char(i);
        proof {
            let p = s@.subrange(0, i + 1);
            assert(p.drop_last() =~= s@.subrange(0, i as int));
            assert(p.last() == c);
        }
        if c != '.' {
            push_char(out, c);
            proof {
                assert(out@ =~= start + without_dots(s@.subrange(0, i + 1)));
            }
        }
        i = i + 1;
    }
    proof {
        assert(s@.subrange(0, n as int) =~= s@);
    }
}

/// A nanosecond timestamp as `seconds.milliseconds`.
pub fn format_timestamp(ns: u128) -> (r: String)
    ensures
        r@ == timestamp_text(ns),
{
    let mut s = String::new();
    push_decimal(&mut s, ns / 1_000_000_000);
    let ms = (ns % 1_000_000_000) / 1_000_000;
    push_char(&mut s, '.');
    push_char(&mut s, ((ms / 100) as u8 + 48) as char);
    push_char(&mut s, (((ms / 10) % 10) as u8 + 48) as char);
    push_char(&mut s, ((ms % 10) as u8 + 48) as char);
    proof {
        assert(s@ =~= timestamp_text(ns));
    }
    s
}

/// A level in tenths of a dB, signed, one decimal, right-aligned in five
/// characters.
fn format_level(t: i32) -> (r: String)
    ensures
        r@ == level_text(t),
{
    let a: u32 = if t < 0 {
        (0i64 - t as i64) as u32
    } else {
        t as u32
    };
    let mut body = String::new();
    push_char(&mut body, if t < 0 { '-' } else { '+' });
    push_decimal(&mut body, (a / 10) as u128);
    push_char(&mut body, '.');
    push_char(&mut body, ((a % 10) as u8 + 48) as char);
    let mut out = String::new();
    push_padded(&mut out, &body, 5);
    proof {
        let ai: int = if t < 0 { -t } else { t as int };
        assert(a as int == ai);
        assert(body@ =~= seq![if t < 0 { '-' } else { '+' }] + decimal((ai / 10) as nat) + seq!['.', digit(ai % 10)]);
        assert(out@ =~= level_text(t));
    }
    out
}

/// Append the label as text, `??` when it is not valid UTF-8.
fn push_label(out: &mut String, label: [u8; 2])
    ensures
        final(out)@ == old(out)@ + label_text(label),
{
    let bytes = [label[0], label[1]];
    let ghost start = out@;
    proof {
        assert(bytes@ =~= seq![label@[0], label@[1]]);
    }
    match utf8_str(bytes.as_slice()) {
        Some(s) => {
            proof {
                vstd::utf8::encode_utf8_decode_utf8(s@);
            }
            out.append(s);
        },
        None => {
            out.append("??");
        },
    }
}

/// Append the header line.
fn push_header(s: &mut String, msg: &AcarsMessage)
    ensures
        final(s)@ == old(s)@ + header_text(*msg),
{
    let ghost start = s@;
    s.append("\n[#");
    push_decimal(s, msg.channel_idx as u128 + 1);
    s.append(" (L:");
    let level = format_level(msg.level_tenths_db);
    s.append(level.as_str());
    s.append(" E:");
    push_decimal(s, msg.error_count as u128);
    s.append(") ");
    let stamp = format_timestamp(msg.timestamp);
    s.append(stamp.as_str());
    s.append(" --------------------------------\n");
    proof {
        assert(s@ =~= start + header_text(*msg));
    }
}

/// Append the addressing fields.
fn push_addressing(s: &mut String, msg: &AcarsMessage)
    ensures
        final(s)@ == old(s)@ + addressing_text(*msg),
{
    let ghost start = s@;
    if msg.block_id != 0 {
        s.append("Id : ");
        push_char(s, msg.block_id as char);
        push_char(s, ' ');
        if msg.ack == 0x21 {
            s.append("Nak\n");
        } else {
            s.append("Ack : ");
            push_char(s, msg.ack as char);
            push_char(s, '\n');
        }
        s.append("Aircraft reg: ");
        push_without_dots(s, &msg.aircraft);
        s.append(" ");
        let ghost mid = s@;
        if is_downlink_blk(msg.block_id) {
            s.append("Flight id: ");
            match &msg.flight_id {
                Some(f) => s.append(f.as_str()),
                None => {},
            }
            s.append("\n");
            s.append("No: ");
            let no = match &msg.message_no {
                Some(n) => n.clone(),
                None => String::new(),
            };
            proof {
                assert(no@ == or_empty(msg.message_no));
            }
            push_padded(s, &no, 4);
        }
        proof {
            assert(s@ =~= start + addressing_text(*msg));
        }
    } else {
        proof {
            assert(s@ =~= start + addressing_text(*msg));
        }
    }
}

/// The text record of a message, as printed after each decode.
pub fn format_record(msg: &AcarsMessage) -> (r: String)
    ensures
        r@ == record_text(*msg),
{
    let mut s = String::new();
    push_header(&mut s, msg);
    s.append("Mode : ");
    push_char(&mut s, msg.mode as char);
    push_char(&mut s, ' ');
    s.append("Label : ");
    push_label(&mut s, msg.label);
    s.append(" ");
    push_addressing(&mut s, msg);
    s.append("\n");
    let ghost before_text = s@;
    if !msg.text.as_str().is_empty() {
        s.append(msg.text.as_str());
        s.append("\n");
    }
    let ghost before_etb = s@;
    if !msg.end_of_message {
        s.append("ETB\n");
    }
    proof {
        assert(s@ =~= record_text(*msg));
    }
    s
}

} // verus!
