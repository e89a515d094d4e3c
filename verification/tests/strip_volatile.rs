//! Normalization of the text record used to compare decoder output with
//! reference output: the volatile header fields (record number, level,
//! error count, timestamp) are blanked.
use sdr_acars::frame::AcarsMessage;
use sdr_acars::text_record::format_record;

/// Blank the volatile header fields of each line: a line starting with
/// `[#<digits> (L:<anything>)` followed by spaces, digits and dots up to `--`
/// has that prefix replaced by `[#X (L:N E:N) --`.
fn strip_volatile(s: &str) -> String {
    let mut out = String::with_capacity(s.len());
    for line in s.split_inclusive('\n') {
        if let Some(stripped) = strip_volatile_line(line) {
            out.push_str(&stripped);
        } else {
            out.push_str(line);
        }
    }
    out
}

/// If `line` begins with the volatile header pattern, return the line
/// with that prefix replaced by `[#X (L:N E:N) --`. Otherwise return
/// `None` so the caller can pass the line through unchanged.
fn strip_volatile_line(line: &str) -> Option<String> {
    // 1. Must start with `[#`.
    let rest = line.strip_prefix("[#")?;

    // 2. One-or-more digits.
    let digits_end = rest.find(|c: char| !c.is_ascii_digit())?;
    if digits_end == 0 {
        return None;
    }
    let rest = &rest[digits_end..];

    // 3. ` (L:`.
    let rest = rest.strip_prefix(" (L:")?;

    // 4. Up through the closing `)` (must be at least one char inside).
    let close_idx = rest.find(')')?;
    if close_idx == 0 {
        return None;
    }
    let rest = &rest[close_idx + 1..];

    // 5. Zero-or-more of ` 0-9.`, then literal `--`.
    let trail_end = rest
        .find(|c: char| !(c == ' ' || c == '.' || c.is_ascii_digit()))
        .unwrap_or(rest.len());
    let trailing = &rest[trail_end..];
    let after_dashes = trailing.strip_prefix("--")?;

    let mut result = String::with_capacity(line.len());
    result.push_str("[#X (L:N E:N) --");
    result.push_str(after_dashes);
    Some(result)
}

#[test]
fn strips_acarsdec_format_with_two_trailing_spaces() {
    let input = "[#3 (L: -4.6 E:0)  --------------------------------\nMode : E\n";
    let expected = "[#X (L:N E:N) --------------------------------\nMode : E\n";
    assert_eq!(strip_volatile(input), expected);
}

#[test]
fn strips_our_format_with_unix_timestamp() {
    let input = "[#3 (L: +0.0 E:0) 1777469730.394 --------------------------------\nbody\n";
    let expected = "[#X (L:N E:N) --------------------------------\nbody\n";
    assert_eq!(strip_volatile(input), expected);
}

#[test]
fn passes_non_header_lines_through_unchanged() {
    let input = "Mode : E Label : 5V Id : 4 Nak\nNo: S53A\n";
    assert_eq!(strip_volatile(input), input);
}

#[test]
fn leaves_non_matching_brackets_alone() {
    // Looks similar but missing the (L:…) middle.
    let input = "[#5 something else\n";
    assert_eq!(strip_volatile(input), input);
}

fn message(level_tenths_db: i32, error_count: u8, timestamp: u128) -> AcarsMessage {
    AcarsMessage {
        timestamp,
        channel_idx: 2,
        freq_hz: 131_550_000,
        level_tenths_db,
        error_count,
        mode: b'2',
        label: *b"H1",
        block_id: b'A',
        ack: b'!',
        aircraft: ".N12345".to_string(),
        flight_id: None,
        message_no: None,
        text: "TEST".to_string(),
        end_of_message: true,
        reassembled_block_count: 1,
        parsed: None,
    }
}

#[test]
fn records_differing_only_in_volatile_fields_normalize_alike() {
    let a = format_record(&message(0, 0, 1_777_469_730_394_000_000));
    let b = format_record(&message(-46, 3, 5_000_000));
    assert_ne!(a, b);
    assert_eq!(strip_volatile(&a), strip_volatile(&b));
}
