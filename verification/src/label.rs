use vstd::prelude::*;
use crate::label_parsers::decoded_label;

verus! {

/// The human-readable name of an ACARS label code: a table from the two
/// label bytes (written as their ASCII values, the label text in the comment
/// above each entry) to a name; `None` for codes outside the table.
pub open spec fn label_name(c0: u8, c1: u8) -> Option<&'static str> {
    match (c0, c1) {
        // 10 17
        (0x31, 0x30)
        | (0x31, 0x37) => Some("Arrival info"),
        // 11 QA
        (0x31, 0x31)
        | (0x51, 0x41) => Some("Out (gate)"),
        // 12 QB
        (0x31, 0x32)
        | (0x51, 0x42) => Some("Off (wheels)"),
        // 13 QC
        (0x31, 0x33)
        | (0x51, 0x43) => Some("On (wheels)"),
        // 14 QD
        (0x31, 0x34)
        | (0x51, 0x44) => Some("In (gate)"),
        // 15 80
        (0x31, 0x35)
        | (0x38, 0x30) => Some("Departure"),
        // 16 25 32 35 40 44 45 4M 4N 5U 81 A6 A8 QH QM QP QQ QR
        (0x31, 0x36)
        | (0x32, 0x35)
        | (0x33, 0x32)
        | (0x33, 0x35)
        | (0x34, 0x30)
        | (0x34, 0x34)
        | (0x34, 0x35)
        | (0x34, 0x4D)
        | (0x34, 0x4E)
        | (0x35, 0x55)
        | (0x38, 0x31)
        | (0x41, 0x36)
        | (0x41, 0x38)
        | (0x51, 0x48)
        | (0x51, 0x4D)
        | (0x51, 0x50)
        | (0x51, 0x51)
        | (0x51, 0x52) => Some("Position"),
        // 1F 82
        (0x31, 0x46)
        | (0x38, 0x32) => Some("Free text"),
        // 1G
        (0x31, 0x47) => Some("Gate request"),
        // 1H
        (0x31, 0x48) => Some("Gate assignment"),
        // 1L 2C 30 57 M1 QG
        (0x31, 0x4C)
        | (0x32, 0x43)
        | (0x33, 0x30)
        | (0x35, 0x37)
        | (0x4D, 0x31)
        | (0x51, 0x47) => Some("Position report"),
        // 1S 26 5Z 8S
        (0x31, 0x53)
        | (0x32, 0x36)
        | (0x35, 0x5A)
        | (0x38, 0x53) => Some("Schedule"),
        // 20
        (0x32, 0x30) => Some("Departure clearance"),
        // 21
        (0x32, 0x31) => Some("Departure clearance reply"),
        // 22 83
        (0x32, 0x32)
        | (0x38, 0x33) => Some("Pre-departure clearance"),
        // 23
        (0x32, 0x33) => Some("Datalink expedite"),
        // 27
        (0x32, 0x37) => Some("Schedule (revision)"),
        // 2N
        (0x32, 0x4E) => Some("Takeoff time"),
        // 2Z
        (0x32, 0x5A) => Some("Destination update"),
        // 33
        (0x33, 0x33) => Some("Fuel report"),
        // 39
        (0x33, 0x39) => Some("Maintenance ground report"),
        // 51
        (0x35, 0x31) => Some("Ground service request"),
        // 52 8A
        (0x35, 0x32)
        | (0x38, 0x41) => Some("Engine maintenance"),
        // 5Y
        (0x35, 0x59) => Some("OOOI report"),
        // 70
        (0x37, 0x30) => Some("Voice contact request"),
        // 7A 7B 7C
        (0x37, 0x41)
        | (0x37, 0x42)
        | (0x37, 0x43) => Some("Test message"),
        // 8D
        (0x38, 0x44) => Some("Dispatch reply"),
        // 8E
        (0x38, 0x45) => Some("ETA report"),
        // A0
        (0x41, 0x30) => Some("Test"),
        // A7
        (0x41, 0x37) => Some("Pre-departure clearance request"),
        // A9
        (0x41, 0x39) => Some("Pre-departure clearance reply"),
        // AA Q5
        (0x41, 0x41)
        | (0x51, 0x35) => Some("Engine data"),
        // B1 BA
        (0x42, 0x31)
        | (0x42, 0x41) => Some("Weather request"),
        // B2
        (0x42, 0x32) => Some("Weather information"),
        // B3
        (0x42, 0x33) => Some("Weather (text)"),
        // B4
        (0x42, 0x34) => Some("Weather (route)"),
        // B5
        (0x42, 0x35) => Some("Weather (terminal)"),
        // B6
        (0x42, 0x36) => Some("Weather (en-route)"),
        // B7
        (0x42, 0x37) => Some("Weather (clearance)"),
        // B8
        (0x42, 0x38) => Some("Weather (SIGMET)"),
        // B9
        (0x42, 0x39) => Some("Weather (other)"),
        // C0
        (0x43, 0x30) => Some("Uplink command"),
        // C1
        (0x43, 0x31) => Some("ATC"),
        // C2
        (0x43, 0x32) => Some("ATC clearance request"),
        // C3
        (0x43, 0x33) => Some("ATC reply"),
        // H1
        (0x48, 0x31) => Some("Crew message"),
        // H2
        (0x48, 0x32) => Some("Free text uplink"),
        // H3
        (0x48, 0x33) => Some("Free text downlink"),
        // Q0
        (0x51, 0x30) => Some("Link test"),
        // Q1
        (0x51, 0x31) => Some("ATIS"),
        // Q2
        (0x51, 0x32) => Some("ACARS network test"),
        // Q3
        (0x51, 0x33) => Some("Voice circuit test"),
        // Q4
        (0x51, 0x34) => Some("Navaids"),
        // Q6
        (0x51, 0x36) => Some("Engine display data"),
        // Q7
        (0x51, 0x37) => Some("Component maintenance"),
        // QE
        (0x51, 0x45) => Some("OOOI summary"),
        // QF
        (0x51, 0x46) => Some("OOOI (extended)"),
        // QK
        (0x51, 0x4B) => Some("Voice request"),
        // QL
        (0x51, 0x4C) => Some("ATIS (alt)"),
        // QN QS
        (0x51, 0x4E)
        | (0x51, 0x53) => Some("Diversion"),
        // QT
        (0x51, 0x54) => Some("ACARS request"),
        // RB
        (0x52, 0x42) => Some("Schedule (alias for 26)"),
        // _d
        (0x5F, 0x64) => Some("General downlink"),
        // _e
        (0x5F, 0x65) => Some("General uplink"),
        _ => None,
    }
}

/// Look up the human-readable name for a 2-byte label code. Returns
/// `Some(name)` for known ACARS labels (OOOI events, position reports,
/// weather, ATC, maintenance) and `None` for unknown codes.
pub fn lookup(code: [u8; 2]) -> (r: Option<&'static str>)
    ensures
        r == label_name(code@[0], code@[1]),
{
    let c0 = code[0];
    let c1 = code[1];
    match (c0, c1) {
        // 10 17
        (0x31, 0x30)
        | (0x31, 0x37) => Some("Arrival info"),
        // 11 QA
        (0x31, 0x31)
        | (0x51, 0x41) => Some("Out (gate)"),
        // 12 QB
        (0x31, 0x32)
        | (0x51, 0x42) => Some("Off (wheels)"),
        // 13 QC
        (0x31, 0x33)
        | (0x51, 0x43) => Some("On (wheels)"),
        // 14 QD
        (0x31, 0x34)
        | (0x51, 0x44) => Some("In (gate)"),
        // 15 80
        (0x31, 0x35)
        | (0x38, 0x30) => Some("Departure"),
        // 16 25 32 35 40 44 45 4M 4N 5U 81 A6 A8 QH QM QP QQ QR
        (0x31, 0x36)
        | (0x32, 0x35)
        | (0x33, 0x32)
        | (0x33, 0x35)
        | (0x34, 0x30)
        | (0x34, 0x34)
        | (0x34, 0x35)
        | (0x34, 0x4D)
        | (0x34, 0x4E)
        | (0x35, 0x55)
        | (0x38, 0x31)
        | (0x41, 0x36)
        | (0x41, 0x38)
        | (0x51, 0x48)
        | (0x51, 0x4D)
        | (0x51, 0x50)
        | (0x51, 0x51)
        | (0x51, 0x52) => Some("Position"),
        // 1F 82
        (0x31, 0x46)
        | (0x38, 0x32) => Some("Free text"),
        // 1G
        (0x31, 0x47) => Some("Gate request"),
        // 1H
        (0x31, 0x48) => Some("Gate assignment"),
        // 1L 2C 30 57 M1 QG
        (0x31, 0x4C)
        | (0x32, 0x43)
        | (0x33, 0x30)
        | (0x35, 0x37)
        | (0x4D, 0x31)
        | (0x51, 0x47) => Some("Position report"),
        // 1S 26 5Z 8S
        (0x31, 0x53)
        | (0x32, 0x36)
        | (0x35, 0x5A)
        | (0x38, 0x53) => Some("Schedule"),
        // 20
        (0x32, 0x30) => Some("Departure clearance"),
        // 21
        (0x32, 0x31) => Some("Departure clearance reply"),
        // 22 83
        (0x32, 0x32)
        | (0x38, 0x33) => Some("Pre-departure clearance"),
        // 23
        (0x32, 0x33) => Some("Datalink expedite"),
        // 27
        (0x32, 0x37) => Some("Schedule (revision)"),
        // 2N
        (0x32, 0x4E) => Some("Takeoff time"),
        // 2Z
        (0x32, 0x5A) => Some("Destination update"),
        // 33
        (0x33, 0x33) => Some("Fuel report"),
        // 39
        (0x33, 0x39) => Some("Maintenance ground report"),
        // 51
        (0x35, 0x31) => Some("Ground service request"),
        // 52 8A
        (0x35, 0x32)
        | (0x38, 0x41) => Some("Engine maintenance"),
        // 5Y
        (0x35, 0x59) => Some("OOOI report"),
        // 70
        (0x37, 0x30) => Some("Voice contact request"),
        // 7A 7B 7C
        (0x37, 0x41)
        | (0x37, 0x42)
        | (0x37, 0x43) => Some("Test message"),
        // 8D
        (0x38, 0x44) => Some("Dispatch reply"),
        // 8E
        (0x38, 0x45) => Some("ETA report"),
        // A0
        (0x41, 0x30) => Some("Test"),
        // A7
        (0x41, 0x37) => Some("Pre-departure clearance request"),
        // A9
        (0x41, 0x39) => Some("Pre-departure clearance reply"),
        // AA Q5
        (0x41, 0x41)
        | (0x51, 0x35) => Some("Engine data"),
        // B1 BA
        (0x42, 0x31)
        | (0x42, 0x41) => Some("Weather request"),
        // B2
        (0x42, 0x32) => Some("Weather information"),
        // B3
        (0x42, 0x33) => Some("Weather (text)"),
        // B4
        (0x42, 0x34) => Some("Weather (route)"),
        // B5
        (0x42, 0x35) => Some("Weather (terminal)"),
        // B6
        (0x42, 0x36) => Some("Weather (en-route)"),
        // B7
        (0x42, 0x37) => Some("Weather (clearance)"),
        // B8
        (0x42, 0x38) => Some("Weather (SIGMET)"),
        // B9
        (0x42, 0x39) => Some("Weather (other)"),
        // C0
        (0x43, 0x30) => Some("Uplink command"),
        // C1
        (0x43, 0x31) => Some("ATC"),
        // C2
        (0x43, 0x32) => Some("ATC clearance request"),
        // C3
        (0x43, 0x33) => Some("ATC reply"),
        // H1
        (0x48, 0x31) => Some("Crew message"),
        // H2
        (0x48, 0x32) => Some("Free text uplink"),
        // H3
        (0x48, 0x33) => Some("Free text downlink"),
        // Q0
        (0x51, 0x30) => Some("Link test"),
        // Q1
        (0x51, 0x31) => Some("ATIS"),
        // Q2
        (0x51, 0x32) => Some("ACARS network test"),
        // Q3
        (0x51, 0x33) => Some("Voice circuit test"),
        // Q4
        (0x51, 0x34) => Some("Navaids"),
        // Q6
        (0x51, 0x36) => Some("Engine display data"),
        // Q7
        (0x51, 0x37) => Some("Component maintenance"),
        // QE
        (0x51, 0x45) => Some("OOOI summary"),
        // QF
        (0x51, 0x46) => Some("OOOI (extended)"),
        // QK
        (0x51, 0x4B) => Some("Voice request"),
        // QL
        (0x51, 0x4C) => Some("ATIS (alt)"),
        // QN QS
        (0x51, 0x4E)
        | (0x51, 0x53) => Some("Diversion"),
        // QT
        (0x51, 0x54) => Some("ACARS request"),
        // RB
        (0x52, 0x42) => Some("Schedule (alias for 26)"),
        // _d
        (0x5F, 0x64) => Some("General downlink"),
        // _e
        (0x5F, 0x65) => Some("General uplink"),
        _ => None,
    }
}

/// The codes that the label table lists under one shared entry: codes with
/// the same group number are aliases of one label (`10`/`17`, `11`/`QA`,
/// `12`/`QB`, `13`/`QC`, `14`/`QD`, `15`/`80`, the position labels, `1F`/`82`,
/// the position-report labels, the schedule labels, `22`/`83`, `52`/`8A`,
/// `7A`/`7B`/`7C`, `AA`/`Q5`, `B1`/`BA`, `QN`/`QS`); `None` for a code
/// listed alone or not at all.
pub open spec fn alias_group(c0: u8, c1: u8) -> Option<nat> {
    match (c0, c1) {
        (0x31, 0x30) | (0x31, 0x37) => Some(0),
        (0x31, 0x31) | (0x51, 0x41) => Some(1),
        (0x31, 0x32) | (0x51, 0x42) => Some(2),
        (0x31, 0x33) | (0x51, 0x43) => Some(3),
        (0x31, 0x34) | (0x51, 0x44) => Some(4),
        (0x31, 0x35) | (0x38, 0x30) => Some(5),
        (0x31, 0x36)
        | (0x32, 0x35)
        | (0x33, 0x32)
        | (0x33, 0x35)
        | (0x34, 0x30)
        | (0x34, 0x34)
        | (0x34, 0x35)
        | (0x34, 0x4D)
        | (0x34, 0x4E)
        | (0x35, 0x55)
        | (0x38, 0x31)
        | (0x41, 0x36)
        | (0x41, 0x38)
        | (0x51, 0x48)
        | (0x51, 0x4D)
        | (0x51, 0x50)
        | (0x51, 0x51)
        | (0x51, 0x52) => Some(6),
        (0x31, 0x46) | (0x38, 0x32) => Some(7),
        (0x31, 0x4C) | (0x32, 0x43) | (0x33, 0x30) | (0x35, 0x37) | (0x4D, 0x31) | (0x51, 0x47) => Some(8),
        (0x31, 0x53) | (0x32, 0x36) | (0x35, 0x5A) | (0x38, 0x53) => Some(9),
        (0x32, 0x32) | (0x38, 0x33) => Some(10),
        (0x35, 0x32) | (0x38, 0x41) => Some(11),
        (0x37, 0x41) | (0x37, 0x42) | (0x37, 0x43) => Some(12),
        (0x41, 0x41) | (0x51, 0x35) => Some(13),
        (0x42, 0x31) | (0x42, 0x41) => Some(14),
        (0x51, 0x4E) | (0x51, 0x53) => Some(15),
        _ => None,
    }
}

/// Aliases share a name: two codes listed under one entry of the label
/// table are both known and [`lookup`] gives them the same name (so `15`
/// and `80` are both "Departure").
pub proof fn lemma_aliases_share_name(a0: u8, a1: u8, b0: u8, b1: u8)
    requires
        alias_group(a0, a1) is Some,
        alias_group(a0, a1) == alias_group(b0, b1),
    ensures
        label_name(a0, a1) is Some,
        label_name(a0, a1) == label_name(b0, b1),
{
}

/// Every label with an OOOI layout is a known label: whenever
/// `decode_label` extracts a record for a code, [`lookup`] names that code.
pub proof fn lemma_decoded_labels_named(c0: u8, c1: u8, b: Seq<u8>)
    requires
        decoded_label(c0, c1, b) is Some,
    ensures
        label_name(c0, c1) is Some,
{
}

} // verus!
