//! The JSON record of a decoded message: which keys it carries and what
//! each holds: the common ACARS JSON schema, plus a `reassembled_blocks` count
//! for multi-block messages. Timestamp, frequency and level are handed over
//! in their integer units; turning them into JSON numbers (seconds, MHz,
//! dB) and writing the text is left to the serializer.
use vstd::prelude::*;
use vstd::string::StringExecFns;
use crate::frame::AcarsMessage;
use crate::label_parsers::{opt_text, Oooi};

verus! {

/// One JSON value of the record.
#[derive(Debug, PartialEq, Eq)]
pub enum JsonValue {
    /// A string.
    Text(String),
    /// A non-negative integer.
    Number(u64),
    /// A boolean.
    Flag(bool),
    /// A time in nanoseconds since the Unix epoch, written as seconds.
    Seconds(u128),
    /// A frequency in Hz, written in MHz.
    Megahertz(u64),
    /// A level in tenths of a dB, written in dB.
    Decibels(i32),
}

/// The abstract value of a [`JsonValue`].
pub enum JsonValueView {
    Text(Seq<char>),
    Number(nat),
    Flag(bool),
    Seconds(nat),
    Megahertz(nat),
    Decibels(int),
}

impl View for JsonValue {
    type V = JsonValueView;

    open spec fn view(&self) -> JsonValueView {
        match self {
            JsonValue::Text(s) => JsonValueView::Text(s@),
            JsonValue::Number(n) => JsonValueView::Number(*n as nat),
            JsonValue::Flag(b) => JsonValueView::Flag(*b),
            JsonValue::Seconds(t) => JsonValueView::Seconds(*t as nat),
            JsonValue::Megahertz(f) => JsonValueView::Megahertz(*f as nat),
            JsonValue::Decibels(l) => JsonValueView::Decibels(*l as int),
        }
    }
}

/// One key of the record with its value.
#[derive(Debug)]
pub struct JsonField {
    pub key: String,
    pub value: JsonValue,
}

impl View for JsonField {
    type V = (Seq<char>, JsonValueView);

    open spec fn view(&self) -> (Seq<char>, JsonValueView) {
        (self.key@, self.value@)
    }
}

/// The views of the fields.
pub open spec fn fields_view(f: Seq<JsonField>) -> Seq<(Seq<char>, JsonValueView)> {
    f.map_values(|x: JsonField| x@)
}

/// The field `(key, value)` when `cond` holds, nothing otherwise.
pub open spec fn field_if(cond: bool, key: Seq<char>, value: JsonValueView) -> Seq<(Seq<char>, JsonValueView)> {
    if cond {
        seq![(key, value)]
    } else {
        seq![]
    }
}

/// A text field for an optional string.
pub open spec fn opt_text_field(key: Seq<char>, o: Option<String>) -> Seq<(Seq<char>, JsonValueView)> {
    match o {
        Some(s) => seq![(key, JsonValueView::Text(s@))],
        None => seq![],
    }
}

/// The OOOI fields under their JSON keys.
pub open spec fn oooi_fields(p: Option<Oooi>) -> Seq<(Seq<char>, JsonValueView)> {
    match p {
        Some(o) => opt_text_field("depa"@, o.sa) + opt_text_field("dsta"@, o.da) + opt_text_field("eta"@, o.eta)
            + opt_text_field("gtout"@, o.gout) + opt_text_field("gtin"@, o.gin) + opt_text_field(
            "wloff"@,
            o.woff,
        ) + opt_text_field("wlin"@, o.won),
        None => seq![],
    }
}

/// Timestamp; the station id when given and non-empty; channel,
/// frequency, level, error count, mode, label and aircraft.
pub open spec fn head_fields(msg: AcarsMessage, station: Option<Seq<char>>) -> Seq<(Seq<char>, JsonValueView)> {
    seq![("timestamp"@, JsonValueView::Seconds(msg.timestamp as nat))] + station_fields(station) + seq![
        ("channel"@, JsonValueView::Number(msg.channel_idx as nat)),
        ("freq"@, JsonValueView::Megahertz(msg.freq_hz as nat)),
        ("level"@, JsonValueView::Decibels(msg.level_tenths_db as int)),
        ("error"@, JsonValueView::Number(msg.error_count as nat)),
        ("mode"@, JsonValueView::Text(seq![msg.mode as char])),
        ("label"@, JsonValueView::Text(seq![msg.label@[0] as char, msg.label@[1] as char])),
        ("tail"@, JsonValueView::Text(msg.aircraft@)),
    ]
}

/// Block id and acknowledgement (`false` for a NAK), when there is a block
/// id.
pub open spec fn block_fields(msg: AcarsMessage) -> Seq<(Seq<char>, JsonValueView)> {
    if msg.block_id != 0 {
        seq![
            ("block_id"@, JsonValueView::Text(seq![msg.block_id as char])),
            ("ack"@, if msg.ack == 0x21 {
                JsonValueView::Flag(false)
            } else {
                JsonValueView::Text(seq![msg.ack as char])
            }),
        ]
    } else {
        seq![]
    }
}

/// Flight id and message number when present; the text when non-empty;
/// `end` for a final block; the block count of a reassembled message; and
/// the OOOI fields present.
pub open spec fn trailing_fields(msg: AcarsMessage) -> Seq<(Seq<char>, JsonValueView)> {
    opt_text_field("flight"@, msg.flight_id) + opt_text_field("msgno"@, msg.message_no) + field_if(
        msg.text@.len() > 0,
        "text"@,
        JsonValueView::Text(msg.text@),
    ) + field_if(msg.end_of_message, "end"@, JsonValueView::Flag(true)) + field_if(
        msg.reassembled_block_count > 1,
        "reassembled_blocks"@,
        JsonValueView::Number(msg.reassembled_block_count as nat),
    ) + oooi_fields(msg.parsed)
}

/// The record of `msg`, key by key.
pub open spec fn json_plan(msg: AcarsMessage, station: Option<Seq<char>>) -> Seq<(Seq<char>, JsonValueView)> {
    head_fields(msg, station) + block_fields(msg) + trailing_fields(msg)
}

/// The key of one of the OOOI fields.
pub open spec fn is_oooi_key(k: Seq<char>) -> bool {
    k == "depa"@ || k == "dsta"@ || k == "eta"@ || k == "gtout"@ || k == "gtin"@ || k == "wloff"@
        || k == "wlin"@
}

/// No field of `s` is under `key`.
pub open spec fn lacks_key(s: Seq<(Seq<char>, JsonValueView)>, key: Seq<char>) -> bool {
    forall|j: int| 0 <= j < s.len() ==> (#[trigger] s[j]).0 != key
}

/// `s` holds exactly one field under `key`, and that field's value is `v`.
pub open spec fn holds_once(s: Seq<(Seq<char>, JsonValueView)>, key: Seq<char>, v: JsonValueView) -> bool {
    exists|i: int|
        0 <= i < s.len() && s[i] == (key, v) && forall|j: int|
            0 <= j < s.len() && (#[trigger] s[j]).0 == key ==> j == i
}

/// Under `key`, `s` holds the value `o` exactly once when `o` is given and
/// nothing when it is not.
pub open spec fn holds_value(s: Seq<(Seq<char>, JsonValueView)>, key: Seq<char>, o: Option<JsonValueView>) -> bool {
    match o {
        Some(v) => holds_once(s, key, v),
        None => lacks_key(s, key),
    }
}

/// An optional text as an optional JSON text value.
pub open spec fn as_text(o: Option<Seq<char>>) -> Option<JsonValueView> {
    match o {
        Some(t) => Some(JsonValueView::Text(t)),
        None => None,
    }
}

/// Under `key`, `s` holds the text `o` exactly once when `o` is present and
/// nothing when it is absent.
pub open spec fn carries(s: Seq<(Seq<char>, JsonValueView)>, key: Seq<char>, o: Option<Seq<char>>) -> bool {
    holds_value(s, key, as_text(o))
}

/// No field of `s` is under an OOOI key.
spec fn no_oooi_key(s: Seq<(Seq<char>, JsonValueView)>) -> bool {
    forall|j: int| 0 <= j < s.len() ==> !is_oooi_key((#[trigger] s[j]).0)
}

/// `o` when `key` is `k`, nothing otherwise.
spec fn text_under(key: Seq<char>, k: Seq<char>, o: Option<String>) -> Option<Seq<char>> {
    if key == k {
        opt_text(o)
    } else {
        None
    }
}

/// The first of two optional texts that is present.
spec fn either(a: Option<Seq<char>>, b: Option<Seq<char>>) -> Option<Seq<char>> {
    if a is Some {
        a
    } else {
        b
    }
}

/// The first of two optional values that is given.
spec fn first_given(a: Option<JsonValueView>, b: Option<JsonValueView>) -> Option<JsonValueView> {
    if a is Some {
        a
    } else {
        b
    }
}

/// The keys of the record, spelled out: the OOOI keys are distinct, and no
/// other key of the record is one of them.
proof fn lemma_keys_distinct()
    ensures
        !is_oooi_key("timestamp"@),
        !is_oooi_key("station_id"@),
        !is_oooi_key("channel"@),
        !is_oooi_key("freq"@),
        !is_oooi_key("level"@),
        !is_oooi_key("error"@),
        !is_oooi_key("mode"@),
        !is_oooi_key("label"@),
        !is_oooi_key("tail"@),
        !is_oooi_key("block_id"@),
        !is_oooi_key("ack"@),
        !is_oooi_key("flight"@),
        !is_oooi_key("msgno"@),
        !is_oooi_key("text"@),
        !is_oooi_key("end"@),
        !is_oooi_key("reassembled_blocks"@),
        "depa"@ != "dsta"@,
        "depa"@ != "eta"@,
        "depa"@ != "gtout"@,
        "depa"@ != "gtin"@,
        "depa"@ != "wloff"@,
        "depa"@ != "wlin"@,
        "dsta"@ != "eta"@,
        "dsta"@ != "gtout"@,
        "dsta"@ != "gtin"@,
        "dsta"@ != "wloff"@,
        "dsta"@ != "wlin"@,
        "eta"@ != "gtout"@,
        "eta"@ != "gtin"@,
        "eta"@ != "wloff"@,
        "eta"@ != "wlin"@,
        "gtout"@ != "gtin"@,
        "gtout"@ != "wloff"@,
        "gtout"@ != "wlin"@,
        "gtin"@ != "wloff"@,
        "gtin"@ != "wlin"@,
        "wloff"@ != "wlin"@,
{
    reveal_strlit("depa");
    assert("depa"@.len() == 4 && "depa"@[0] == 'd' && "depa"@[1] == 'e');
    reveal_strlit("dsta");
    assert("dsta"@.len() == 4 && "dsta"@[0] == 'd' && "dsta"@[1] == 's');
    reveal_strlit("eta");
    assert("eta"@.len() == 3 && "eta"@[0] == 'e' && "eta"@[1] == 't');
    reveal_strlit("gtout");
    assert("gtout"@.len() == 5 && "gtout"@[0] == 'g' && "gtout"@[1] == 't');
    reveal_strlit("gtin");
    assert("gtin"@.len() == 4 && "gtin"@[0] == 'g' && "gtin"@[1] == 't');
    reveal_strlit("wloff");
    assert("wloff"@.len() == 5 && "wloff"@[0] == 'w' && "wloff"@[1] == 'l');
    reveal_strlit("wlin");
    assert("wlin"@.len() == 4 && "wlin"@[0] == 'w' && "wlin"@[1] == 'l');
    reveal_strlit("timestamp");
    assert("timestamp"@.len() == 9 && "timestamp"@[0] == 't' && "timestamp"@[1] == 'i');
    reveal_strlit("station_id");
    assert("station_id"@.len() == 10 && "station_id"@[0] == 's' && "station_id"@[1] == 't');
    reveal_strlit("channel");
    assert("channel"@.len() == 7 && "channel"@[0] == 'c' && "channel"@[1] == 'h');
    reveal_strlit("freq");
    assert("freq"@.len() == 4 && "freq"@[0] == 'f' && "freq"@[1] == 'r');
    reveal_strlit("level");
    assert("level"@.len() == 5 && "level"@[0] == 'l' && "level"@[1] == 'e');
    reveal_strlit("error");
    assert("error"@.len() == 5 && "error"@[0] == 'e' && "error"@[1] == 'r');
    reveal_strlit("mode");
    assert("mode"@.len() == 4 && "mode"@[0] == 'm' && "mode"@[1] == 'o');
    reveal_strlit("label");
    assert("label"@.len() == 5 && "label"@[0] == 'l' && "label"@[1] == 'a');
    reveal_strlit("tail");
    assert("tail"@.len() == 4 && "tail"@[0] == 't' && "tail"@[1] == 'a');
    reveal_strlit("block_id");
    assert("block_id"@.len() == 8 && "block_id"@[0] == 'b' && "block_id"@[1] == 'l');
    reveal_strlit("ack");
    assert("ack"@.len() == 3 && "ack"@[0] == 'a' && "ack"@[1] == 'c');
    reveal_strlit("flight");
    assert("flight"@.len() == 6 && "flight"@[0] == 'f' && "flight"@[1] == 'l');
    reveal_strlit("msgno");
    assert("msgno"@.len() == 5 && "msgno"@[0] == 'm' && "msgno"@[1] == 's');
    reveal_strlit("text");
    assert("text"@.len() == 4 && "text"@[0] == 't' && "text"@[1] == 'e');
    reveal_strlit("end");
    assert("end"@.len() == 3 && "end"@[0] == 'e' && "end"@[1] == 'n');
    reveal_strlit("reassembled_blocks");
    assert("reassembled_blocks"@.len() == 18 && "reassembled_blocks"@[0] == 'r' && "reassembled_blocks"@[1] == 'e');
}

/// Records with no OOOI key, joined, have none.
proof fn lemma_no_oooi_concat(a: Seq<(Seq<char>, JsonValueView)>, b: Seq<(Seq<char>, JsonValueView)>)
    requires
        no_oooi_key(a),
        no_oooi_key(b),
    ensures
        no_oooi_key(a + b),
{
    assert forall|j: int| 0 <= j < (a + b).len() implies !is_oooi_key((#[trigger] (a + b)[j]).0) by {
        if j < a.len() {
            assert((a + b)[j] == a[j]);
        } else {
            assert((a + b)[j] == b[j - a.len()]);
        }
    }
}

/// An optional field under a key that is not an OOOI key.
proof fn lemma_no_oooi_opt(k: Seq<char>, o: Option<String>)
    requires
        !is_oooi_key(k),
    ensures
        no_oooi_key(opt_text_field(k, o)),
{
}

/// A conditional field under a key that is not an OOOI key.
proof fn lemma_no_oooi_if(cond: bool, k: Seq<char>, v: JsonValueView)
    requires
        !is_oooi_key(k),
    ensures
        no_oooi_key(field_if(cond, k, v)),
{
}

/// Joining two records, each holding under `key` the value `oa` and `ob`
/// respectively, at most one of them given.
proof fn lemma_holds_concat(
    a: Seq<(Seq<char>, JsonValueView)>,
    b: Seq<(Seq<char>, JsonValueView)>,
    key: Seq<char>,
    oa: Option<JsonValueView>,
    ob: Option<JsonValueView>,
)
    requires
        holds_value(a, key, oa),
        holds_value(b, key, ob),
        oa is None || ob is None,
    ensures
        holds_value(a + b, key, first_given(oa, ob)),
{
    let c = a + b;
    assert forall|j: int| 0 <= j < c.len() implies (#[trigger] c[j]) == (if j < a.len() {
        a[j]
    } else {
        b[j - a.len()]
    }) by {}
    match oa {
        Some(t) => {
            let i = choose|i: int|
                0 <= i < a.len() && a[i] == (key, t) && forall|j: int|
                    0 <= j < a.len() && (#[trigger] a[j]).0 == key ==> j == i;
            assert(c[i] == a[i]);
            assert forall|j: int| 0 <= j < c.len() && (#[trigger] c[j]).0 == key implies j == i by {
                if j >= a.len() {
                    assert(b[j - a.len()].0 != key);
                }
            }
        },
        None => match ob {
            Some(t) => {
                let i = choose|i: int|
                    0 <= i < b.len() && b[i] == (key, t) && forall|j: int|
                        0 <= j < b.len() && (#[trigger] b[j]).0 == key ==> j == i;
                assert(c[a.len() + i] == b[i]);
                assert forall|j: int| 0 <= j < c.len() && (#[trigger] c[j]).0 == key implies j == a.len()
                    + i by {
                    if j < a.len() {
                        assert(a[j].0 != key);
                    } else {
                        assert(b[j - a.len()].0 == key);
                    }
                }
            },
            None => {
                assert forall|j: int| 0 <= j < c.len() implies (#[trigger] c[j]).0 != key by {
                    if j < a.len() {
                        assert(a[j].0 != key);
                    } else {
                        assert(b[j - a.len()].0 != key);
                    }
                }
            },
        },
    }
}

/// Joining two records, each carrying under `key` the text `oa` and `ob`
/// respectively, at most one of them present.
proof fn lemma_carries_concat(
    a: Seq<(Seq<char>, JsonValueView)>,
    b: Seq<(Seq<char>, JsonValueView)>,
    key: Seq<char>,
    oa: Option<Seq<char>>,
    ob: Option<Seq<char>>,
)
    requires
        carries(a, key, oa),
        carries(b, key, ob),
        oa is None || ob is None,
    ensures
        carries(a + b, key, either(oa, ob)),
{
    lemma_holds_concat(a, b, key, as_text(oa), as_text(ob));
}

/// One optional field under `k`, seen from `key`.
proof fn lemma_opt_field_carries(key: Seq<char>, k: Seq<char>, o: Option<String>)
    ensures
        carries(opt_text_field(k, o), key, text_under(key, k, o)),
{
    if key == k {
        if let Some(t) = o {
            let s = opt_text_field(k, o);
            assert(s[0] == (key, JsonValueView::Text(t@)));
        }
    }
}

/// The OOOI part of a record carries, under each OOOI key, the text of its
/// field: origin `depa`, destination `dsta`, ETA `eta`, gate-out `gtout`,
/// gate-in `gtin`, wheels-off `wloff`, wheels-on `wlin`.
proof fn lemma_oooi_part_carries(o: Oooi, key: Seq<char>)
    ensures
        carries(
            oooi_fields(Some(o)),
            key,
            either(
                either(
                    either(
                        either(
                            either(
                                either(text_under(key, "depa"@, o.sa), text_under(key, "dsta"@, o.da)),
                                text_under(key, "eta"@, o.eta),
                            ),
                            text_under(key, "gtout"@, o.gout),
                        ),
                        text_under(key, "gtin"@, o.gin),
                    ),
                    text_under(key, "wloff"@, o.woff),
                ),
                text_under(key, "wlin"@, o.won),
            ),
        ),
{
    lemma_keys_distinct();
    let p1 = opt_text_field("depa"@, o.sa);
    let p2 = opt_text_field("dsta"@, o.da);
    let p3 = opt_text_field("eta"@, o.eta);
    let p4 = opt_text_field("gtout"@, o.gout);
    let p5 = opt_text_field("gtin"@, o.gin);
    let p6 = opt_text_field("wloff"@, o.woff);
    let p7 = opt_text_field("wlin"@, o.won);
    let s1 = text_under(key, "depa"@, o.sa);
    let s2 = text_under(key, "dsta"@, o.da);
    let s3 = text_under(key, "eta"@, o.eta);
    let s4 = text_under(key, "gtout"@, o.gout);
    let s5 = text_under(key, "gtin"@, o.gin);
    let s6 = text_under(key, "wloff"@, o.woff);
    let s7 = text_under(key, "wlin"@, o.won);
    lemma_opt_field_carries(key, "depa"@, o.sa);
    lemma_opt_field_carries(key, "dsta"@, o.da);
    lemma_opt_field_carries(key, "eta"@, o.eta);
    lemma_opt_field_carries(key, "gtout"@, o.gout);
    lemma_opt_field_carries(key, "gtin"@, o.gin);
    lemma_opt_field_carries(key, "wloff"@, o.woff);
    lemma_opt_field_carries(key, "wlin"@, o.won);
    lemma_carries_concat(p1, p2, key, s1, s2);
    let e2 = either(s1, s2);
    lemma_carries_concat(p1 + p2, p3, key, e2, s3);
    let e3 = either(e2, s3);
    lemma_carries_concat(p1 + p2 + p3, p4, key, e3, s4);
    let e4 = either(e3, s4);
    lemma_carries_concat(p1 + p2 + p3 + p4, p5, key, e4, s5);
    let e5 = either(e4, s5);
    lemma_carries_concat(p1 + p2 + p3 + p4 + p5, p6, key, e5, s6);
    let e6 = either(e5, s6);
    lemma_carries_concat(p1 + p2 + p3 + p4 + p5 + p6, p7, key, e6, s7);
}

/// Everything before the OOOI part of a record is under other keys.
proof fn lemma_front_no_oooi(msg: AcarsMessage, station: Option<Seq<char>>)
    ensures
        no_oooi_key(
            head_fields(msg, station) + block_fields(msg) + (opt_text_field("flight"@, msg.flight_id)
                + opt_text_field("msgno"@, msg.message_no) + field_if(
                msg.text@.len() > 0,
                "text"@,
                JsonValueView::Text(msg.text@),
            ) + field_if(msg.end_of_message, "end"@, JsonValueView::Flag(true)) + field_if(
                msg.reassembled_block_count > 1,
                "reassembled_blocks"@,
                JsonValueView::Number(msg.reassembled_block_count as nat),
            )),
        ),
{
    lemma_keys_distinct();
    let ts = seq![("timestamp"@, JsonValueView::Seconds(msg.timestamp as nat))];
    let st = station_fields(station);
    let chan = seq![
        ("channel"@, JsonValueView::Number(msg.channel_idx as nat)),
        ("freq"@, JsonValueView::Megahertz(msg.freq_hz as nat)),
        ("level"@, JsonValueView::Decibels(msg.level_tenths_db as int)),
        ("error"@, JsonValueView::Number(msg.error_count as nat)),
        ("mode"@, JsonValueView::Text(seq![msg.mode as char])),
        ("label"@, JsonValueView::Text(seq![msg.label@[0] as char, msg.label@[1] as char])),
        ("tail"@, JsonValueView::Text(msg.aircraft@)),
    ];
    assert(no_oooi_key(ts));
    assert(no_oooi_key(st));
    assert(no_oooi_key(chan));
    lemma_no_oooi_concat(ts, st);
    lemma_no_oooi_concat(ts + st, chan);
    assert(head_fields(msg, station) == ts + st + chan);
    assert(no_oooi_key(block_fields(msg)));
    lemma_no_oooi_concat(head_fields(msg, station), block_fields(msg));
    let x1 = opt_text_field("flight"@, msg.flight_id);
    let x2 = opt_text_field("msgno"@, msg.message_no);
    let x3 = field_if(msg.text@.len() > 0, "text"@, JsonValueView::Text(msg.text@));
    let x4 = field_if(msg.end_of_message, "end"@, JsonValueView::Flag(true));
    let x5 = field_if(
        msg.reassembled_block_count > 1,
        "reassembled_blocks"@,
        JsonValueView::Number(msg.reassembled_block_count as nat),
    );
    lemma_no_oooi_opt("flight"@, msg.flight_id);
    lemma_no_oooi_opt("msgno"@, msg.message_no);
    lemma_no_oooi_if(msg.text@.len() > 0, "text"@, JsonValueView::Text(msg.text@));
    lemma_no_oooi_if(msg.end_of_message, "end"@, JsonValueView::Flag(true));
    lemma_no_oooi_if(
        msg.reassembled_block_count > 1,
        "reassembled_blocks"@,
        JsonValueView::Number(msg.reassembled_block_count as nat),
    );
    lemma_no_oooi_concat(x1, x2);
    lemma_no_oooi_concat(x1 + x2, x3);
    lemma_no_oooi_concat(x1 + x2 + x3, x4);
    lemma_no_oooi_concat(x1 + x2 + x3 + x4, x5);
    lemma_no_oooi_concat(head_fields(msg, station) + block_fields(msg), x1 + x2 + x3 + x4 + x5);
}

/// The OOOI record of a message reaches its JSON record whole: for every
/// OOOI field of `msg.parsed` the record holds exactly one field under that
/// field's key (origin `depa`, destination `dsta`, ETA `eta`, gate-out
/// `gtout`, gate-in `gtin`, wheels-off `wloff`, wheels-on `wlin`) with the
/// field's text, and no field under the key of an absent one; a message
/// without an OOOI record has none of these keys.
pub proof fn lemma_oooi_in_record(msg: AcarsMessage, station: Option<Seq<char>>)
    ensures
        ({
            let plan = json_plan(msg, station);
            let v = match msg.parsed {
                Some(o) => o@,
                None => crate::label_parsers::no_fields(),
            };
            &&& carries(plan, "depa"@, v.sa)
            &&& carries(plan, "dsta"@, v.da)
            &&& carries(plan, "eta"@, v.eta)
            &&& carries(plan, "gtout"@, v.gout)
            &&& carries(plan, "gtin"@, v.gin)
            &&& carries(plan, "wloff"@, v.woff)
            &&& carries(plan, "wlin"@, v.won)
        }),
{
    lemma_front_no_oooi(msg, station);
    let front = lemma_record_split(msg, station);
    let o_part = oooi_fields(msg.parsed);
    let v = match msg.parsed {
        Some(o) => o@,
        None => crate::label_parsers::no_fields(),
    };
    match msg.parsed {
        Some(o) => {
            lemma_oooi_keys_carry(o);
        },
        None => {},
    }
    lemma_front_then_oooi(front, o_part, "depa"@, v.sa);
    lemma_front_then_oooi(front, o_part, "dsta"@, v.da);
    lemma_front_then_oooi(front, o_part, "eta"@, v.eta);
    lemma_front_then_oooi(front, o_part, "gtout"@, v.gout);
    lemma_front_then_oooi(front, o_part, "gtin"@, v.gin);
    lemma_front_then_oooi(front, o_part, "wloff"@, v.woff);
    lemma_front_then_oooi(front, o_part, "wlin"@, v.won);
}

/// The record is the fields in front of the OOOI part, then the OOOI part.
proof fn lemma_record_split(msg: AcarsMessage, station: Option<Seq<char>>) -> (front: Seq<
    (Seq<char>, JsonValueView),
>)
    ensures
        front == head_fields(msg, station) + block_fields(msg) + (opt_text_field(
            "flight"@,
            msg.flight_id,
        ) + opt_text_field("msgno"@, msg.message_no) + field_if(
            msg.text@.len() > 0,
            "text"@,
            JsonValueView::Text(msg.text@),
        ) + field_if(msg.end_of_message, "end"@, JsonValueView::Flag(true)) + field_if(
            msg.reassembled_block_count > 1,
            "reassembled_blocks"@,
            JsonValueView::Number(msg.reassembled_block_count as nat),
        )),
        json_plan(msg, station) == front + oooi_fields(msg.parsed),
{
    let x = opt_text_field("flight"@, msg.flight_id) + opt_text_field("msgno"@, msg.message_no)
        + field_if(msg.text@.len() > 0, "text"@, JsonValueView::Text(msg.text@)) + field_if(
        msg.end_of_message,
        "end"@,
        JsonValueView::Flag(true),
    ) + field_if(
        msg.reassembled_block_count > 1,
        "reassembled_blocks"@,
        JsonValueView::Number(msg.reassembled_block_count as nat),
    );
    let front = head_fields(msg, station) + block_fields(msg) + x;
    assert(json_plan(msg, station) =~= front + oooi_fields(msg.parsed));
    front
}

/// The OOOI part of the record of an OOOI record `o` carries each field of
/// `o` under its own key.
proof fn lemma_oooi_keys_carry(o: Oooi)
    ensures
        carries(oooi_fields(Some(o)), "depa"@, opt_text(o.sa)),
        carries(oooi_fields(Some(o)), "dsta"@, opt_text(o.da)),
        carries(oooi_fields(Some(o)), "eta"@, opt_text(o.eta)),
        carries(oooi_fields(Some(o)), "gtout"@, opt_text(o.gout)),
        carries(oooi_fields(Some(o)), "gtin"@, opt_text(o.gin)),
        carries(oooi_fields(Some(o)), "wloff"@, opt_text(o.woff)),
        carries(oooi_fields(Some(o)), "wlin"@, opt_text(o.won)),
{
    lemma_keys_distinct();
    lemma_oooi_part_carries(o, "depa"@);
    lemma_oooi_part_carries(o, "dsta"@);
    lemma_oooi_part_carries(o, "eta"@);
    lemma_oooi_part_carries(o, "gtout"@);
    lemma_oooi_part_carries(o, "gtin"@);
    lemma_oooi_part_carries(o, "wloff"@);
    lemma_oooi_part_carries(o, "wlin"@);
}

/// Fields under other keys in front of the OOOI part leave what it carries
/// under an OOOI key unchanged.
proof fn lemma_front_then_oooi(
    front: Seq<(Seq<char>, JsonValueView)>,
    o_part: Seq<(Seq<char>, JsonValueView)>,
    key: Seq<char>,
    f: Option<Seq<char>>,
)
    requires
        no_oooi_key(front),
        is_oooi_key(key),
        carries(o_part, key, f),
    ensures
        carries(front + o_part, key, f),
{
    assert(carries(front, key, None));
    lemma_carries_concat(front, o_part, key, None, f);
}

/// The field `(key, v)` when a value is given, nothing otherwise.
spec fn slot(key: Seq<char>, o: Option<JsonValueView>) -> Seq<(Seq<char>, JsonValueView)> {
    match o {
        Some(v) => seq![(key, v)],
        None => seq![],
    }
}

/// Keyed optional values laid out in order, the absent ones left out.
spec fn lay_out(sl: Seq<(Seq<char>, Option<JsonValueView>)>) -> Seq<(Seq<char>, JsonValueView)>
    decreases sl.len(),
{
    if sl.len() == 0 {
        seq![]
    } else {
        lay_out(sl.drop_last()) + slot(sl.last().0, sl.last().1)
    }
}

/// No two slots share a key.
spec fn distinct_keys(sl: Seq<(Seq<char>, Option<JsonValueView>)>) -> bool {
    forall|i: int, j: int| 0 <= i < j < sl.len() ==> (#[trigger] sl[i]).0 != (#[trigger] sl[j]).0
}

/// Laying out two runs of slots one after the other.
proof fn lemma_lay_out_concat(
    a: Seq<(Seq<char>, Option<JsonValueView>)>,
    b: Seq<(Seq<char>, Option<JsonValueView>)>,
)
    ensures
        lay_out(a + b) == lay_out(a) + lay_out(b),
    decreases b.len(),
{
    if b.len() == 0 {
        assert(a + b =~= a);
        assert(lay_out(a) + lay_out(b) =~= lay_out(a));
    } else {
        assert((a + b).drop_last() =~= a + b.drop_last());
        assert((a + b).last() == b.last());
        lemma_lay_out_concat(a, b.drop_last());
        assert(lay_out(a + b) =~= lay_out(a) + lay_out(b));
    }
}

/// Every field laid out is under the key of one of the slots.
proof fn lemma_lay_out_keys(sl: Seq<(Seq<char>, Option<JsonValueView>)>)
    ensures
        forall|j: int|
            0 <= j < lay_out(sl).len() ==> exists|i: int|
                0 <= i < sl.len() && (#[trigger] lay_out(sl)[j]).0 == (#[trigger] sl[i]).0,
    decreases sl.len(),
{
    if sl.len() > 0 {
        let dl = sl.drop_last();
        lemma_lay_out_keys(dl);
        let a = lay_out(dl);
        let b = slot(sl.last().0, sl.last().1);
        assert forall|j: int| 0 <= j < lay_out(sl).len() implies exists|i: int|
            0 <= i < sl.len() && (#[trigger] lay_out(sl)[j]).0 == (#[trigger] sl[i]).0 by {
            if j < a.len() {
                assert(lay_out(sl)[j] == a[j]);
                let i = choose|i: int| 0 <= i < dl.len() && (#[trigger] a[j]).0 == (#[trigger] dl[i]).0;
                assert(dl[i] == sl[i]);
            } else {
                assert(lay_out(sl)[j] == b[j - a.len()]);
                assert(sl[sl.len() - 1] == sl.last());
            }
        }
    }
}

/// Slots with distinct keys, laid out: under each slot's key the record
/// holds exactly that slot's value, or nothing when it has none.
proof fn lemma_lay_out_holds(sl: Seq<(Seq<char>, Option<JsonValueView>)>, m: int)
    requires
        distinct_keys(sl),
        0 <= m < sl.len(),
    ensures
        holds_value(lay_out(sl), sl[m].0, sl[m].1),
    decreases sl.len(),
{
    let n = sl.len();
    let dl = sl.drop_last();
    let key = sl[m].0;
    let last = sl[n - 1];
    assert(sl.last() == last);
    let b = slot(last.0, last.1);
    if m == n - 1 {
        lemma_lay_out_keys(dl);
        assert forall|j: int| 0 <= j < lay_out(dl).len() implies (#[trigger] lay_out(dl)[j]).0 != key by {
            let i = choose|i: int| 0 <= i < dl.len() && (#[trigger] lay_out(dl)[j]).0 == (#[trigger] dl[i]).0;
            assert(dl[i] == sl[i]);
        }
        if let Some(v) = last.1 {
            assert(b[0] == (key, v));
        }
        lemma_holds_concat(lay_out(dl), b, key, None, last.1);
    } else {
        assert forall|i: int, j: int| 0 <= i < j < dl.len() implies (#[trigger] dl[i]).0 != (
        #[trigger] dl[j]).0 by {
            assert(dl[i] == sl[i]);
            assert(dl[j] == sl[j]);
        }
        assert(dl[m] == sl[m]);
        lemma_lay_out_holds(dl, m);
        assert(sl[m].0 != sl[n - 1].0);
        lemma_holds_concat(lay_out(dl), b, key, sl[m].1, None);
    }
}

/// The optional text as a JSON text value.
spec fn opt_string_value(o: Option<String>) -> Option<JsonValueView> {
    match o {
        Some(s) => Some(JsonValueView::Text(s@)),
        None => None,
    }
}

/// A value given only when `cond` holds.
spec fn value_if(cond: bool, v: JsonValueView) -> Option<JsonValueView> {
    if cond {
        Some(v)
    } else {
        None
    }
}

/// The station id value: present when given and non-empty.
spec fn station_value(station: Option<Seq<char>>) -> Option<JsonValueView> {
    match station {
        Some(id) => value_if(id.len() > 0, JsonValueView::Text(id)),
        None => None,
    }
}

/// The acknowledgement value: `false` for a NAK, else the character.
spec fn ack_value(msg: AcarsMessage) -> JsonValueView {
    if msg.ack == 0x21 {
        JsonValueView::Flag(false)
    } else {
        JsonValueView::Text(seq![msg.ack as char])
    }
}

/// The record's fields in front of the OOOI part, key by key.
spec fn front_slots(msg: AcarsMessage, station: Option<Seq<char>>) -> Seq<(Seq<char>, Option<JsonValueView>)> {
    seq![
        ("timestamp"@, Some(JsonValueView::Seconds(msg.timestamp as nat))),
        ("station_id"@, station_value(station)),
        ("channel"@, Some(JsonValueView::Number(msg.channel_idx as nat))),
        ("freq"@, Some(JsonValueView::Megahertz(msg.freq_hz as nat))),
        ("level"@, Some(JsonValueView::Decibels(msg.level_tenths_db as int))),
        ("error"@, Some(JsonValueView::Number(msg.error_count as nat))),
        ("mode"@, Some(JsonValueView::Text(seq![msg.mode as char]))),
        ("label"@, Some(JsonValueView::Text(seq![msg.label@[0] as char, msg.label@[1] as char]))),
        ("tail"@, Some(JsonValueView::Text(msg.aircraft@))),
        ("block_id"@, value_if(msg.block_id != 0, JsonValueView::Text(seq![msg.block_id as char]))),
        ("ack"@, value_if(msg.block_id != 0, ack_value(msg))),
        ("flight"@, opt_string_value(msg.flight_id)),
        ("msgno"@, opt_string_value(msg.message_no)),
        ("text"@, value_if(msg.text@.len() > 0, JsonValueView::Text(msg.text@))),
        ("end"@, value_if(msg.end_of_message, JsonValueView::Flag(true))),
        (
            "reassembled_blocks"@,
            value_if(
                msg.reassembled_block_count > 1,
                JsonValueView::Number(msg.reassembled_block_count as nat),
            ),
        ),
    ]
}

/// Laid out, the front slots are the record's fields in front of the OOOI
/// part.
proof fn lemma_front_slots_lay_out(msg: AcarsMessage, station: Option<Seq<char>>)
    ensures
        lay_out(front_slots(msg, station)) == head_fields(msg, station) + block_fields(msg) + (
        opt_text_field("flight"@, msg.flight_id) + opt_text_field("msgno"@, msg.message_no)
            + field_if(msg.text@.len() > 0, "text"@, JsonValueView::Text(msg.text@)) + field_if(
            msg.end_of_message,
            "end"@,
            JsonValueView::Flag(true),
        ) + field_if(
            msg.reassembled_block_count > 1,
            "reassembled_blocks"@,
            JsonValueView::Number(msg.reassembled_block_count as nat),
        )),
{
    let fs = front_slots(msg, station);
    let g1 = fs.subrange(0, 2);
    let g2 = fs.subrange(2, 9);
    let g3 = fs.subrange(9, 11);
    let g4 = fs.subrange(11, 16);
    assert(fs =~= g1 + g2 + g3 + g4);
    lemma_lay_out_concat(g1, g2);
    lemma_lay_out_concat(g1 + g2, g3);
    lemma_lay_out_concat(g1 + g2 + g3, g4);
    reveal_with_fuel(lay_out, 8);
    assert(g1.drop_last() =~= g1.subrange(0, 1));
    assert(lay_out(g1) =~= seq![("timestamp"@, JsonValueView::Seconds(msg.timestamp as nat))]
        + station_fields(station));
    assert(g2.drop_last() =~= g2.subrange(0, 6));
    assert(g2.subrange(0, 6).drop_last() =~= g2.subrange(0, 5));
    assert(g2.subrange(0, 5).drop_last() =~= g2.subrange(0, 4));
    assert(g2.subrange(0, 4).drop_last() =~= g2.subrange(0, 3));
    assert(g2.subrange(0, 3).drop_last() =~= g2.subrange(0, 2));
    assert(g2.subrange(0, 2).drop_last() =~= g2.subrange(0, 1));
    assert(g1.drop_last().drop_last() =~= Seq::<(Seq<char>, Option<JsonValueView>)>::empty());
    assert(lay_out(g2) =~= seq![
        ("channel"@, JsonValueView::Number(msg.channel_idx as nat)),
        ("freq"@, JsonValueView::Megahertz(msg.freq_hz as nat)),
        ("level"@, JsonValueView::Decibels(msg.level_tenths_db as int)),
        ("error"@, JsonValueView::Number(msg.error_count as nat)),
        ("mode"@, JsonValueView::Text(seq![msg.mode as char])),
        ("label"@, JsonValueView::Text(seq![msg.label@[0] as char, msg.label@[1] as char])),
        ("tail"@, JsonValueView::Text(msg.aircraft@)),
    ]);
    assert(lay_out(g3) =~= block_fields(msg));
    assert(g4.drop_last() =~= g4.subrange(0, 4));
    assert(g4.subrange(0, 4).drop_last() =~= g4.subrange(0, 3));
    assert(g4.subrange(0, 3).drop_last() =~= g4.subrange(0, 2));
    assert(g4.subrange(0, 2).drop_last() =~= g4.subrange(0, 1));
    assert(lay_out(g4) =~= opt_text_field("flight"@, msg.flight_id) + opt_text_field(
        "msgno"@,
        msg.message_no,
    ) + field_if(msg.text@.len() > 0, "text"@, JsonValueView::Text(msg.text@)) + field_if(
        msg.end_of_message,
        "end"@,
        JsonValueView::Flag(true),
    ) + field_if(
        msg.reassembled_block_count > 1,
        "reassembled_blocks"@,
        JsonValueView::Number(msg.reassembled_block_count as nat),
    ));
    assert(head_fields(msg, station) =~= lay_out(g1) + lay_out(g2));
}

/// The keys in front of the OOOI part are all different.
proof fn lemma_front_keys_distinct(msg: AcarsMessage, station: Option<Seq<char>>)
    ensures
        distinct_keys(front_slots(msg, station)),
{
    reveal_strlit("timestamp");
    assert("timestamp"@.len() == 9 && "timestamp"@[0] == 't' && "timestamp"@[1] == 'i');
    reveal_strlit("station_id");
    assert("station_id"@.len() == 10 && "station_id"@[0] == 's' && "station_id"@[1] == 't');
    reveal_strlit("channel");
    assert("channel"@.len() == 7 && "channel"@[0] == 'c' && "channel"@[1] == 'h');
    reveal_strlit("freq");
    assert("freq"@.len() == 4 && "freq"@[0] == 'f' && "freq"@[1] == 'r');
    reveal_strlit("level");
    assert("level"@.len() == 5 && "level"@[0] == 'l' && "level"@[1] == 'e');
    reveal_strlit("error");
    assert("error"@.len() == 5 && "error"@[0] == 'e' && "error"@[1] == 'r');
    reveal_strlit("mode");
    assert("mode"@.len() == 4 && "mode"@[0] == 'm' && "mode"@[1] == 'o');
    reveal_strlit("label");
    assert("label"@.len() == 5 && "label"@[0] == 'l' && "label"@[1] == 'a');
    reveal_strlit("tail");
    assert("tail"@.len() == 4 && "tail"@[0] == 't' && "tail"@[1] == 'a');
    reveal_strlit("block_id");
    assert("block_id"@.len() == 8 && "block_id"@[0] == 'b' && "block_id"@[1] == 'l');
    reveal_strlit("ack");
    assert("ack"@.len() == 3 && "ack"@[0] == 'a' && "ack"@[1] == 'c');
    reveal_strlit("flight");
    assert("flight"@.len() == 6 && "flight"@[0] == 'f' && "flight"@[1] == 'l');
    reveal_strlit("msgno");
    assert("msgno"@.len() == 5 && "msgno"@[0] == 'm' && "msgno"@[1] == 's');
    reveal_strlit("text");
    assert("text"@.len() == 4 && "text"@[0] == 't' && "text"@[1] == 'e');
    reveal_strlit("end");
    assert("end"@.len() == 3 && "end"@[0] == 'e' && "end"@[1] == 'n');
    reveal_strlit("reassembled_blocks");
    assert("reassembled_blocks"@.len() == 18 && "reassembled_blocks"@[0] == 'r' && "reassembled_blocks"@[1] == 'e');
    let fs = front_slots(msg, station);
    assert forall|i: int, j: int| 0 <= i < j < fs.len() implies (#[trigger] fs[i]).0 != (
    #[trigger] fs[j]).0 by {
        let ki = fs[i].0;
        let kj = fs[j].0;
        if ki == kj {
            assert(ki.len() == kj.len() && ki[0] == kj[0] && ki[1] == kj[1]);
        }
    }
}

/// The OOOI part of a record holds nothing under any other key.
proof fn lemma_oooi_part_lacks(p: Option<Oooi>, key: Seq<char>)
    requires
        !is_oooi_key(key),
    ensures
        lacks_key(oooi_fields(p), key),
{
    if let Some(o) = p {
        lemma_oooi_part_carries(o, key);
    }
}

/// Every field of the OOOI part of a record is under an OOOI key.
proof fn lemma_oooi_part_keys(p: Option<Oooi>)
    ensures
        forall|j: int|
            0 <= j < oooi_fields(p).len() ==> is_oooi_key((#[trigger] oooi_fields(p)[j]).0),
{
    assert forall|j: int| 0 <= j < oooi_fields(p).len() implies is_oooi_key(
        (#[trigger] oooi_fields(p)[j]).0,
    ) by {
        let k = oooi_fields(p)[j].0;
        if !is_oooi_key(k) {
            lemma_oooi_part_lacks(p, k);
        }
    }
}

/// The key of a field of the JSON record.
pub open spec fn is_record_key(k: Seq<char>) -> bool {
    ||| is_oooi_key(k)
    ||| k == "timestamp"@
    ||| k == "station_id"@
    ||| k == "channel"@
    ||| k == "freq"@
    ||| k == "level"@
    ||| k == "error"@
    ||| k == "mode"@
    ||| k == "label"@
    ||| k == "tail"@
    ||| k == "block_id"@
    ||| k == "ack"@
    ||| k == "flight"@
    ||| k == "msgno"@
    ||| k == "text"@
    ||| k == "end"@
    ||| k == "reassembled_blocks"@
}

/// The JSON record of a message holds each of its fields exactly once, under
/// its schema key, and nothing else: `timestamp` (the time, written as
/// seconds); `station_id` when a non-empty station id is given; `channel`,
/// `freq` (written in MHz), `level` (written in dB), `error` (the
/// parity-error count), `mode`, `label` and `tail`; `block_id` and `ack`
/// (`false` for a NAK) when the message has a block id; `flight` and `msgno`
/// when present; `text` when non-empty; `end` (`true`) for a final block;
/// `reassembled_blocks` for a message merged from more than one block; and
/// the OOOI fields (see [`lemma_oooi_in_record`]). A key whose field is left
/// out does not occur at all.
pub proof fn lemma_record_fields(msg: AcarsMessage, station: Option<Seq<char>>)
    ensures
        ({
            let plan = json_plan(msg, station);
            &&& holds_value(plan, "timestamp"@, Some(JsonValueView::Seconds(msg.timestamp as nat)))
            &&& holds_value(
                plan,
                "station_id"@,
                match station {
                    Some(id) => if id.len() > 0 {
                        Some(JsonValueView::Text(id))
                    } else {
                        None
                    },
                    None => None,
                },
            )
            &&& holds_value(plan, "channel"@, Some(JsonValueView::Number(msg.channel_idx as nat)))
            &&& holds_value(plan, "freq"@, Some(JsonValueView::Megahertz(msg.freq_hz as nat)))
            &&& holds_value(plan, "level"@, Some(JsonValueView::Decibels(msg.level_tenths_db as int)))
            &&& holds_value(plan, "error"@, Some(JsonValueView::Number(msg.error_count as nat)))
            &&& holds_value(plan, "mode"@, Some(JsonValueView::Text(seq![msg.mode as char])))
            &&& holds_value(
                plan,
                "label"@,
                Some(JsonValueView::Text(seq![msg.label@[0] as char, msg.label@[1] as char])),
            )
            &&& holds_value(plan, "tail"@, Some(JsonValueView::Text(msg.aircraft@)))
            &&& holds_value(
                plan,
                "block_id"@,
                if msg.block_id != 0 {
                    Some(JsonValueView::Text(seq![msg.block_id as char]))
                } else {
                    None
                },
            )
            &&& holds_value(
                plan,
                "ack"@,
                if msg.block_id == 0 {
                    None
                } else if msg.ack == 0x21 {
                    Some(JsonValueView::Flag(false))
                } else {
                    Some(JsonValueView::Text(seq![msg.ack as char]))
                },
            )
            &&& holds_value(plan, "flight"@, as_text(opt_text(msg.flight_id)))
            &&& holds_value(plan, "msgno"@, as_text(opt_text(msg.message_no)))
            &&& holds_value(
                plan,
                "text"@,
                if msg.text@.len() > 0 {
                    Some(JsonValueView::Text(msg.text@))
                } else {
                    None
                },
            )
            &&& holds_value(
                plan,
                "end"@,
                if msg.end_of_message {
                    Some(JsonValueView::Flag(true))
                } else {
                    None
                },
            )
            &&& holds_value(
                plan,
                "reassembled_blocks"@,
                if msg.reassembled_block_count > 1 {
                    Some(JsonValueView::Number(msg.reassembled_block_count as nat))
                } else {
                    None
                },
            )
            &&& forall|j: int| 0 <= j < plan.len() ==> is_record_key((#[trigger] plan[j]).0)
        }),
{
    let fs = front_slots(msg, station);
    lemma_front_slots_lay_out(msg, station);
    lemma_front_keys_distinct(msg, station);
    let front = lemma_record_split(msg, station);
    let o_part = oooi_fields(msg.parsed);
    let plan = json_plan(msg, station);
    lemma_keys_distinct();
    assert forall|m: int| 0 <= m < fs.len() implies holds_value(plan, (#[trigger] fs[m]).0, fs[m].1) by {
        lemma_lay_out_holds(fs, m);
        assert(!is_oooi_key(fs[m].0));
        lemma_oooi_part_lacks(msg.parsed, fs[m].0);
        lemma_holds_concat(front, o_part, fs[m].0, fs[m].1, None);
    }
    assert(holds_value(plan, fs[0].0, fs[0].1));
    assert(holds_value(plan, fs[1].0, fs[1].1));
    assert(holds_value(plan, fs[2].0, fs[2].1));
    assert(holds_value(plan, fs[3].0, fs[3].1));
    assert(holds_value(plan, fs[4].0, fs[4].1));
    assert(holds_value(plan, fs[5].0, fs[5].1));
    assert(holds_value(plan, fs[6].0, fs[6].1));
    assert(holds_value(plan, fs[7].0, fs[7].1));
    assert(holds_value(plan, fs[8].0, fs[8].1));
    assert(holds_value(plan, fs[9].0, fs[9].1));
    assert(holds_value(plan, fs[10].0, fs[10].1));
    assert(holds_value(plan, fs[11].0, fs[11].1));
    assert(holds_value(plan, fs[12].0, fs[12].1));
    assert(holds_value(plan, fs[13].0, fs[13].1));
    assert(holds_value(plan, fs[14].0, fs[14].1));
    assert(holds_value(plan, fs[15].0, fs[15].1));
    lemma_lay_out_keys(fs);
    lemma_oooi_part_keys(msg.parsed);
    assert forall|j: int| 0 <= j < plan.len() implies is_record_key((#[trigger] plan[j]).0) by {
        if j < front.len() {
            assert(plan[j] == front[j]);
            let i = choose|i: int| 0 <= i < fs.len() && (#[trigger] lay_out(fs)[j]).0 == (
            #[trigger] fs[i]).0;
        } else {
            assert(plan[j] == o_part[j - front.len()]);
        }
    }
}

/// A byte as a one-character string (the character with that code).
pub fn byte_to_string(b: u8) -> (r: String)
    ensures
        r@ == seq![b as char],
{
    let mut s = String::new();
    crate::frame::push_char(&mut s, b as char);
    s
}

/// A two-byte label as a two-character string.
pub fn label_to_string(label: [u8; 2]) -> (r: String)
    ensures
        r@ == seq![label@[0] as char, label@[1] as char],
{
    let mut s = String::new();
    crate::frame::push_char(&mut s, label[0] as char);
    crate::frame::push_char(&mut s, label[1] as char);
    s
}

/// Append the field `(key, value)`.
fn push_field(out: &mut Vec<JsonField>, key: &str, value: JsonValue)
    ensures
        fields_view(final(out)@) == fields_view(old(out)@).push((key@, value@)),
{
    let f = JsonField { key: String::from_str(key), value };
    out.push(f);
    proof {
        assert(fields_view(out@) =~= fields_view(old(out)@).push((key@, value@)));
    }
}

/// Append a text field for an optional string.
fn push_opt_text(out: &mut Vec<JsonField>, key: &str, o: &Option<String>)
    ensures
        fields_view(final(out)@) == fields_view(old(out)@) + opt_text_field(key@, *o),
{
    match o {
        Some(s) => {
            push_field(out, key, JsonValue::Text(s.clone()));
            proof {
                assert(fields_view(out@) =~= fields_view(old(out)@) + opt_text_field(key@, *o));
            }
        },
        None => {
            proof {
                assert(fields_view(out@) =~= fields_view(old(out)@) + opt_text_field(key@, *o));
            }
        },
    }
}

/// Append the OOOI fields present.
fn push_oooi(out: &mut Vec<JsonField>, p: &Option<Oooi>)
    ensures
        fields_view(final(out)@) == fields_view(old(out)@) + oooi_fields(*p),
{
    let ghost start = fields_view(out@);
    match p {
        Some(o) => {
            push_opt_text(out, "depa", &o.sa);
            push_opt_text(out, "dsta", &o.da);
            push_opt_text(out, "eta", &o.eta);
            push_opt_text(out, "gtout", &o.gout);
            push_opt_text(out, "gtin", &o.gin);
            push_opt_text(out, "wloff", &o.woff);
            push_opt_text(out, "wlin", &o.won);
            proof {
                assert(fields_view(out@) =~= start + oooi_fields(*p));
            }
        },
        None => {
            proof {
                assert(fields_view(out@) =~= start + oooi_fields(*p));
            }
        },
    }
}

/// The station id field, when given and non-empty.
pub open spec fn station_fields(station: Option<Seq<char>>) -> Seq<(Seq<char>, JsonValueView)> {
    match station {
        Some(id) => field_if(id.len() > 0, "station_id"@, JsonValueView::Text(id)),
        None => seq![],
    }
}

/// The station id as characters.
pub open spec fn station_view(station_id: Option<&str>) -> Option<Seq<char>> {
    match station_id {
        Some(s) => Some(s@),
        None => None,
    }
}

/// Append the station id field.
fn push_station(out: &mut Vec<JsonField>, station_id: Option<&str>)
    ensures
        fields_view(final(out)@) == fields_view(old(out)@) + station_fields(station_view(station_id)),
{
    let ghost start = fields_view(out@);
    match station_id {
        Some(id) => {
            if !id.is_empty() {
                push_field(out, "station_id", JsonValue::Text(String::from_str(id)));
            }
        },
        None => {},
    }
    proof {
        assert(fields_view(out@) =~= start + station_fields(station_view(station_id)));
    }
}

/// Append channel, frequency, level, error count, mode, label and aircraft.
fn push_channel_fields(out: &mut Vec<JsonField>, msg: &AcarsMessage)
    ensures
        fields_view(final(out)@) == fields_view(old(out)@) + seq![
            ("channel"@, JsonValueView::Number(msg.channel_idx as nat)),
            ("freq"@, JsonValueView::Megahertz(msg.freq_hz as nat)),
            ("level"@, JsonValueView::Decibels(msg.level_tenths_db as int)),
            ("error"@, JsonValueView::Number(msg.error_count as nat)),
            ("mode"@, JsonValueView::Text(seq![msg.mode as char])),
            ("label"@, JsonValueView::Text(seq![msg.label@[0] as char, msg.label@[1] as char])),
            ("tail"@, JsonValueView::Text(msg.aircraft@)),
        ],
{
    let ghost start = fields_view(out@);
    push_field(out, "channel", JsonValue::Number(msg.channel_idx as u64));
    push_field(out, "freq", JsonValue::Megahertz(msg.freq_hz));
    push_field(out, "level", JsonValue::Decibels(msg.level_tenths_db));
    push_field(out, "error", JsonValue::Number(msg.error_count as u64));
    push_field(out, "mode", JsonValue::Text(byte_to_string(msg.mode)));
    push_field(out, "label", JsonValue::Text(label_to_string(msg.label)));
    push_field(out, "tail", JsonValue::Text(msg.aircraft.clone()));
    proof {
        assert(fields_view(out@) =~= start + seq![
            ("channel"@, JsonValueView::Number(msg.channel_idx as nat)),
            ("freq"@, JsonValueView::Megahertz(msg.freq_hz as nat)),
            ("level"@, JsonValueView::Decibels(msg.level_tenths_db as int)),
            ("error"@, JsonValueView::Number(msg.error_count as nat)),
            ("mode"@, JsonValueView::Text(seq![msg.mode as char])),
            ("label"@, JsonValueView::Text(seq![msg.label@[0] as char, msg.label@[1] as char])),
            ("tail"@, JsonValueView::Text(msg.aircraft@)),
        ]);
    }
}

/// Append the block id and acknowledgement.
fn push_block(out: &mut Vec<JsonField>, msg: &AcarsMessage)
    ensures
        fields_view(final(out)@) == fields_view(old(out)@) + block_fields(*msg),
{
    let ghost start = fields_view(out@);
    if msg.block_id != 0 {
        push_field(out, "block_id", JsonValue::Text(byte_to_string(msg.block_id)));
        if msg.ack == 0x21 {
            push_field(out, "ack", JsonValue::Flag(false));
        } else {
            push_field(out, "ack", JsonValue::Text(byte_to_string(msg.ack)));
        }
    }
    proof {
        assert(fields_view(out@) =~= start + block_fields(*msg));
    }
}

/// Append flight id, message number, text, end flag, block count and OOOI
/// fields.
#[verifier::spinoff_prover]
#[verifier::rlimit(40)]
fn push_trailing(out: &mut Vec<JsonField>, msg: &AcarsMessage)
    ensures
        fields_view(final(out)@) == fields_view(old(out)@) + trailing_fields(*msg),
{
    let ghost start = fields_view(out@);
    push_opt_text(out, "flight", &msg.flight_id);
    push_opt_text(out, "msgno", &msg.message_no);
    let ghost ids = fields_view(out@);
    push_text_end_count(out, msg);
    let ghost body = fields_view(out@);
    push_oooi(out, &msg.parsed);
    proof {
        let a = opt_text_field("flight"@, msg.flight_id) + opt_text_field("msgno"@, msg.message_no);
        let b = field_if(msg.text@.len() > 0, "text"@, JsonValueView::Text(msg.text@)) + field_if(
            msg.end_of_message,
            "end"@,
            JsonValueView::Flag(true),
        ) + field_if(
            msg.reassembled_block_count > 1,
            "reassembled_blocks"@,
            JsonValueView::Number(msg.reassembled_block_count as nat),
        );
        assert(ids =~= start + a);
        assert(body =~= start + a + b);
        assert(trailing_fields(*msg) =~= a + b + oooi_fields(msg.parsed));
        assert(fields_view(out@) =~= start + trailing_fields(*msg));
    }
}

/// Append the text, end flag and block count fields.
fn push_text_end_count(out: &mut Vec<JsonField>, msg: &AcarsMessage)
    ensures
        fields_view(final(out)@) == fields_view(old(out)@) + field_if(
            msg.text@.len() > 0,
            "text"@,
            JsonValueView::Text(msg.text@),
        ) + field_if(msg.end_of_message, "end"@, JsonValueView::Flag(true)) + field_if(
            msg.reassembled_block_count > 1,
            "reassembled_blocks"@,
            JsonValueView::Number(msg.reassembled_block_count as nat),
        ),
{
    let ghost start = fields_view(out@);
    let ghost a = fields_view(out@);
    if !msg.text.as_str().is_empty() {
        push_field(out, "text", JsonValue::Text(msg.text.clone()));
    }
    proof {
        assert(fields_view(out@) =~= a + field_if(msg.text@.len() > 0, "text"@, JsonValueView::Text(msg.text@)));
    }
    let ghost b = fields_view(out@);
    if msg.end_of_message {
        push_field(out, "end", JsonValue::Flag(true));
    }
    proof {
        assert(fields_view(out@) =~= b + field_if(msg.end_of_message, "end"@, JsonValueView::Flag(true)));
    }
    let ghost c = fields_view(out@);
    if msg.reassembled_block_count > 1 {
        push_field(out, "reassembled_blocks", JsonValue::Number(msg.reassembled_block_count as u64));
    }
    proof {
        assert(fields_view(out@) =~= c + field_if(
            msg.reassembled_block_count > 1,
            "reassembled_blocks"@,
            JsonValueView::Number(msg.reassembled_block_count as nat),
        ));
    }
}

/// The record of `msg` as a list of keys and values, in the schema's
/// order. `station_id` is left out when absent or empty.
pub fn json_fields(msg: &AcarsMessage, station_id: Option<&str>) -> (r: Vec<JsonField>)
    ensures
        fields_view(r@) == json_plan(*msg, station_view(station_id)),
{
    let mut out: Vec<JsonField> = Vec::new();
    proof {
        assert(fields_view(out@) =~= Seq::<(Seq<char>, JsonValueView)>::empty());
    }
    push_field(&mut out, "timestamp", JsonValue::Seconds(msg.timestamp));
    push_station(&mut out, station_id);
    push_channel_fields(&mut out, msg);
    let ghost head = fields_view(out@);
    proof {
        assert(head =~= head_fields(*msg, station_view(station_id)));
    }
    push_block(&mut out, msg);
    push_trailing(&mut out, msg);
    proof {
        assert(fields_view(out@) =~= json_plan(*msg, station_view(station_id)));
    }
    out
}

} // verus!
