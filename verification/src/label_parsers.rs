use vstd::prelude::*;
use vstd::string::StringSliceAdditionalSpecFns;
use vstd::utf8::{decode_utf8, is_char_boundary, valid_utf8, length_of_first_scalar, pop_first_scalar, valid_first_scalar};

verus! {

broadcast use vstd::utf8::encode_utf8_valid_utf8, vstd::utf8::encode_utf8_decode_utf8;

/// ASCII `,`.
pub const COMMA: u8 = 0x2C;
/// ASCII `/`.
pub const SLASH: u8 = 0x2F;
/// ASCII line feed.
pub const NEWLINE: u8 = 0x0A;
/// ASCII `A`.
pub const LETTER_A: u8 = 0x41;
/// ASCII `2`.
pub const DIGIT_TWO: u8 = 0x32;
/// ASCII `3`.
pub const DIGIT_THREE: u8 = 0x33;

/// Out-Off-On-In metadata extracted from an ACARS message body: airports of
/// origin and destination, and the four-character HHMM times of the OOOI
/// events. Each field is `None` when the label does not carry it or the text
/// was too short; a present field always holds exactly four bytes of text.
#[derive(Clone, Debug, PartialEq, Eq)]
pub struct Oooi {
    /// Station of origin (4-char airport code).
    pub sa: Option<String>,
    /// Destination airport (4-char airport code).
    pub da: Option<String>,
    /// Gate-out time (4-char HHMM UTC).
    pub gout: Option<String>,
    /// Wheels-off time.
    pub woff: Option<String>,
    /// Wheels-on time.
    pub won: Option<String>,
    /// Gate-in time.
    pub gin: Option<String>,
    /// Estimated time of arrival.
    pub eta: Option<String>,
}

/// The characters of each OOOI field.
pub struct OooiView {
    pub sa: Option<Seq<char>>,
    pub da: Option<Seq<char>>,
    pub gout: Option<Seq<char>>,
    pub woff: Option<Seq<char>>,
    pub won: Option<Seq<char>>,
    pub gin: Option<Seq<char>>,
    pub eta: Option<Seq<char>>,
}

/// The characters of an optional string.
pub open spec fn opt_text(o: Option<String>) -> Option<Seq<char>> {
    match o {
        Some(s) => Some(s@),
        None => None,
    }
}

impl View for Oooi {
    type V = OooiView;

    open spec fn view(&self) -> OooiView {
        OooiView {
            sa: opt_text(self.sa),
            da: opt_text(self.da),
            gout: opt_text(self.gout),
            woff: opt_text(self.woff),
            won: opt_text(self.won),
            gin: opt_text(self.gin),
            eta: opt_text(self.eta),
        }
    }
}

/// The view of an optional OOOI record.
pub open spec fn opt_oooi_view(o: Option<Oooi>) -> Option<OooiView> {
    match o {
        Some(v) => Some(v@),
        None => None,
    }
}

/// The record with no field present.
pub open spec fn no_fields() -> OooiView {
    OooiView { sa: None, da: None, gout: None, woff: None, won: None, gin: None, eta: None }
}

/// At least one field is present.
pub open spec fn view_has_any(v: OooiView) -> bool {
    v.sa is Some || v.da is Some || v.gout is Some || v.woff is Some || v.won is Some
        || v.gin is Some || v.eta is Some
}

/// A parsed record counts only when it carries at least one field.
pub open spec fn keep_if_any(v: OooiView) -> Option<OooiView> {
    if view_has_any(v) {
        Some(v)
    } else {
        None
    }
}

/// The four-byte text field starting at byte `start` of `b`: present when
/// the four bytes exist and both ends fall on character boundaries.
pub open spec fn text_field(b: Seq<u8>, start: int) -> Option<Seq<char>> {
    if 0 <= start && start + 4 <= b.len() && is_char_boundary(b, start) && is_char_boundary(
        b,
        start + 4,
    ) {
        Some(decode_utf8(b.subrange(start, start + 4)))
    } else {
        None
    }
}

/// Byte `idx` of `b` exists and equals `v`.
pub open spec fn byte_is(b: Seq<u8>, idx: int, v: u8) -> bool {
    0 <= idx < b.len() && b[idx] == v
}

/// `b` begins with the bytes `p`.
pub open spec fn has_prefix(b: Seq<u8>, p: Seq<u8>) -> bool {
    p.len() <= b.len() && b.subrange(0, p.len() as int) == p
}

/// The text between byte offsets `start` and `end` of `b` can be sliced
/// (both ends on character boundaries) and its bytes are `p`.
pub open spec fn text_slice_is(b: Seq<u8>, start: int, end: int, p: Seq<u8>) -> bool {
    0 <= start <= end <= b.len() && is_char_boundary(b, start) && is_char_boundary(b, end)
        && b.subrange(start, end) == p
}

/// The position of the first byte of `b` equal to `x`.
#[verifier::opaque]
pub open spec fn first_index(b: Seq<u8>, x: u8) -> Option<int> {
    if exists|i: int| 0 <= i < b.len() && b[i] == x {
        Some(
            choose|i: int|
                0 <= i < b.len() && b[i] == x && forall|j: int| 0 <= j < i ==> b[j] != x,
        )
    } else {
        None
    }
}

/// The bytes of `b` from `start` to the end.
pub open spec fn rest_from(b: Seq<u8>, start: int) -> Seq<u8> {
    b.subrange(start, b.len() as int)
}

/// An ASCII byte in valid UTF-8 ends a character, so the next offset is a
/// character boundary.
pub proof fn lemma_ascii_byte_ends_char(b: Seq<u8>, i: int)
    requires
        valid_utf8(b),
        0 <= i < b.len(),
        b[i] <= 0x7f,
    ensures
        is_char_boundary(b, i + 1),
    decreases b.len(),
{
    reveal_with_fuel(valid_utf8, 2);
    reveal_with_fuel(is_char_boundary, 2);
    assert(valid_first_scalar(b));
    let l = length_of_first_scalar(b);
    let p = pop_first_scalar(b);
    if i == 0 {
        assert(l == 1);
        assert(is_char_boundary(p, 0));
    } else {
        assert(i >= l);
        assert(p[i - l] == b[i]);
        lemma_ascii_byte_ends_char(p, i - l);
        assert(is_char_boundary(b, i + 1) == is_char_boundary(p, i + 1 - l));
    }
}

/// The bytes between offsets `start` and `end` of `text` as a string slice:
/// `Some` exactly when `start <= end <= len` and both ends lie on character
/// boundaries (as `str::get` with a byte range).
fn str_get<'a>(text: &'a str, start: usize, end: usize) -> (r: Option<&'a str>)
    ensures
        r is Some <==> (start <= end <= text.spec_bytes().len() && is_char_boundary(
            text.spec_bytes(),
            start as int,
        ) && is_char_boundary(text.spec_bytes(), end as int)),
        r matches Some(t) ==> t.spec_bytes() == text.spec_bytes().subrange(
            start as int,
            end as int,
        ),
{
    proof {
        vstd::utf8::encode_utf8_valid_utf8(text@);
    }
    if start <= end && end <= text.as_bytes().len() && text.is_char_boundary(start) && text.is_char_boundary(end) {
        let (_, rest) = text.split_at(start);
        proof {
            lemma_boundary_in_rest(text.spec_bytes(), start as int, (end - start) as int);
            assert(rest.spec_bytes() =~= rest_from(text.spec_bytes(), start as int));
        }
        let (mid, _) = rest.split_at(end - start);
        proof {
            assert(mid.spec_bytes() =~= text.spec_bytes().subrange(start as int, end as int));
        }
        Some(mid)
    } else {
        None
    }
}

/// A character boundary of a text past boundary `k` is a character boundary
/// of the rest of the text from `k`.
proof fn lemma_boundary_in_rest(b: Seq<u8>, k: int, q: int)
    requires
        valid_utf8(b),
        0 <= k <= b.len(),
        0 <= q <= b.len() - k,
        is_char_boundary(b, k),
        is_char_boundary(b, k + q),
    ensures
        is_char_boundary(rest_from(b, k), q),
{
    let c = rest_from(b, k);
    vstd::utf8::valid_utf8_split(b, k);
    vstd::utf8::is_char_boundary_start_end_of_seq(c);
    if 0 < q < c.len() {
        vstd::utf8::is_char_boundary_iff_not_is_continuation_byte(c, q);
        vstd::utf8::is_char_boundary_iff_not_is_continuation_byte(b, k + q);
        assert(c[q] == b[k + q]);
    }
}

impl Default for Oooi {
    fn default() -> (r: Self)
        ensures
            r@ == no_fields(),
    {
        Oooi { sa: None, da: None, gout: None, woff: None, won: None, gin: None, eta: None }
    }
}

/// A copy of an optional string.
pub fn copy_opt_string(o: &Option<String>) -> (r: Option<String>)
    ensures
        r == *o,
{
    match o {
        Some(s) => Some(s.clone()),
        None => None,
    }
}

impl Oooi {
    /// Returns `true` if at least one field is present.
    pub fn has_any(&self) -> (r: bool)
        ensures
            r == view_has_any(self@),
    {
        self.sa.is_some() || self.da.is_some() || self.gout.is_some() || self.woff.is_some()
            || self.won.is_some() || self.gin.is_some() || self.eta.is_some()
    }

    /// A field-by-field copy.
    pub fn copy(&self) -> (r: Oooi)
        ensures
            r == *self,
    {
        Oooi {
            sa: copy_opt_string(&self.sa),
            da: copy_opt_string(&self.da),
            gout: copy_opt_string(&self.gout),
            woff: copy_opt_string(&self.woff),
            won: copy_opt_string(&self.won),
            gin: copy_opt_string(&self.gin),
            eta: copy_opt_string(&self.eta),
        }
    }
}

/// Read the byte at `idx` of the text's UTF-8 encoding; `None` if the text
/// is too short.
pub fn byte_at(text: &str, idx: usize) -> (r: Option<u8>)
    ensures
        r == (if idx < text.spec_bytes().len() {
            Some(text.spec_bytes()[idx as int])
        } else {
            None
        }),
{
    let b = text.as_bytes();
    if idx < b.len() {
        Some(b[idx])
    } else {
        None
    }
}

/// The byte at `idx` exists and equals `v`.
fn byte_equals(text: &str, idx: usize, v: u8) -> (r: bool)
    ensures
        r == byte_is(text.spec_bytes(), idx as int, v),
{
    match byte_at(text, idx) {
        Some(c) => c == v,
        None => false,
    }
}

/// `b` begins with `p`.
fn starts_with(b: &[u8], p: &[u8]) -> (r: bool)
    ensures
        r == has_prefix(b@, p@),
{
    if p.len() > b.len() {
        return false;
    }
    let mut i: usize = 0;
    while i < p.len()
        invariant
            p@.len() <= b@.len(),
            i <= p@.len(),
            forall|j: int| 0 <= j < i ==> b@[j] == p@[j],
        decreases p.len() - i,
    {
        if b[i] != p[i] {
            assert(b@.subrange(0, p@.len() as int)[i as int] != p@[i as int]);
            return false;
        }
        i = i + 1;
    }
    assert(b@.subrange(0, p@.len() as int) =~= p@);
    true
}

/// The text between byte offsets `start` and `end` can be sliced and reads
/// `p`.
fn slice_equals(text: &str, start: usize, end: usize, p: &str) -> (r: bool)
    ensures
        r == text_slice_is(text.spec_bytes(), start as int, end as int, p.spec_bytes()),
{
    match str_get(text, start, end) {
        Some(t) => {
            let tb = t.as_bytes();
            let pb = p.as_bytes();
            let same = tb.len() == pb.len() && starts_with(tb, pb);
            proof {
                if tb@.len() == pb@.len() {
                    assert(tb@.subrange(0, pb@.len() as int) =~= tb@);
                }
            }
            same
        },
        None => false,
    }
}

/// The first position of byte `x` in `b`.
fn find_byte(b: &[u8], x: u8) -> (r: Option<usize>)
    ensures
        match r {
            Some(i) => first_index(b@, x) == Some(i as int),
            None => first_index(b@, x) is None,
        },
        r matches Some(i) ==> i < b.len() && b@[i as int] == x,
{
    reveal(first_index);
    let mut i: usize = 0;
    while i < b.len()
        invariant
            i <= b@.len(),
            forall|j: int| 0 <= j < i ==> b@[j] != x,
        decreases b.len() - i,
    {
        if b[i] == x {
            proof {
                reveal(first_index);
                let w = i as int;
                assert(0 <= w < b@.len() && b@[w] == x);
                assert(exists|k: int| 0 <= k < b@.len() && b@[k] == x);
                let c = choose|k: int|
                    0 <= k < b@.len() && b@[k] == x && forall|j: int| 0 <= j < k ==> b@[j] != x;
                assert(0 <= w < b@.len() && b@[w] == x && forall|j: int| 0 <= j < w ==> b@[j] != x);
                assert(0 <= c < b@.len() && b@[c] == x && forall|j: int| 0 <= j < c ==> b@[j] != x);
                if c < w {
                    assert(b@[c] != x);
                } else if w < c {
                    assert(b@[w] != x);
                }
                assert(c == w);
                assert(first_index(b@, x) == Some(w));
            }
            return Some(i);
        }
        i = i + 1;
    }
    None
}

/// Extract the four-byte text field starting at byte `start`; `None` if the
/// text is too short or the slice does not fall on character boundaries.
pub fn slice4(text: &str, start: usize) -> (r: Option<String>)
    requires
        start <= usize::MAX - 4,
    ensures
        opt_text(r) == text_field(text.spec_bytes(), start as int),
{
    match str_get(text, start, start + 4) {
        Some(t) => {
            let s = t.to_owned();
            Some(s)
        },
        None => None,
    }
}

/// Layout of label Q1: origin, gate-out, wheels-off, wheels-on, gate-in, destination.
pub open spec fn layout_q1(b: Seq<u8>) -> Option<OooiView> {
    keep_if_any(OooiView { sa: text_field(b, 0), gout: text_field(b, 4), woff: text_field(b, 8), won: text_field(b, 12), gin: text_field(b, 16), da: text_field(b, 24), ..no_fields() })
}

/// Layout of label Q2: origin and ETA.
pub open spec fn layout_q2(b: Seq<u8>) -> Option<OooiView> {
    keep_if_any(OooiView { sa: text_field(b, 0), eta: text_field(b, 4), ..no_fields() })
}

/// Layout of label QA: origin and gate-out.
pub open spec fn layout_qa(b: Seq<u8>) -> Option<OooiView> {
    keep_if_any(OooiView { sa: text_field(b, 0), gout: text_field(b, 4), ..no_fields() })
}

/// Layout of label QB: origin and wheels-off.
pub open spec fn layout_qb(b: Seq<u8>) -> Option<OooiView> {
    keep_if_any(OooiView { sa: text_field(b, 0), woff: text_field(b, 4), ..no_fields() })
}

/// Layout of label QC: origin and wheels-on.
pub open spec fn layout_qc(b: Seq<u8>) -> Option<OooiView> {
    keep_if_any(OooiView { sa: text_field(b, 0), won: text_field(b, 4), ..no_fields() })
}

/// Layout of label QD: origin and gate-in.
pub open spec fn layout_qd(b: Seq<u8>) -> Option<OooiView> {
    keep_if_any(OooiView { sa: text_field(b, 0), gin: text_field(b, 4), ..no_fields() })
}

/// Layout of label QE: origin, gate-out, destination.
pub open spec fn layout_qe(b: Seq<u8>) -> Option<OooiView> {
    keep_if_any(OooiView { sa: text_field(b, 0), gout: text_field(b, 4), da: text_field(b, 8), ..no_fields() })
}

/// Layout of label QF: origin, wheels-off, destination.
pub open spec fn layout_qf(b: Seq<u8>) -> Option<OooiView> {
    keep_if_any(OooiView { sa: text_field(b, 0), woff: text_field(b, 4), da: text_field(b, 8), ..no_fields() })
}

/// Layout of label QG: origin, gate-out, gate-in.
pub open spec fn layout_qg(b: Seq<u8>) -> Option<OooiView> {
    keep_if_any(OooiView { sa: text_field(b, 0), gout: text_field(b, 4), gin: text_field(b, 8), ..no_fields() })
}

/// Layout of label QH: origin and gate-out.
pub open spec fn layout_qh(b: Seq<u8>) -> Option<OooiView> {
    keep_if_any(OooiView { sa: text_field(b, 0), gout: text_field(b, 4), ..no_fields() })
}

/// Layout of label QK: origin, wheels-on, destination.
pub open spec fn layout_qk(b: Seq<u8>) -> Option<OooiView> {
    keep_if_any(OooiView { sa: text_field(b, 0), won: text_field(b, 4), da: text_field(b, 8), ..no_fields() })
}

/// Layout of label QL: destination, gate-in, origin (bytes 4..8 and 12 skipped).
pub open spec fn layout_ql(b: Seq<u8>) -> Option<OooiView> {
    keep_if_any(OooiView { da: text_field(b, 0), gin: text_field(b, 8), sa: text_field(b, 13), ..no_fields() })
}

/// Layout of label QM: destination and origin (bytes 4..8 skipped).
pub open spec fn layout_qm(b: Seq<u8>) -> Option<OooiView> {
    keep_if_any(OooiView { da: text_field(b, 0), sa: text_field(b, 8), ..no_fields() })
}

/// Layout of label QN: destination and ETA (bytes 0..4 skipped).
pub open spec fn layout_qn(b: Seq<u8>) -> Option<OooiView> {
    keep_if_any(OooiView { da: text_field(b, 4), eta: text_field(b, 8), ..no_fields() })
}

/// Layout of label QP: origin, destination, gate-out.
pub open spec fn layout_qp(b: Seq<u8>) -> Option<OooiView> {
    keep_if_any(OooiView { sa: text_field(b, 0), da: text_field(b, 4), gout: text_field(b, 8), ..no_fields() })
}

/// Layout of label QQ: origin, destination, wheels-off.
pub open spec fn layout_qq(b: Seq<u8>) -> Option<OooiView> {
    keep_if_any(OooiView { sa: text_field(b, 0), da: text_field(b, 4), woff: text_field(b, 8), ..no_fields() })
}

/// Layout of label QR: origin, destination, wheels-on.
pub open spec fn layout_qr(b: Seq<u8>) -> Option<OooiView> {
    keep_if_any(OooiView { sa: text_field(b, 0), da: text_field(b, 4), won: text_field(b, 8), ..no_fields() })
}

/// Layout of label QS: origin, destination, gate-in.
pub open spec fn layout_qs(b: Seq<u8>) -> Option<OooiView> {
    keep_if_any(OooiView { sa: text_field(b, 0), da: text_field(b, 4), gin: text_field(b, 8), ..no_fields() })
}

/// Layout of label QT: origin, destination, gate-out, gate-in.
pub open spec fn layout_qt(b: Seq<u8>) -> Option<OooiView> {
    keep_if_any(OooiView { sa: text_field(b, 0), da: text_field(b, 4), gout: text_field(b, 8), gin: text_field(b, 12), ..no_fields() })
}

/// Layout of label 10: after the `ARR01` prefix, destination and ETA.
pub open spec fn layout_10(b: Seq<u8>) -> Option<OooiView> {
    if has_prefix(b, "ARR01".spec_bytes()) {
        keep_if_any(OooiView { da: text_field(b, 12), eta: text_field(b, 16), ..no_fields() })
    } else {
        None
    }
}

/// Layout of label 11: `/DS ` at 13 then destination, `/ETA ` at 21 then ETA.
pub open spec fn layout_11(b: Seq<u8>) -> Option<OooiView> {
    if text_slice_is(b, 13, 17, "/DS ".spec_bytes()) && text_slice_is(b, 21, 26, "/ETA ".spec_bytes()) {
        keep_if_any(OooiView { da: text_field(b, 17), eta: text_field(b, 26), ..no_fields() })
    } else {
        None
    }
}

/// Layout of label 12: a comma at 4 between origin and destination.
pub open spec fn layout_12(b: Seq<u8>) -> Option<OooiView> {
    if byte_is(b, 4, COMMA) {
        keep_if_any(OooiView { sa: text_field(b, 0), da: text_field(b, 5), ..no_fields() })
    } else {
        None
    }
}

/// Layout of label 15: after the `FST01` prefix, origin and destination.
pub open spec fn layout_15(b: Seq<u8>) -> Option<OooiView> {
    if has_prefix(b, "FST01".spec_bytes()) {
        keep_if_any(OooiView { sa: text_field(b, 5), da: text_field(b, 9), ..no_fields() })
    } else {
        None
    }
}

/// Layout of label 17: `ETA ` then ETA, a comma, origin, a comma, destination.
pub open spec fn layout_17(b: Seq<u8>) -> Option<OooiView> {
    if has_prefix(b, "ETA ".spec_bytes()) && byte_is(b, 8, COMMA) && byte_is(b, 13, COMMA) {
        keep_if_any(OooiView { eta: text_field(b, 4), sa: text_field(b, 9), da: text_field(b, 14), ..no_fields() })
    } else {
        None
    }
}

/// Layout of label 1G: a comma at 4 between origin and destination.
pub open spec fn layout_1g(b: Seq<u8>) -> Option<OooiView> {
    if byte_is(b, 4, COMMA) {
        keep_if_any(OooiView { sa: text_field(b, 0), da: text_field(b, 5), ..no_fields() })
    } else {
        None
    }
}

/// Layout of label 20: after the `RST` prefix, origin at 22 and destination at 26.
pub open spec fn layout_20(b: Seq<u8>) -> Option<OooiView> {
    if has_prefix(b, "RST".spec_bytes()) {
        keep_if_any(OooiView { sa: text_field(b, 22), da: text_field(b, 26), ..no_fields() })
    } else {
        None
    }
}

/// Layout of label 21: commas at 6 and 11 before origin and destination.
pub open spec fn layout_21(b: Seq<u8>) -> Option<OooiView> {
    if byte_is(b, 6, COMMA) && byte_is(b, 11, COMMA) {
        keep_if_any(OooiView { sa: text_field(b, 7), da: text_field(b, 12), ..no_fields() })
    } else {
        None
    }
}

/// Layout of label 2N: `TKO01` prefix and a slash at 11; origin at 20, destination at 24.
pub open spec fn layout_2n(b: Seq<u8>) -> Option<OooiView> {
    if has_prefix(b, "TKO01".spec_bytes()) && byte_is(b, 11, SLASH) {
        keep_if_any(OooiView { sa: text_field(b, 20), da: text_field(b, 24), ..no_fields() })
    } else {
        None
    }
}

/// Layout of label 2Z: destination only.
pub open spec fn layout_2z(b: Seq<u8>) -> Option<OooiView> {
    keep_if_any(OooiView { da: text_field(b, 0), ..no_fields() })
}

/// Layout of label 33: commas at 0, 20 and 25; origin at 21, destination at 26.
pub open spec fn layout_33(b: Seq<u8>) -> Option<OooiView> {
    if byte_is(b, 0, COMMA) && byte_is(b, 20, COMMA) && byte_is(b, 25, COMMA) {
        keep_if_any(OooiView { sa: text_field(b, 21), da: text_field(b, 26), ..no_fields() })
    } else {
        None
    }
}

/// Layout of label 39: `GTA01` prefix and a slash at 15; origin at 24, destination at 28.
pub open spec fn layout_39(b: Seq<u8>) -> Option<OooiView> {
    if has_prefix(b, "GTA01".spec_bytes()) && byte_is(b, 15, SLASH) {
        keep_if_any(OooiView { sa: text_field(b, 24), da: text_field(b, 28), ..no_fields() })
    } else {
        None
    }
}

/// Layout of label 45: an `A` at 0, then destination.
pub open spec fn layout_45(b: Seq<u8>) -> Option<OooiView> {
    if byte_is(b, 0, LETTER_A) {
        keep_if_any(OooiView { da: text_field(b, 1), ..no_fields() })
    } else {
        None
    }
}

/// Layout of label 80: `/DEST` at 6..11, destination at 12.
pub open spec fn layout_80(b: Seq<u8>) -> Option<OooiView> {
    if text_slice_is(b, 6, 11, "/DEST".spec_bytes()) {
        keep_if_any(OooiView { da: text_field(b, 12), ..no_fields() })
    } else {
        None
    }
}

/// Layout of label 83: a comma at 4 between origin and destination.
pub open spec fn layout_83(b: Seq<u8>) -> Option<OooiView> {
    if byte_is(b, 4, COMMA) {
        keep_if_any(OooiView { sa: text_field(b, 0), da: text_field(b, 5), ..no_fields() })
    } else {
        None
    }
}

/// Layout of label 8D: commas at 4, 35 and 40; origin at 36, destination at 41.
pub open spec fn layout_8d(b: Seq<u8>) -> Option<OooiView> {
    if byte_is(b, 4, COMMA) && byte_is(b, 35, COMMA) && byte_is(b, 40, COMMA) {
        keep_if_any(OooiView { sa: text_field(b, 36), da: text_field(b, 41), ..no_fields() })
    } else {
        None
    }
}

/// Layout of label 8E: destination, a comma at 4, ETA.
pub open spec fn layout_8e(b: Seq<u8>) -> Option<OooiView> {
    if byte_is(b, 4, COMMA) {
        keep_if_any(OooiView { da: text_field(b, 0), eta: text_field(b, 5), ..no_fields() })
    } else {
        None
    }
}

/// Layout of label 8S: destination, a comma at 4, ETA.
pub open spec fn layout_8s(b: Seq<u8>) -> Option<OooiView> {
    if byte_is(b, 4, COMMA) {
        keep_if_any(OooiView { da: text_field(b, 0), eta: text_field(b, 5), ..no_fields() })
    } else {
        None
    }
}

fn label_q1(text: &str) -> (r: Option<Oooi>)
    ensures
        opt_oooi_view(r) == layout_q1(text.spec_bytes()),
{
    let o = Oooi {
        sa: slice4(text, 0),
        gout: slice4(text, 4),
        woff: slice4(text, 8),
        won: slice4(text, 12),
        gin: slice4(text, 16),
        da: slice4(text, 24),
        ..Oooi::default()
    };
    if o.has_any() {
        Some(o)
    } else {
        None
    }
}

fn label_q2(text: &str) -> (r: Option<Oooi>)
    ensures
        opt_oooi_view(r) == layout_q2(text.spec_bytes()),
{
    let o = Oooi {
        sa: slice4(text, 0),
        eta: slice4(text, 4),
        ..Oooi::default()
    };
    if o.has_any() {
        Some(o)
    } else {
        None
    }
}

fn label_qa(text: &str) -> (r: Option<Oooi>)
    ensures
        opt_oooi_view(r) == layout_qa(text.spec_bytes()),
{
    let o = Oooi {
        sa: slice4(text, 0),
        gout: slice4(text, 4),
        ..Oooi::default()
    };
    if o.has_any() {
        Some(o)
    } else {
        None
    }
}

fn label_qb(text: &str) -> (r: Option<Oooi>)
    ensures
        opt_oooi_view(r) == layout_qb(text.spec_bytes()),
{
    let o = Oooi {
        sa: slice4(text, 0),
        woff: slice4(text, 4),
        ..Oooi::default()
    };
    if o.has_any() {
        Some(o)
    } else {
        None
    }
}

fn label_qc(text: &str) -> (r: Option<Oooi>)
    ensures
        opt_oooi_view(r) == layout_qc(text.spec_bytes()),
{
    let o = Oooi {
        sa: slice4(text, 0),
        won: slice4(text, 4),
        ..Oooi::default()
    };
    if o.has_any() {
        Some(o)
    } else {
        None
    }
}

fn label_qd(text: &str) -> (r: Option<Oooi>)
    ensures
        opt_oooi_view(r) == layout_qd(text.spec_bytes()),
{
    let o = Oooi {
        sa: slice4(text, 0),
        gin: slice4(text, 4),
        ..Oooi::default()
    };
    if o.has_any() {
        Some(o)
    } else {
        None
    }
}

fn label_qe(text: &str) -> (r: Option<Oooi>)
    ensures
        opt_oooi_view(r) == layout_qe(text.spec_bytes()),
{
    let o = Oooi {
        sa: slice4(text, 0),
        gout: slice4(text, 4),
        da: slice4(text, 8),
        ..Oooi::default()
    };
    if o.has_any() {
        Some(o)
    } else {
        None
    }
}

fn label_qf(text: &str) -> (r: Option<Oooi>)
    ensures
        opt_oooi_view(r) == layout_qf(text.spec_bytes()),
{
    let o = Oooi {
        sa: slice4(text, 0),
        woff: slice4(text, 4),
        da: slice4(text, 8),
        ..Oooi::default()
    };
    if o.has_any() {
        Some(o)
    } else {
        None
    }
}

fn label_qg(text: &str) -> (r: Option<Oooi>)
    ensures
        opt_oooi_view(r) == layout_qg(text.spec_bytes()),
{
    let o = Oooi {
        sa: slice4(text, 0),
        gout: slice4(text, 4),
        gin: slice4(text, 8),
        ..Oooi::default()
    };
    if o.has_any() {
        Some(o)
    } else {
        None
    }
}

fn label_qh(text: &str) -> (r: Option<Oooi>)
    ensures
        opt_oooi_view(r) == layout_qh(text.spec_bytes()),
{
    let o = Oooi {
        sa: slice4(text, 0),
        gout: slice4(text, 4),
        ..Oooi::default()
    };
    if o.has_any() {
        Some(o)
    } else {
        None
    }
}

fn label_qk(text: &str) -> (r: Option<Oooi>)
    ensures
        opt_oooi_view(r) == layout_qk(text.spec_bytes()),
{
    let o = Oooi {
        sa: slice4(text, 0),
        won: slice4(text, 4),
        da: slice4(text, 8),
        ..Oooi::default()
    };
    if o.has_any() {
        Some(o)
    } else {
        None
    }
}

fn label_ql(text: &str) -> (r: Option<Oooi>)
    ensures
        opt_oooi_view(r) == layout_ql(text.spec_bytes()),
{
    let o = Oooi {
        da: slice4(text, 0),
        gin: slice4(text, 8),
        sa: slice4(text, 13),
        ..Oooi::default()
    };
    if o.has_any() {
        Some(o)
    } else {
        None
    }
}

fn label_qm(text: &str) -> (r: Option<Oooi>)
    ensures
        opt_oooi_view(r) == layout_qm(text.spec_bytes()),
{
    let o = Oooi {
        da: slice4(text, 0),
        sa: slice4(text, 8),
        ..Oooi::default()
    };
    if o.has_any() {
        Some(o)
    } else {
        None
    }
}

fn label_qn(text: &str) -> (r: Option<Oooi>)
    ensures
        opt_oooi_view(r) == layout_qn(text.spec_bytes()),
{
    let o = Oooi {
        da: slice4(text, 4),
        eta: slice4(text, 8),
        ..Oooi::default()
    };
    if o.has_any() {
        Some(o)
    } else {
        None
    }
}

fn label_qp(text: &str) -> (r: Option<Oooi>)
    ensures
        opt_oooi_view(r) == layout_qp(text.spec_bytes()),
{
    let o = Oooi {
        sa: slice4(text, 0),
        da: slice4(text, 4),
        gout: slice4(text, 8),
        ..Oooi::default()
    };
    if o.has_any() {
        Some(o)
    } else {
        None
    }
}

fn label_qq(text: &str) -> (r: Option<Oooi>)
    ensures
        opt_oooi_view(r) == layout_qq(text.spec_bytes()),
{
    let o = Oooi {
        sa: slice4(text, 0),
        da: slice4(text, 4),
        woff: slice4(text, 8),
        ..Oooi::default()
    };
    if o.has_any() {
        Some(o)
    } else {
        None
    }
}

fn label_qr(text: &str) -> (r: Option<Oooi>)
    ensures
        opt_oooi_view(r) == layout_qr(text.spec_bytes()),
{
    let o = Oooi {
        sa: slice4(text, 0),
        da: slice4(text, 4),
        won: slice4(text, 8),
        ..Oooi::default()
    };
    if o.has_any() {
        Some(o)
    } else {
        None
    }
}

fn label_qs(text: &str) -> (r: Option<Oooi>)
    ensures
        opt_oooi_view(r) == layout_qs(text.spec_bytes()),
{
    let o = Oooi {
        sa: slice4(text, 0),
        da: slice4(text, 4),
        gin: slice4(text, 8),
        ..Oooi::default()
    };
    if o.has_any() {
        Some(o)
    } else {
        None
    }
}

fn label_qt(text: &str) -> (r: Option<Oooi>)
    ensures
        opt_oooi_view(r) == layout_qt(text.spec_bytes()),
{
    let o = Oooi {
        sa: slice4(text, 0),
        da: slice4(text, 4),
        gout: slice4(text, 8),
        gin: slice4(text, 12),
        ..Oooi::default()
    };
    if o.has_any() {
        Some(o)
    } else {
        None
    }
}

fn label_10(text: &str) -> (r: Option<Oooi>)
    ensures
        opt_oooi_view(r) == layout_10(text.spec_bytes()),
{
    if !starts_with(text.as_bytes(), "ARR01".as_bytes()) {
        return None;
    }
    let o = Oooi {
        da: slice4(text, 12),
        eta: slice4(text, 16),
        ..Oooi::default()
    };
    if o.has_any() {
        Some(o)
    } else {
        None
    }
}

fn label_11(text: &str) -> (r: Option<Oooi>)
    ensures
        opt_oooi_view(r) == layout_11(text.spec_bytes()),
{
    if !slice_equals(text, 13, 17, "/DS ") {
        return None;
    }
    if !slice_equals(text, 21, 26, "/ETA ") {
        return None;
    }
    let o = Oooi {
        da: slice4(text, 17),
        eta: slice4(text, 26),
        ..Oooi::default()
    };
    if o.has_any() {
        Some(o)
    } else {
        None
    }
}

fn label_12(text: &str) -> (r: Option<Oooi>)
    ensures
        opt_oooi_view(r) == layout_12(text.spec_bytes()),
{
    if !byte_equals(text, 4, COMMA) {
        return None;
    }
    let o = Oooi {
        sa: slice4(text, 0),
        da: slice4(text, 5),
        ..Oooi::default()
    };
    if o.has_any() {
        Some(o)
    } else {
        None
    }
}

fn label_15(text: &str) -> (r: Option<Oooi>)
    ensures
        opt_oooi_view(r) == layout_15(text.spec_bytes()),
{
    if !starts_with(text.as_bytes(), "FST01".as_bytes()) {
        return None;
    }
    let o = Oooi {
        sa: slice4(text, 5),
        da: slice4(text, 9),
        ..Oooi::default()
    };
    if o.has_any() {
        Some(o)
    } else {
        None
    }
}

fn label_17(text: &str) -> (r: Option<Oooi>)
    ensures
        opt_oooi_view(r) == layout_17(text.spec_bytes()),
{
    if !starts_with(text.as_bytes(), "ETA ".as_bytes()) {
        return None;
    }
    if !byte_equals(text, 8, COMMA) {
        return None;
    }
    if !byte_equals(text, 13, COMMA) {
        return None;
    }
    let o = Oooi {
        eta: slice4(text, 4),
        sa: slice4(text, 9),
        da: slice4(text, 14),
        ..Oooi::default()
    };
    if o.has_any() {
        Some(o)
    } else {
        None
    }
}

fn label_1g(text: &str) -> (r: Option<Oooi>)
    ensures
        opt_oooi_view(r) == layout_1g(text.spec_bytes()),
{
    if !byte_equals(text, 4, COMMA) {
        return None;
    }
    let o = Oooi {
        sa: slice4(text, 0),
        da: slice4(text, 5),
        ..Oooi::default()
    };
    if o.has_any() {
        Some(o)
    } else {
        None
    }
}

fn label_20(text: &str) -> (r: Option<Oooi>)
    ensures
        opt_oooi_view(r) == layout_20(text.spec_bytes()),
{
    if !starts_with(text.as_bytes(), "RST".as_bytes()) {
        return None;
    }
    let o = Oooi {
        sa: slice4(text, 22),
        da: slice4(text, 26),
        ..Oooi::default()
    };
    if o.has_any() {
        Some(o)
    } else {
        None
    }
}

fn label_21(text: &str) -> (r: Option<Oooi>)
    ensures
        opt_oooi_view(r) == layout_21(text.spec_bytes()),
{
    if !byte_equals(text, 6, COMMA) {
        return None;
    }
    if !byte_equals(text, 11, COMMA) {
        return None;
    }
    let o = Oooi {
        sa: slice4(text, 7),
        da: slice4(text, 12),
        ..Oooi::default()
    };
    if o.has_any() {
        Some(o)
    } else {
        None
    }
}

fn label_2n(text: &str) -> (r: Option<Oooi>)
    ensures
        opt_oooi_view(r) == layout_2n(text.spec_bytes()),
{
    if !starts_with(text.as_bytes(), "TKO01".as_bytes()) {
        return None;
    }
    if !byte_equals(text, 11, SLASH) {
        return None;
    }
    let o = Oooi {
        sa: slice4(text, 20),
        da: slice4(text, 24),
        ..Oooi::default()
    };
    if o.has_any() {
        Some(o)
    } else {
        None
    }
}

fn label_2z(text: &str) -> (r: Option<Oooi>)
    ensures
        opt_oooi_view(r) == layout_2z(text.spec_bytes()),
{
    let o = Oooi {
        da: slice4(text, 0),
        ..Oooi::default()
    };
    if o.has_any() {
        Some(o)
    } else {
        None
    }
}

fn label_33(text: &str) -> (r: Option<Oooi>)
    ensures
        opt_oooi_view(r) == layout_33(text.spec_bytes()),
{
    if !byte_equals(text, 0, COMMA) {
        return None;
    }
    if !byte_equals(text, 20, COMMA) {
        return None;
    }
    if !byte_equals(text, 25, COMMA) {
        return None;
    }
    let o = Oooi {
        sa: slice4(text, 21),
        da: slice4(text, 26),
        ..Oooi::default()
    };
    if o.has_any() {
        Some(o)
    } else {
        None
    }
}

fn label_39(text: &str) -> (r: Option<Oooi>)
    ensures
        opt_oooi_view(r) == layout_39(text.spec_bytes()),
{
    if !starts_with(text.as_bytes(), "GTA01".as_bytes()) {
        return None;
    }
    if !byte_equals(text, 15, SLASH) {
        return None;
    }
    let o = Oooi {
        sa: slice4(text, 24),
        da: slice4(text, 28),
        ..Oooi::default()
    };
    if o.has_any() {
        Some(o)
    } else {
        None
    }
}

fn label_45(text: &str) -> (r: Option<Oooi>)
    ensures
        opt_oooi_view(r) == layout_45(text.spec_bytes()),
{
    if !byte_equals(text, 0, LETTER_A) {
        return None;
    }
    let o = Oooi {
        da: slice4(text, 1),
        ..Oooi::default()
    };
    if o.has_any() {
        Some(o)
    } else {
        None
    }
}

fn label_80(text: &str) -> (r: Option<Oooi>)
    ensures
        opt_oooi_view(r) == layout_80(text.spec_bytes()),
{
    if !slice_equals(text, 6, 11, "/DEST") {
        return None;
    }
    let o = Oooi {
        da: slice4(text, 12),
        ..Oooi::default()
    };
    if o.has_any() {
        Some(o)
    } else {
        None
    }
}

fn label_83(text: &str) -> (r: Option<Oooi>)
    ensures
        opt_oooi_view(r) == layout_83(text.spec_bytes()),
{
    if !byte_equals(text, 4, COMMA) {
        return None;
    }
    let o = Oooi {
        sa: slice4(text, 0),
        da: slice4(text, 5),
        ..Oooi::default()
    };
    if o.has_any() {
        Some(o)
    } else {
        None
    }
}

fn label_8d(text: &str) -> (r: Option<Oooi>)
    ensures
        opt_oooi_view(r) == layout_8d(text.spec_bytes()),
{
    if !byte_equals(text, 4, COMMA) {
        return None;
    }
    if !byte_equals(text, 35, COMMA) {
        return None;
    }
    if !byte_equals(text, 40, COMMA) {
        return None;
    }
    let o = Oooi {
        sa: slice4(text, 36),
        da: slice4(text, 41),
        ..Oooi::default()
    };
    if o.has_any() {
        Some(o)
    } else {
        None
    }
}

fn label_8e(text: &str) -> (r: Option<Oooi>)
    ensures
        opt_oooi_view(r) == layout_8e(text.spec_bytes()),
{
    if !byte_equals(text, 4, COMMA) {
        return None;
    }
    let o = Oooi {
        da: slice4(text, 0),
        eta: slice4(text, 5),
        ..Oooi::default()
    };
    if o.has_any() {
        Some(o)
    } else {
        None
    }
}

fn label_8s(text: &str) -> (r: Option<Oooi>)
    ensures
        opt_oooi_view(r) == layout_8s(text.spec_bytes()),
{
    if !byte_equals(text, 4, COMMA) {
        return None;
    }
    let o = Oooi {
        da: slice4(text, 0),
        eta: slice4(text, 5),
        ..Oooi::default()
    };
    if o.has_any() {
        Some(o)
    } else {
        None
    }
}

/// Layout of label 26 (and its alias RB): a `VER/077` first line, then the
/// schedule line that follows the first line feed.
pub open spec fn layout_26(b: Seq<u8>) -> Option<OooiView> {
    if !has_prefix(b, "VER/077".spec_bytes()) {
        None
    } else {
        match first_index(b, NEWLINE) {
            None => None,
            Some(n1) => layout_26_schedule(rest_from(b, n1 + 1)),
        }
    }
}

/// The schedule line of label 26 starts `SCH/`; the times part follows the
/// next `/` after it.
pub open spec fn layout_26_schedule(r1: Seq<u8>) -> Option<OooiView> {
    if !has_prefix(r1, "SCH/".spec_bytes()) {
        None
    } else {
        let r2 = rest_from(r1, 4);
        match first_index(r2, SLASH) {
            None => None,
            Some(k) => layout_26_times(rest_from(r2, k + 1)),
        }
    }
}

/// The times part of label 26: origin at 0, destination at 5; if a further
/// line follows, it must start `ETA/` and carries the ETA.
pub open spec fn layout_26_times(r3: Seq<u8>) -> Option<OooiView> {
    let sa = text_field(r3, 0);
    let da = text_field(r3, 5);
    match first_index(r3, NEWLINE) {
        Some(n2) => {
            let r4 = rest_from(r3, n2 + 1);
            if has_prefix(r4, "ETA/".spec_bytes()) {
                keep_if_any(OooiView { sa, da, eta: text_field(r4, 4), ..no_fields() })
            } else {
                None
            }
        },
        None => keep_if_any(OooiView { sa, da, ..no_fields() }),
    }
}

/// Layout of label 44 once an optional `00` prefix is set aside: `POS0` or
/// `ETA0`, then `2` or `3`; commas at 23, 28, 33, 38 and 43; destination at
/// 24 and ETA at 44.
pub open spec fn layout_44_base(base: Seq<u8>) -> Option<OooiView> {
    if (has_prefix(base, "POS0".spec_bytes()) || has_prefix(base, "ETA0".spec_bytes())) && (
    byte_is(base, 4, DIGIT_TWO) || byte_is(base, 4, DIGIT_THREE)) && byte_is(base, 23, COMMA)
        && byte_is(base, 28, COMMA) && byte_is(base, 33, COMMA) && byte_is(base, 38, COMMA)
        && byte_is(base, 43, COMMA) {
        keep_if_any(OooiView { da: text_field(base, 24), eta: text_field(base, 44), ..no_fields() })
    } else {
        None
    }
}

/// Layout of label 44: a leading `00` shifts the layout by two bytes.
pub open spec fn layout_44(b: Seq<u8>) -> Option<OooiView> {
    if has_prefix(b, "00".spec_bytes()) {
        layout_44_base(rest_from(b, 2))
    } else {
        layout_44_base(b)
    }
}

/// Byte `i` of the literal is ASCII, so in a text that begins with the
/// literal, the offset after it is a character boundary.
proof fn lemma_prefix_boundary(b: Seq<u8>, p: &str, i: int)
    requires
        valid_utf8(b),
        has_prefix(b, p.spec_bytes()),
        0 <= i < p.spec_bytes().len(),
        p.spec_bytes()[i] <= 0x7f,
    ensures
        is_char_boundary(b, i + 1),
{
    assert(b[i] == b.subrange(0, p.spec_bytes().len() as int)[i]);
    lemma_ascii_byte_ends_char(b, i);
}

fn label_26(text: &str) -> (r: Option<Oooi>)
    ensures
        opt_oooi_view(r) == layout_26(text.spec_bytes()),
{
    if !starts_with(text.as_bytes(), "VER/077".as_bytes()) {
        return None;
    }
    let nl1 = match find_byte(text.as_bytes(), NEWLINE) {
        Some(i) => i,
        None => return None,
    };
    proof {
        lemma_ascii_byte_ends_char(text.spec_bytes(), nl1 as int);
    }
    let (_, after_nl1) = text.split_at(nl1 + 1);
    label_26_schedule(after_nl1)
}

fn label_26_schedule(after_nl1: &str) -> (r: Option<Oooi>)
    ensures
        opt_oooi_view(r) == layout_26_schedule(after_nl1.spec_bytes()),
{
    if !starts_with(after_nl1.as_bytes(), "SCH/".as_bytes()) {
        return None;
    }
    proof {
        reveal_strlit("SCH/");
        broadcast use vstd::string::is_ascii_spec_bytes;

        assert(vstd::string::is_ascii("SCH/"));
        lemma_prefix_boundary(after_nl1.spec_bytes(), "SCH/", 3);
    }
    let (_, after_sch) = after_nl1.split_at(4);
    let slash = match find_byte(after_sch.as_bytes(), SLASH) {
        Some(i) => i,
        None => return None,
    };
    proof {
        lemma_ascii_byte_ends_char(after_sch.spec_bytes(), slash as int);
    }
    let (_, after_slash) = after_sch.split_at(slash + 1);
    label_26_times(after_slash)
}

fn label_26_times(after_slash: &str) -> (r: Option<Oooi>)
    ensures
        opt_oooi_view(r) == layout_26_times(after_slash.spec_bytes()),
{
    let sa = slice4(after_slash, 0);
    let da = slice4(after_slash, 5);
    let o = match find_byte(after_slash.as_bytes(), NEWLINE) {
        Some(nl2) => {
            proof {
                lemma_ascii_byte_ends_char(after_slash.spec_bytes(), nl2 as int);
            }
            let (_, after_nl2) = after_slash.split_at(nl2 + 1);
            if starts_with(after_nl2.as_bytes(), "ETA/".as_bytes()) {
                let eta = slice4(after_nl2, 4);
                Oooi { sa, da, eta, ..Oooi::default() }
            } else {
                return None;
            }
        },
        None => Oooi { sa, da, ..Oooi::default() },
    };
    if o.has_any() {
        Some(o)
    } else {
        None
    }
}

fn position_report_44(base: &str) -> (r: Option<Oooi>)
    ensures
        opt_oooi_view(r) == layout_44_base(base.spec_bytes()),
{
    if !starts_with(base.as_bytes(), "POS0".as_bytes()) && !starts_with(
        base.as_bytes(),
        "ETA0".as_bytes(),
    ) {
        return None;
    }
    if !byte_equals(base, 4, DIGIT_TWO) && !byte_equals(base, 4, DIGIT_THREE) {
        return None;
    }
    if !byte_equals(base, 23, COMMA) {
        return None;
    }
    let da = slice4(base, 24);
    if !byte_equals(base, 28, COMMA) {
        return None;
    }
    if !byte_equals(base, 33, COMMA) {
        return None;
    }
    if !byte_equals(base, 38, COMMA) {
        return None;
    }
    if !byte_equals(base, 43, COMMA) {
        return None;
    }
    let eta = slice4(base, 44);
    let o = Oooi { da, eta, ..Oooi::default() };
    if o.has_any() {
        Some(o)
    } else {
        None
    }
}

fn label_44(text: &str) -> (r: Option<Oooi>)
    ensures
        opt_oooi_view(r) == layout_44(text.spec_bytes()),
{
    if starts_with(text.as_bytes(), "00".as_bytes()) {
        proof {
            reveal_strlit("00");
            broadcast use vstd::string::is_ascii_spec_bytes;
            assert(vstd::string::is_ascii("00"));
            lemma_prefix_boundary(text.spec_bytes(), "00", 1);
        }
        let (_, base) = text.split_at(2);
        position_report_44(base)
    } else {
        position_report_44(text)
    }
}

/// The OOOI record that label `(c0, c1)` extracts from text bytes `b`;
/// `None` for labels without a layout.
pub open spec fn decoded_label(c0: u8, c1: u8, b: Seq<u8>) -> Option<OooiView> {
    match (c0, c1) {
        // 10
        (0x31, 0x30) => layout_10(b),
        // 11
        (0x31, 0x31) => layout_11(b),
        // 12
        (0x31, 0x32) => layout_12(b),
        // 15
        (0x31, 0x35) => layout_15(b),
        // 17
        (0x31, 0x37) => layout_17(b),
        // 1G
        (0x31, 0x47) => layout_1g(b),
        // 20
        (0x32, 0x30) => layout_20(b),
        // 21
        (0x32, 0x31) => layout_21(b),
        // 26
        (0x32, 0x36) => layout_26(b),
        // 2N
        (0x32, 0x4E) => layout_2n(b),
        // 2Z
        (0x32, 0x5A) => layout_2z(b),
        // 33
        (0x33, 0x33) => layout_33(b),
        // 39
        (0x33, 0x39) => layout_39(b),
        // 44
        (0x34, 0x34) => layout_44(b),
        // 45
        (0x34, 0x35) => layout_45(b),
        // 80
        (0x38, 0x30) => layout_80(b),
        // 83
        (0x38, 0x33) => layout_83(b),
        // 8D
        (0x38, 0x44) => layout_8d(b),
        // 8E
        (0x38, 0x45) => layout_8e(b),
        // 8S
        (0x38, 0x53) => layout_8s(b),
        // Q1
        (0x51, 0x31) => layout_q1(b),
        // Q2
        (0x51, 0x32) => layout_q2(b),
        // QA
        (0x51, 0x41) => layout_qa(b),
        // QB
        (0x51, 0x42) => layout_qb(b),
        // QC
        (0x51, 0x43) => layout_qc(b),
        // QD
        (0x51, 0x44) => layout_qd(b),
        // QE
        (0x51, 0x45) => layout_qe(b),
        // QF
        (0x51, 0x46) => layout_qf(b),
        // QG
        (0x51, 0x47) => layout_qg(b),
        // QH
        (0x51, 0x48) => layout_qh(b),
        // QK
        (0x51, 0x4B) => layout_qk(b),
        // QL
        (0x51, 0x4C) => layout_ql(b),
        // QM
        (0x51, 0x4D) => layout_qm(b),
        // QN
        (0x51, 0x4E) => layout_qn(b),
        // QP
        (0x51, 0x50) => layout_qp(b),
        // QQ
        (0x51, 0x51) => layout_qq(b),
        // QR
        (0x51, 0x52) => layout_qr(b),
        // QS
        (0x51, 0x53) => layout_qs(b),
        // QT
        (0x51, 0x54) => layout_qt(b),
        // RB
        (0x52, 0x42) => layout_26(b),
        _ => None,
    }
}

/// The field, when present, is a four-byte window of the text `b`: the
/// decoding of `b[i..i + 4]` for some `i`, both ends on character boundaries.
pub open spec fn field_in_text(b: Seq<u8>, f: Option<Seq<char>>) -> bool {
    f matches Some(s) ==> exists|i: int| #[trigger] text_field(b, i) == Some(s)
}

/// Every field present in the record is a four-byte window of the text.
pub open spec fn fields_in_text(b: Seq<u8>, v: OooiView) -> bool {
    &&& field_in_text(b, v.sa)
    &&& field_in_text(b, v.da)
    &&& field_in_text(b, v.gout)
    &&& field_in_text(b, v.woff)
    &&& field_in_text(b, v.won)
    &&& field_in_text(b, v.gin)
    &&& field_in_text(b, v.eta)
}

/// A window of the text from character boundary `k` on is a window of the
/// whole text, `k` bytes further.
proof fn lemma_shift_field(b: Seq<u8>, k: int, j: int)
    requires
        valid_utf8(b),
        0 <= k <= b.len(),
        is_char_boundary(b, k),
    ensures
        valid_utf8(rest_from(b, k)),
        text_field(rest_from(b, k), j) matches Some(s) ==> text_field(b, k + j) == Some(s),
{
    let c = rest_from(b, k);
    vstd::utf8::valid_utf8_split(b, k);
    if text_field(c, j) is Some {
        assert(c.subrange(j, j + 4) =~= b.subrange(k + j, k + j + 4));
        vstd::utf8::is_char_boundary_start_end_of_seq(b);
        vstd::utf8::is_char_boundary_start_end_of_seq(c);
        assert forall|q: int| 0 <= q <= c.len() && is_char_boundary(c, q) implies is_char_boundary(b, k + q) by {
            if q == c.len() {
            } else if q == 0 {
            } else {
                vstd::utf8::is_char_boundary_iff_not_is_continuation_byte(c, q);
                vstd::utf8::is_char_boundary_iff_not_is_continuation_byte(b, k + q);
                assert(c[q] == b[k + q]);
            }
        }
        assert(is_char_boundary(b, k + j));
        assert(is_char_boundary(b, k + j + 4));
    }
}

/// The offset after an ASCII byte of a valid text is a character boundary
/// where the rest of the text is valid.
proof fn lemma_after_ascii(b: Seq<u8>, i: int)
    requires
        valid_utf8(b),
        0 <= i < b.len(),
        b[i] <= 0x7f,
    ensures
        is_char_boundary(b, i + 1),
        valid_utf8(rest_from(b, i + 1)),
{
    lemma_ascii_byte_ends_char(b, i);
    vstd::utf8::valid_utf8_split(b, i + 1);
}

/// The fields of the label 26 layout are windows of its text.
proof fn lemma_layout_26_in_text(b: Seq<u8>)
    requires
        valid_utf8(b),
    ensures
        layout_26(b) matches Some(v) ==> view_has_any(v) && fields_in_text(b, v),
{
    if has_prefix(b, "VER/077".spec_bytes()) {
        lemma_first_index(b, NEWLINE);
        match first_index(b, NEWLINE) {
            None => {},
            Some(n1) => {
                let k1 = n1 + 1;
                lemma_after_ascii(b, n1);
                let r1 = rest_from(b, k1);
                if has_prefix(r1, "SCH/".spec_bytes()) {
                    reveal_strlit("SCH/");
                    broadcast use vstd::string::is_ascii_spec_bytes;
                    assert(vstd::string::is_ascii("SCH/"));
                    lemma_prefix_boundary(r1, "SCH/", 3);
                    vstd::utf8::valid_utf8_split(r1, 4);
                    let r2 = rest_from(r1, 4);
                    lemma_first_index(r2, SLASH);
                    match first_index(r2, SLASH) {
                        None => {},
                        Some(k) => {
                            lemma_after_ascii(r2, k);
                            let r3 = rest_from(r2, k + 1);
                            assert(rest_from(b, k1 + 4) =~= r2);
                            assert(rest_from(b, k1 + 4 + k + 1) =~= r3);
                            assert(is_char_boundary(b, k1 + 4)) by {
                                lemma_boundary_of_rest(b, k1, 4);
                            }
                            assert(is_char_boundary(b, k1 + 4 + k + 1)) by {
                                lemma_boundary_of_rest(b, k1 + 4, k + 1);
                            }
                            let k3 = k1 + 4 + k + 1;
                            lemma_shift_field(b, k3, 0);
                            lemma_shift_field(b, k3, 5);
                            lemma_first_index(r3, NEWLINE);
                            match first_index(r3, NEWLINE) {
                                Some(n2) => {
                                    lemma_after_ascii(r3, n2);
                                    let r4 = rest_from(r3, n2 + 1);
                                    assert(rest_from(b, k3 + n2 + 1) =~= r4);
                                    assert(is_char_boundary(b, k3 + n2 + 1)) by {
                                        lemma_boundary_of_rest(b, k3, n2 + 1);
                                    }
                                    lemma_shift_field(b, k3 + n2 + 1, 4);
                                },
                                None => {},
                            }
                        },
                    }
                }
            },
        }
    }
}

/// The first position of a byte holds that byte.
proof fn lemma_first_index(b: Seq<u8>, x: u8)
    ensures
        first_index(b, x) matches Some(i) ==> 0 <= i < b.len() && b[i] == x,
{
    reveal(first_index);
    if exists|i: int| 0 <= i < b.len() && b[i] == x {
        let w = choose|i: int| 0 <= i < b.len() && b[i] == x;
        lemma_first_witness(b, x, w);
    }
}

/// Below any position holding `x` there is a first one.
proof fn lemma_first_witness(b: Seq<u8>, x: u8, w: int)
    requires
        0 <= w < b.len(),
        b[w] == x,
    ensures
        exists|c: int| 0 <= c < b.len() && b[c] == x && forall|j: int| 0 <= j < c ==> b[j] != x,
    decreases w,
{
    if exists|j: int| 0 <= j < w && b[j] == x {
        let j = choose|j: int| 0 <= j < w && b[j] == x;
        lemma_first_witness(b, x, j);
    } else {
        assert(forall|j: int| 0 <= j < w ==> b[j] != x);
    }
}

/// A character boundary of the rest of the text from boundary `k` is a
/// character boundary of the whole text.
proof fn lemma_boundary_of_rest(b: Seq<u8>, k: int, q: int)
    requires
        valid_utf8(b),
        0 <= k <= b.len(),
        is_char_boundary(b, k),
        is_char_boundary(rest_from(b, k), q),
        0 <= q <= b.len() - k,
    ensures
        is_char_boundary(b, k + q),
{
    let c = rest_from(b, k);
    vstd::utf8::valid_utf8_split(b, k);
    vstd::utf8::is_char_boundary_start_end_of_seq(b);
    if 0 < q < c.len() {
        vstd::utf8::is_char_boundary_iff_not_is_continuation_byte(c, q);
        vstd::utf8::is_char_boundary_iff_not_is_continuation_byte(b, k + q);
        assert(c[q] == b[k + q]);
    }
}

/// The fields of the label 44 layout are windows of its text.
proof fn lemma_layout_44_in_text(b: Seq<u8>)
    requires
        valid_utf8(b),
    ensures
        layout_44(b) matches Some(v) ==> view_has_any(v) && fields_in_text(b, v),
{
    if has_prefix(b, "00".spec_bytes()) {
        reveal_strlit("00");
        broadcast use vstd::string::is_ascii_spec_bytes;
        assert(vstd::string::is_ascii("00"));
        lemma_prefix_boundary(b, "00", 1);
        lemma_shift_field(b, 2, 24);
        lemma_shift_field(b, 2, 44);
    }
}

/// Every field a label layout extracts from a text is a four-byte window of
/// that text, and a record is returned only with at least one field; so a
/// text shorter than four bytes gives no record.
/// A record, when returned, carries at least one field, each a four-byte
/// window of the text `b`.
pub open spec fn in_text(b: Seq<u8>, o: Option<OooiView>) -> bool {
    o matches Some(v) ==> view_has_any(v) && fields_in_text(b, v)
}

/// The q layouts extract windows of the text.
proof fn lemma_q_layouts_in_text(b: Seq<u8>)
    requires
        valid_utf8(b),
    ensures
        in_text(b, layout_q1(b)),
        in_text(b, layout_q2(b)),
        in_text(b, layout_qa(b)),
        in_text(b, layout_qb(b)),
        in_text(b, layout_qc(b)),
        in_text(b, layout_qd(b)),
        in_text(b, layout_qe(b)),
        in_text(b, layout_qf(b)),
        in_text(b, layout_qg(b)),
        in_text(b, layout_qh(b)),
        in_text(b, layout_qk(b)),
        in_text(b, layout_ql(b)),
        in_text(b, layout_qm(b)),
        in_text(b, layout_qn(b)),
        in_text(b, layout_qp(b)),
        in_text(b, layout_qq(b)),
        in_text(b, layout_qr(b)),
        in_text(b, layout_qs(b)),
        in_text(b, layout_qt(b)),
{
}

/// The numeric layouts extract windows of the text.
proof fn lemma_numeric_layouts_in_text(b: Seq<u8>)
    requires
        valid_utf8(b),
    ensures
        in_text(b, layout_10(b)),
        in_text(b, layout_11(b)),
        in_text(b, layout_12(b)),
        in_text(b, layout_15(b)),
        in_text(b, layout_17(b)),
        in_text(b, layout_1g(b)),
        in_text(b, layout_20(b)),
        in_text(b, layout_21(b)),
        in_text(b, layout_2n(b)),
        in_text(b, layout_2z(b)),
{
}

/// The other layouts extract windows of the text.
proof fn lemma_other_layouts_in_text(b: Seq<u8>)
    requires
        valid_utf8(b),
    ensures
        in_text(b, layout_33(b)),
        in_text(b, layout_39(b)),
        in_text(b, layout_45(b)),
        in_text(b, layout_80(b)),
        in_text(b, layout_83(b)),
        in_text(b, layout_8d(b)),
        in_text(b, layout_8e(b)),
        in_text(b, layout_8s(b)),
{
}

/// Every field a label layout extracts from a text is a four-byte window of
/// that text, and a record is returned only with at least one field; so a
/// text shorter than four bytes gives no record.
pub proof fn lemma_decoded_fields_in_text(c0: u8, c1: u8, b: Seq<u8>)
    requires
        valid_utf8(b),
    ensures
        decoded_label(c0, c1, b) matches Some(v) ==> view_has_any(v) && fields_in_text(b, v),
        b.len() < 4 ==> decoded_label(c0, c1, b) is None,
{
    lemma_layout_26_in_text(b);
    lemma_layout_44_in_text(b);
    lemma_q_layouts_in_text(b);
    lemma_numeric_layouts_in_text(b);
    lemma_other_layouts_in_text(b);
    assert(in_text(b, decoded_label(c0, c1, b)));
    if decoded_label(c0, c1, b) is Some && b.len() < 4 {
        let v = decoded_label(c0, c1, b)->0;
        let f = if v.sa is Some { v.sa } else if v.da is Some { v.da } else if v.gout is Some {
            v.gout
        } else if v.woff is Some { v.woff } else if v.won is Some { v.won } else if v.gin is Some {
            v.gin
        } else { v.eta };
        assert(field_in_text(b, f));
        let i = choose|i: int| #[trigger] text_field(b, i) == Some(f->0);
    }
}

/// Label 44 position reports: a text that starts with `POS0` or with `ETA0`
/// (the two prefixes are treated alike), has `2` or `3` at byte 4 and commas
/// at bytes 23, 28, 33, 38 and 43 decodes to a record with the destination
/// `text[24..28]` and the ETA four-byte field at 44 (`text[44..48]` when the
/// text reaches it on a character boundary), and no other field.
pub proof fn lemma_label_44_report(b: Seq<u8>)
    requires
        valid_utf8(b),
        has_prefix(b, "POS0".spec_bytes()) || has_prefix(b, "ETA0".spec_bytes()),
        b.len() > 43,
        b[4] == 0x32u8 || b[4] == 0x33u8,
        b[23] == 0x2Cu8,
        b[28] == 0x2Cu8,
        b[33] == 0x2Cu8,
        b[38] == 0x2Cu8,
        b[43] == 0x2Cu8,
    ensures
        decoded_label(0x34, 0x34, b) == Some(
            OooiView {
                da: Some(decode_utf8(b.subrange(24, 28))),
                eta: text_field(b, 44),
                ..no_fields()
            },
        ),
        b.len() >= 48 && b[47] <= 0x7f ==> text_field(b, 44) == Some(decode_utf8(b.subrange(44, 48))),
{
    reveal_strlit("00");
    reveal_strlit("POS0");
    reveal_strlit("ETA0");
    broadcast use vstd::string::is_ascii_spec_bytes;

    assert(vstd::string::is_ascii("00"));
    assert(vstd::string::is_ascii("POS0"));
    assert(vstd::string::is_ascii("ETA0"));
    assert(b[0] == b.subrange(0, 4)[0]);
    assert(b[0] == 0x50u8 || b[0] == 0x45u8);
    assert(!has_prefix(b, "00".spec_bytes())) by {
        if has_prefix(b, "00".spec_bytes()) {
            assert(b[0] == b.subrange(0, 2)[0]);
        }
    }
    lemma_ascii_byte_ends_char(b, 23);
    lemma_ascii_byte_ends_char(b, 43);
    vstd::utf8::is_char_boundary_iff_not_is_continuation_byte(b, 28);
    assert(text_field(b, 24) == Some(decode_utf8(b.subrange(24, 28))));
    if b.len() >= 48 && b[47] <= 0x7f {
        lemma_ascii_byte_ends_char(b, 47);
    }
}

/// Decode the OOOI metadata for an ACARS message. Returns `Some` when the
/// label has a layout, the layout's separators and prefixes are present, and
/// at least one field could be extracted; `None` otherwise.
pub fn decode_label(label: [u8; 2], text: &str) -> (r: Option<Oooi>)
    ensures
        opt_oooi_view(r) == decoded_label(label@[0], label@[1], text.spec_bytes()),
{
    match label[0] {
        0x31 => match label[1] {
            // 10
            0x30 => label_10(text),
            // 11
            0x31 => label_11(text),
            // 12
            0x32 => label_12(text),
            // 15
            0x35 => label_15(text),
            // 17
            0x37 => label_17(text),
            // 1G
            0x47 => label_1g(text),
            _ => None,
        },
        0x32 => match label[1] {
            // 20
            0x30 => label_20(text),
            // 21
            0x31 => label_21(text),
            // 26
            0x36 => label_26(text),
            // 2N
            0x4E => label_2n(text),
            // 2Z
            0x5A => label_2z(text),
            _ => None,
        },
        0x33 => match label[1] {
            // 33
            0x33 => label_33(text),
            // 39
            0x39 => label_39(text),
            _ => None,
        },
        0x34 => match label[1] {
            // 44
            0x34 => label_44(text),
            // 45
            0x35 => label_45(text),
            _ => None,
        },
        0x38 => match label[1] {
            // 80
            0x30 => label_80(text),
            // 83
            0x33 => label_83(text),
            // 8D
            0x44 => label_8d(text),
            // 8E
            0x45 => label_8e(text),
            // 8S
            0x53 => label_8s(text),
            _ => None,
        },
        0x51 => match label[1] {
            // Q1
            0x31 => label_q1(text),
            // Q2
            0x32 => label_q2(text),
            // QA
            0x41 => label_qa(text),
            // QB
            0x42 => label_qb(text),
            // QC
            0x43 => label_qc(text),
            // QD
            0x44 => label_qd(text),
            // QE
            0x45 => label_qe(text),
            // QF
            0x46 => label_qf(text),
            // QG
            0x47 => label_qg(text),
            // QH
            0x48 => label_qh(text),
            // QK
            0x4B => label_qk(text),
            // QL
            0x4C => label_ql(text),
            // QM
            0x4D => label_qm(text),
            // QN
            0x4E => label_qn(text),
            // QP
            0x50 => label_qp(text),
            // QQ
            0x51 => label_qq(text),
            // QR
            0x52 => label_qr(text),
            // QS
            0x53 => label_qs(text),
            // QT
            0x54 => label_qt(text),
            _ => None,
        },
        0x52 => match label[1] {
            // RB
            0x42 => label_26(text),
            _ => None,
        },
        _ => None,
    }
}

} // verus!
