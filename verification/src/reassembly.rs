//! Multi-block ACARS message reassembly.
//!
//! Non-final blocks end with ETB, the final block with ETX. Blocks of one
//! logical message share the `(aircraft, message_no)` key. ETB blocks are
//! parked in a pending bucket for their key; an ETX block closes its key's
//! bucket, and the blocks (sorted by block id) are merged into one message.
//! Buckets older than [`REASSEMBLY_TIMEOUT`] are emitted as partial
//! reassemblies that keep `end_of_message = false`. Messages without a key
//! pass through.
use vstd::prelude::*;
use vstd::string::StringSliceAdditionalSpecFns;
use crate::frame::AcarsMessage;
use crate::label_parsers::copy_opt_string;

verus! {

broadcast use vstd::seq_lib::to_multiset_build, vstd::seq_lib::to_multiset_remove;

/// Age (nanoseconds) past which a pending multi-block message is emitted as
/// a partial reassembly: 30 s.
pub const REASSEMBLY_TIMEOUT: u128 = 30_000_000_000;

/// Most pending multi-block messages held at once; the oldest is dropped to
/// make room for a new one.
pub const MAX_PENDING_MESSAGES: usize = 256;

/// Strict lexicographic order on byte strings (a proper prefix comes first).
pub open spec fn lex_lt(x: Seq<u8>, y: Seq<u8>) -> bool
    decreases x.len(),
{
    if x.len() == 0 {
        y.len() > 0
    } else if y.len() == 0 {
        false
    } else if x[0] != y[0] {
        x[0] < y[0]
    } else {
        lex_lt(x.drop_first(), y.drop_first())
    }
}

/// `lex_lt` is irreflexive.
pub proof fn lemma_lex_lt_irreflexive(x: Seq<u8>)
    ensures
        !lex_lt(x, x),
    decreases x.len(),
{
    if x.len() > 0 {
        lemma_lex_lt_irreflexive(x.drop_first());
    }
}

/// `lex_lt` is transitive.
pub proof fn lemma_lex_lt_transitive(x: Seq<u8>, y: Seq<u8>, z: Seq<u8>)
    requires
        lex_lt(x, y),
        lex_lt(y, z),
    ensures
        lex_lt(x, z),
    decreases x.len(),
{
    if x.len() > 0 && y.len() > 0 && z.len() > 0 && x[0] == y[0] && y[0] == z[0] {
        lemma_lex_lt_transitive(x.drop_first(), y.drop_first(), z.drop_first());
    }
}

/// Distinct byte strings are ordered one way or the other.
pub proof fn lemma_lex_lt_total(x: Seq<u8>, y: Seq<u8>)
    requires
        x != y,
    ensures
        lex_lt(x, y) || lex_lt(y, x),
    decreases x.len(),
{
    if x.len() == 0 {
        assert(y.len() > 0) by {
            if y.len() == 0 {
                assert(x =~= y);
            }
        }
    } else if y.len() > 0 && x[0] == y[0] {
        if x.drop_first() == y.drop_first() {
            assert(x =~= seq![x[0]] + x.drop_first());
            assert(y =~= seq![y[0]] + y.drop_first());
        }
        lemma_lex_lt_total(x.drop_first(), y.drop_first());
    }
}

/// `lex_lt` on the bytes of two slices.
fn bytes_less(x: &[u8], y: &[u8]) -> (r: bool)
    ensures
        r == lex_lt(x@, y@),
{
    let mut i: usize = 0;
    proof {
        assert(x@.subrange(0, x@.len() as int) =~= x@);
        assert(y@.subrange(0, y@.len() as int) =~= y@);
    }
    while i < x.len() && i < y.len() && x[i] == y[i]
        invariant
            i <= x@.len(),
            i <= y@.len(),
            lex_lt(x@, y@) == lex_lt(x@.subrange(i as int, x@.len() as int), y@.subrange(i as int, y@.len() as int)),
        decreases x.len() - i,
    {
        proof {
            let xs = x@.subrange(i as int, x@.len() as int);
            let ys = y@.subrange(i as int, y@.len() as int);
            assert(xs.drop_first() =~= x@.subrange(i + 1, x@.len() as int));
            assert(ys.drop_first() =~= y@.subrange(i + 1, y@.len() as int));
        }
        i = i + 1;
    }
    if i == x.len() {
        i < y.len()
    } else if i == y.len() {
        false
    } else {
        x[i] < y[i]
    }
}

/// The UTF-8 bytes of a string's characters.
pub open spec fn text_bytes(s: Seq<char>) -> Seq<u8> {
    vstd::utf8::encode_utf8(s)
}

/// Identity of a pending multi-block message.
pub struct BucketKey {
    pub aircraft: Seq<char>,
    pub message_no: Seq<char>,
}

/// A pending multi-block message: its key, the observation time of its
/// first block, and the blocks seen so far in arrival order.
pub struct Bucket {
    pub key: BucketKey,
    pub first_seen: u128,
    pub blocks: Seq<AcarsMessage>,
}

/// The reassembly key of a message: aircraft and message number, both
/// present and non-empty.
pub open spec fn key_of(msg: AcarsMessage) -> Option<BucketKey> {
    match msg.message_no {
        Some(n) => if msg.aircraft@.len() > 0 && n@.len() > 0 {
            Some(BucketKey { aircraft: msg.aircraft@, message_no: n@ })
        } else {
            None
        },
        None => None,
    }
}

/// Emission order of timed-out buckets: by first observation, then aircraft,
/// then message number (strings compared byte by byte).
pub open spec fn bucket_before(a: Bucket, b: Bucket) -> bool {
    a.first_seen < b.first_seen || (a.first_seen == b.first_seen && (lex_lt(
        text_bytes(a.key.aircraft),
        text_bytes(b.key.aircraft),
    ) || (text_bytes(a.key.aircraft) == text_bytes(b.key.aircraft) && lex_lt(
        text_bytes(a.key.message_no),
        text_bytes(b.key.message_no),
    ))))
}

/// The blocks in `s` with block id `k`, in order.
pub open spec fn with_block_id(s: Seq<AcarsMessage>, k: int) -> Seq<AcarsMessage>
    decreases s.len(),
{
    if s.len() == 0 {
        s
    } else if s.last().block_id as int == k {
        with_block_id(s.drop_last(), k).push(s.last())
    } else {
        with_block_id(s.drop_last(), k)
    }
}

/// The blocks of `s` with block id below `k`, grouped by ascending block
/// id, keeping arrival order within a group.
pub open spec fn by_block_id_below(s: Seq<AcarsMessage>, k: nat) -> Seq<AcarsMessage>
    decreases k,
{
    if k == 0 {
        seq![]
    } else {
        by_block_id_below(s, (k - 1) as nat) + with_block_id(s, k - 1)
    }
}

/// `s` stably sorted by block id.
pub open spec fn sorted_by_block_id(s: Seq<AcarsMessage>) -> Seq<AcarsMessage> {
    by_block_id_below(s, 256)
}

/// The texts of `t` concatenated in order.
pub open spec fn joined_text(t: Seq<AcarsMessage>) -> Seq<char>
    decreases t.len(),
{
    if t.len() == 0 {
        seq![]
    } else {
        joined_text(t.drop_last()) + t.last().text@
    }
}

/// The last flight id present in `t`.
pub open spec fn last_flight_id(t: Seq<AcarsMessage>) -> Option<String>
    decreases t.len(),
{
    if t.len() == 0 {
        None
    } else if t.last().flight_id is Some {
        t.last().flight_id
    } else {
        last_flight_id(t.drop_last())
    }
}

/// The last message number present in `t`.
pub open spec fn last_message_no(t: Seq<AcarsMessage>) -> Option<String>
    decreases t.len(),
{
    if t.len() == 0 {
        None
    } else if t.last().message_no is Some {
        t.last().message_no
    } else {
        last_message_no(t.drop_last())
    }
}

/// `r` merges the ordered blocks `t` (non-empty): aircraft and OOOI data
/// from the first block; timing, channel, level, error count, mode, label,
/// block id and ack from the last; the last flight id and message number
/// present; the texts joined in order; the block count (at most 255); and
/// the end-of-message flag of the first block (no closing block arrived).
pub open spec fn merges(r: AcarsMessage, t: Seq<AcarsMessage>) -> bool {
    let first = t[0];
    let last = t.last();
    &&& r.timestamp == last.timestamp
    &&& r.channel_idx == last.channel_idx
    &&& r.freq_hz == last.freq_hz
    &&& r.level_tenths_db == last.level_tenths_db
    &&& r.error_count == last.error_count
    &&& r.mode == last.mode
    &&& r.label == last.label
    &&& r.block_id == last.block_id
    &&& r.ack == last.ack
    &&& r.aircraft == first.aircraft
    &&& r.parsed == first.parsed
    &&& r.flight_id == last_flight_id(t)
    &&& r.message_no == last_message_no(t)
    &&& r.text@ == joined_text(t)
    &&& r.end_of_message == first.end_of_message
    &&& r.reassembled_block_count as int == (if t.len() > 255 { 255 } else { t.len() as int })
}

/// Copies of the blocks with block id `k`, appended to `out`.
fn push_with_block_id(s: &Vec<AcarsMessage>, k: u8, out: &mut Vec<AcarsMessage>)
    ensures
        final(out)@ == old(out)@ + with_block_id(s@, k as int),
{
    let mut i: usize = 0;
    let ghost start = out@;
    while i < s.len()
        invariant
            i <= s@.len(),
            out@ == start + with_block_id(s@.subrange(0, i as int), k as int),
        decreases s.len() - i,
    {
        proof {
            assert(s@.subrange(0, i + 1).drop_last() =~= s@.subrange(0, i as int));
        }
        if s[i].block_id == k {
            out.push(s[i].copy());
            proof {
                assert(out@ =~= start + with_block_id(s@.subrange(0, i + 1), k as int));
            }
        }
        i = i + 1;
    }
    proof {
        assert(s@.subrange(0, s@.len() as int) =~= s@);
    }
}

/// Stable sort by block id.
fn sort_by_block_id(s: &Vec<AcarsMessage>) -> (r: Vec<AcarsMessage>)
    ensures
        r@ == sorted_by_block_id(s@),
{
    let mut out: Vec<AcarsMessage> = Vec::new();
    let mut k: u16 = 0;
    while k < 256
        invariant
            k <= 256,
            out@ == by_block_id_below(s@, k as nat),
        decreases 256 - k,
    {
        push_with_block_id(s, k as u8, &mut out);
        k = k + 1;
    }
    out
}


/// Number of blocks in `s` with block id below `k`.
pub open spec fn count_below(s: Seq<AcarsMessage>, k: int) -> nat
    decreases s.len(),
{
    if s.len() == 0 {
        0
    } else {
        count_below(s.drop_last(), k) + if (s.last().block_id as int) < k { 1nat } else { 0nat }
    }
}

proof fn lemma_with_block_id_len(s: Seq<AcarsMessage>, k: int)
    ensures
        with_block_id(s, k).len() + count_below(s, k) == count_below(s, k + 1),
    decreases s.len(),
{
    if s.len() > 0 {
        lemma_with_block_id_len(s.drop_last(), k);
    }
}

proof fn lemma_by_block_id_below_len(s: Seq<AcarsMessage>, k: nat)
    ensures
        by_block_id_below(s, k).len() == count_below(s, k as int),
    decreases k,
{
    if k == 0 {
        lemma_count_below_zero(s);
    } else {
        lemma_by_block_id_below_len(s, (k - 1) as nat);
        lemma_with_block_id_len(s, k - 1);
    }
}

proof fn lemma_count_below_zero(s: Seq<AcarsMessage>)
    ensures
        count_below(s, 0) == 0,
    decreases s.len(),
{
    if s.len() > 0 {
        lemma_count_below_zero(s.drop_last());
    }
}

proof fn lemma_count_below_all(s: Seq<AcarsMessage>)
    ensures
        count_below(s, 256) == s.len(),
    decreases s.len(),
{
    if s.len() > 0 {
        lemma_count_below_all(s.drop_last());
    }
}

/// Sorting by block id keeps the number of blocks.
pub proof fn lemma_sorted_len(s: Seq<AcarsMessage>)
    ensures
        sorted_by_block_id(s).len() == s.len(),
{
    lemma_by_block_id_below_len(s, 256);
    lemma_count_below_all(s);
}

/// Merge blocks already in order into one message.
fn merge_blocks(t: &Vec<AcarsMessage>) -> (r: AcarsMessage)
    requires
        t@.len() > 0,
    ensures
        merges(r, t@),
{
    let n = t.len();
    let mut out = t[0].copy();
    let mut combined = t[0].text.clone();
    proof {
        let s1 = t@.subrange(0, 1);
        let e = s1.drop_last();
        assert(e =~= Seq::<AcarsMessage>::empty());
        assert(s1.last() == t@[0]);
        assert(joined_text(e) == Seq::<char>::empty());
        assert(joined_text(s1) =~= t@[0].text@);
        assert(last_flight_id(e) is None);
        assert(last_message_no(e) is None);
        assert(last_flight_id(s1) == t@[0].flight_id);
        assert(last_message_no(s1) == t@[0].message_no);
    }
    let mut i: usize = 1;
    while i < n
        invariant
            n == t@.len(),
            1 <= i <= n,
            out.timestamp == t@[i - 1].timestamp,
            out.channel_idx == t@[i - 1].channel_idx,
            out.freq_hz == t@[i - 1].freq_hz,
            out.level_tenths_db == t@[i - 1].level_tenths_db,
            out.error_count == t@[i - 1].error_count,
            out.mode == t@[i - 1].mode,
            out.label == t@[i - 1].label,
            out.block_id == t@[i - 1].block_id,
            out.ack == t@[i - 1].ack,
            out.aircraft == t@[0].aircraft,
            out.parsed == t@[0].parsed,
            out.flight_id == last_flight_id(t@.subrange(0, i as int)),
            out.message_no == last_message_no(t@.subrange(0, i as int)),
            combined@ == joined_text(t@.subrange(0, i as int)),
            out.end_of_message == t@[0].end_of_message,
        decreases n - i,
    {
        let next = &t[i];
        proof {
            let pre = t@.subrange(0, i + 1);
            assert(pre.drop_last() =~= t@.subrange(0, i as int));
            assert(pre.last() == t@[i as int]);
        }
        out.timestamp = next.timestamp;
        out.channel_idx = next.channel_idx;
        out.freq_hz = next.freq_hz;
        out.level_tenths_db = next.level_tenths_db;
        out.error_count = next.error_count;
        out.mode = next.mode;
        out.label = next.label;
        out.block_id = next.block_id;
        out.ack = next.ack;
        if next.flight_id.is_some() {
            out.flight_id = copy_opt_string(&next.flight_id);
        }
        if next.message_no.is_some() {
            out.message_no = copy_opt_string(&next.message_no);
        }
        combined.append(next.text.as_str());
        i = i + 1;
    }
    proof {
        assert(t@.subrange(0, n as int) =~= t@);
    }
    out.text = combined;
    out.reassembled_block_count = if n > 255 {
        255
    } else {
        n as u8
    };
    out
}

/// `r` closes the message whose blocks, in block-id order, are `t` with
/// the closing ETX block `etx`: the texts of `t` joined in order and their
/// count (at most 255), everything else from the ETX, except that a missing
/// flight id is taken from the last block of `t` that has one.
pub open spec fn closes(r: AcarsMessage, t: Seq<AcarsMessage>, etx: AcarsMessage) -> bool {
    &&& r.text@ == joined_text(t)
    &&& r.reassembled_block_count as int == (if t.len() > 255 { 255 } else { t.len() as int })
    &&& r.flight_id == (if etx.flight_id is Some { etx.flight_id } else { last_flight_id(t) })
    &&& r == (AcarsMessage {
        text: r.text,
        reassembled_block_count: r.reassembled_block_count,
        flight_id: r.flight_id,
        ..etx
    })
}

/// Combine pending ETB blocks with the closing ETX block: the texts of all
/// blocks in block-id order (stable), the metadata of the ETX.
fn combine(pending: Vec<AcarsMessage>, etx: AcarsMessage) -> (r: AcarsMessage)
    ensures
        closes(r, sorted_by_block_id(pending@.push(etx)), etx),
{
    let closing = etx.copy();
    let mut all = pending;
    all.push(etx);
    let sorted = sort_by_block_id(&all);
    proof {
        lemma_sorted_len(all@);
    }
    let merged = merge_blocks(&sorted);
    let mut out = closing;
    out.text = merged.text;
    out.reassembled_block_count = merged.reassembled_block_count;
    if out.flight_id.is_none() {
        out.flight_id = merged.flight_id;
    }
    out
}

/// The timeout / flush counterpart of [`combine`]: the blocks that did
/// arrive, sorted by block id and merged, keeping the first block's
/// end-of-message flag. `None` for no blocks.
fn combine_partial(pending: Vec<AcarsMessage>) -> (r: Option<AcarsMessage>)
    ensures
        pending@.len() == 0 <==> r is None,
        r matches Some(m) ==> merges(m, sorted_by_block_id(pending@)),
{
    let sorted = sort_by_block_id(&pending);
    proof {
        lemma_sorted_len(pending@);
    }
    if sorted.len() == 0 {
        None
    } else {
        Some(merge_blocks(&sorted))
    }
}


/// The bucket is older than the timeout at `now`.
pub open spec fn is_stale(b: Bucket, now: u128) -> bool {
    now >= REASSEMBLY_TIMEOUT && b.first_seen < now - REASSEMBLY_TIMEOUT
}

/// The buckets of `bs` whose staleness at `now` is `stale`, in order.
pub open spec fn with_staleness(bs: Seq<Bucket>, now: u128, stale: bool) -> Seq<Bucket>
    decreases bs.len(),
{
    if bs.len() == 0 {
        bs
    } else if is_stale(bs.last(), now) == stale {
        with_staleness(bs.drop_last(), now, stale).push(bs.last())
    } else {
        with_staleness(bs.drop_last(), now, stale)
    }
}

/// A bucket holds at least one block, and only ETB blocks.
pub open spec fn parked(b: Bucket) -> bool {
    &&& b.blocks.len() > 0
    &&& forall|j: int| 0 <= j < b.blocks.len() ==> !(#[trigger] b.blocks[j]).end_of_message
}

/// Keys are distinct, buckets hold ETB blocks only, and there are at most
/// [`MAX_PENDING_MESSAGES`] of them.
pub open spec fn buckets_wf(bs: Seq<Bucket>) -> bool {
    &&& bs.len() <= MAX_PENDING_MESSAGES
    &&& forall|i: int| 0 <= i < bs.len() ==> parked(#[trigger] bs[i])
    &&& forall|i: int, j: int| 0 <= i < bs.len() && 0 <= j < bs.len() && i != j ==> (#[trigger] bs[i]).key != (#[trigger] bs[j]).key
}

/// `r` holds one partial reassembly per bucket of `st`, the buckets taken
/// in [`bucket_before`] order.
pub open spec fn emitted_in_order(r: Seq<AcarsMessage>, st: Seq<Bucket>) -> bool {
    exists|order: Seq<Bucket>|
        {
            &&& order.to_multiset() == st.to_multiset()
            &&& forall|i: int, j: int| 0 <= i < j < order.len() ==> bucket_before(#[trigger] order[i], #[trigger] order[j])
            &&& r.len() == order.len()
            &&& forall|i: int| 0 <= i < order.len() ==> merges(#[trigger] r[i], sorted_by_block_id(order[i].blocks))
        }
}

/// Timed-out buckets have one emission order only: two orderings of the
/// same buckets that both follow [`bucket_before`] are the same sequence.
pub proof fn lemma_emission_order_unique(st: Seq<Bucket>, o1: Seq<Bucket>, o2: Seq<Bucket>)
    requires
        o1.to_multiset() == st.to_multiset(),
        o2.to_multiset() == st.to_multiset(),
        forall|i: int, j: int| 0 <= i < j < o1.len() ==> bucket_before(#[trigger] o1[i], #[trigger] o1[j]),
        forall|i: int, j: int| 0 <= i < j < o2.len() ==> bucket_before(#[trigger] o2[i], #[trigger] o2[j]),
    ensures
        o1 == o2,
    decreases o1.len(),
{
    vstd::seq_lib::to_multiset_len(o1);
    vstd::seq_lib::to_multiset_len(o2);
    if o1.len() == 0 {
        assert(o1 =~= o2);
    } else {
        let a = o1[0];
        let b = o2[0];
        if a != b {
            vstd::seq_lib::to_multiset_contains(o1, b);
            vstd::seq_lib::to_multiset_contains(o2, b);
            vstd::seq_lib::to_multiset_contains(o1, a);
            vstd::seq_lib::to_multiset_contains(o2, a);
            assert(o2.contains(b));
            assert(o1.contains(a));
            let j = choose|j: int| 0 <= j < o1.len() && o1[j] == b;
            let i = choose|i: int| 0 <= i < o2.len() && o2[i] == a;
            assert(bucket_before(o1[0], o1[j]));
            assert(bucket_before(o2[0], o2[i]));
            lemma_bucket_before_transitive(a, b, a);
            lemma_bucket_before_irreflexive(a);
        }
        let r1 = o1.drop_first();
        let r2 = o2.drop_first();
        assert(o1.remove(0) =~= r1);
        assert(o2.remove(0) =~= r2);
        vstd::seq_lib::to_multiset_remove(o1, 0);
        vstd::seq_lib::to_multiset_remove(o2, 0);
        assert forall|i: int, j: int| 0 <= i < j < r1.len() implies bucket_before(#[trigger] r1[i], #[trigger] r1[j]) by {
            assert(r1[i] == o1[i + 1] && r1[j] == o1[j + 1]);
        }
        assert forall|i: int, j: int| 0 <= i < j < r2.len() implies bucket_before(#[trigger] r2[i], #[trigger] r2[j]) by {
            assert(r2[i] == o2[i + 1] && r2[j] == o2[j + 1]);
        }
        lemma_emission_order_unique(r1, r1, r2);
        assert(o1 =~= seq![a] + r1);
        assert(o2 =~= seq![b] + r2);
    }
}

/// The position of the bucket with key `k`.
pub open spec fn key_index(bs: Seq<Bucket>, k: BucketKey) -> Option<int> {
    if exists|i: int| 0 <= i < bs.len() && bs[i].key == k {
        Some(choose|i: int| 0 <= i < bs.len() && bs[i].key == k)
    } else {
        None
    }
}

/// `i` is the first bucket with the smallest `first_seen`.
pub open spec fn is_oldest(bs: Seq<Bucket>, i: int) -> bool {
    &&& 0 <= i < bs.len()
    &&& forall|j: int| 0 <= j < bs.len() ==> bs[i].first_seen <= #[trigger] bs[j].first_seen
    &&& forall|j: int| 0 <= j < i ==> bs[i].first_seen < #[trigger] bs[j].first_seen
}

/// The position of the oldest bucket (the first among equally old ones).
pub open spec fn oldest_index(bs: Seq<Bucket>) -> int {
    choose|i: int| is_oldest(bs, i)
}

/// The buckets after a new key's first ETB block arrives at `now`: when the
/// cap is reached the oldest bucket is dropped, then a bucket holding the
/// block is appended.
pub open spec fn admitted(bs: Seq<Bucket>, k: BucketKey, msg: AcarsMessage, now: u128) -> Seq<Bucket> {
    let base = if bs.len() >= MAX_PENDING_MESSAGES { bs.remove(oldest_index(bs)) } else { bs };
    base.push(Bucket { key: k, first_seen: now, blocks: seq![msg] })
}

/// One pending multi-block message.
struct PendingMessage {
    aircraft: String,
    message_no: String,
    first_seen: u128,
    blocks: Vec<AcarsMessage>,
}

impl View for PendingMessage {
    type V = Bucket;

    closed spec fn view(&self) -> Bucket {
        Bucket {
            key: BucketKey { aircraft: self.aircraft@, message_no: self.message_no@ },
            first_seen: self.first_seen,
            blocks: self.blocks@,
        }
    }
}

/// The views of the pending messages.
spec fn views(p: Seq<PendingMessage>) -> Seq<Bucket> {
    p.map_values(|x: PendingMessage| x@)
}

/// Removing a pending message removes its view.
proof fn lemma_views_remove(p: Seq<PendingMessage>, m: int)
    requires
        0 <= m < p.len(),
    ensures
        views(p).len() == p.len(),
        views(p)[m] == p[m]@,
        views(p.remove(m)) == views(p).remove(m),
{
    assert(views(p.remove(m)) =~= views(p).remove(m));
}

/// Moving one bucket from `rem` to the end of `order` keeps the multiset
/// of all buckets.
proof fn lemma_move_one(order: Seq<Bucket>, rem: Seq<Bucket>, m: int)
    requires
        0 <= m < rem.len(),
    ensures
        order.push(rem[m]).to_multiset().add(rem.remove(m).to_multiset()) == order.to_multiset().add(
            rem.to_multiset(),
        ),
{
    broadcast use vstd::multiset::group_multiset_axioms;

    vstd::seq_lib::to_multiset_build(order, rem[m]);
    vstd::seq_lib::to_multiset_remove(rem, m);
    vstd::seq_lib::to_multiset_contains(rem, rem[m]);
    assert(rem.contains(rem[m]));
    assert(order.push(rem[m]).to_multiset().add(rem.remove(m).to_multiset()) =~= order.to_multiset().add(
        rem.to_multiset(),
    ));
}

/// The empty sequence has the empty multiset.
proof fn lemma_empty_multiset(e: Seq<Bucket>)
    requires
        e.len() == 0,
    ensures
        e.to_multiset() == vstd::multiset::Multiset::<Bucket>::empty(),
{
    vstd::seq_lib::to_multiset_len(e);
    vstd::multiset::lemma_multiset_empty_len(e.to_multiset());
}

/// Equal characters, equal bytes, and conversely.
proof fn lemma_text_bytes_injective(a: Seq<char>, b: Seq<char>)
    ensures
        (text_bytes(a) == text_bytes(b)) == (a == b),
{
    vstd::utf8::encode_utf8_decode_utf8(a);
    vstd::utf8::encode_utf8_decode_utf8(b);
}

/// No bucket comes before itself.
proof fn lemma_bucket_before_irreflexive(a: Bucket)
    ensures
        !bucket_before(a, a),
{
    lemma_lex_lt_irreflexive(text_bytes(a.key.aircraft));
    lemma_lex_lt_irreflexive(text_bytes(a.key.message_no));
}

/// Emission order is transitive.
proof fn lemma_bucket_before_transitive(a: Bucket, b: Bucket, c: Bucket)
    requires
        bucket_before(a, b),
        bucket_before(b, c),
    ensures
        bucket_before(a, c),
{
    let (xa, xb, xc) = (text_bytes(a.key.aircraft), text_bytes(b.key.aircraft), text_bytes(c.key.aircraft));
    let (ya, yb, yc) = (text_bytes(a.key.message_no), text_bytes(b.key.message_no), text_bytes(c.key.message_no));
    if a.first_seen == b.first_seen && b.first_seen == c.first_seen {
        if lex_lt(xa, xb) && lex_lt(xb, xc) {
            lemma_lex_lt_transitive(xa, xb, xc);
        } else if lex_lt(xa, xb) && xb == xc {
        } else if xa == xb && lex_lt(xb, xc) {
        } else {
            lemma_lex_lt_transitive(ya, yb, yc);
        }
    }
}

/// Buckets with different keys are ordered one way or the other.
proof fn lemma_bucket_before_total(a: Bucket, b: Bucket)
    requires
        a.key != b.key,
    ensures
        bucket_before(a, b) || bucket_before(b, a),
{
    lemma_text_bytes_injective(a.key.aircraft, b.key.aircraft);
    lemma_text_bytes_injective(a.key.message_no, b.key.message_no);
    let (xa, xb) = (text_bytes(a.key.aircraft), text_bytes(b.key.aircraft));
    let (ya, yb) = (text_bytes(a.key.message_no), text_bytes(b.key.message_no));
    if xa != xb {
        lemma_lex_lt_total(xa, xb);
    } else {
        assert(a.key.aircraft == b.key.aircraft);
        assert(a.key.message_no != b.key.message_no) by {
            if a.key.message_no == b.key.message_no {
                assert(a.key =~= b.key);
            }
        }
        lemma_lex_lt_total(ya, yb);
    }
}

/// `a` comes before `b` in emission order.
fn bucket_precedes(a: &PendingMessage, b: &PendingMessage) -> (r: bool)
    ensures
        r == bucket_before(a@, b@),
{
    if a.first_seen != b.first_seen {
        return a.first_seen < b.first_seen;
    }
    let aa = a.aircraft.as_str().as_bytes();
    let ba = b.aircraft.as_str().as_bytes();
    if bytes_less(aa, ba) {
        return true;
    }
    proof {
        lemma_text_bytes_injective(a.aircraft@, b.aircraft@);
    }
    if !(a.aircraft == b.aircraft) {
        return false;
    }
    bytes_less(a.message_no.as_str().as_bytes(), b.message_no.as_str().as_bytes())
}

/// The bucket holds key `(ac, no)`.
fn has_key(b: &PendingMessage, ac: &String, no: &String) -> (r: bool)
    ensures
        r == (b@.key == BucketKey { aircraft: ac@, message_no: no@ }),
{
    let r = b.aircraft == *ac && b.message_no == *no;
    proof {
        if b.aircraft@ == ac@ && b.message_no@ == no@ {
            assert(b@.key =~= BucketKey { aircraft: ac@, message_no: no@ });
        }
    }
    r
}

/// The position of the bucket with key `(ac, no)`.
fn find_bucket(p: &Vec<PendingMessage>, ac: &String, no: &String) -> (r: Option<usize>)
    requires
        buckets_wf(views(p@)),
    ensures
        match r {
            Some(i) => key_index(views(p@), BucketKey { aircraft: ac@, message_no: no@ }) == Some(i as int),
            None => key_index(views(p@), BucketKey { aircraft: ac@, message_no: no@ }) is None,
        },
        r matches Some(i) ==> i < p@.len(),
{
    let ghost k = BucketKey { aircraft: ac@, message_no: no@ };
    let ghost bs = views(p@);
    let mut i: usize = 0;
    while i < p.len()
        invariant
            i <= p@.len(),
            bs == views(p@),
            buckets_wf(bs),
            k == (BucketKey { aircraft: ac@, message_no: no@ }),
            forall|j: int| 0 <= j < i ==> bs[j].key != k,
        decreases p.len() - i,
    {
        if has_key(&p[i], ac, no) {
            proof {
                assert(bs[i as int] == p@[i as int]@);
                assert(exists|j: int| 0 <= j < bs.len() && bs[j].key == k);
                let c = choose|j: int| 0 <= j < bs.len() && bs[j].key == k;
                if c != i {
                    assert(bs[c].key != bs[i as int].key);
                }
            }
            return Some(i);
        }
        proof {
            assert(bs[i as int] == p@[i as int]@);
        }
        i = i + 1;
    }
    None
}

/// Position of the oldest bucket.
fn find_oldest(p: &Vec<PendingMessage>) -> (r: usize)
    requires
        p@.len() > 0,
    ensures
        r as int == oldest_index(views(p@)),
        r < p@.len(),
{
    let ghost bs = views(p@);
    let mut best: usize = 0;
    let mut j: usize = 1;
    while j < p.len()
        invariant
            1 <= j <= p@.len(),
            best < j,
            bs == views(p@),
            forall|q: int| 0 <= q < j ==> bs[best as int].first_seen <= #[trigger] bs[q].first_seen,
            forall|q: int| 0 <= q < best ==> bs[best as int].first_seen < #[trigger] bs[q].first_seen,
        decreases p.len() - j,
    {
        proof {
            assert(bs[j as int] == p@[j as int]@);
            assert(bs[best as int] == p@[best as int]@);
        }
        if p[j].first_seen < p[best].first_seen {
            best = j;
        }
        j = j + 1;
    }
    proof {
        assert(is_oldest(bs, best as int));
        let c = choose|i: int| is_oldest(bs, i);
        if c < best {
            assert(bs[best as int].first_seen < bs[c].first_seen);
        } else if best < c {
            assert(bs[c].first_seen < bs[best as int].first_seen);
        }
    }
    best
}


/// Every bucket kept by the staleness filter comes from `bs`.
proof fn lemma_staleness_from(bs: Seq<Bucket>, now: u128, stale: bool)
    ensures
        with_staleness(bs, now, stale).len() <= bs.len(),
        forall|i: int|
            0 <= i < with_staleness(bs, now, stale).len() ==> exists|j: int|
                0 <= j < bs.len() && #[trigger] with_staleness(bs, now, stale)[i] == bs[j],
        forall|i: int|
            0 <= i < with_staleness(bs, now, stale).len() ==> is_stale(
                #[trigger] with_staleness(bs, now, stale)[i],
                now,
            ) == stale,
    decreases bs.len(),
{
    if bs.len() > 0 {
        let d = bs.drop_last();
        lemma_staleness_from(d, now, stale);
        let w = with_staleness(d, now, stale);
        assert forall|i: int| 0 <= i < w.len() implies exists|j: int| 0 <= j < bs.len() && #[trigger] w[i] == bs[j] by {
            let j = choose|j: int| 0 <= j < d.len() && w[i] == d[j];
            assert(bs[j] == d[j]);
        }
        if is_stale(bs.last(), now) == stale {
            let w2 = w.push(bs.last());
            assert forall|i: int| 0 <= i < w2.len() implies exists|j: int| 0 <= j < bs.len() && #[trigger] w2[i] == bs[j] by {
                if i < w.len() {
                    assert(w2[i] == w[i]);
                } else {
                    assert(w2[i] == bs[bs.len() - 1]);
                }
            }
            assert forall|i: int| 0 <= i < w2.len() implies is_stale(#[trigger] w2[i], now) == stale by {
                if i < w.len() {
                    assert(w2[i] == w[i]);
                }
            }
        }
    }
}

/// The staleness filter keeps the buckets well formed.
proof fn lemma_staleness_wf(bs: Seq<Bucket>, now: u128, stale: bool)
    requires
        buckets_wf(bs),
    ensures
        buckets_wf(with_staleness(bs, now, stale)),
    decreases bs.len(),
{
    if bs.len() > 0 {
        let d = bs.drop_last();
        assert(buckets_wf(d)) by {
            assert forall|i: int, j: int| 0 <= i < d.len() && 0 <= j < d.len() && i != j implies (#[trigger] d[i]).key != (#[trigger] d[j]).key by {
                assert(d[i] == bs[i] && d[j] == bs[j]);
            }
            assert forall|i: int| 0 <= i < d.len() implies parked(#[trigger] d[i]) by {
                assert(d[i] == bs[i]);
            }
        }
        lemma_staleness_wf(d, now, stale);
        lemma_staleness_from(d, now, stale);
        lemma_staleness_from(bs, now, stale);
        let w = with_staleness(d, now, stale);
        if is_stale(bs.last(), now) == stale {
            let w2 = w.push(bs.last());
            assert forall|i: int, j: int| 0 <= i < w2.len() && 0 <= j < w2.len() && i != j implies (#[trigger] w2[i]).key != (#[trigger] w2[j]).key by {
                if i < w.len() && j < w.len() {
                    assert(w2[i] == w[i] && w2[j] == w[j]);
                } else if i < w.len() {
                    let q = choose|q: int| 0 <= q < d.len() && w[i] == d[q];
                    assert(w2[i] == bs[q]);
                    assert(w2[j] == bs[bs.len() - 1]);
                } else {
                    let q = choose|q: int| 0 <= q < d.len() && w[j] == d[q];
                    assert(w2[j] == bs[q]);
                    assert(w2[i] == bs[bs.len() - 1]);
                }
            }
            assert forall|i: int| 0 <= i < w2.len() implies parked(#[trigger] w2[i]) by {
                if i < w.len() {
                    assert(w2[i] == w[i]);
                }
            }
        }
    }
}

/// Before the timeout has elapsed since the epoch nothing can be stale.
proof fn lemma_nothing_stale_yet(bs: Seq<Bucket>, now: u128)
    requires
        now < REASSEMBLY_TIMEOUT,
    ensures
        with_staleness(bs, now, false) == bs,
        with_staleness(bs, now, true) == Seq::<Bucket>::empty(),
    decreases bs.len(),
{
    if bs.len() > 0 {
        lemma_nothing_stale_yet(bs.drop_last(), now);
        assert(bs.drop_last().push(bs.last()) =~= bs);
    }
}

/// Split the pending messages into fresh and stale ones at `now`.
fn split_stale(p: Vec<PendingMessage>, now: u128) -> (r: (Vec<PendingMessage>, Vec<PendingMessage>))
    ensures
        views(r.0@) == with_staleness(views(p@), now, false),
        views(r.1@) == with_staleness(views(p@), now, true),
{
    let ghost all = views(p@);
    let mut rest = p;
    let mut fresh: Vec<PendingMessage> = Vec::new();
    let mut stale: Vec<PendingMessage> = Vec::new();
    let ghost mut i: int = 0;
    proof {
        assert(views(rest@) =~= all.subrange(0, all.len() as int));
        assert(views(fresh@) =~= with_staleness(all.subrange(0, 0), now, false));
        assert(views(stale@) =~= with_staleness(all.subrange(0, 0), now, true));
    }
    while rest.len() > 0
        invariant
            0 <= i <= all.len(),
            views(rest@) == all.subrange(i, all.len() as int),
            views(fresh@) == with_staleness(all.subrange(0, i), now, false),
            views(stale@) == with_staleness(all.subrange(0, i), now, true),
        decreases rest@.len(),
    {
        let ghost before = rest@;
        let b = rest.remove(0);
        proof {
            lemma_views_remove(before, 0);
            assert(views(before)[0] == all.subrange(i, all.len() as int)[0]);
            assert(b@ == all[i]);
            assert(views(rest@) =~= all.subrange(i + 1, all.len() as int));
            assert(all.subrange(0, i + 1).drop_last() =~= all.subrange(0, i));
            assert(all.subrange(0, i + 1).last() == b@);
        }
        let st = now >= REASSEMBLY_TIMEOUT && b.first_seen < now - REASSEMBLY_TIMEOUT;
        let ghost bv = b@;
        if st {
            stale.push(b);
        } else {
            fresh.push(b);
        }
        proof {
            assert(views(fresh@) =~= with_staleness(all.subrange(0, i + 1), now, false));
            assert(views(stale@) =~= with_staleness(all.subrange(0, i + 1), now, true));
            i = i + 1;
        }
    }
    proof {
        assert(all.subrange(0, i) =~= all);
    }
    (fresh, stale)
}

/// Position of the first bucket in emission order.
fn min_bucket(rem: &Vec<PendingMessage>) -> (m: usize)
    requires
        rem@.len() > 0,
        buckets_wf(views(rem@)),
    ensures
        m < rem@.len(),
        forall|j: int| 0 <= j < rem@.len() && j != m ==> bucket_before(views(rem@)[m as int], #[trigger] views(rem@)[j]),
{
    let ghost bs = views(rem@);
    let mut best: usize = 0;
    let mut j: usize = 1;
    while j < rem.len()
        invariant
            1 <= j <= rem@.len(),
            best < j,
            bs == views(rem@),
            buckets_wf(bs),
            forall|q: int| 0 <= q < j && q != best ==> bucket_before(bs[best as int], #[trigger] bs[q]),
        decreases rem.len() - j,
    {
        proof {
            assert(bs[j as int] == rem@[j as int]@);
            assert(bs[best as int] == rem@[best as int]@);
        }
        if bucket_precedes(&rem[j], &rem[best]) {
            proof {
                assert forall|q: int| 0 <= q < j + 1 && q != j implies bucket_before(bs[j as int], #[trigger] bs[q]) by {
                    if q != best {
                        lemma_bucket_before_transitive(bs[j as int], bs[best as int], bs[q]);
                    }
                }
            }
            best = j;
        } else {
            proof {
                assert(bs[j as int].key != bs[best as int].key);
                lemma_bucket_before_total(bs[j as int], bs[best as int]);
            }
        }
        j = j + 1;
    }
    best
}

/// The partial reassemblies of the stale buckets, in emission order.
fn emit_in_order(stale: Vec<PendingMessage>) -> (r: Vec<AcarsMessage>)
    requires
        buckets_wf(views(stale@)),
    ensures
        emitted_in_order(r@, views(stale@)),
{
    let ghost st = views(stale@);
    let mut rem = stale;
    let mut out: Vec<AcarsMessage> = Vec::new();
    let ghost mut order: Seq<Bucket> = seq![];
    proof {
        lemma_empty_multiset(order);
        broadcast use vstd::multiset::group_multiset_axioms;
        assert(order.to_multiset().add(views(rem@).to_multiset()) =~= st.to_multiset());
    }
    while rem.len() > 0
        invariant
            buckets_wf(views(rem@)),
            order.to_multiset().add(views(rem@).to_multiset()) == st.to_multiset(),
            forall|i: int, j: int| 0 <= i < j < order.len() ==> bucket_before(#[trigger] order[i], #[trigger] order[j]),
            forall|i: int, q: int| 0 <= i < order.len() && 0 <= q < rem@.len() ==> bucket_before(#[trigger] order[i], #[trigger] views(rem@)[q]),
            out@.len() == order.len(),
            forall|i: int| 0 <= i < order.len() ==> merges(#[trigger] out@[i], sorted_by_block_id(order[i].blocks)),
        decreases rem@.len(),
    {
        let ghost before_rem = views(rem@);
        let ghost before_p = rem@;
        let m = min_bucket(&rem);
        let b = rem.remove(m);
        let ghost bv = b@;
        proof {
            lemma_views_remove(before_p, m as int);
            assert(bv == before_rem[m as int]);
            assert(views(rem@) =~= before_rem.remove(m as int));
            assert(bv.blocks.len() > 0);
        }
        let merged = match combine_partial(b.blocks) {
            Some(x) => x,
            None => {
                proof {
                    assert(false);
                }
                return out;
            },
        };
        out.push(merged);
        proof {
            let old_order = order;
            order = order.push(bv);
            lemma_move_one(old_order, before_rem, m as int);
            let nr = views(rem@);
            assert forall|i: int, q: int| 0 <= i < order.len() && 0 <= q < nr.len() implies bucket_before(#[trigger] order[i], #[trigger] nr[q]) by {
                let q0 = if q < m { q } else { q + 1 };
                assert(nr[q] == before_rem[q0]);
                if i < old_order.len() {
                    assert(order[i] == old_order[i]);
                } else {
                    assert(order[i] == bv);
                }
            }
            assert forall|i: int, j: int| 0 <= i < j < order.len() implies bucket_before(#[trigger] order[i], #[trigger] order[j]) by {
                if j < old_order.len() {
                    assert(order[i] == old_order[i] && order[j] == old_order[j]);
                } else {
                    assert(order[i] == old_order[i]);
                    assert(order[j] == before_rem[m as int]);
                }
            }
            assert forall|i: int| 0 <= i < order.len() implies merges(#[trigger] out@[i], sorted_by_block_id(order[i].blocks)) by {
                if i < old_order.len() {
                    assert(order[i] == old_order[i]);
                }
            }
            assert(buckets_wf(nr)) by {
                assert forall|i: int, j: int| 0 <= i < nr.len() && 0 <= j < nr.len() && i != j implies (#[trigger] nr[i]).key != (#[trigger] nr[j]).key by {
                    let i0 = if i < m { i } else { i + 1 };
                    let j0 = if j < m { j } else { j + 1 };
                    assert(nr[i] == before_rem[i0] && nr[j] == before_rem[j0]);
                }
                assert forall|i: int| 0 <= i < nr.len() implies parked(#[trigger] nr[i]) by {
                    let i0 = if i < m { i } else { i + 1 };
                    assert(nr[i] == before_rem[i0]);
                }
            }
        }
    }
    proof {
        assert(views(rem@) =~= Seq::<Bucket>::empty());
        broadcast use vstd::multiset::group_multiset_axioms;
        assert(order.to_multiset() =~= st.to_multiset());
        assert(emitted_in_order(out@, st));
    }
    out
}

/// Emit the buckets older than the timeout at `now` as partial
/// reassemblies, keeping the others.
fn sweep(p: &mut Vec<PendingMessage>, now: u128) -> (r: Vec<AcarsMessage>)
    requires
        buckets_wf(views(old(p)@)),
    ensures
        views(final(p)@) == with_staleness(views(old(p)@), now, false),
        buckets_wf(views(final(p)@)),
        emitted_in_order(r@, with_staleness(views(old(p)@), now, true)),
{
    if now < REASSEMBLY_TIMEOUT {
        proof {
            lemma_nothing_stale_yet(views(p@), now);
            let e = Seq::<Bucket>::empty();
            assert(e.to_multiset() =~= with_staleness(views(p@), now, true).to_multiset());
            assert(emitted_in_order(Seq::<AcarsMessage>::empty(), with_staleness(views(p@), now, true)));
        }
        return Vec::new();
    }
    let mut taken: Vec<PendingMessage> = Vec::new();
    std::mem::swap(&mut taken, p);
    let ghost b0 = views(taken@);
    let (fresh, stale) = split_stale(taken, now);
    proof {
        lemma_staleness_wf(b0, now, false);
        lemma_staleness_wf(b0, now, true);
    }
    *p = fresh;
    emit_in_order(stale)
}


/// What an observation does after its timeout sweep, given the buckets
/// `fresh` that survived the sweep: the buckets `after` it leaves pending and
/// the messages `tail` it emits for `msg`.
///
/// - No key: `msg` passes through.
/// - ETX with a pending bucket for its key: the bucket's blocks and `msg`,
///   sorted by block id, are merged into one message and the bucket closes.
/// - ETX without one: `msg` passes through.
/// - ETB with a pending bucket for its key: `msg` joins that bucket.
/// - ETB without one: a new bucket opens (see [`admitted`]).
pub open spec fn observed_tail(
    fresh: Seq<Bucket>,
    msg: AcarsMessage,
    now: u128,
    after: Seq<Bucket>,
    tail: Seq<AcarsMessage>,
) -> bool {
    match key_of(msg) {
        None => after == fresh && tail == seq![msg],
        Some(k) => match key_index(fresh, k) {
            Some(i) => if msg.end_of_message {
                &&& after == fresh.remove(i)
                &&& tail.len() == 1
                &&& closes(tail[0], sorted_by_block_id(fresh[i].blocks.push(msg)), msg)
            } else {
                &&& after == fresh.update(
                    i,
                    Bucket { key: fresh[i].key, first_seen: fresh[i].first_seen, blocks: fresh[i].blocks.push(msg) },
                )
                &&& tail.len() == 0
            },
            None => if msg.end_of_message {
                after == fresh && tail == seq![msg]
            } else {
                after == admitted(fresh, k, msg, now) && tail.len() == 0
            },
        },
    }
}

/// One observation of `msg` at `now`, from pending buckets `before` to
/// `after`, emitting `r`: first the partial reassemblies of the buckets that
/// timed out (in [`bucket_before`] order), then what `msg` itself produces.
pub open spec fn observed(
    before: Seq<Bucket>,
    msg: AcarsMessage,
    now: u128,
    after: Seq<Bucket>,
    r: Seq<AcarsMessage>,
) -> bool {
    let stale = with_staleness(before, now, true);
    let n = stale.len() as int;
    &&& n <= r.len()
    &&& emitted_in_order(r.subrange(0, n), stale)
    &&& observed_tail(with_staleness(before, now, false), msg, now, after, r.subrange(n, r.len() as int))
}

/// The reassembly key of a message, as owned strings.
fn build_key(msg: &AcarsMessage) -> (r: Option<(String, String)>)
    ensures
        match key_of(*msg) {
            None => r is None,
            Some(k) => r matches Some(p) && p.0@ == k.aircraft && p.1@ == k.message_no,
        },
{
    match &msg.message_no {
        None => None,
        Some(n) => {
            if msg.aircraft.as_str().is_empty() || n.as_str().is_empty() {
                None
            } else {
                Some((msg.aircraft.clone(), n.clone()))
            }
        },
    }
}

/// Per-channel multi-block reassembler.
pub struct MessageAssembler {
    pending: Vec<PendingMessage>,
}

impl MessageAssembler {
    #[verifier::type_invariant]
    spec fn well_formed(self) -> bool {
        buckets_wf(views(self.pending@))
    }

    /// The pending buckets, oldest bucket first.
    pub closed spec fn buckets(self) -> Seq<Bucket> {
        views(self.pending@)
    }

    /// Create an empty assembler.
    pub fn new() -> (r: MessageAssembler)
        ensures
            r.buckets() == Seq::<Bucket>::empty(),
    {
        let r = MessageAssembler { pending: Vec::new() };
        proof {
            assert(views(r.pending@) =~= Seq::<Bucket>::empty());
        }
        r
    }

    /// The pending buckets are well formed: distinct keys, no empty bucket,
    /// at most [`MAX_PENDING_MESSAGES`] of them.
    pub fn pending_count(&self) -> (r: usize)
        ensures
            r == self.buckets().len(),
            buckets_wf(self.buckets()),
    {
        proof {
            use_type_invariant(self);
        }
        self.pending.len()
    }

    /// Observe one decoded frame at `now` (nanoseconds since the Unix epoch)
    /// and return the messages that are ready: timed-out partial
    /// reassemblies first, then the pass-through or reassembled message, if
    /// any.
    pub fn observe(&mut self, msg: AcarsMessage, now: u128) -> (r: Vec<AcarsMessage>)
        ensures
            observed(old(self).buckets(), msg, now, final(self).buckets(), r@),
            buckets_wf(final(self).buckets()),
            forall|i: int|
                0 <= i < with_staleness(old(self).buckets(), now, true).len() ==> !(
                #[trigger] r@[i]).end_of_message,
            key_of(msg) matches Some(k) ==> (key_index(final(self).buckets(), k) is None
                <==> msg.end_of_message),
    {
        proof {
            use_type_invariant(&*self);
        }
        let ghost before = views(self.pending@);
        let mut p: Vec<PendingMessage> = Vec::new();
        std::mem::swap(&mut p, &mut self.pending);
        let mut out = sweep(&mut p, now);
        let ghost swept = out@;
        let ghost fresh = views(p@);
        let ghost n = swept.len() as int;
        proof {
            lemma_emitted_len(swept, with_staleness(before, now, true));
            lemma_staleness_wf(before, now, true);
            lemma_emitted_not_final(swept, with_staleness(before, now, true));
        }
        match build_key(&msg) {
            None => {
                out.push(msg);
                proof {
                    assert(out@.subrange(0, n) =~= swept);
                    assert(out@.subrange(n, out@.len() as int) =~= seq![msg]);
                }
            },
            Some((ac, no)) => {
                let ghost k = BucketKey { aircraft: ac@, message_no: no@ };
                proof {
                    assert(key_of(msg) == Some(k));
                }
                let found = find_bucket(&p, &ac, &no);
                if msg.end_of_message {
                    match found {
                        Some(i) => {
                            let ghost bp = p@;
                            let b = p.remove(i);
                            proof {
                                lemma_views_remove(bp, i as int);
                                assert(b@ == fresh[i as int]);
                                lemma_wf_remove(fresh, i as int);
                                lemma_key_gone_after_remove(fresh, i as int, k);
                            }
                            let ghost bb = b@;
                            let merged = combine(b.blocks, msg);
                            out.push(merged);
                            proof {
                                assert(bb.blocks == b.blocks@);
                                assert(out@.subrange(0, n) =~= swept);
                                assert(out@.subrange(n, out@.len() as int) =~= seq![merged]);
                            }
                        },
                        None => {
                            out.push(msg);
                            proof {
                                assert(out@.subrange(0, n) =~= swept);
                                assert(out@.subrange(n, out@.len() as int) =~= seq![msg]);
                            }
                        },
                    }
                } else {
                    match found {
                        Some(i) => {
                            let ghost bp = p@;
                            let mut b = p.remove(i);
                            proof {
                                lemma_views_remove(bp, i as int);
                                assert(b@ == fresh[i as int]);
                            }
                            b.blocks.push(msg);
                            let ghost nb = b@;
                            let ghost mid = p@;
                            p.insert(i, b);
                            proof {
                                assert(views(p@) =~= fresh.update(i as int, nb)) by {
                                    assert forall|j: int| 0 <= j < fresh.len() implies #[trigger] views(p@)[j] == fresh.update(i as int, nb)[j] by {
                                        if j < i {
                                            assert(p@[j] == mid[j] && mid[j] == bp[j]);
                                        } else if j > i {
                                            assert(p@[j] == mid[j - 1] && mid[j - 1] == bp[j]);
                                        }
                                    }
                                }
                                lemma_wf_update(fresh, i as int, nb);
                                assert(views(p@)[i as int].key == k);
                                assert(nb =~= Bucket {
                                    key: fresh[i as int].key,
                                    first_seen: fresh[i as int].first_seen,
                                    blocks: fresh[i as int].blocks.push(msg),
                                });
                                assert(out@.subrange(0, n) =~= swept);
                                assert(out@.subrange(n, out@.len() as int) =~= Seq::<AcarsMessage>::empty());
                            }
                        },
                        None => {
                            let ghost base = fresh;
                            if p.len() >= MAX_PENDING_MESSAGES {
                                let o = find_oldest(&p);
                                let ghost bp = p@;
                                p.remove(o);
                                proof {
                                    lemma_views_remove(bp, o as int);
                                    lemma_wf_remove(fresh, o as int);
                                    base = fresh.remove(o as int);
                                    lemma_no_key_after_remove(fresh, o as int, k);
                                }
                            }
                            let mut blocks: Vec<AcarsMessage> = Vec::new();
                            blocks.push(msg);
                            let nb = PendingMessage { aircraft: ac, message_no: no, first_seen: now, blocks };
                            let ghost nbv = nb@;
                            let ghost bp = p@;
                            p.push(nb);
                            proof {
                                assert(views(p@) =~= base.push(nbv)) by {
                                    assert forall|j: int| 0 <= j < base.len() implies #[trigger] views(p@)[j] == base[j] by {
                                        assert(p@[j] == bp[j]);
                                    }
                                }
                                assert(nbv =~= Bucket { key: k, first_seen: now, blocks: seq![msg] });
                                lemma_wf_admit(base, nbv);
                                assert(views(p@)[base.len() as int].key == k);
                                assert(out@.subrange(0, n) =~= swept);
                                assert(out@.subrange(n, out@.len() as int) =~= Seq::<AcarsMessage>::empty());
                            }
                        },
                    }
                }
            },
        }
        self.pending = p;
        out
    }

    /// Emit every pending bucket as a partial reassembly (end of stream),
    /// in bucket order, and empty the assembler.
    pub fn flush(&mut self) -> (r: Vec<AcarsMessage>)
        ensures
            final(self).buckets() == Seq::<Bucket>::empty(),
            r@.len() == old(self).buckets().len(),
            forall|i: int|
                0 <= i < r@.len() ==> merges(
                    #[trigger] r@[i],
                    sorted_by_block_id(old(self).buckets()[i].blocks),
                ),
            forall|i: int| 0 <= i < r@.len() ==> !(#[trigger] r@[i]).end_of_message,
    {
        proof {
            use_type_invariant(&*self);
        }
        let ghost bs = views(self.pending@);
        let mut p: Vec<PendingMessage> = Vec::new();
        std::mem::swap(&mut p, &mut self.pending);
        proof {
            assert(views(self.pending@) =~= Seq::<Bucket>::empty());
        }
        let mut out: Vec<AcarsMessage> = Vec::new();
        let ghost mut i: int = 0;
        while p.len() > 0
            invariant
                0 <= i <= bs.len(),
                views(p@) == bs.subrange(i, bs.len() as int),
                buckets_wf(bs),
                out@.len() == i,
                forall|j: int| 0 <= j < i ==> merges(#[trigger] out@[j], sorted_by_block_id(bs[j].blocks)),
                forall|j: int| 0 <= j < i ==> !(#[trigger] out@[j]).end_of_message,
            decreases p@.len(),
        {
            let ghost bp = p@;
            let b = p.remove(0);
            proof {
                lemma_views_remove(bp, 0);
                assert(views(bp)[0] == bs.subrange(i, bs.len() as int)[0]);
                assert(b@ == bs[i]);
                assert(views(p@) =~= bs.subrange(i + 1, bs.len() as int));
            }
            let ghost bb = b@;
            match combine_partial(b.blocks) {
                Some(m) => {
                    proof {
                        assert(parked(bs[i]));
                        lemma_partial_not_final(m, bb);
                    }
                    out.push(m);
                },
                None => {
                    proof {
                        assert(bb.blocks.len() > 0);
                    }
                },
            }
            proof {
                i = i + 1;
            }
        }
        out
    }

    /// Emit the buckets older than [`REASSEMBLY_TIMEOUT`] at `now` as partial
    /// reassemblies, in [`bucket_before`] order; fresher buckets stay.
    pub fn drain_timeouts(&mut self, now: u128) -> (r: Vec<AcarsMessage>)
        ensures
            final(self).buckets() == with_staleness(old(self).buckets(), now, false),
            emitted_in_order(r@, with_staleness(old(self).buckets(), now, true)),
            forall|i: int| 0 <= i < r@.len() ==> !(#[trigger] r@[i]).end_of_message,
            buckets_wf(final(self).buckets()),
    {
        proof {
            use_type_invariant(&*self);
        }
        let mut p: Vec<PendingMessage> = Vec::new();
        std::mem::swap(&mut p, &mut self.pending);
        let ghost before = views(p@);
        let r = sweep(&mut p, now);
        proof {
            lemma_staleness_wf(before, now, true);
            lemma_emitted_not_final(r@, with_staleness(before, now, true));
        }
        self.pending = p;
        r
    }
}

/// The blocks of a given block id come from `s`.
proof fn lemma_with_block_id_members(s: Seq<AcarsMessage>, k: int)
    ensures
        forall|x: AcarsMessage| #[trigger] with_block_id(s, k).contains(x) ==> s.contains(x),
    decreases s.len(),
{
    if s.len() > 0 {
        let d = s.drop_last();
        lemma_with_block_id_members(d, k);
        assert forall|x: AcarsMessage| with_block_id(s, k).contains(x) implies s.contains(x) by {
            let w = with_block_id(d, k);
            let j = choose|j: int| 0 <= j < with_block_id(s, k).len() && with_block_id(s, k)[j] == x;
            if s.last().block_id as int == k && j == w.len() {
                assert(s[s.len() - 1] == x);
            } else {
                assert(w[j] == x);
                assert(w.contains(x));
                let q = choose|q: int| 0 <= q < d.len() && d[q] == x;
                assert(s[q] == x);
            }
        }
    }
}

/// The blocks grouped below a block id come from `s`.
proof fn lemma_by_block_id_below_members(s: Seq<AcarsMessage>, k: nat)
    ensures
        forall|x: AcarsMessage| #[trigger] by_block_id_below(s, k).contains(x) ==> s.contains(x),
    decreases k,
{
    if k > 0 {
        lemma_by_block_id_below_members(s, (k - 1) as nat);
        lemma_with_block_id_members(s, k - 1);
        let a = by_block_id_below(s, (k - 1) as nat);
        let b = with_block_id(s, k - 1);
        assert forall|x: AcarsMessage| by_block_id_below(s, k).contains(x) implies s.contains(x) by {
            let j = choose|j: int| 0 <= j < (a + b).len() && (a + b)[j] == x;
            if j < a.len() {
                assert(a[j] == x);
                assert(a.contains(x));
            } else {
                assert(b[j - a.len()] == x);
                assert(b.contains(x));
            }
        }
    }
}

/// A partial reassembly of a bucket of ETB blocks is not final.
proof fn lemma_partial_not_final(m: AcarsMessage, b: Bucket)
    requires
        parked(b),
        merges(m, sorted_by_block_id(b.blocks)),
    ensures
        !m.end_of_message,
{
    lemma_by_block_id_below_members(b.blocks, 256);
    lemma_sorted_len(b.blocks);
    let t = sorted_by_block_id(b.blocks);
    assert(t.contains(t[0]));
    let j = choose|j: int| 0 <= j < b.blocks.len() && b.blocks[j] == t[0];
    assert(!b.blocks[j].end_of_message);
}

/// Every partial reassembly emitted for buckets of ETB blocks is not final.
proof fn lemma_emitted_not_final(r: Seq<AcarsMessage>, st: Seq<Bucket>)
    requires
        emitted_in_order(r, st),
        forall|i: int| 0 <= i < st.len() ==> parked(#[trigger] st[i]),
    ensures
        forall|i: int| 0 <= i < r.len() ==> !(#[trigger] r[i]).end_of_message,
{
    let order = choose|order: Seq<Bucket>|
        {
            &&& order.to_multiset() == st.to_multiset()
            &&& forall|i: int, j: int| 0 <= i < j < order.len() ==> bucket_before(#[trigger] order[i], #[trigger] order[j])
            &&& r.len() == order.len()
            &&& forall|i: int| 0 <= i < order.len() ==> merges(#[trigger] r[i], sorted_by_block_id(order[i].blocks))
        };
    assert forall|i: int| 0 <= i < r.len() implies !(#[trigger] r[i]).end_of_message by {
        vstd::seq_lib::to_multiset_contains(order, order[i]);
        vstd::seq_lib::to_multiset_contains(st, order[i]);
        assert(order.contains(order[i]));
        let q = choose|q: int| 0 <= q < st.len() && st[q] == order[i];
        assert(parked(st[q]));
        lemma_partial_not_final(r[i], order[i]);
    }
}

/// One emitted message per timed-out bucket.
proof fn lemma_emitted_len(r: Seq<AcarsMessage>, st: Seq<Bucket>)
    requires
        emitted_in_order(r, st),
    ensures
        r.len() == st.len(),
{
    let order = choose|order: Seq<Bucket>|
        {
            &&& order.to_multiset() == st.to_multiset()
            &&& forall|i: int, j: int| 0 <= i < j < order.len() ==> bucket_before(#[trigger] order[i], #[trigger] order[j])
            &&& r.len() == order.len()
            &&& forall|i: int| 0 <= i < order.len() ==> merges(#[trigger] r[i], sorted_by_block_id(order[i].blocks))
        };
    vstd::seq_lib::to_multiset_len(order);
    vstd::seq_lib::to_multiset_len(st);
}

/// Removing a bucket keeps the buckets well formed.
proof fn lemma_wf_remove(bs: Seq<Bucket>, m: int)
    requires
        buckets_wf(bs),
        0 <= m < bs.len(),
    ensures
        buckets_wf(bs.remove(m)),
{
    let nr = bs.remove(m);
    assert forall|i: int, j: int| 0 <= i < nr.len() && 0 <= j < nr.len() && i != j implies (#[trigger] nr[i]).key != (#[trigger] nr[j]).key by {
        let i0 = if i < m { i } else { i + 1 };
        let j0 = if j < m { j } else { j + 1 };
        assert(nr[i] == bs[i0] && nr[j] == bs[j0]);
    }
    assert forall|i: int| 0 <= i < nr.len() implies parked(#[trigger] nr[i]) by {
        let i0 = if i < m { i } else { i + 1 };
        assert(nr[i] == bs[i0]);
    }
}

/// Replacing a bucket by one with the same key and some blocks keeps the
/// buckets well formed.
proof fn lemma_wf_update(bs: Seq<Bucket>, m: int, b: Bucket)
    requires
        buckets_wf(bs),
        0 <= m < bs.len(),
        b.key == bs[m].key,
        parked(b),
    ensures
        buckets_wf(bs.update(m, b)),
{
    let nr = bs.update(m, b);
    assert forall|i: int, j: int| 0 <= i < nr.len() && 0 <= j < nr.len() && i != j implies (#[trigger] nr[i]).key != (#[trigger] nr[j]).key by {
        assert(nr[i].key == bs[i].key && nr[j].key == bs[j].key);
    }
}

/// Removing the bucket of a key leaves no bucket with that key.
proof fn lemma_key_gone_after_remove(bs: Seq<Bucket>, m: int, k: BucketKey)
    requires
        buckets_wf(bs),
        key_index(bs, k) == Some(m),
    ensures
        key_index(bs.remove(m), k) is None,
{
    let nr = bs.remove(m);
    assert(0 <= m < bs.len() && bs[m].key == k);
    if exists|i: int| 0 <= i < nr.len() && nr[i].key == k {
        let i = choose|i: int| 0 <= i < nr.len() && nr[i].key == k;
        let i0 = if i < m { i } else { i + 1 };
        assert(nr[i] == bs[i0]);
    }
}

/// After removing a bucket, a key held by no bucket is still held by none.
proof fn lemma_no_key_after_remove(bs: Seq<Bucket>, m: int, k: BucketKey)
    requires
        0 <= m < bs.len(),
        key_index(bs, k) is None,
    ensures
        key_index(bs.remove(m), k) is None,
{
    let nr = bs.remove(m);
    if exists|i: int| 0 <= i < nr.len() && nr[i].key == k {
        let i = choose|i: int| 0 <= i < nr.len() && nr[i].key == k;
        let i0 = if i < m { i } else { i + 1 };
        assert(nr[i] == bs[i0]);
    }
}

/// Appending a bucket with a new key below the cap keeps the buckets well
/// formed.
proof fn lemma_wf_admit(bs: Seq<Bucket>, b: Bucket)
    requires
        buckets_wf(bs),
        bs.len() < MAX_PENDING_MESSAGES,
        key_index(bs, b.key) is None,
        parked(b),
    ensures
        buckets_wf(bs.push(b)),
{
    let nr = bs.push(b);
    assert forall|i: int, j: int| 0 <= i < nr.len() && 0 <= j < nr.len() && i != j implies (#[trigger] nr[i]).key != (#[trigger] nr[j]).key by {
        if i < bs.len() && j < bs.len() {
            assert(nr[i] == bs[i] && nr[j] == bs[j]);
        } else if i < bs.len() {
            assert(nr[i] == bs[i]);
        } else {
            assert(nr[j] == bs[j]);
        }
    }
    assert forall|i: int| 0 <= i < nr.len() implies parked(#[trigger] nr[i]) by {
        if i < bs.len() {
            assert(nr[i] == bs[i]);
        }
    }
}


/// Every block of `s` appears among its blocks with its own block id.
proof fn lemma_with_block_id_has(s: Seq<AcarsMessage>, x: AcarsMessage)
    requires
        s.contains(x),
    ensures
        with_block_id(s, x.block_id as int).contains(x),
    decreases s.len(),
{
    let d = s.drop_last();
    if s.last() == x {
        assert(with_block_id(s, x.block_id as int).last() == x);
    } else {
        let j = choose|j: int| 0 <= j < s.len() && s[j] == x;
        assert(j < d.len());
        assert(d[j] == x);
        lemma_with_block_id_has(d, x);
        let w = with_block_id(d, x.block_id as int);
        let i = choose|i: int| 0 <= i < w.len() && w[i] == x;
        if s.last().block_id as int == x.block_id as int {
            assert(w.push(s.last())[i] == x);
        }
    }
}

/// The blocks with block id `k` all have that id.
proof fn lemma_with_block_id_ids(s: Seq<AcarsMessage>, k: int)
    ensures
        forall|i: int| 0 <= i < with_block_id(s, k).len() ==> (#[trigger] with_block_id(s, k)[i]).block_id as int == k,
    decreases s.len(),
{
    if s.len() > 0 {
        lemma_with_block_id_ids(s.drop_last(), k);
    }
}

/// The blocks grouped below block id `k` have ids below `k`, in
/// non-decreasing order, and include every block of `s` with an id below `k`.
proof fn lemma_by_block_id_below_order(s: Seq<AcarsMessage>, k: nat)
    ensures
        forall|i: int| 0 <= i < by_block_id_below(s, k).len() ==> ((#[trigger] by_block_id_below(s, k)[i]).block_id as int) < k,
        forall|i: int, j: int|
            0 <= i < j < by_block_id_below(s, k).len() ==> (#[trigger] by_block_id_below(s, k)[i]).block_id
                <= (#[trigger] by_block_id_below(s, k)[j]).block_id,
        forall|x: AcarsMessage| s.contains(x) && (x.block_id as int) < k ==> #[trigger] by_block_id_below(s, k).contains(x),
    decreases k,
{
    if k > 0 {
        let k1 = (k - 1) as nat;
        lemma_by_block_id_below_order(s, k1);
        lemma_with_block_id_ids(s, k1 as int);
        let a = by_block_id_below(s, k1);
        let b = with_block_id(s, k1 as int);
        let c = by_block_id_below(s, k);
        assert(c == a + b);
        assert forall|i: int| 0 <= i < c.len() implies ((#[trigger] c[i]).block_id as int) < k by {
            if i >= a.len() {
                assert(c[i] == b[i - a.len()]);
            } else {
                assert(c[i] == a[i]);
            }
        }
        assert forall|i: int, j: int| 0 <= i < j < c.len() implies (#[trigger] c[i]).block_id <= (#[trigger] c[j]).block_id by {
            if j < a.len() {
                assert(c[i] == a[i] && c[j] == a[j]);
            } else if i < a.len() {
                assert(c[i] == a[i] && c[j] == b[j - a.len()]);
            } else {
                assert(c[i] == b[i - a.len()] && c[j] == b[j - a.len()]);
            }
        }
        assert forall|x: AcarsMessage| s.contains(x) && (x.block_id as int) < k implies #[trigger] c.contains(x) by {
            if (x.block_id as int) < k1 {
                assert(a.contains(x));
                let i = choose|i: int| 0 <= i < a.len() && a[i] == x;
                assert(c[i] == x);
            } else {
                lemma_with_block_id_has(s, x);
                let i = choose|i: int| 0 <= i < b.len() && b[i] == x;
                assert(c[a.len() + i] == x);
            }
        }
    }
}

/// Groups of a block id that no block of `s` carries are empty.
proof fn lemma_with_block_id_absent(s: Seq<AcarsMessage>, k: int)
    requires
        forall|i: int| 0 <= i < s.len() ==> (#[trigger] s[i]).block_id as int != k,
    ensures
        with_block_id(s, k) == Seq::<AcarsMessage>::empty(),
    decreases s.len(),
{
    if s.len() > 0 {
        let d = s.drop_last();
        assert forall|i: int| 0 <= i < d.len() implies (#[trigger] d[i]).block_id as int != k by {
            assert(d[i] == s[i]);
        }
        lemma_with_block_id_absent(d, k);
        assert(s.last() == s[s.len() - 1]);
    }
}

/// A block with a higher id than all others sorts last.
proof fn lemma_sorted_push_highest(s: Seq<AcarsMessage>, x: AcarsMessage, k: nat)
    requires
        forall|i: int| 0 <= i < s.len() ==> (#[trigger] s[i]).block_id < x.block_id,
        k <= 256,
    ensures
        by_block_id_below(s.push(x), k) == (if k <= x.block_id {
            by_block_id_below(s, k)
        } else {
            by_block_id_below(s, k).push(x)
        }),
    decreases k,
{
    let sx = s.push(x);
    if k > 0 {
        let k1 = (k - 1) as nat;
        lemma_sorted_push_highest(s, x, k1);
        assert(sx.drop_last() =~= s);
        assert(sx.last() == x);
        if k1 < x.block_id {
            assert(with_block_id(sx, k1 as int) == with_block_id(s, k1 as int));
        } else if k1 == x.block_id {
            lemma_with_block_id_absent(s, k1 as int);
            assert(with_block_id(sx, k1 as int) =~= seq![x]);
            assert(by_block_id_below(s, k) =~= by_block_id_below(s, k1));
            assert(by_block_id_below(sx, k) =~= by_block_id_below(s, k1).push(x));
        } else {
            lemma_with_block_id_absent(s, k1 as int);
            assert(with_block_id(sx, k1 as int) == with_block_id(s, k1 as int));
            assert(by_block_id_below(s, k) =~= by_block_id_below(s, k1));
            assert(by_block_id_below(sx, k) =~= by_block_id_below(sx, k1));
        }
    } else {
        assert(by_block_id_below(sx, 0) == by_block_id_below(s, 0));
    }
}

/// Out-of-order arrival: when a message closes with an ETX whose block id
/// is above those of its parked ETB blocks, whatever order those blocks
/// arrived in, the text is theirs in non-decreasing block-id order (the
/// same blocks, each once) followed by the ETX's text.
pub proof fn lemma_closing_text_in_block_order(r: AcarsMessage, blocks: Seq<AcarsMessage>, etx: AcarsMessage)
    requires
        closes(r, sorted_by_block_id(blocks.push(etx)), etx),
        forall|i: int| 0 <= i < blocks.len() ==> (#[trigger] blocks[i]).block_id < etx.block_id,
    ensures
        exists|t: Seq<AcarsMessage>|
            {
                &&& t.len() == blocks.len()
                &&& forall|x: AcarsMessage| t.contains(x) <==> blocks.contains(x)
                &&& forall|i: int, j: int| 0 <= i < j < t.len() ==> (#[trigger] t[i]).block_id <= (#[trigger] t[j]).block_id
                &&& r.text@ == joined_text(t) + etx.text@
            },
{
    let t = sorted_by_block_id(blocks);
    lemma_sorted_push_highest(blocks, etx, 256);
    lemma_sorted_len(blocks);
    lemma_by_block_id_below_order(blocks, 256);
    lemma_by_block_id_below_members(blocks, 256);
    assert(t.push(etx).drop_last() =~= t);
    assert(joined_text(t.push(etx)) == joined_text(t) + etx.text@);
    assert forall|x: AcarsMessage| t.contains(x) <==> blocks.contains(x) by {
        if blocks.contains(x) {
            assert((x.block_id as int) < 256);
        }
    }
}


/// The staleness filter on a single bucket.
proof fn lemma_staleness_single(b: Bucket, now: u128)
    ensures
        with_staleness(seq![b], now, true) == (if is_stale(b, now) { seq![b] } else { Seq::<Bucket>::empty() }),
        with_staleness(seq![b], now, false) == (if is_stale(b, now) { Seq::<Bucket>::empty() } else { seq![b] }),
{
    let s = seq![b];
    assert(s.drop_last() =~= Seq::<Bucket>::empty());
    assert(s.last() == b);
    assert(with_staleness(Seq::<Bucket>::empty(), now, true) == Seq::<Bucket>::empty());
    assert(with_staleness(Seq::<Bucket>::empty(), now, false) == Seq::<Bucket>::empty());
    assert(Seq::<Bucket>::empty().push(b) =~= s);
}

/// The only bucket of a single-bucket list is found by its key.
proof fn lemma_key_index_single(b: Bucket)
    ensures
        key_index(seq![b], b.key) == Some(0int),
{
    let s = seq![b];
    assert(s[0] == b);
    assert(exists|i: int| 0 <= i < s.len() && s[i].key == b.key);
}

/// Nothing timed out: the observation emits no partial reassembly first.
proof fn lemma_nothing_swept(before: Seq<Bucket>, msg: AcarsMessage, now: u128, after: Seq<Bucket>, r: Seq<AcarsMessage>)
    requires
        observed(before, msg, now, after, r),
        with_staleness(before, now, true) == Seq::<Bucket>::empty(),
    ensures
        observed_tail(with_staleness(before, now, false), msg, now, after, r),
{
    assert(r.subrange(0, r.len() as int) =~= r);
}

/// ETB blocks of one message observed one after the other, within the
/// timeout of the first, by an assembler with nothing pending: after the
/// `i`-th, one bucket holds them all in arrival order and nothing was
/// emitted.
proof fn lemma_blocks_parked(
    states: Seq<Seq<Bucket>>,
    etbs: Seq<AcarsMessage>,
    times: Seq<u128>,
    outs: Seq<Seq<AcarsMessage>>,
    k: BucketKey,
    horizon: u128,
    i: int,
)
    requires
        1 <= i <= etbs.len(),
        times.len() == etbs.len(),
        states.len() == etbs.len() + 1,
        outs.len() == etbs.len(),
        states[0] == Seq::<Bucket>::empty(),
        forall|j: int| 0 <= j < etbs.len() ==> observed(states[j], #[trigger] etbs[j], times[j], states[j + 1], outs[j]),
        forall|j: int| 0 <= j < etbs.len() ==> key_of(#[trigger] etbs[j]) == Some(k) && !etbs[j].end_of_message,
        forall|j: int| 0 <= j < etbs.len() ==> times[0] <= #[trigger] times[j] <= horizon,
        horizon <= times[0] + REASSEMBLY_TIMEOUT,
    ensures
        states[i] == seq![Bucket { key: k, first_seen: times[0], blocks: etbs.subrange(0, i) }],
        forall|j: int| 0 <= j < i ==> (#[trigger] outs[j]).len() == 0,
    decreases i,
{
    let e = etbs[i - 1];
    let t = times[i - 1];
    assert(observed(states[i - 1], e, t, states[i], outs[i - 1]));
    assert(key_of(e) == Some(k) && !e.end_of_message);
    if i == 1 {
        assert(with_staleness(Seq::<Bucket>::empty(), t, true) == Seq::<Bucket>::empty());
        assert(with_staleness(Seq::<Bucket>::empty(), t, false) == Seq::<Bucket>::empty());
        lemma_nothing_swept(states[0], e, t, states[1], outs[0]);
        assert(key_index(Seq::<Bucket>::empty(), k) is None);
        assert(etbs.subrange(0, 1) =~= seq![e]);
        assert(states[1] =~= seq![Bucket { key: k, first_seen: times[0], blocks: etbs.subrange(0, 1) }]);
    } else {
        lemma_blocks_parked(states, etbs, times, outs, k, horizon, i - 1);
        let b = Bucket { key: k, first_seen: times[0], blocks: etbs.subrange(0, i - 1) };
        assert(times[0] <= t <= horizon);
        assert(!is_stale(b, t));
        lemma_staleness_single(b, t);
        lemma_nothing_swept(states[i - 1], e, t, states[i], outs[i - 1]);
        lemma_key_index_single(b);
        assert(etbs.subrange(0, i - 1).push(e) =~= etbs.subrange(0, i));
        assert(states[i] =~= seq![Bucket { key: k, first_seen: times[0], blocks: etbs.subrange(0, i) }]);
    }
}

/// Out-of-order reassembly over a run of calls: ETB blocks of one message
/// observed in any order, within the timeout of the first, by an assembler
/// with nothing pending, then their ETX (with a higher block id than all of
/// them) give exactly one message: the ETB texts in non-decreasing block-id
/// order followed by the ETX text, the ETX's block id, final, counting all
/// blocks; nothing is emitted before, and nothing stays pending.
pub proof fn lemma_out_of_order_reassembly(
    states: Seq<Seq<Bucket>>,
    etbs: Seq<AcarsMessage>,
    times: Seq<u128>,
    outs: Seq<Seq<AcarsMessage>>,
    etx: AcarsMessage,
    now: u128,
    after: Seq<Bucket>,
    r: Seq<AcarsMessage>,
)
    requires
        1 <= etbs.len() <= 254,
        times.len() == etbs.len(),
        states.len() == etbs.len() + 1,
        outs.len() == etbs.len(),
        states[0] == Seq::<Bucket>::empty(),
        forall|j: int| 0 <= j < etbs.len() ==> observed(states[j], #[trigger] etbs[j], times[j], states[j + 1], outs[j]),
        observed(states[etbs.len() as int], etx, now, after, r),
        key_of(etx) is Some,
        etx.end_of_message,
        forall|j: int| 0 <= j < etbs.len() ==> key_of(#[trigger] etbs[j]) == key_of(etx) && !etbs[j].end_of_message
            && etbs[j].block_id < etx.block_id,
        forall|j: int| 0 <= j < etbs.len() ==> times[0] <= #[trigger] times[j] <= now,
        now <= times[0] + REASSEMBLY_TIMEOUT,
    ensures
        forall|j: int| 0 <= j < etbs.len() ==> (#[trigger] outs[j]).len() == 0,
        after == Seq::<Bucket>::empty(),
        r.len() == 1,
        r[0].block_id == etx.block_id,
        r[0].end_of_message,
        r[0].reassembled_block_count == etbs.len() + 1,
        exists|t: Seq<AcarsMessage>|
            {
                &&& t.len() == etbs.len()
                &&& forall|x: AcarsMessage| t.contains(x) <==> etbs.contains(x)
                &&& forall|i: int, j: int| 0 <= i < j < t.len() ==> (#[trigger] t[i]).block_id <= (#[trigger] t[j]).block_id
                &&& r[0].text@ == joined_text(t) + etx.text@
            },
{
    let n = etbs.len() as int;
    let k = key_of(etx)->0;
    lemma_blocks_parked(states, etbs, times, outs, k, now, n);
    let b = Bucket { key: k, first_seen: times[0], blocks: etbs.subrange(0, n) };
    assert(etbs.subrange(0, n) =~= etbs);
    assert(!is_stale(b, now));
    lemma_staleness_single(b, now);
    lemma_nothing_swept(states[n], etx, now, after, r);
    lemma_key_index_single(b);
    assert(seq![b].remove(0) =~= Seq::<Bucket>::empty());
    lemma_sorted_len(etbs.push(etx));
    assert forall|i: int| 0 <= i < etbs.len() implies (#[trigger] etbs[i]).block_id < etx.block_id by {
        assert(etbs[i].block_id < etx.block_id);
    }
    lemma_closing_text_in_block_order(r[0], etbs, etx);
}

} // verus!
