//! Per-channel delivery: decoded frames leave the frame parser, go through
//! the channel's multi-block reassembler, get their OOOI metadata, and are
//! counted in the channel's activity record.
//!
//! The signal-processing half of a channel (oscillator, decimator, AM
//! detector, MSK demodulator) runs on floating-point samples and feeds the
//! parser bit by bit; everything after the parser is decided here.
use vstd::prelude::*;
use crate::clock::now_unix_nanos;
use crate::frame::{AcarsMessage, FrameParser};
use crate::label_parsers::{decode_label, decoded_label, opt_oooi_view};
use crate::reassembly::{
    emitted_in_order, observed, text_bytes, with_staleness, Bucket, MessageAssembler,
};

verus! {

/// Idle signal level, in tenths of a dB: the -120 dBFS noise floor.
pub const NO_SIGNAL_FLOOR_TENTHS_DB: i32 = -1200;

/// Three-state indicator for a channel's status glyph.
#[derive(Clone, Copy, Debug, PartialEq, Eq, Structural)]
pub enum ChannelLockState {
    /// No RF energy detected.
    Idle,
    /// RF energy present but no decoded frames within the recent window.
    Signal,
    /// Recent frames decoded successfully.
    Locked,
}

impl Default for ChannelLockState {
    fn default() -> (r: ChannelLockState)
        ensures
            r == ChannelLockState::Idle,
    {
        ChannelLockState::Idle
    }
}

/// What a channel has delivered so far.
#[derive(Clone, Copy, Debug, PartialEq, Eq, Structural)]
pub struct ChannelActivity {
    /// Messages delivered since startup (saturating).
    pub msg_count: u32,
    /// Timestamp (nanoseconds since the Unix epoch) of the latest message.
    pub last_msg_at: Option<u128>,
    /// Signal level of the latest message, in tenths of a dB.
    pub level_tenths_db: i32,
    /// Lock indicator.
    pub lock_state: ChannelLockState,
}

impl ChannelActivity {
    /// The idle record of a channel that has delivered nothing yet.
    pub fn idle() -> (r: ChannelActivity)
        ensures
            r == (ChannelActivity {
                msg_count: 0,
                last_msg_at: None,
                level_tenths_db: NO_SIGNAL_FLOOR_TENTHS_DB,
                lock_state: ChannelLockState::Idle,
            }),
    {
        ChannelActivity {
            msg_count: 0,
            last_msg_at: None,
            level_tenths_db: NO_SIGNAL_FLOOR_TENTHS_DB,
            lock_state: ChannelLockState::Idle,
        }
    }
}

impl Default for ChannelActivity {
    fn default() -> (r: ChannelActivity)
        ensures
            r == ChannelActivity::spec_idle(),
    {
        ChannelActivity::idle()
    }
}

impl ChannelActivity {
    /// The idle record.
    pub open spec fn spec_idle() -> ChannelActivity {
        ChannelActivity {
            msg_count: 0,
            last_msg_at: None,
            level_tenths_db: NO_SIGNAL_FLOOR_TENTHS_DB,
            lock_state: ChannelLockState::Idle,
        }
    }
}

/// `a1` is `a0` after delivering the messages `out`, in order: the count
/// grows by one per message (saturating at `u32::MAX`), and a non-empty
/// delivery leaves the channel locked with the timestamp and level of the
/// last message.
pub open spec fn tallied(a0: ChannelActivity, out: Seq<AcarsMessage>, a1: ChannelActivity) -> bool {
    &&& a1.msg_count as int == (if a0.msg_count + out.len() > u32::MAX {
        u32::MAX as int
    } else {
        a0.msg_count + out.len()
    })
    &&& out.len() == 0 ==> a1 == a0
    &&& out.len() > 0 ==> {
        &&& a1.last_msg_at == Some(out.last().timestamp)
        &&& a1.level_tenths_db == out.last().level_tenths_db
        &&& a1.lock_state == ChannelLockState::Locked
    }
}

/// `post` is `pre` with its OOOI metadata decoded from its label and text.
pub open spec fn labeled(pre: AcarsMessage, post: AcarsMessage) -> bool {
    &&& opt_oooi_view(post.parsed) == decoded_label(pre.label@[0], pre.label@[1], text_bytes(pre.text@))
    &&& post == AcarsMessage { parsed: post.parsed, ..pre }
}

/// `post` holds the messages of `pre`, each labeled.
pub open spec fn all_labeled(pre: Seq<AcarsMessage>, post: Seq<AcarsMessage>) -> bool {
    &&& post.len() == pre.len()
    &&& forall|i: int| 0 <= i < pre.len() ==> labeled(pre[i], #[trigger] post[i])
}

/// `states` and `cuts` witness a run of observations: frame `i`, observed
/// at its own timestamp, takes the pending buckets from `states[i]` to
/// `states[i + 1]` and emits `out[cuts[i]..cuts[i + 1]]`.
pub open spec fn observation_trace(
    before: Seq<Bucket>,
    frames: Seq<AcarsMessage>,
    after: Seq<Bucket>,
    out: Seq<AcarsMessage>,
    states: Seq<Seq<Bucket>>,
    cuts: Seq<int>,
) -> bool {
    &&& states.len() == frames.len() + 1
    &&& cuts.len() == frames.len() + 1
    &&& states[0] == before
    &&& states[frames.len() as int] == after
    &&& cuts[0] == 0
    &&& cuts[frames.len() as int] == out.len()
    &&& forall|i: int| 0 <= i <= frames.len() ==> 0 <= #[trigger] cuts[i] <= out.len()
    &&& forall|i: int|
        0 <= i < frames.len() ==> {
            &&& cuts[i] <= cuts[i + 1]
            &&& observed(
                states[i],
                #[trigger] frames[i],
                frames[i].timestamp,
                states[i + 1],
                out.subrange(cuts[i], cuts[i + 1]),
            )
        }
}

/// Frames observed in order, each at its own timestamp, take the pending
/// buckets from `before` to `after` and emit `out`.
pub open spec fn observed_in_turn(
    before: Seq<Bucket>,
    frames: Seq<AcarsMessage>,
    after: Seq<Bucket>,
    out: Seq<AcarsMessage>,
) -> bool {
    exists|states: Seq<Seq<Bucket>>, cuts: Seq<int>| observation_trace(before, frames, after, out, states, cuts)
}

/// Count one delivered message and decode its OOOI metadata.
pub fn record_delivery(activity: &mut ChannelActivity, msg: AcarsMessage) -> (r: AcarsMessage)
    ensures
        labeled(msg, r),
        tallied(*old(activity), seq![r], *final(activity)),
{
    let mut m = msg;
    activity.msg_count = if activity.msg_count == u32::MAX {
        u32::MAX
    } else {
        activity.msg_count + 1
    };
    activity.last_msg_at = Some(m.timestamp);
    activity.level_tenths_db = m.level_tenths_db;
    activity.lock_state = ChannelLockState::Locked;
    m.parsed = decode_label(m.label, m.text.as_str());
    m
}

/// Record each message of `msgs`, in order.
fn record_all(activity: &mut ChannelActivity, msgs: Vec<AcarsMessage>) -> (r: Vec<AcarsMessage>)
    ensures
        all_labeled(msgs@, r@),
        tallied(*old(activity), r@, *final(activity)),
{
    let ghost pre = msgs@;
    let ghost a0 = *activity;
    let mut rest = msgs;
    let mut out: Vec<AcarsMessage> = Vec::new();
    let ghost mut i: int = 0;
    while rest.len() > 0
        invariant
            0 <= i <= pre.len(),
            rest@ == pre.subrange(i, pre.len() as int),
            all_labeled(pre.subrange(0, i), out@),
            tallied(a0, out@, *activity),
        decreases rest@.len(),
    {
        let m = rest.remove(0);
        let ghost before = *activity;
        let ghost out_before = out@;
        let r = record_delivery(activity, m);
        out.push(r);
        proof {
            lemma_tallied_concat(a0, out_before, before, seq![r], *activity);
            assert(out@ =~= out_before + seq![r]);
            assert(m == pre[i]);
            assert(rest@ =~= pre.subrange(i + 1, pre.len() as int));
            assert forall|j: int| 0 <= j < i + 1 implies labeled(
                pre.subrange(0, i + 1)[j],
                #[trigger] out@[j],
            ) by {
                if j < i {
                    assert(pre.subrange(0, i + 1)[j] == pre.subrange(0, i)[j]);
                }
            }
            i = i + 1;
        }
    }
    proof {
        assert(pre.subrange(0, i) =~= pre);
    }
    out
}

/// Hand the parser's decoded frames, in order, to the reassembler (each at
/// its own timestamp) and deliver what comes out, labeled and counted.
pub fn deliver_frames(
    parser: &mut FrameParser,
    assembler: &mut MessageAssembler,
    activity: &mut ChannelActivity,
) -> (r: Vec<AcarsMessage>)
    ensures
        final(parser).pending() == Seq::<AcarsMessage>::empty(),
        final(parser).model() == old(parser).model(),
        final(parser).channel() == old(parser).channel(),
        final(parser).frequency() == old(parser).frequency(),
        exists|pre: Seq<AcarsMessage>|
            {
                &&& observed_in_turn(old(assembler).buckets(), old(parser).pending(), final(assembler).buckets(), pre)
                &&& all_labeled(pre, r@)
            },
        tallied(*old(activity), r@, *final(activity)),
{
    let frames = parser.drain();
    let ghost fs = frames@;
    let ghost b0 = assembler.buckets();
    let ghost a0 = *activity;
    let mut rest = frames;
    let mut out: Vec<AcarsMessage> = Vec::new();
    let ghost mut pre: Seq<AcarsMessage> = seq![];
    let ghost mut i: int = 0;
    proof {
        assert(fs.subrange(0, 0) =~= Seq::<AcarsMessage>::empty());
        lemma_observed_in_turn_empty(b0);
    }
    while rest.len() > 0
        invariant
            0 <= i <= fs.len(),
            rest@ == fs.subrange(i, fs.len() as int),
            observed_in_turn(b0, fs.subrange(0, i), assembler.buckets(), pre),
            all_labeled(pre, out@),
            tallied(a0, out@, *activity),
        decreases rest@.len(),
    {
        let m = rest.remove(0);
        let ghost mid = assembler.buckets();
        let now = m.timestamp;
        let emitted = assembler.observe(m, now);
        let ghost em = emitted@;
        let ghost a_mid = *activity;
        let ghost out_before = out@;
        let delivered = record_all(activity, emitted);
        proof {
            assert(m == fs[i]);
            assert(rest@ =~= fs.subrange(i + 1, fs.len() as int));
            let fs1 = fs.subrange(0, i + 1);
            assert(fs1.drop_last() =~= fs.subrange(0, i));
            assert(fs1.last() == m);
            let k = pre.len() as int;
            let pre1 = pre + em;
            assert(pre1.subrange(0, k) =~= pre);
            assert(pre1.subrange(k, pre1.len() as int) =~= em);
            lemma_observed_in_turn_step(b0, fs.subrange(0, i), mid, pre, m, assembler.buckets(), em);
            assert(fs.subrange(0, i).push(m) =~= fs1);
            pre = pre1;
        }
        let ghost dl = delivered@;
        let mut d = delivered;
        out.append(&mut d);
        proof {
            lemma_tallied_concat(a0, out_before, a_mid, dl, *activity);
            assert(out@ =~= out_before + delivered@);
            assert forall|j: int| 0 <= j < pre.len() implies labeled(pre[j], #[trigger] out@[j]) by {
                if j >= out_before.len() {
                    assert(out@[j] == delivered@[j - out_before.len()]);
                    assert(pre[j] == em[j - out_before.len()]);
                } else {
                    assert(out@[j] == out_before[j]);
                }
            }
            i = i + 1;
        }
    }
    proof {
        assert(fs.subrange(0, i) =~= fs);
    }
    out
}

/// Deliver the buckets that timed out at `now`, labeled and counted.
pub fn deliver_timeouts(
    assembler: &mut MessageAssembler,
    activity: &mut ChannelActivity,
    now: u128,
) -> (r: Vec<AcarsMessage>)
    ensures
        final(assembler).buckets() == with_staleness(old(assembler).buckets(), now, false),
        exists|pre: Seq<AcarsMessage>|
            {
                &&& emitted_in_order(pre, with_staleness(old(assembler).buckets(), now, true))
                &&& all_labeled(pre, r@)
            },
        tallied(*old(activity), r@, *final(activity)),
{
    let emitted = assembler.drain_timeouts(now);
    let ghost pre = emitted@;
    let r = record_all(activity, emitted);
    proof {
        assert(emitted_in_order(pre, with_staleness(old(assembler).buckets(), now, true)));
    }
    r
}

/// One service pass over a channel: deliver the parser's frames, then the
/// buckets that timed out by the system clock. The clock reading is not
/// stated; whatever it was, the timed-out part is what
/// [`deliver_timeouts`] gives for it.
pub fn service_channel(
    parser: &mut FrameParser,
    assembler: &mut MessageAssembler,
    activity: &mut ChannelActivity,
) -> (r: Vec<AcarsMessage>)
    ensures
        final(parser).pending() == Seq::<AcarsMessage>::empty(),
        final(parser).model() == old(parser).model(),
        final(parser).channel() == old(parser).channel(),
        final(parser).frequency() == old(parser).frequency(),
        exists|mid: Seq<Bucket>, now: u128, pre: Seq<AcarsMessage>, k: int|
            {
                &&& 0 <= k <= pre.len()
                &&& observed_in_turn(old(assembler).buckets(), old(parser).pending(), mid, pre.subrange(0, k))
                &&& emitted_in_order(pre.subrange(k, pre.len() as int), with_staleness(mid, now, true))
                &&& final(assembler).buckets() == with_staleness(mid, now, false)
                &&& all_labeled(pre, r@)
            },
        tallied(*old(activity), r@, *final(activity)),
{
    let ghost b0 = assembler.buckets();
    let ghost frames = parser.pending();
    let ghost a0 = *activity;
    let first = deliver_frames(parser, assembler, activity);
    let ghost mid = assembler.buckets();
    let ghost a_mid = *activity;
    let now = now_unix_nanos();
    let second = deliver_timeouts(assembler, activity, now);
    let ghost f1 = first@;
    let ghost s1 = second@;
    let mut out = first;
    let mut s = second;
    out.append(&mut s);
    proof {
        lemma_tallied_concat(a0, f1, a_mid, s1, *activity);
        assert(out@ =~= f1 + s1);
        let p1 = choose|pre: Seq<AcarsMessage>|
            {
                &&& observed_in_turn(b0, frames, mid, pre)
                &&& all_labeled(pre, f1)
            };
        let p2 = choose|pre: Seq<AcarsMessage>|
            {
                &&& emitted_in_order(pre, with_staleness(mid, now, true))
                &&& all_labeled(pre, s1)
            };
        let pre = p1 + p2;
        let k = p1.len() as int;
        assert(pre.subrange(0, k) =~= p1);
        assert(pre.subrange(k, pre.len() as int) =~= p2);
        assert forall|j: int| 0 <= j < pre.len() implies labeled(pre[j], #[trigger] out@[j]) by {
            if j < k {
                assert(pre[j] == p1[j] && out@[j] == f1[j]);
            } else {
                assert(pre[j] == p2[j - k] && out@[j] == s1[j - k]);
            }
        }
        assert(all_labeled(pre, out@));
    }
    out
}

/// No frame, no change.
proof fn lemma_observed_in_turn_empty(before: Seq<Bucket>)
    ensures
        observed_in_turn(before, Seq::<AcarsMessage>::empty(), before, Seq::<AcarsMessage>::empty()),
{
    let states = seq![before];
    let cuts = seq![0int];
    assert(observation_trace(before, Seq::<AcarsMessage>::empty(), before, Seq::<AcarsMessage>::empty(), states, cuts));
}

/// One more frame observed after a run of them.
proof fn lemma_observed_in_turn_step(
    before: Seq<Bucket>,
    frames: Seq<AcarsMessage>,
    mid: Seq<Bucket>,
    pre: Seq<AcarsMessage>,
    m: AcarsMessage,
    after: Seq<Bucket>,
    em: Seq<AcarsMessage>,
)
    requires
        observed_in_turn(before, frames, mid, pre),
        observed(mid, m, m.timestamp, after, em),
    ensures
        observed_in_turn(before, frames.push(m), after, pre + em),
{
    let (states, cuts) = choose|states: Seq<Seq<Bucket>>, cuts: Seq<int>|
        observation_trace(before, frames, mid, pre, states, cuts);
    let f1 = frames.push(m);
    let p1 = pre + em;
    let s1 = states.push(after);
    let c1 = cuts.push(p1.len() as int);
    let n = frames.len() as int;
    assert forall|i: int| 0 <= i < f1.len() implies {
        &&& c1[i] <= c1[i + 1]
        &&& observed(s1[i], #[trigger] f1[i], f1[i].timestamp, s1[i + 1], p1.subrange(c1[i], c1[i + 1]))
    } by {
        if i < n {
            assert(f1[i] == frames[i]);
            assert(cuts[i] <= cuts[i + 1]);
            assert(observed(states[i], frames[i], frames[i].timestamp, states[i + 1], pre.subrange(cuts[i], cuts[i + 1])));
            assert(0 <= cuts[i] && cuts[i + 1] <= pre.len());
            assert(p1.subrange(c1[i], c1[i + 1]) =~= pre.subrange(cuts[i], cuts[i + 1]));
        } else {
            assert(p1.subrange(c1[i], c1[i + 1]) =~= em);
        }
    }
    assert forall|i: int| 0 <= i <= f1.len() implies 0 <= #[trigger] c1[i] <= p1.len() by {
        if i <= n {
            assert(c1[i] == cuts[i]);
        }
    }
    assert(observation_trace(before, f1, after, p1, s1, c1));
}

/// Deliveries compose: tallying `x` then `y` tallies `x + y`.
proof fn lemma_tallied_concat(
    a0: ChannelActivity,
    x: Seq<AcarsMessage>,
    a1: ChannelActivity,
    y: Seq<AcarsMessage>,
    a2: ChannelActivity,
)
    requires
        tallied(a0, x, a1),
        tallied(a1, y, a2),
    ensures
        tallied(a0, x + y, a2),
{
    if y.len() > 0 {
        assert((x + y).last() == y.last());
    } else {
        assert(x + y =~= x);
    }
}

} // verus!
