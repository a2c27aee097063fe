//! The capture callback: hardware samples and the line-up tone gathered per channel and
//! frame size, kept on a shared frame grid, and drained into frames ready to encode.

use vstd::prelude::*;

use crate::audio::frame_pool::FramePool;
use crate::audio::sample::{less_than, magnitude, sample_less_than, sample_magnitude, SILENCE};

verus! {

/// The line-up tone's two pseudo source channels, above the hardware ones.
pub const TONE_LEGS: usize = 2;

/// Where a bucket's raw counter wraps: sized so that the largest frame's stamp still fits
/// 32 bits.
pub const TS_COUNTER_WRAP: u32 = 4_473_923;

/// Frame size in samples of each bucket.
pub open spec fn bucket_frame(b: int) -> int {
    if b == 0 {
        120
    } else if b == 1 {
        240
    } else if b == 2 {
        480
    } else {
        960
    }
}

/// Bucket of a frame size: each has its own but sizes the wire does not carry, which share
/// the largest one's.
pub open spec fn bucket_of(frame: int) -> int {
    if frame == 120 {
        0
    } else if frame == 240 {
        1
    } else if frame == 480 {
        2
    } else {
        3
    }
}

pub fn bucket_index(frame_samples: usize) -> (b: usize)
    ensures
        b == bucket_of(frame_samples as int),
{
    match frame_samples {
        120 => 0,
        240 => 1,
        480 => 2,
        _ => 3,
    }
}

pub fn bucket_frame_samples(b: usize) -> (frame: usize)
    ensures
        frame == bucket_frame(b as int),
{
    match b {
        0 => 120,
        1 => 240,
        2 => 480,
        _ => 960,
    }
}

/// Source-channel index of a tone leg: 1 is the interrupted one, 2 the steady one.
pub fn tone_channel(num_out_ch: usize, leg: u8) -> (ch: usize)
    requires
        leg >= 1,
        num_out_ch + leg - 1 <= usize::MAX,
    ensures
        ch == num_out_ch + leg - 1,
{
    num_out_ch + (leg as usize - 1)
}

/// The frame sizes each source channel is buffered at: bit `b` for bucket `b`, 0 for a
/// channel that is not routed.
pub struct ChannelPlan {
    pub per_ch_buckets: Vec<u8>,
}

impl Default for ChannelPlan {
    fn default() -> (plan: Self)
        ensures
            plan.per_ch_buckets@.len() == 0,
    {
        ChannelPlan { per_ch_buckets: Vec::new() }
    }
}

/// Bucket `b` is in use on channel `ch`. A channel past the end of the plan is not routed.
pub open spec fn in_use(plan: Seq<u8>, ch: int, b: int) -> bool {
    0 <= ch < plan.len() && (plan[ch] >> (b as u8)) & 1 == 1
}

impl ChannelPlan {
    pub fn uses(&self, ch: usize, b: usize) -> (used: bool)
        requires
            b < 4,
        ensures
            used == in_use(self.per_ch_buckets@, ch as int, b as int),
    {
        if ch < self.per_ch_buckets.len() {
            let bits: u8 = self.per_ch_buckets[ch];
            (bits >> (b as u8)) & 1 == 1
        } else {
            false
        }
    }
}

/// The frame size bucket `b` of channel `ch` is buffered at; 0 while it is not in use.
pub open spec fn planned_frame(plan: Seq<u8>, ch: int, b: int) -> int {
    if in_use(plan, ch, b) {
        bucket_frame(b)
    } else {
        0
    }
}

pub open spec fn quiet(len: int) -> Seq<u32> {
    Seq::new(len as nat, |i: int| SILENCE)
}

/// An accumulator put on its frame grid: restarted with silence up to the grid where the
/// frame size changed to one in use, left alone otherwise.
pub open spec fn on_grid(acc: Seq<u32>, prev: int, frame: int, total: int) -> Seq<u32> {
    if frame != 0 && frame != prev {
        quiet(total % frame)
    } else {
        acc
    }
}

/// Keep one accumulator on its bucket's frame grid, so that every channel in a bucket
/// completes a frame on the same callback. Whenever the frame size differs from the one it
/// was primed at, it restarts with as much silence as the capture clock is past the grid.
/// A frame of 0, not routed, only records the state. True when it was primed again.
pub fn keep_on_frame_grid(
    acc: &mut Vec<u32>,
    prev_frame: &mut usize,
    frame: usize,
    total_captured: u64,
) -> (changed: bool)
    ensures
        changed == (frame != 0 && frame != *old(prev_frame)),
        *final(prev_frame) == frame,
        final(acc)@ == on_grid(
            old(acc)@,
            *old(prev_frame) as int,
            frame as int,
            total_captured as int,
        ),
{
    let changed: bool = frame != 0 && frame != *prev_frame;
    if changed {
        acc.clear();
        let phase: u64 = total_captured % (frame as u64);
        let mut i: u64 = 0;
        while i < phase
            invariant
                i <= phase,
                acc@ =~= quiet(i as int),
            decreases phase - i,
        {
            acc.push(SILENCE);
            i = i + 1;
        }
    }
    *prev_frame = frame;
    changed
}

/// Every `step`th sample from `start` on: one channel of interleaved data.
pub open spec fn strided(data: Seq<u32>, start: int, step: int) -> Seq<u32>
    decreases
        (if start < data.len() {
            data.len() - start
        } else {
            0
        }),
{
    if step <= 0 || start >= data.len() || start < 0 {
        Seq::empty()
    } else {
        seq![data[start]] + strided(data, start + step, step)
    }
}

/// The highest of a peak and the magnitudes of the samples; a sample that is not a number
/// does not count.
pub open spec fn peak_over(s: Seq<u32>, peak: u32) -> u32
    decreases s.len(),
{
    if s.len() == 0 {
        peak
    } else {
        let m = magnitude(s[0]) as u32;
        peak_over(
            s.drop_first(),
            if less_than(peak, m) {
                m
            } else {
                peak
            },
        )
    }
}

/// The peak magnitude of a run of samples.
pub fn peak_of(pcm: &Vec<u32>) -> (peak: u32)
    ensures
        peak == peak_over(pcm@, SILENCE),
{
    let mut peak: u32 = SILENCE;
    let mut i: usize = 0;
    assert(pcm@.subrange(0, pcm@.len() as int) =~= pcm@);
    while i < pcm.len()
        invariant
            i <= pcm@.len(),
            peak_over(pcm@, SILENCE) == peak_over(
                pcm@.subrange(i as int, pcm@.len() as int),
                peak,
            ),
        decreases pcm@.len() - i,
    {
        let m: u32 = sample_magnitude(pcm[i]);
        assert(pcm@.subrange(i as int, pcm@.len() as int).drop_first() =~= pcm@.subrange(
            i + 1,
            pcm@.len() as int,
        ));
        if sample_less_than(peak, m) {
            peak = m;
        }
        i = i + 1;
    }
    peak
}

/// One channel of interleaved data.
pub fn deinterleave(data: &Vec<u32>, ch: usize, num_hw_ch: usize) -> (pcm: Vec<u32>)
    requires
        num_hw_ch > 0,
    ensures
        pcm@ == strided(data@, ch as int, num_hw_ch as int),
{
    let mut pcm: Vec<u32> = Vec::new();
    let mut i: usize = ch;
    assert(pcm@ + strided(data@, i as int, num_hw_ch as int) =~= strided(
        data@,
        ch as int,
        num_hw_ch as int,
    ));
    while i < data.len()
        invariant
            num_hw_ch > 0,
            pcm@ + strided(data@, i as int, num_hw_ch as int) == strided(
                data@,
                ch as int,
                num_hw_ch as int,
            ),
        decreases data@.len() - i,
    {
        let ghost before = pcm@;
        let v: u32 = data[i];
        pcm.push(v);
        assert(before + strided(data@, i as int, num_hw_ch as int) =~= pcm@ + strided(
            data@,
            i + num_hw_ch,
            num_hw_ch as int,
        ));
        if num_hw_ch >= data.len() - i {
            proof {
                let rest = strided(data@, i + num_hw_ch, num_hw_ch as int);
                assert(rest.len() == 0);
                assert(pcm@ + rest =~= pcm@);
            }
            return pcm;
        }
        i = i + num_hw_ch;
    }
    assert(pcm@ + Seq::<u32>::empty() =~= pcm@);
    pcm
}

/// The next raw value of a bucket's counter.
pub open spec fn next_count(c: int) -> int {
    if c >= TS_COUNTER_WRAP {
        0
    } else {
        c + 1
    }
}

/// The four buckets' sample clocks. They run for the life of the process and are never set
/// back.
#[derive(Clone, Copy)]
pub struct BucketClocks {
    pub counters: [u32; 4],
}

impl BucketClocks {
    /// All clocks at zero, as they stand once, when the process starts.
    pub fn new() -> (c: Self)
        ensures
            forall|b: int| 0 <= b < 4 ==> #[trigger] c.counters@[b] == 0,
    {
        BucketClocks { counters: [0, 0, 0, 0] }
    }

    /// Advance a bucket's counter by one cycle and return the stamp for the wire: the
    /// counter times the frame size.
    pub fn bucket_next_wire_ts(&mut self, frame_samples: usize) -> (ts: u32)
        requires
            crate::audio::geometry::is_frame_size(frame_samples as int),
        ensures
            ({
                let b = bucket_of(frame_samples as int);
                let next = next_count(old(self).counters@[b] as int);
                &&& final(self).counters@ == old(self).counters@.update(b, next as u32)
                &&& ts == next * frame_samples
            }),
    {
        let b: usize = bucket_index(frame_samples);
        let c: u32 = self.counters[b];
        let next: u32 = if c >= TS_COUNTER_WRAP {
            0
        } else {
            c + 1
        };
        self.counters[b] = next;
        assert(next * frame_samples <= TS_COUNTER_WRAP * 960) by (nonlinear_arith)
            requires
                0 <= next <= TS_COUNTER_WRAP,
                0 <= frame_samples <= 960,
        ;
        next * (frame_samples as u32)
    }
}

/// One channel's samples gathered at one frame size.
pub struct Lane {
    pub acc: Vec<u32>,
    /// The frame size it was last primed at; 0 while its bucket is not in use.
    pub primed: usize,
}

/// A frame ready to encode: source channel, frame size, samples, and the stamp it carries.
pub struct Entry {
    pub ch: usize,
    pub frame: usize,
    pub pcm: Vec<u32>,
    pub ts: u32,
}

pub struct EntryView {
    pub ch: int,
    pub frame: int,
    pub pcm: Seq<u32>,
    pub ts: int,
}

impl View for Entry {
    type V = EntryView;

    open spec fn view(&self) -> EntryView {
        EntryView {
            ch: self.ch as int,
            frame: self.frame as int,
            pcm: self.pcm@,
            ts: self.ts as int,
        }
    }
}

/// What the capture side holds. Lane `4 * ch + b` gathers channel `ch` for bucket `b`.
#[verifier::ext_equal]
pub struct CaptureModel {
    pub lanes: Seq<Seq<u32>>,
    pub primed: Seq<int>,
    pub clocks: Seq<int>,
    /// Samples captured per channel since the first, the clock the frame grid is laid on.
    pub total: int,
    /// Hardware channels; the tone legs come after them.
    pub outgoing: int,
}

/// One callback's input: interleaved hardware samples, their channel count, and the tone.
pub struct CallbackInput {
    pub data: Seq<u32>,
    pub num_hw_ch: int,
    pub tone_l: Seq<u32>,
    pub tone_r: Seq<u32>,
}

/// Hardware channels that the live device covers.
pub open spec fn live_channels(outgoing: int, num_hw_ch: int) -> int {
    if outgoing < num_hw_ch {
        outgoing
    } else {
        num_hw_ch
    }
}

/// A lane's samples after one callback has been fed in.
pub open spec fn fed_lane(m: CaptureModel, plan: Seq<u8>, i: CallbackInput, l: int) -> Seq<u32> {
    let ch = l / 4;
    let f = planned_frame(plan, ch, l % 4);
    let base = on_grid(m.lanes[l], m.primed[l], f, m.total);
    if ch < live_channels(m.outgoing, i.num_hw_ch) {
        if f != 0 {
            base + strided(i.data, ch, i.num_hw_ch)
        } else {
            base
        }
    } else if ch < m.outgoing {
        m.lanes[l]
    } else if f != 0 {
        base + (if ch == m.outgoing {
            i.tone_l
        } else {
            i.tone_r
        })
    } else {
        Seq::empty()
    }
}

/// The frame size a lane is primed at after one callback: a hardware channel above the live
/// device's width forgets it.
pub open spec fn fed_primed(m: CaptureModel, plan: Seq<u8>, i: CallbackInput, l: int) -> int {
    let ch = l / 4;
    if live_channels(m.outgoing, i.num_hw_ch) <= ch < m.outgoing {
        0
    } else {
        planned_frame(plan, ch, l % 4)
    }
}

/// Everything fed in: the state before any frame is drained.
pub open spec fn fed(m: CaptureModel, plan: Seq<u8>, i: CallbackInput) -> CaptureModel {
    CaptureModel {
        lanes: Seq::new(m.lanes.len(), |l: int| fed_lane(m, plan, i, l)),
        primed: Seq::new(m.lanes.len(), |l: int| fed_primed(m, plan, i, l)),
        clocks: m.clocks,
        total: (m.total + i.data.len() / i.num_hw_ch as nat) % 0x1_0000_0000_0000_0000,
        outgoing: m.outgoing,
    }
}

/// The drain visits the channel: a hardware channel within the live width, or a tone leg.
pub open spec fn covered(m: CaptureModel, n_ch: int, l: int) -> bool {
    l / 4 < n_ch || l / 4 >= m.outgoing
}

/// A lane has a whole frame to give.
pub open spec fn is_ready(m: CaptureModel, plan: Seq<u8>, n_ch: int, l: int) -> bool {
    &&& 0 <= l < m.lanes.len()
    &&& covered(m, n_ch, l)
    &&& in_use(plan, l / 4, l % 4)
    &&& m.lanes[l].len() >= bucket_frame(l % 4)
}

/// Some lane of bucket `b` among the first `n` has a whole frame to give.
pub open spec fn bucket_ready(m: CaptureModel, plan: Seq<u8>, n_ch: int, b: int, n: int) -> bool {
    exists|l: int| 0 <= l < n && l % 4 == b && #[trigger] is_ready(m, plan, n_ch, l)
}

/// One round's frames among the first `n` lanes. All of a bucket's frames carry the same
/// stamp: its counter advanced once, times the frame size.
pub open spec fn round_entries(m: CaptureModel, plan: Seq<u8>, n_ch: int, n: int) -> Seq<EntryView>
    decreases n,
{
    if n <= 0 {
        Seq::empty()
    } else {
        let l = n - 1;
        let f = bucket_frame(l % 4);
        let rest = round_entries(m, plan, n_ch, n - 1);
        if is_ready(m, plan, n_ch, l) {
            rest.push(
                EntryView {
                    ch: l / 4,
                    frame: f,
                    pcm: m.lanes[l].subrange(0, f),
                    ts: next_count(m.clocks[l % 4]) * f,
                },
            )
        } else {
            rest
        }
    }
}

/// The state after one round: every ready lane gave its oldest frame, and every bucket with
/// a ready lane advanced its clock once.
pub open spec fn after_round(m: CaptureModel, plan: Seq<u8>, n_ch: int) -> CaptureModel {
    CaptureModel {
        lanes: Seq::new(
            m.lanes.len(),
            |l: int|
                if is_ready(m, plan, n_ch, l) {
                    m.lanes[l].subrange(bucket_frame(l % 4), m.lanes[l].len() as int)
                } else {
                    m.lanes[l]
                },
        ),
        clocks: Seq::new(
            4,
            |b: int|
                if bucket_ready(m, plan, n_ch, b, m.lanes.len() as int) {
                    next_count(m.clocks[b])
                } else {
                    m.clocks[b]
                },
        ),
        ..m
    }
}

/// The state after `k` rounds.
pub open spec fn after_rounds(m: CaptureModel, plan: Seq<u8>, n_ch: int, k: nat) -> CaptureModel
    decreases k,
{
    if k == 0 {
        m
    } else {
        after_round(after_rounds(m, plan, n_ch, (k - 1) as nat), plan, n_ch)
    }
}

/// A lane held to two frames: what is not in use is dropped, and of a backlog the newest two
/// frames stay.
pub open spec fn guarded_lane(lane: Seq<u32>, plan: Seq<u8>, l: int) -> Seq<u32> {
    let f = bucket_frame(l % 4);
    if !in_use(plan, l / 4, l % 4) {
        Seq::empty()
    } else if lane.len() > 2 * f {
        lane.subrange(lane.len() - 2 * f, lane.len() as int)
    } else {
        lane
    }
}

pub open spec fn guarded(m: CaptureModel, plan: Seq<u8>) -> CaptureModel {
    CaptureModel {
        lanes: Seq::new(m.lanes.len(), |l: int| guarded_lane(m.lanes[l], plan, l)),
        ..m
    }
}

/// The accumulators, clocks and capture clock behind a capture callback.
pub struct CaptureState {
    lanes: Vec<Lane>,
    clocks: BucketClocks,
    total: u64,
    outgoing: usize,
}

impl View for CaptureState {
    type V = CaptureModel;

    closed spec fn view(&self) -> CaptureModel {
        CaptureModel {
            lanes: Seq::new(self.lanes@.len(), |l: int| self.lanes@[l].acc@),
            primed: Seq::new(self.lanes@.len(), |l: int| self.lanes@[l].primed as int),
            clocks: Seq::new(4, |b: int| self.clocks.counters@[b] as int),
            total: self.total as int,
            outgoing: self.outgoing as int,
        }
    }
}

impl CaptureState {
    /// Four lanes for every hardware channel and tone leg.
    pub closed spec fn well_formed(&self) -> bool {
        self.lanes@.len() == 4 * (self.outgoing + TONE_LEGS)
    }

    /// Empty lanes for `outgoing` hardware channels and the tone legs, continuing clocks that
    /// ran before.
    pub fn new(outgoing: usize, clocks: BucketClocks, total: u64) -> (s: Self)
        requires
            4 * (outgoing + TONE_LEGS) <= usize::MAX,
        ensures
            s.well_formed(),
            s@ == (CaptureModel {
                lanes: Seq::new((4 * (outgoing + TONE_LEGS)) as nat, |l: int| Seq::empty()),
                primed: Seq::new((4 * (outgoing + TONE_LEGS)) as nat, |l: int| 0int),
                clocks: Seq::new(4, |b: int| clocks.counters@[b] as int),
                total: total as int,
                outgoing: outgoing as int,
            }),
    {
        let n: usize = 4 * (outgoing + TONE_LEGS);
        let mut lanes: Vec<Lane> = Vec::new();
        let mut l: usize = 0;
        while l < n
            invariant
                l <= n,
                lanes@.len() == l,
                forall|k: int|
                    0 <= k < l ==> (#[trigger] lanes@[k]).acc@.len() == 0 && lanes@[k].primed == 0,
            decreases n - l,
        {
            lanes.push(Lane { acc: Vec::new(), primed: 0 });
            l = l + 1;
        }
        let s = CaptureState { lanes, clocks, total, outgoing };
        proof {
            let want = Seq::new(n as nat, |l: int| Seq::<u32>::empty());
            assert forall|k: int| 0 <= k < n implies s@.lanes[k] == want[k] by {
                assert(s.lanes@[k].acc@.len() == 0);
                assert(s@.lanes[k] =~= want[k]);
            }
            assert(s@.lanes =~= want);
            assert(s@.primed =~= Seq::new(n as nat, |l: int| 0int));
        }
        s
    }

    /// The clocks, to carry over to the next stream.
    pub fn clocks(&self) -> (c: BucketClocks)
        ensures
            forall|b: int| 0 <= b < 4 ==> self@.clocks[b] == #[trigger] c.counters@[b],
    {
        self.clocks
    }

    /// The capture clock, to carry over to the next stream.
    pub fn total_captured(&self) -> (total: u64)
        ensures
            total == self@.total,
    {
        self.total
    }

    fn feed_lane(&mut self, l: usize, f: usize, pcm: &Vec<u32>, tone: bool)
        requires
            old(self).well_formed(),
            l < old(self)@.lanes.len(),
        ensures
            final(self).well_formed(),
            ({
                let base = on_grid(
                    old(self)@.lanes[l as int],
                    old(self)@.primed[l as int],
                    f as int,
                    old(self)@.total,
                );
                let lane = if f != 0 {
                    base + pcm@
                } else if tone {
                    Seq::empty()
                } else {
                    base
                };
                final(self)@ == (CaptureModel {
                    lanes: old(self)@.lanes.update(l as int, lane),
                    primed: old(self)@.primed.update(l as int, f as int),
                    ..old(self)@
                })
            }),
    {
        let ghost before = self@;
        let total: u64 = self.total;
        let mut lane: Lane = Lane { acc: Vec::new(), primed: 0 };
        std::mem::swap(&mut lane, &mut self.lanes[l]);
        let mut acc: Vec<u32> = lane.acc;
        let mut primed: usize = lane.primed;
        let _ = keep_on_frame_grid(&mut acc, &mut primed, f, total);
        if f != 0 {
            let ghost base = acc@;
            let mut i: usize = 0;
            while i < pcm.len()
                invariant
                    i <= pcm@.len(),
                    acc@ =~= base + pcm@.subrange(0, i as int),
                decreases pcm@.len() - i,
            {
                let v: u32 = pcm[i];
                acc.push(v);
                i = i + 1;
            }
            assert(pcm@.subrange(0, pcm@.len() as int) =~= pcm@);
        } else if tone {
            acc.clear();
        }
        let ghost lane_now = acc@;
        let ghost primed_now = primed as int;
        self.lanes.set(l, Lane { acc, primed });
        proof {
            assert(self@.lanes =~= before.lanes.update(l as int, lane_now));
            assert(self@.primed =~= before.primed.update(l as int, primed_now));
            assert(self@ =~= CaptureModel {
                lanes: before.lanes.update(l as int, lane_now),
                primed: before.primed.update(l as int, primed_now),
                ..before
            });
        }
    }

    /// Feed one callback into the lanes: hardware channels that the live device covers, then
    /// the two tone legs, each kept on its frame grid. Returns the covered channels' peaks.
    pub fn feed(
        &mut self,
        data: &Vec<u32>,
        num_hw_ch: usize,
        plan: &ChannelPlan,
        tone_l: &Vec<u32>,
        tone_r: &Vec<u32>,
    ) -> (peaks: Vec<u32>)
        requires
            old(self).well_formed(),
            num_hw_ch > 0,
        ensures
            final(self).well_formed(),
            final(self)@ == fed(
                old(self)@,
                plan.per_ch_buckets@,
                (CallbackInput {
                    data: data@,
                    num_hw_ch: num_hw_ch as int,
                    tone_l: tone_l@,
                    tone_r: tone_r@,
                }),
            ),
            peaks@.len() == live_channels(old(self)@.outgoing, num_hw_ch as int),
            forall|ch: int|
                0 <= ch < peaks@.len() ==> #[trigger] peaks@[ch] == peak_over(
                    strided(data@, ch, num_hw_ch as int),
                    SILENCE,
                ),
    {
        let ghost m = self@;
        let ghost p = plan.per_ch_buckets@;
        let ghost i = CallbackInput {
            data: data@,
            num_hw_ch: num_hw_ch as int,
            tone_l: tone_l@,
            tone_r: tone_r@,
        };
        let outgoing: usize = self.outgoing;
        let n_ch: usize = if outgoing < num_hw_ch {
            outgoing
        } else {
            num_hw_ch
        };
        let lanes: usize = self.lanes.len();
        let mut peaks: Vec<u32> = Vec::new();
        let mut ch: usize = 0;
        while ch < n_ch
            invariant
                ch <= n_ch <= outgoing,
                n_ch == live_channels(outgoing as int, num_hw_ch as int),
                num_hw_ch > 0,
                lanes == 4 * (outgoing + TONE_LEGS),
                lanes == m.lanes.len(),
                lanes == m.primed.len(),
                outgoing == m.outgoing,
                p == plan.per_ch_buckets@,
                i == (CallbackInput {
                    data: data@,
                    num_hw_ch: num_hw_ch as int,
                    tone_l: tone_l@,
                    tone_r: tone_r@,
                }),
                self.well_formed(),
                partly_fed(self@, m, p, i, 4 * ch),
                peaks@.len() == ch,
                forall|k: int|
                    0 <= k < ch ==> #[trigger] peaks@[k] == peak_over(
                        strided(data@, k, num_hw_ch as int),
                        SILENCE,
                    ),
            decreases n_ch - ch,
        {
            let pcm: Vec<u32> = deinterleave(data, ch, num_hw_ch);
            peaks.push(peak_of(&pcm));
            let mut b: usize = 0;
            while b < 4
                invariant
                    b <= 4,
                    ch < n_ch <= outgoing,
                    n_ch == live_channels(outgoing as int, num_hw_ch as int),
                    lanes == 4 * (outgoing + TONE_LEGS),
                    lanes == m.lanes.len(),
                    lanes == m.primed.len(),
                    outgoing == m.outgoing,
                    p == plan.per_ch_buckets@,
                    i.data == data@,
                    i.num_hw_ch == num_hw_ch,
                    pcm@ == strided(data@, ch as int, num_hw_ch as int),
                    self.well_formed(),
                    partly_fed(self@, m, p, i, 4 * ch + b),
                decreases 4 - b,
            {
                let l: usize = 4 * ch + b;
                let f: usize = if plan.uses(ch, b) {
                    bucket_frame_samples(b)
                } else {
                    0
                };
                assert(l as int / 4 == ch && l as int % 4 == b);
                assert(self@.lanes[l as int] == m.lanes[l as int]);
                assert(self@.primed[l as int] == m.primed[l as int]);
                self.feed_lane(l, f, &pcm, false);
                b = b + 1;
            }
            ch = ch + 1;
        }
        // A routed channel above the live device's width takes no samples: forgetting its
        // frame sizes makes it prime again when the device grows back to cover it.
        let mut l: usize = 4 * n_ch;
        while l < 4 * outgoing
            invariant
                4 * n_ch <= l <= 4 * outgoing,
                n_ch == live_channels(outgoing as int, num_hw_ch as int),
                n_ch <= outgoing,
                lanes == 4 * (outgoing + TONE_LEGS),
                lanes == m.lanes.len(),
                lanes == m.primed.len(),
                outgoing == m.outgoing,
                i.num_hw_ch == num_hw_ch,
                self.well_formed(),
                partly_fed(self@, m, p, i, l as int),
            decreases 4 * outgoing - l,
        {
            assert(n_ch <= l as int / 4 < outgoing);
            self.forget_lane(l);
            l = l + 1;
        }
        let mut leg: usize = 0;
        while leg < TONE_LEGS
            invariant
                leg <= TONE_LEGS,
                n_ch == live_channels(outgoing as int, num_hw_ch as int),
                n_ch <= outgoing,
                lanes == 4 * (outgoing + TONE_LEGS),
                lanes == m.lanes.len(),
                lanes == m.primed.len(),
                outgoing == m.outgoing,
                p == plan.per_ch_buckets@,
                i.num_hw_ch == num_hw_ch,
                i.tone_l == tone_l@,
                i.tone_r == tone_r@,
                self.well_formed(),
                partly_fed(self@, m, p, i, 4 * (outgoing + leg)),
            decreases TONE_LEGS - leg,
        {
            let tch: usize = outgoing + leg;
            let pcm: &Vec<u32> = if leg == 0 {
                tone_l
            } else {
                tone_r
            };
            let mut b: usize = 0;
            while b < 4
                invariant
                    b <= 4,
                    leg < TONE_LEGS,
                    tch == outgoing + leg,
                    n_ch == live_channels(outgoing as int, num_hw_ch as int),
                    n_ch <= outgoing,
                    lanes == 4 * (outgoing + TONE_LEGS),
                    lanes == m.lanes.len(),
                    lanes == m.primed.len(),
                    outgoing == m.outgoing,
                    p == plan.per_ch_buckets@,
                    i.num_hw_ch == num_hw_ch,
                    pcm@ == (if tch == outgoing {
                        i.tone_l
                    } else {
                        i.tone_r
                    }),
                    self.well_formed(),
                    partly_fed(self@, m, p, i, 4 * tch + b),
                decreases 4 - b,
            {
                let l: usize = 4 * tch + b;
                let f: usize = if plan.uses(tch, b) {
                    bucket_frame_samples(b)
                } else {
                    0
                };
                assert(l as int / 4 == tch && l as int % 4 == b);
                assert(self@.lanes[l as int] == m.lanes[l as int]);
                assert(self@.primed[l as int] == m.primed[l as int]);
                self.feed_lane(l, f, pcm, true);
                b = b + 1;
            }
            leg = leg + 1;
        }
        let k: usize = data.len() / num_hw_ch;
        self.total = self.total.wrapping_add(k as u64);
        proof {
            let want = fed(m, p, i);
            assert(self@.lanes =~= want.lanes);
            assert(self@.primed =~= want.primed);
            assert(self@.clocks =~= want.clocks);
            assert(self@.total == want.total);
            assert(self@ =~= want);
        }
        peaks
    }

    fn forget_lane(&mut self, l: usize)
        requires
            old(self).well_formed(),
            l < old(self)@.lanes.len(),
        ensures
            final(self).well_formed(),
            final(self)@ == (CaptureModel {
                primed: old(self)@.primed.update(l as int, 0),
                ..old(self)@
            }),
    {
        let ghost before = self@;
        let mut lane: Lane = Lane { acc: Vec::new(), primed: 0 };
        std::mem::swap(&mut lane, &mut self.lanes[l]);
        let acc: Vec<u32> = lane.acc;
        self.lanes.set(l, Lane { acc, primed: 0 });
        assert(self@.lanes =~= before.lanes);
        assert(self@.primed =~= before.primed.update(l as int, 0));
        assert(self@.clocks =~= before.clocks);
    }
}

/// The views of a run of frames.
pub open spec fn entry_views(entries: Seq<Entry>) -> Seq<EntryView> {
    Seq::new(entries.len(), |i: int| entries[i]@)
}

/// Move the first `f` samples of an accumulator behind those of a frame.
fn take_front(acc: &mut Vec<u32>, f: usize, into: &mut Vec<u32>)
    requires
        f <= old(acc)@.len(),
    ensures
        final(into)@ == old(into)@ + old(acc)@.subrange(0, f as int),
        final(acc)@ == old(acc)@.subrange(f as int, old(acc)@.len() as int),
{
    let ghost before = acc@;
    let ghost start = into@;
    let len: usize = acc.len();
    let mut i: usize = 0;
    while i < f
        invariant
            i <= f <= len,
            acc@ == before,
            len == before.len(),
            into@ =~= start + before.subrange(0, i as int),
        decreases f - i,
    {
        let v: u32 = acc[i];
        into.push(v);
        i = i + 1;
    }
    keep_tail(acc, len - f);
}

/// Drop all but the last `n` samples of an accumulator.
fn keep_tail(acc: &mut Vec<u32>, n: usize)
    requires
        n <= old(acc)@.len(),
    ensures
        final(acc)@ == old(acc)@.subrange(old(acc)@.len() - n, old(acc)@.len() as int),
{
    let ghost before = acc@;
    let len: usize = acc.len();
    let skip: usize = len - n;
    let mut i: usize = 0;
    while i < n
        invariant
            i <= n,
            skip == len - n,
            n <= len,
            len == before.len(),
            acc@.len() == before.len(),
            forall|j: int| 0 <= j < i ==> #[trigger] acc@[j] == before[skip + j],
            forall|j: int| i <= j < before.len() ==> #[trigger] acc@[j] == before[j],
        decreases n - i,
    {
        let v: u32 = acc[skip + i];
        assert(v == before[skip + i]);
        acc.set(i, v);
        i = i + 1;
    }
    acc.truncate(n);
    assert(acc@ =~= before.subrange(before.len() - n, before.len() as int));
}

impl CaptureState {
    /// One drain round: every covered lane with a whole frame gives its oldest, and every
    /// bucket with such a lane advances its clock once, so that all of the bucket's frames
    /// of the round carry the same stamp. Empty when no lane has a whole frame.
    pub fn drain_round(&mut self, plan: &ChannelPlan, n_ch: usize, pool: &FramePool) -> (entries:
        Vec<Entry>)
        requires
            old(self).well_formed(),
            n_ch <= old(self)@.outgoing,
        ensures
            final(self).well_formed(),
            entry_views(entries@) == round_entries(
                old(self)@,
                plan.per_ch_buckets@,
                n_ch as int,
                old(self)@.lanes.len() as int,
            ),
            final(self)@ == after_round(old(self)@, plan.per_ch_buckets@, n_ch as int),
    {
        let ghost m = self@;
        let ghost p = plan.per_ch_buckets@;
        let outgoing: usize = self.outgoing;
        let n: usize = self.lanes.len();
        let mut out: Vec<Entry> = Vec::new();
        let mut stamped: [bool; 4] = [false, false, false, false];
        let mut stamp: [u32; 4] = [0, 0, 0, 0];
        let mut l: usize = 0;
        assert(entry_views(out@) =~= round_entries(m, p, n_ch as int, 0));
        while l < n
            invariant
                l <= n,
                n == 4 * (outgoing + TONE_LEGS),
                n == m.lanes.len(),
                outgoing == m.outgoing,
                n_ch <= outgoing,
                p == plan.per_ch_buckets@,
                self.well_formed(),
                self@.lanes.len() == n,
                self.lanes@.len() == n,
                self@.primed == m.primed,
                self@.clocks.len() == 4,
                self@.total == m.total,
                self@.outgoing == m.outgoing,
                forall|k: int|
                    0 <= k < n ==> #[trigger] self@.lanes[k] == (if k < l {
                        after_round(m, p, n_ch as int).lanes[k]
                    } else {
                        m.lanes[k]
                    }),
                forall|b: int|
                    0 <= b < 4 ==> #[trigger] stamped@[b] == bucket_ready(
                        m,
                        p,
                        n_ch as int,
                        b,
                        l as int,
                    ),
                forall|b: int|
                    0 <= b < 4 ==> #[trigger] self@.clocks[b] == (if stamped@[b] {
                        next_count(m.clocks[b])
                    } else {
                        m.clocks[b]
                    }),
                forall|b: int|
                    0 <= b < 4 && stamped@[b] ==> #[trigger] stamp@[b] == next_count(m.clocks[b])
                        * bucket_frame(b),
                entry_views(out@) == round_entries(m, p, n_ch as int, l as int),
            decreases n - l,
        {
            let ch: usize = l / 4;
            let b: usize = l % 4;
            let f: usize = bucket_frame_samples(b);
            let ghost was = stamped@;
            let ghost prev_out = out@;
            assert(self@.lanes[l as int] == m.lanes[l as int]);
            assert(self@.lanes[l as int] == self.lanes@[l as int].acc@);
            if (ch < n_ch || ch >= outgoing) && plan.uses(ch, b) && self.lanes[l].acc.len() >= f {
                assert(is_ready(m, p, n_ch as int, l as int));
                if !stamped[b] {
                    let ghost before = self@;
                    assert(before.clocks[b as int] == m.clocks[b as int]);
                    stamp[b] = self.clocks.bucket_next_wire_ts(f);
                    stamped[b] = true;
                    assert(bucket_of(f as int) == b);
                    assert(self@.lanes =~= before.lanes);
                    assert(self@.primed =~= before.primed);
                    assert(self@.clocks =~= before.clocks.update(
                        b as int,
                        next_count(m.clocks[b as int]),
                    ));
                }
                let ghost before = self@;
                let mut frame: Vec<u32> = pool.take();
                let mut lane: Lane = Lane { acc: Vec::new(), primed: 0 };
                std::mem::swap(&mut lane, &mut self.lanes[l]);
                let mut acc: Vec<u32> = lane.acc;
                let primed: usize = lane.primed;
                take_front(&mut acc, f, &mut frame);
                let ghost rest = acc@;
                self.lanes.set(l, Lane { acc, primed });
                assert(self@.lanes =~= before.lanes.update(l as int, rest));
                assert(self@.primed =~= before.primed);
                assert(self@.clocks =~= before.clocks);
                assert(frame@ =~= m.lanes[l as int].subrange(0, f as int));
                out.push(Entry { ch, frame: f, pcm: frame, ts: stamp[b] });
                assert(entry_views(out@) =~= entry_views(prev_out).push(
                    EntryView {
                        ch: ch as int,
                        frame: f as int,
                        pcm: m.lanes[l as int].subrange(0, f as int),
                        ts: next_count(m.clocks[b as int]) * f,
                    },
                ));
            } else {
                assert(!is_ready(m, p, n_ch as int, l as int));
            }
            proof {
                assert forall|c: int| 0 <= c < 4 implies #[trigger] stamped@[c] == bucket_ready(
                    m,
                    p,
                    n_ch as int,
                    c,
                    l + 1,
                ) by {
                    assert(was[c] == bucket_ready(m, p, n_ch as int, c, l as int));
                    if bucket_ready(m, p, n_ch as int, c, l as int) {
                        let k = choose|k: int|
                            0 <= k < l && k % 4 == c && #[trigger] is_ready(m, p, n_ch as int, k);
                        assert(is_ready(m, p, n_ch as int, k));
                    }
                    if bucket_ready(m, p, n_ch as int, c, l + 1) && !was[c] {
                        let k = choose|k: int|
                            0 <= k < l + 1 && k % 4 == c && #[trigger] is_ready(
                                m,
                                p,
                                n_ch as int,
                                k,
                            );
                        assert(k == l);
                    }
                }
            }
            l = l + 1;
        }
        proof {
            let want = after_round(m, p, n_ch as int);
            assert(self@.lanes =~= want.lanes);
            assert(self@.clocks =~= want.clocks);
            assert(self@ =~= want);
        }
        out
    }

    /// Drain every whole frame, one round at a time, oldest first.
    pub fn drain(&mut self, plan: &ChannelPlan, n_ch: usize, pool: &FramePool) -> (rounds: Vec<
        Vec<Entry>,
    >)
        requires
            old(self).well_formed(),
            n_ch <= old(self)@.outgoing,
        ensures
            final(self).well_formed(),
            final(self)@ == after_rounds(
                old(self)@,
                plan.per_ch_buckets@,
                n_ch as int,
                rounds@.len(),
            ),
            forall|r: int|
                0 <= r < rounds@.len() ==> (#[trigger] rounds@[r])@.len() > 0 && entry_views(
                    rounds@[r]@,
                ) == round_entries(
                    after_rounds(old(self)@, plan.per_ch_buckets@, n_ch as int, r as nat),
                    plan.per_ch_buckets@,
                    n_ch as int,
                    old(self)@.lanes.len() as int,
                ),
            forall|l: int|
                0 <= l < final(self)@.lanes.len() ==> !#[trigger] is_ready(
                    final(self)@,
                    plan.per_ch_buckets@,
                    n_ch as int,
                    l,
                ),
    {
        let ghost m = self@;
        let ghost p = plan.per_ch_buckets@;
        let mut rounds: Vec<Vec<Entry>> = Vec::new();
        loop
            invariant
                self.well_formed(),
                n_ch <= m.outgoing,
                p == plan.per_ch_buckets@,
                self@ == after_rounds(m, p, n_ch as int, rounds@.len()),
                self@.lanes.len() == m.lanes.len(),
                self@.outgoing == m.outgoing,
                m.clocks.len() == 4,
                forall|r: int|
                    0 <= r < rounds@.len() ==> (#[trigger] rounds@[r])@.len() > 0 && entry_views(
                        rounds@[r]@,
                    ) == round_entries(
                        after_rounds(m, p, n_ch as int, r as nat),
                        p,
                        n_ch as int,
                        m.lanes.len() as int,
                    ),
            ensures
                forall|l: int|
                    0 <= l < self@.lanes.len() ==> !#[trigger] is_ready(
                        self@,
                        p,
                        n_ch as int,
                        l,
                    ),
            decreases backlog(self@.lanes, m.lanes.len() as int),
        {
            let ghost before = self@;
            let entries: Vec<Entry> = self.drain_round(plan, n_ch, pool);
            if entries.len() == 0 {
                proof {
                    assert(entry_views(entries@).len() == 0);
                    lemma_no_entries(before, p, n_ch as int, m.lanes.len() as int);
                    assert(self@ =~= before) by {
                        assert forall|b: int| 0 <= b < 4 implies !bucket_ready(
                            before,
                            p,
                            n_ch as int,
                            b,
                            before.lanes.len() as int,
                        ) by {}
                        assert(self@.lanes =~= before.lanes);
                        lemma_clocks_len(m, p, n_ch as int, rounds@.len());
                        assert(self@.clocks =~= before.clocks);
                    }
                }
                break;
            }
            proof {
                assert(entry_views(entries@).len() > 0);
                lemma_round_shrinks(before, p, n_ch as int, m.lanes.len() as int);
            }
            rounds.push(entries);
        }
        rounds
    }

    /// Bound every lane to two frames. It runs after the drain, so that a callback longer
    /// than two frames is packetised whole; what it catches are lanes the drain does not
    /// visit.
    pub fn guard_backlog(&mut self, plan: &ChannelPlan)
        requires
            old(self).well_formed(),
        ensures
            final(self).well_formed(),
            final(self)@ == guarded(old(self)@, plan.per_ch_buckets@),
    {
        let ghost m = self@;
        let ghost p = plan.per_ch_buckets@;
        let n: usize = self.lanes.len();
        let mut l: usize = 0;
        while l < n
            invariant
                l <= n,
                n == m.lanes.len(),
                self.well_formed(),
                self.lanes@.len() == n,
                p == plan.per_ch_buckets@,
                self@.primed == m.primed,
                self@.clocks == m.clocks,
                self@.total == m.total,
                self@.outgoing == m.outgoing,
                self@.lanes.len() == n,
                forall|k: int|
                    0 <= k < n ==> #[trigger] self@.lanes[k] == (if k < l {
                        guarded_lane(m.lanes[k], p, k)
                    } else {
                        m.lanes[k]
                    }),
            decreases n - l,
        {
            let f: usize = bucket_frame_samples(l % 4);
            let ghost before = self@;
            assert(self@.lanes[l as int] == m.lanes[l as int]);
            let mut lane: Lane = Lane { acc: Vec::new(), primed: 0 };
            std::mem::swap(&mut lane, &mut self.lanes[l]);
            let mut acc: Vec<u32> = lane.acc;
            let primed: usize = lane.primed;
            if !plan.uses(l / 4, l % 4) {
                acc.clear();
            } else if acc.len() > 2 * f {
                keep_tail(&mut acc, 2 * f);
            }
            let ghost now = acc@;
            assert(now =~= guarded_lane(m.lanes[l as int], p, l as int));
            self.lanes.set(l, Lane { acc, primed });
            assert(self@.lanes =~= before.lanes.update(l as int, now));
            assert(self@.primed =~= before.primed);
            assert(self@.clocks =~= before.clocks);
            l = l + 1;
        }
        assert(self@.lanes =~= guarded(m, p).lanes);
        assert(self@ =~= guarded(m, p));
    }
}

/// Samples held in the first `n` lanes.
spec fn backlog(lanes: Seq<Seq<u32>>, n: int) -> nat
    decreases n,
{
    if n <= 0 {
        0
    } else {
        backlog(lanes, n - 1) + lanes[n - 1].len()
    }
}

proof fn lemma_no_entries(m: CaptureModel, plan: Seq<u8>, n_ch: int, n: int)
    requires
        round_entries(m, plan, n_ch, n).len() == 0,
    ensures
        forall|l: int| 0 <= l < n ==> !#[trigger] is_ready(m, plan, n_ch, l),
    decreases n,
{
    if n > 0 {
        lemma_no_entries(m, plan, n_ch, n - 1);
    }
}

proof fn lemma_clocks_len(m: CaptureModel, plan: Seq<u8>, n_ch: int, k: nat)
    requires
        m.clocks.len() == 4,
    ensures
        after_rounds(m, plan, n_ch, k).clocks.len() == 4,
    decreases k,
{
    if k > 0 {
        lemma_clocks_len(m, plan, n_ch, (k - 1) as nat);
    }
}

proof fn lemma_round_shrinks(m: CaptureModel, plan: Seq<u8>, n_ch: int, n: int)
    requires
        0 <= n <= m.lanes.len(),
    ensures
        backlog(after_round(m, plan, n_ch).lanes, n) <= backlog(m.lanes, n),
        round_entries(m, plan, n_ch, n).len() > 0 ==> backlog(
            after_round(m, plan, n_ch).lanes,
            n,
        ) < backlog(m.lanes, n),
    decreases n,
{
    if n > 0 {
        lemma_round_shrinks(m, plan, n_ch, n - 1);
    }
}

/// The first `n` lanes have been fed and the others not yet touched.
spec fn partly_fed(
    now: CaptureModel,
    m: CaptureModel,
    plan: Seq<u8>,
    i: CallbackInput,
    n: int,
) -> bool {
    &&& now.lanes.len() == m.lanes.len()
    &&& now.primed.len() == m.primed.len()
    &&& forall|l: int|
        0 <= l < m.lanes.len() ==> #[trigger] now.lanes[l] == (if l < n {
            fed_lane(m, plan, i, l)
        } else {
            m.lanes[l]
        })
    &&& forall|l: int|
        0 <= l < m.lanes.len() ==> #[trigger] now.primed[l] == (if l < n {
            fed_primed(m, plan, i, l)
        } else {
            m.primed[l]
        })
    &&& now.clocks == m.clocks
    &&& now.total == m.total
    &&& now.outgoing == m.outgoing
}

/// What one callback hands on.
pub struct CallbackOutput {
    /// One send job's frames per drain round, oldest round first.
    pub rounds: Vec<Vec<Entry>>,
    /// Peak of each hardware channel that the device covers.
    pub peaks: Vec<u32>,
    /// Peaks of the two tone legs.
    pub tone_peaks: (u32, u32),
}

impl CaptureState {
    /// One capture callback: feed, drain every whole frame, and bound what is left.
    pub fn capture_callback(
        &mut self,
        data: &Vec<u32>,
        num_hw_ch: usize,
        plan: &ChannelPlan,
        tone_l: &Vec<u32>,
        tone_r: &Vec<u32>,
        pool: &FramePool,
    ) -> (out: CallbackOutput)
        requires
            old(self).well_formed(),
            num_hw_ch > 0,
        ensures
            final(self).well_formed(),
            ({
                let p = plan.per_ch_buckets@;
                let n_ch = live_channels(old(self)@.outgoing, num_hw_ch as int);
                let f = fed(
                    old(self)@,
                    p,
                    (CallbackInput {
                        data: data@,
                        num_hw_ch: num_hw_ch as int,
                        tone_l: tone_l@,
                        tone_r: tone_r@,
                    }),
                );
                let end = after_rounds(f, p, n_ch, out.rounds@.len());
                &&& final(self)@ == guarded(end, p)
                &&& forall|l: int| 0 <= l < end.lanes.len() ==> !#[trigger] is_ready(end, p, n_ch, l)
                &&& forall|r: int|
                    0 <= r < out.rounds@.len() ==> (#[trigger] out.rounds@[r])@.len() > 0
                        && entry_views(out.rounds@[r]@) == round_entries(
                        after_rounds(f, p, n_ch, r as nat),
                        p,
                        n_ch,
                        f.lanes.len() as int,
                    )
                &&& out.peaks@.len() == n_ch
                &&& forall|ch: int|
                    0 <= ch < n_ch ==> #[trigger] out.peaks@[ch] == peak_over(
                        strided(data@, ch, num_hw_ch as int),
                        SILENCE,
                    )
                &&& out.tone_peaks == (
                    peak_over(tone_l@, SILENCE),
                    peak_over(tone_r@, SILENCE),
                )
            }),
    {
        let peaks: Vec<u32> = self.feed(data, num_hw_ch, plan, tone_l, tone_r);
        let tone_peaks: (u32, u32) = (peak_of(tone_l), peak_of(tone_r));
        let n_ch: usize = if self.outgoing < num_hw_ch {
            self.outgoing
        } else {
            num_hw_ch
        };
        let rounds: Vec<Vec<Entry>> = self.drain(plan, n_ch, pool);
        self.guard_backlog(plan);
        CallbackOutput { rounds, peaks, tone_peaks }
    }
}

/// A model of the shape every capture state has.
pub open spec fn shaped(m: CaptureModel) -> bool {
    &&& m.outgoing >= 0
    &&& m.lanes.len() == 4 * (m.outgoing + TONE_LEGS)
    &&& m.primed.len() == m.lanes.len()
    &&& m.total >= 0
}

/// The callback delivers `k` whole samples of every channel and as much tone, and the
/// capture clock does not reach its end.
pub open spec fn whole_callback(m: CaptureModel, i: CallbackInput, k: int) -> bool {
    &&& i.num_hw_ch > 0
    &&& k >= 0
    &&& i.data.len() == k * i.num_hw_ch
    &&& i.tone_l.len() == k
    &&& i.tone_r.len() == k
    &&& m.total + k < 0x1_0000_0000_0000_0000
}

/// Every lane in use stands on its bucket's grid: its length agrees with the capture clock
/// modulo the frame.
pub open spec fn grid_kept(m: CaptureModel) -> bool {
    forall|l: int|
        0 <= l < m.lanes.len() && #[trigger] m.primed[l] != 0 ==> m.primed[l] == bucket_frame(l % 4)
            && m.lanes[l].len() as int % bucket_frame(l % 4) == m.total % bucket_frame(l % 4)
}

/// Every lane in use holds less than a frame.
pub open spec fn rested(m: CaptureModel) -> bool {
    forall|l: int|
        0 <= l < m.lanes.len() && #[trigger] m.primed[l] != 0 ==> m.lanes[l].len() < bucket_frame(
            l % 4,
        )
}

proof fn lemma_strided_len(data: Seq<u32>, start: int, step: int, k: int)
    requires
        step > 0,
        k >= 0,
        0 <= start,
        data.len() > start + (k - 1) * step,
        data.len() <= start + k * step,
    ensures
        strided(data, start, step).len() == k,
    decreases k,
{
    if k > 0 {
        assert((k - 1) * step == (k - 2) * step + step) by (nonlinear_arith);
        assert(k * step == (k - 1) * step + step) by (nonlinear_arith);
        assert((k - 1) * step >= 0) by (nonlinear_arith)
            requires
                k >= 1,
                step > 0,
        ;
        lemma_strided_len(data, start + step, step, k - 1);
    } else {
        assert(k * step == 0) by (nonlinear_arith)
            requires
                k == 0,
        ;
    }
}

proof fn lemma_channel_len(i: CallbackInput, ch: int, k: int)
    requires
        i.num_hw_ch > 0,
        k >= 0,
        0 <= ch < i.num_hw_ch,
        i.data.len() == k * i.num_hw_ch,
    ensures
        strided(i.data, ch, i.num_hw_ch).len() == k,
{
    let step = i.num_hw_ch;
    assert(k * step == (k - 1) * step + step) by (nonlinear_arith);
    if k > 0 {
        lemma_strided_len(i.data, ch, step, k);
    } else {
        assert(k * step == 0) by (nonlinear_arith)
            requires
                k == 0,
        ;
    }
}

/// Lengths on one grid stay on it as both grow alike.
proof fn lemma_same_grid(len: int, total: int, k: int, f: int)
    requires
        f > 0,
        len % f == total % f,
    ensures
        (len + k) % f == (total + k) % f,
{
    vstd::arithmetic::div_mod::lemma_add_mod_noop(len, k, f);
    vstd::arithmetic::div_mod::lemma_add_mod_noop(total, k, f);
}

/// A lane put on the grid stands on it, holding no more than the clock is past the grid where
/// it held less than a frame.
proof fn lemma_on_grid(acc: Seq<u32>, prev: int, f: int, total: int)
    requires
        f > 0,
        total >= 0,
        prev == f ==> acc.len() as int % f == total % f,
    ensures
        on_grid(acc, prev, f, total).len() as int % f == total % f,
        prev != f || acc.len() < f ==> on_grid(acc, prev, f, total).len() == total % f,
{
    vstd::arithmetic::div_mod::lemma_mod_bound(total, f);
    if prev != f {
        vstd::arithmetic::div_mod::lemma_small_mod((total % f) as nat, f as nat);
    } else if acc.len() < f {
        vstd::arithmetic::div_mod::lemma_small_mod(acc.len(), f as nat);
    }
}

/// The length of a lane in use once a whole callback is in, and that it stays on the grid.
#[verifier::spinoff_prover]
proof fn lemma_fed_lane_len(m: CaptureModel, plan: Seq<u8>, i: CallbackInput, k: int, l: int)
    requires
        shaped(m),
        grid_kept(m),
        whole_callback(m, i, k),
        0 <= l < m.lanes.len(),
        fed_primed(m, plan, i, l) != 0,
    ensures
        fed_primed(m, plan, i, l) == bucket_frame(l % 4),
        in_use(plan, l / 4, l % 4),
        covered(m, live_channels(m.outgoing, i.num_hw_ch), l),
        fed(m, plan, i).total == m.total + k,
        fed_lane(m, plan, i, l).len() as int % bucket_frame(l % 4) == (m.total + k) % bucket_frame(
            l % 4,
        ),
        rested(m) ==> fed_lane(m, plan, i, l).len() == m.total % bucket_frame(l % 4) + k,
{
    let ch = l / 4;
    let f = bucket_frame(l % 4);
    let base = on_grid(m.lanes[l], m.primed[l], f, m.total);
    let step = i.num_hw_ch;
    assert((k * step) / step == k) by (nonlinear_arith)
        requires
            step > 0,
    ;
    assert(i.data.len() / step as nat == k);
    if ch < live_channels(m.outgoing, i.num_hw_ch) {
        lemma_channel_len(i, ch, k);
    }
    assert(fed_lane(m, plan, i, l).len() == base.len() + k);
    assert(m.primed[l] == f ==> m.lanes[l].len() as int % f == m.total % f);
    lemma_on_grid(m.lanes[l], m.primed[l], f, m.total);
    lemma_same_grid(base.len() as int, m.total, k, f);
}

proof fn lemma_rounds_keep_shape(m: CaptureModel, plan: Seq<u8>, n_ch: int, k: nat)
    ensures
        ({
            let end = after_rounds(m, plan, n_ch, k);
            &&& end.lanes.len() == m.lanes.len()
            &&& end.primed == m.primed
            &&& end.total == m.total
            &&& end.outgoing == m.outgoing
            &&& forall|l: int|
                0 <= l < m.lanes.len() ==> (#[trigger] end.lanes[l]).len() as int % bucket_frame(
                    l % 4,
                ) == m.lanes[l].len() as int % bucket_frame(l % 4)
        }),
    decreases k,
{
    if k > 0 {
        lemma_rounds_keep_shape(m, plan, n_ch, (k - 1) as nat);
        let prev = after_rounds(m, plan, n_ch, (k - 1) as nat);
        let end = after_round(prev, plan, n_ch);
        assert forall|l: int| 0 <= l < m.lanes.len() implies (#[trigger] end.lanes[l]).len() as int
            % bucket_frame(l % 4) == m.lanes[l].len() as int % bucket_frame(l % 4) by {
            let f = bucket_frame(l % 4);
            let len = prev.lanes[l].len() as int;
            vstd::arithmetic::div_mod::lemma_mod_sub_multiples_vanish(len, f);
        }
    }
}

/// A callback keeps every lane on its frame grid, whatever came into or went out of use with
/// it, and leaves each lane in use holding exactly the part of a frame that the capture clock
/// is past the grid.
pub proof fn law_callback_keeps_the_grid(
    m: CaptureModel,
    plan: Seq<u8>,
    i: CallbackInput,
    k: int,
    rounds: nat,
)
    requires
        shaped(m),
        grid_kept(m),
        whole_callback(m, i, k),
        ({
            let n_ch = live_channels(m.outgoing, i.num_hw_ch);
            let end = after_rounds(fed(m, plan, i), plan, n_ch, rounds);
            forall|l: int| 0 <= l < end.lanes.len() ==> !#[trigger] is_ready(end, plan, n_ch, l)
        }),
    ensures
        ({
            let n_ch = live_channels(m.outgoing, i.num_hw_ch);
            let end = guarded(after_rounds(fed(m, plan, i), plan, n_ch, rounds), plan);
            &&& shaped(end)
            &&& grid_kept(end)
            &&& rested(end)
            &&& end.total == m.total + k
        }),
{
    let n_ch = live_channels(m.outgoing, i.num_hw_ch);
    let f = fed(m, plan, i);
    let drained = after_rounds(f, plan, n_ch, rounds);
    let end = guarded(drained, plan);
    lemma_rounds_keep_shape(f, plan, n_ch, rounds);
    let step = i.num_hw_ch;
    assert((k * step) / step == k) by (nonlinear_arith)
        requires
            step > 0,
    ;
    assert(i.data.len() / step as nat == k);
    assert(f.total == m.total + k);
    assert forall|l: int| 0 <= l < end.lanes.len() && #[trigger] end.primed[l] != 0 implies
        end.primed[l] == bucket_frame(l % 4) && end.lanes[l].len() as int % bucket_frame(l % 4)
        == end.total % bucket_frame(l % 4) && end.lanes[l].len() < bucket_frame(l % 4) by {
        assert(end.primed[l] == fed_primed(m, plan, i, l));
        lemma_fed_lane_len(m, plan, i, k, l);
        assert(!is_ready(drained, plan, n_ch, l));
        assert(drained.lanes[l].len() < bucket_frame(l % 4));
        assert(drained.lanes[l].len() as int % bucket_frame(l % 4) == f.lanes[l].len() as int
            % bucket_frame(l % 4));
        assert(end.lanes[l] == drained.lanes[l]);
    }
}

/// Channels sharing a frame size complete their frames on the same samples: from rest, two
/// lanes of one bucket hold equally many samples once a callback is in and after every drain
/// round of it, so each gives a frame in exactly the rounds in which the other does.
pub proof fn law_siblings_drain_together(
    m: CaptureModel,
    plan: Seq<u8>,
    i: CallbackInput,
    k: int,
    l1: int,
    l2: int,
    r: nat,
)
    requires
        shaped(m),
        grid_kept(m),
        rested(m),
        whole_callback(m, i, k),
        0 <= l1 < m.lanes.len(),
        0 <= l2 < m.lanes.len(),
        l1 % 4 == l2 % 4,
        fed_primed(m, plan, i, l1) != 0,
        fed_primed(m, plan, i, l2) != 0,
    ensures
        ({
            let n_ch = live_channels(m.outgoing, i.num_hw_ch);
            let at = after_rounds(fed(m, plan, i), plan, n_ch, r);
            &&& at.lanes[l1].len() == at.lanes[l2].len()
            &&& is_ready(at, plan, n_ch, l1) == is_ready(at, plan, n_ch, l2)
        }),
    decreases r,
{
    let n_ch = live_channels(m.outgoing, i.num_hw_ch);
    let f = fed(m, plan, i);
    lemma_fed_lane_len(m, plan, i, k, l1);
    lemma_fed_lane_len(m, plan, i, k, l2);
    lemma_rounds_keep_shape(f, plan, n_ch, r);
    if r > 0 {
        law_siblings_drain_together(m, plan, i, k, l1, l2, (r - 1) as nat);
        lemma_rounds_keep_shape(f, plan, n_ch, (r - 1) as nat);
    }
}

/// What a lane gave in the first `k` rounds, in order.
pub open spec fn given(m: CaptureModel, plan: Seq<u8>, n_ch: int, l: int, k: nat) -> Seq<u32>
    decreases k,
{
    if k == 0 {
        Seq::empty()
    } else {
        let at = after_rounds(m, plan, n_ch, (k - 1) as nat);
        let before = given(m, plan, n_ch, l, (k - 1) as nat);
        if is_ready(at, plan, n_ch, l) {
            before + at.lanes[l].subrange(0, bucket_frame(l % 4))
        } else {
            before
        }
    }
}

/// Draining loses nothing and reorders nothing: the frames a lane gave, followed by what it
/// still holds, are what it held.
pub proof fn law_drain_loses_nothing(m: CaptureModel, plan: Seq<u8>, n_ch: int, l: int, k: nat)
    requires
        0 <= l < m.lanes.len(),
    ensures
        given(m, plan, n_ch, l, k) + after_rounds(m, plan, n_ch, k).lanes[l] == m.lanes[l],
    decreases k,
{
    lemma_rounds_keep_shape(m, plan, n_ch, k);
    if k == 0 {
        assert(Seq::<u32>::empty() + m.lanes[l] =~= m.lanes[l]);
    } else {
        law_drain_loses_nothing(m, plan, n_ch, l, (k - 1) as nat);
        lemma_rounds_keep_shape(m, plan, n_ch, (k - 1) as nat);
        let at = after_rounds(m, plan, n_ch, (k - 1) as nat);
        assert(given(m, plan, n_ch, l, k) + after_rounds(m, plan, n_ch, k).lanes[l] =~= given(
            m,
            plan,
            n_ch,
            l,
            (k - 1) as nat,
        ) + at.lanes[l]);
    }
}

/// Frames of one size drained in one round carry one and the same stamp.
pub proof fn law_a_round_shares_one_stamp(
    m: CaptureModel,
    plan: Seq<u8>,
    n_ch: int,
    n: int,
    a: int,
    b: int,
)
    requires
        0 <= n <= m.lanes.len(),
        0 <= a < round_entries(m, plan, n_ch, n).len(),
        0 <= b < round_entries(m, plan, n_ch, n).len(),
        round_entries(m, plan, n_ch, n)[a].frame == round_entries(m, plan, n_ch, n)[b].frame,
    ensures
        round_entries(m, plan, n_ch, n)[a].ts == round_entries(m, plan, n_ch, n)[b].ts,
{
    lemma_entry_stamp(m, plan, n_ch, n, a);
    lemma_entry_stamp(m, plan, n_ch, n, b);
}

proof fn lemma_entry_stamp(m: CaptureModel, plan: Seq<u8>, n_ch: int, n: int, a: int)
    requires
        0 <= a < round_entries(m, plan, n_ch, n).len(),
    ensures
        ({
            let e = round_entries(m, plan, n_ch, n)[a];
            e.ts == next_count(m.clocks[bucket_of(e.frame)]) * e.frame
        }),
    decreases n,
{
    if n > 0 {
        let rest = round_entries(m, plan, n_ch, n - 1);
        if a < rest.len() {
            lemma_entry_stamp(m, plan, n_ch, n - 1, a);
        }
    }
}

/// A stamp for the wire never wraps, for any frame size the wire carries.
pub proof fn law_wire_stamps_never_wrap(c: int, b: int)
    requires
        0 <= c <= TS_COUNTER_WRAP,
        0 <= b < 4,
    ensures
        0 <= next_count(c) <= TS_COUNTER_WRAP,
        0 <= next_count(c) * bucket_frame(b) < 0x1_0000_0000,
{
    let next = next_count(c);
    let f = bucket_frame(b);
    assert(0 <= next * f <= 4_473_923 * 960) by (nonlinear_arith)
        requires
            0 <= next <= 4_473_923,
            0 <= f <= 960,
    ;
}

} // verus!
