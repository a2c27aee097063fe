//! What the capture callback promises: which samples reach which frame, at which stamp, and
//! what the meters show of them.

use vstd::prelude::*;

use crate::audio::capture::{
    after_round, bucket_frame, bucket_of, fed, fed_lane, fed_primed, guarded_lane, in_use, is_ready,
    live_channels, next_count, on_grid, peak_over, round_entries, strided, tone_channel,
    BucketClocks, CallbackInput, CaptureModel, EntryView,
};
use crate::audio::geometry::is_frame_size;
use crate::audio::sample::{less_than, magnitude};
use crate::pick::{count, law_picked, picked};

verus! {

/// A channel of interleaved data is every sample `step` apart from its own first, to the end.
pub proof fn law_a_channel_is_every_nth_sample(data: Seq<u32>, ch: int, step: int, i: int)
    requires
        0 <= ch < step,
    ensures
        0 <= i < strided(data, ch, step).len() <==> 0 <= i && ch + i * step < data.len(),
        0 <= i < strided(data, ch, step).len() ==> strided(data, ch, step)[i] == data[ch + i
            * step],
{
    lemma_strided(data, ch, step, i);
}

proof fn lemma_strided(data: Seq<u32>, start: int, step: int, i: int)
    requires
        0 <= start,
        0 < step,
    ensures
        0 <= i < strided(data, start, step).len() <==> 0 <= i && start + i * step < data.len(),
        0 <= i < strided(data, start, step).len() ==> strided(data, start, step)[i] == data[start
            + i * step],
    decreases
            (if start < data.len() {
                data.len() - start
            } else {
                0
            }),
{
    if start < data.len() {
        let rest = strided(data, start + step, step);
        let all = strided(data, start, step);
        assert(all == seq![data[start]] + rest);
        lemma_strided(data, start + step, step, i - 1);
        assert((i - 1) * step == i * step - step) by (nonlinear_arith);
        if i == 0 {
            assert(0 * step == 0);
        }
        if i > 0 {
            assert(i < all.len() <==> i - 1 < rest.len());
            if i < all.len() {
                assert(all[i] == rest[i - 1]);
            }
        }
    } else {
        assert(i >= 0 ==> i * step >= 0) by (nonlinear_arith)
            requires
                step > 0,
        ;
    }
}

/// A peak is the largest magnitude among the samples that are numbers: silence or one of them,
/// and none is larger. A magnitude is the pattern without its sign.
pub proof fn law_the_peak_is_the_loudest(s: Seq<u32>, i: int)
    requires
        0 <= i < s.len(),
    ensures
        s[i] % 0x8000_0000 <= 0x7f80_0000 ==> s[i] % 0x8000_0000 <= peak_over(s, 0),
        peak_over(s, 0) <= 0x7f80_0000,
        peak_over(s, 0) == 0 || exists|j: int|
            0 <= j < s.len() && peak_over(s, 0) == #[trigger] s[j] % 0x8000_0000,
{
    lemma_peak(s, 0, i);
}

proof fn lemma_peak(s: Seq<u32>, peak: u32, i: int)
    requires
        peak <= 0x7f80_0000,
    ensures
        peak <= peak_over(s, peak) <= 0x7f80_0000,
        0 <= i < s.len() && s[i] % 0x8000_0000 <= 0x7f80_0000 ==> s[i] % 0x8000_0000 <= peak_over(
            s,
            peak,
        ),
        peak_over(s, peak) == peak || exists|j: int|
            0 <= j < s.len() && peak_over(s, peak) == #[trigger] s[j] % 0x8000_0000,
    decreases s.len(),
{
    if s.len() > 0 {
        let m = magnitude(s[0]) as u32;
        let next = if less_than(peak, m) {
            m
        } else {
            peak
        };
        let rest = s.drop_first();
        assert(m == s[0] % 0x8000_0000);
        lemma_peak(rest, next, i - 1);
        let p = peak_over(s, peak);
        assert(p == peak_over(rest, next));
        if i > 0 && i < s.len() {
            assert(rest[i - 1] == s[i]);
        }
        if p != next {
            let j = choose|j: int| 0 <= j < rest.len() && p == #[trigger] rest[j] % 0x8000_0000;
            assert(s[j + 1] == rest[j]);
        } else if next == m {
            assert(p == s[0] % 0x8000_0000);
        }
    }
}

/// Each frame size has a bucket and each bucket a frame size, and they agree.
pub proof fn law_buckets_and_frame_sizes_agree(frame: int, b: int)
    ensures
        is_frame_size(frame) ==> bucket_frame(bucket_of(frame)) == frame && 0 <= bucket_of(frame)
            < 4,
        0 <= b < 4 ==> bucket_of(bucket_frame(b)) == b && is_frame_size(bucket_frame(b)),
        bucket_frame(0) == 120,
        bucket_frame(1) == 240,
        bucket_frame(2) == 480,
        bucket_frame(3) == 960,
{
}

/// A bucket is in use on a channel where the channel's entry has the bucket's bit: 1, 2, 4 and
/// 8 for the four frame sizes.
pub proof fn law_a_bucket_has_its_bit(plan: Seq<u8>, ch: int)
    ensures
        !(0 <= ch < plan.len()) ==> forall|b: int| !#[trigger] in_use(plan, ch, b),
        0 <= ch < plan.len() ==> (in_use(plan, ch, 0) <==> plan[ch] & 1 == 1) && (in_use(
            plan,
            ch,
            1,
        ) <==> plan[ch] & 2 == 2) && (in_use(plan, ch, 2) <==> plan[ch] & 4 == 4) && (in_use(
            plan,
            ch,
            3,
        ) <==> plan[ch] & 8 == 8),
{
    if 0 <= ch < plan.len() {
        let v = plan[ch];
        assert(((v >> 0u8) & 1 == 1 <==> v & 1 == 1) && ((v >> 1u8) & 1 == 1 <==> v & 2 == 2) && ((v
            >> 2u8) & 1 == 1 <==> v & 4 == 4) && ((v >> 3u8) & 1 == 1 <==> v & 8 == 8))
            by (bit_vector);
    }
}

/// A lane that comes into use, or changes its frame size, starts over with as much silence as
/// the capture clock is past the frame grid; any other keeps what it holds.
pub proof fn law_a_lane_starts_on_the_grid(acc: Seq<u32>, prev: int, frame: int, total: int)
    requires
        frame >= 0,
        total >= 0,
    ensures
        frame == 0 || frame == prev ==> on_grid(acc, prev, frame, total) == acc,
        frame > 0 && frame != prev ==> on_grid(acc, prev, frame, total).len() == total % frame,
        frame > 0 && frame != prev ==> forall|i: int|
            0 <= i < total % frame ==> #[trigger] on_grid(acc, prev, frame, total)[i] == 0,
{
}

/// What one callback adds to a lane. A hardware channel that the device has adds its own
/// samples, a tone leg its tone, each behind what the lane held or the silence it starts with;
/// a channel the device does not have is left as it is. A lane not in use gains nothing, and a
/// tone lane not in use is emptied.
pub proof fn law_each_lane_gets_its_own_samples(
    m: CaptureModel,
    plan: Seq<u8>,
    i: CallbackInput,
    ch: int,
    b: int,
)
    requires
        0 <= ch < m.outgoing + 2,
        0 <= b < 4,
        m.lanes.len() == 4 * (m.outgoing + 2),
        i.num_hw_ch > 0,
        m.outgoing >= 0,
    ensures
        ({
            let l = 4 * ch + b;
            let used = in_use(plan, ch, b);
            let start = on_grid(m.lanes[l], m.primed[l], bucket_frame(b), m.total);
            let after = fed(m, plan, i);
            let hardware = ch < m.outgoing && ch < i.num_hw_ch;
            &&& after.lanes.len() == m.lanes.len()
            &&& hardware && used ==> after.lanes[l] == start + strided(i.data, ch, i.num_hw_ch)
            &&& hardware && !used ==> after.lanes[l] == m.lanes[l]
            &&& ch < m.outgoing && ch >= i.num_hw_ch ==> after.lanes[l] == m.lanes[l]
                && after.primed[l] == 0
            &&& ch == m.outgoing && used ==> after.lanes[l] == start + i.tone_l
            &&& ch == m.outgoing + 1 && used ==> after.lanes[l] == start + i.tone_r
            &&& ch >= m.outgoing && !used ==> after.lanes[l].len() == 0
            &&& hardware || ch >= m.outgoing ==> after.primed[l] == (if used {
                bucket_frame(b)
            } else {
                0
            })
            &&& after.clocks == m.clocks
            &&& after.total == (m.total + i.data.len() as int / i.num_hw_ch)
                % 0x1_0000_0000_0000_0000
            &&& after.outgoing == m.outgoing
        }),
{
    let l = 4 * ch + b;
    assert(l / 4 == ch && l % 4 == b);
    assert(fed(m, plan, i).lanes[l] == fed_lane(m, plan, i, l));
    assert(fed(m, plan, i).primed[l] == fed_primed(m, plan, i, l));
}

/// The lane gives a frame this round: its channel is one the device has or a tone leg, it is
/// in use, and it holds a whole frame.
pub open spec fn gives_a_frame(m: CaptureModel, plan: Seq<u8>, n_ch: int) -> spec_fn(int) -> bool {
    |l: int|
        0 <= l < m.lanes.len() && (l / 4 < n_ch || l / 4 >= m.outgoing) && in_use(
            plan,
            l / 4,
            l % 4,
        ) && m.lanes[l].len() >= bucket_frame(l % 4)
}

/// One round gives exactly one frame for every lane that has one: its oldest samples, under
/// its channel and frame size, stamped with its bucket's next count in samples.
pub proof fn law_a_round_gives_each_lane_s_oldest_frame(
    m: CaptureModel,
    plan: Seq<u8>,
    n_ch: int,
    e: EntryView,
)
    ensures
        ({
            let n = m.lanes.len() as int;
            let all = round_entries(m, plan, n_ch, n);
            &&& all.len() == count(n, gives_a_frame(m, plan, n_ch))
            &&& all.contains(e) <==> exists|l: int|
                0 <= l < n && #[trigger] gives_a_frame(m, plan, n_ch)(l) && e.ch == l / 4
                    && e.frame == bucket_frame(l % 4) && e.pcm == m.lanes[l].subrange(
                    0,
                    bucket_frame(l % 4),
                ) && e.ts == next_count(m.clocks[l % 4]) * bucket_frame(l % 4)
        }),
{
    let n = m.lanes.len() as int;
    let f = entry_of(m);
    lemma_round_picked(m, plan, n_ch, n);
    law_picked(n, gives_a_frame(m, plan, n_ch), f);
    if exists|l: int|
        0 <= l < n && #[trigger] gives_a_frame(m, plan, n_ch)(l) && e.ch == l / 4 && e.frame
            == bucket_frame(l % 4) && e.pcm == m.lanes[l].subrange(0, bucket_frame(l % 4)) && e.ts
            == next_count(m.clocks[l % 4]) * bucket_frame(l % 4) {
        let l = choose|l: int|
            0 <= l < n && #[trigger] gives_a_frame(m, plan, n_ch)(l) && e.ch == l / 4 && e.frame
                == bucket_frame(l % 4) && e.pcm == m.lanes[l].subrange(0, bucket_frame(l % 4))
                && e.ts == next_count(m.clocks[l % 4]) * bucket_frame(l % 4);
        assert(gives_a_frame(m, plan, n_ch)(l) && f(l) == e);
    }
    if round_entries(m, plan, n_ch, n).contains(e) {
        let l = choose|l: int| 0 <= l < n && #[trigger] gives_a_frame(m, plan, n_ch)(l) && f(l) == e;
        assert(gives_a_frame(m, plan, n_ch)(l));
    }
}

spec fn entry_of(m: CaptureModel) -> spec_fn(int) -> EntryView {
    |l: int|
        EntryView {
            ch: l / 4,
            frame: bucket_frame(l % 4),
            pcm: m.lanes[l].subrange(0, bucket_frame(l % 4)),
            ts: next_count(m.clocks[l % 4]) * bucket_frame(l % 4),
        }
}

proof fn lemma_round_picked(m: CaptureModel, plan: Seq<u8>, n_ch: int, n: int)
    requires
        0 <= n <= m.lanes.len(),
    ensures
        round_entries(m, plan, n_ch, n) == picked(
            n,
            gives_a_frame(m, plan, n_ch),
            entry_of(m),
        ),
    decreases n,
{
    if n > 0 {
        lemma_round_picked(m, plan, n_ch, n - 1);
        assert(is_ready(m, plan, n_ch, n - 1) == gives_a_frame(m, plan, n_ch)(n - 1));
    }
}

/// What a round leaves: a lane that gave a frame keeps its samples from that frame on, any
/// other keeps all; a bucket's count goes on by one exactly where some lane of it gave a frame.
pub proof fn law_what_a_round_leaves(m: CaptureModel, plan: Seq<u8>, n_ch: int, l: int, b: int)
    requires
        0 <= l < m.lanes.len(),
        0 <= b < 4,
    ensures
        ({
            let end = after_round(m, plan, n_ch);
            let f = bucket_frame(l % 4);
            &&& end.lanes.len() == m.lanes.len()
            &&& gives_a_frame(m, plan, n_ch)(l) ==> m.lanes[l] == m.lanes[l].subrange(0, f)
                + end.lanes[l]
            &&& !gives_a_frame(m, plan, n_ch)(l) ==> end.lanes[l] == m.lanes[l]
            &&& gives_a_frame(m, plan, n_ch)(l) && l % 4 == b ==> end.clocks[b] == next_count(
                m.clocks[b],
            )
            &&& (forall|k: int| k % 4 == b ==> !#[trigger] gives_a_frame(m, plan, n_ch)(k))
                ==> end.clocks[b] == m.clocks[b]
            &&& end.total == m.total && end.primed == m.primed && end.outgoing == m.outgoing
        }),
{
    let end = after_round(m, plan, n_ch);
    let f = bucket_frame(l % 4);
    assert forall|k: int| #[trigger] is_ready(m, plan, n_ch, k) == gives_a_frame(m, plan, n_ch)(k) by {}
    if gives_a_frame(m, plan, n_ch)(l) {
        assert(m.lanes[l] =~= m.lanes[l].subrange(0, f) + end.lanes[l]);
        assert(is_ready(m, plan, n_ch, l));
    }
}

/// A bucket counts its frames one by one, from 0 again after the last count whose stamp fits
/// 32 bits at every frame size.
pub proof fn law_frames_are_counted_one_by_one(c: int)
    requires
        0 <= c <= 4_473_923,
    ensures
        c < 4_473_923 ==> next_count(c) == c + 1,
        c == 4_473_923 ==> next_count(c) == 0,
{
}

/// Between callbacks a lane holds its newest samples and no more than two frames; one that is
/// not in use holds none.
pub proof fn law_a_backlog_keeps_its_newest_two_frames(lane: Seq<u32>, plan: Seq<u8>, ch: int, b: int)
    requires
        ch >= 0,
        0 <= b < 4,
    ensures
        ({
            let kept = guarded_lane(lane, plan, 4 * ch + b);
            &&& !in_use(plan, ch, b) ==> kept.len() == 0
            &&& in_use(plan, ch, b) ==> kept.len() <= 2 * bucket_frame(b)
            &&& in_use(plan, ch, b) ==> kept.is_suffix_of(lane)
            &&& in_use(plan, ch, b) && lane.len() <= 2 * bucket_frame(b) ==> kept == lane
            &&& in_use(plan, ch, b) && lane.len() > 2 * bucket_frame(b) ==> kept.len() == 2
                * bucket_frame(b)
        }),
{
    let l = 4 * ch + b;
    assert(l / 4 == ch && l % 4 == b);
    let kept = guarded_lane(lane, plan, l);
    if in_use(plan, ch, b) {
        assert(lane.subrange(lane.len() - kept.len(), lane.len() as int) =~= kept);
    }
}

/// The channels fed and drained are as many as both the device and the daemon have.
pub proof fn law_live_channels_are_what_both_have(outgoing: int, num_hw_ch: int, ch: int)
    ensures
        ch < live_channels(outgoing, num_hw_ch) <==> ch < outgoing && ch < num_hw_ch,
{
}

/// The tone's two legs stand directly behind the hardware channels, the left one first.
pub proof fn law_tone_legs_follow_the_hardware(num_out_ch: usize, left: usize, right: usize)
    requires
        call_ensures(tone_channel, (num_out_ch, 1u8), left),
        call_ensures(tone_channel, (num_out_ch, 2u8), right),
    ensures
        left == num_out_ch,
        right == left + 1,
{
}

/// The stamp of a frame is its number times its size; each size is numbered for itself.
pub proof fn law_each_frame_size_is_numbered_for_itself(
    c: &mut BucketClocks,
    frame: usize,
    ts: u32,
    b: int,
)
    requires
        frame == 120 || frame == 240 || frame == 480 || frame == 960,
        call_ensures(BucketClocks::bucket_next_wire_ts, (c, frame), ts),
        0 <= b < 4,
    ensures
        bucket_frame(b) == frame ==> ts == final(c).counters@[b] * frame,
        bucket_frame(b) == frame && old(c).counters@[b] < 4_473_923 ==> final(c).counters@[b]
            == old(c).counters@[b] + 1,
        bucket_frame(b) != frame ==> final(c).counters@[b] == old(c).counters@[b],
{
}

/// A round's frames come channel by channel, and of one channel from the shortest frame size to
/// the longest.
pub proof fn law_a_round_comes_channel_by_channel(m: CaptureModel, plan: Seq<u8>, n_ch: int, n: int)
    requires
        0 <= n <= m.lanes.len(),
    ensures
        ({
            let all = round_entries(m, plan, n_ch, n);
            &&& forall|a: int|
                0 <= a < all.len() ==> 4 * (#[trigger] all[a]).ch + bucket_of(all[a].frame) < n
            &&& forall|a: int, b: int|
                0 <= a < b < all.len() ==> (#[trigger] all[a]).ch < (#[trigger] all[b]).ch || (
                all[a].ch == all[b].ch && all[a].frame < all[b].frame)
        }),
    decreases n,
{
    if n > 0 {
        law_a_round_comes_channel_by_channel(m, plan, n_ch, n - 1);
        let rest = round_entries(m, plan, n_ch, n - 1);
        let all = round_entries(m, plan, n_ch, n);
        assert forall|a: int| 0 <= a < all.len() implies 4 * (#[trigger] all[a]).ch + bucket_of(
            all[a].frame,
        ) < n by {
            if a < rest.len() {
                assert(all[a] == rest[a]);
            }
        }
        assert forall|a: int, b: int| 0 <= a < b < all.len() implies (#[trigger] all[a]).ch < (
        #[trigger] all[b]).ch || (all[a].ch == all[b].ch && all[a].frame < all[b].frame) by {
            assert(all[a] == rest[a]);
            lemma_round_sizes(m, plan, n_ch, n - 1, a);
            if b < rest.len() {
                assert(all[b] == rest[b]);
            }
        }
    }
}

proof fn lemma_round_sizes(m: CaptureModel, plan: Seq<u8>, n_ch: int, n: int, a: int)
    requires
        0 <= n,
        0 <= a < round_entries(m, plan, n_ch, n).len(),
    ensures
        is_frame_size(round_entries(m, plan, n_ch, n)[a].frame),
    decreases n,
{
    if n > 0 && a < round_entries(m, plan, n_ch, n - 1).len() {
        lemma_round_sizes(m, plan, n_ch, n - 1, a);
    }
}

} // verus!
