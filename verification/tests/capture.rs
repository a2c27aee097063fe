//! The capture path: the frame grid, drain rounds, wire stamps and the buffer pool.

use cascade::audio::capture::{
    bucket_frame_samples, bucket_index, deinterleave, keep_on_frame_grid, peak_of, tone_channel,
    BucketClocks, CaptureState, ChannelPlan, TS_COUNTER_WRAP,
};
use cascade::audio::frame_pool::{FramePool, FRAME_MAX};

#[test]
fn a_returned_buffer_comes_back_empty_and_keeps_its_capacity() {
    let pool = FramePool::new(2);
    let mut b = pool.take();
    b.extend([0.5f32.to_bits(); 480]);
    assert_eq!(b.capacity(), FRAME_MAX, "pre-allocated at the largest frame size");
    pool.give(b);
    let again = pool.take();
    assert!(again.is_empty(), "handed out empty");
    assert_eq!(again.capacity(), FRAME_MAX, "and without having to grow");
}

#[test]
fn the_whole_pool_can_be_in_flight() {
    let pool = FramePool::new(3);
    let held: Vec<_> = (0..3).map(|_| pool.take()).collect();
    assert_eq!(held.len(), 3);
    for b in held {
        pool.give(b);
    }
    assert_eq!(pool.take().capacity(), FRAME_MAX, "all of them came back");
}

#[test]
fn an_empty_pool_still_yields_a_buffer() {
    let pool = FramePool::new(1);
    let first = pool.take();
    let extra = pool.take();
    assert!(extra.is_empty());
    assert!(extra.capacity() >= FRAME_MAX);
    drop((first, extra));
}

#[test]
fn a_full_pool_drops_the_surplus() {
    let pool = FramePool::new(1);
    pool.give(Vec::with_capacity(FRAME_MAX));
    pool.give(Vec::with_capacity(FRAME_MAX));
    assert!(pool.take().is_empty());
    // The pool held one, so the second give was dropped and this take allocates.
    assert!(pool.take().is_empty());
}

#[test]
fn the_pool_hands_back_the_very_buffer_it_was_given() {
    let pool = FramePool::new(1);
    let b = pool.take();
    let at = b.as_ptr();
    pool.give(b);
    assert_eq!(pool.take().as_ptr(), at);
}

/// One capture callback of `k` samples, followed by the drain. Each captured sample's value
/// is its absolute capture index, so the last sample of a drained frame says exactly where
/// that frame ends. Returns, per channel, the end index of every frame completed.
fn callback(
    accs: &mut [Vec<u32>],
    prevs: &mut [usize],
    frames: &[usize],
    tc: &mut u64,
    k: usize,
) -> Vec<Vec<u64>> {
    for ch in 0..accs.len() {
        keep_on_frame_grid(&mut accs[ch], &mut prevs[ch], frames[ch], *tc);
        if frames[ch] != 0 {
            accs[ch].extend((0..k).map(|i| ((*tc + i as u64) as f32).to_bits()));
        }
    }
    *tc += k as u64;
    accs.iter_mut()
        .zip(frames)
        .map(|(acc, &f)| {
            let mut ends = Vec::new();
            while f != 0 && acc.len() >= f {
                let frame: Vec<u32> = acc.drain(..f).collect();
                ends.push(f32::from_bits(frame[f - 1]) as u64);
            }
            ends
        })
        .collect()
}

#[test]
fn a_frame_size_increase_keeps_later_channels_on_the_same_grid() {
    let mut accs = vec![Vec::new(), Vec::new()];
    let mut prevs = vec![0usize, 0];
    let mut tc: u64 = 1_000;          // deliberately not on any grid
    let k = 480;
    let mut both_drained = 0;
    for cb in 0..12 {
        // Channel 0: 10 ms frames, then 20 ms from the fourth callback.
        // Channel 1: unrouted, then routed at 20 ms from the sixth.
        let frames = [if cb < 3 { 480 } else { 960 }, if cb < 5 { 0 } else { 960 }];
        let ends = callback(&mut accs, &mut prevs, &frames, &mut tc, k);
        for ch in 0..2 {
            let f = frames[ch] as u64;
            if f != 0 {
                assert_eq!(accs[ch].len() as u64 % f, tc % f,
                           "callback {cb}: channel {ch} is off the {f}-sample grid");
            }
        }
        if !ends[0].is_empty() && !ends[1].is_empty() {
            assert_eq!(ends[0], ends[1],
                       "callback {cb}: frames sharing a round must end on the same sample");
            both_drained += 1;
        }
    }
    assert!(both_drained > 0, "the two channels never drained in the same round");
}

#[test]
fn an_unchanged_frame_size_is_left_alone() {
    let mut acc = vec![0.5f32.to_bits(); 300];
    let mut prev = 480;
    assert!(!keep_on_frame_grid(&mut acc, &mut prev, 480, 12_345));
    assert_eq!(acc.len(), 300);
}

#[test]
fn unrouting_forgets_the_grid() {
    let mut acc = vec![0.5f32.to_bits(); 100];
    let mut prev = 960;
    assert!(!keep_on_frame_grid(&mut acc, &mut prev, 0, 0));
    assert_eq!(prev, 0);
    assert!(keep_on_frame_grid(&mut acc, &mut prev, 960, 1_000));
    assert_eq!(acc.len(), 1_000 % 960);
}

#[test]
fn buckets_and_their_frame_sizes() {
    for (b, frame) in [120usize, 240, 480, 960].iter().enumerate() {
        assert_eq!(bucket_index(*frame), b);
        assert_eq!(bucket_frame_samples(b), *frame);
    }
    assert_eq!(tone_channel(8, 1), 8);
    assert_eq!(tone_channel(8, 2), 9);
}

#[test]
fn channels_come_apart_and_peaks_are_magnitudes() {
    let data: Vec<u32> = [0.1f32, -0.9, 0.2, 0.3, -0.4, 0.0].iter().map(|s| s.to_bits()).collect();
    let left = deinterleave(&data, 0, 2);
    let right = deinterleave(&data, 1, 2);
    assert_eq!(left, vec![0.1f32.to_bits(), 0.2f32.to_bits(), (-0.4f32).to_bits()]);
    assert_eq!(f32::from_bits(peak_of(&left)), 0.4);
    assert_eq!(f32::from_bits(peak_of(&right)), 0.9);
}

#[test]
fn a_callback_s_frames_share_one_stamp_and_leave_in_rounds() {
    let pool = FramePool::new(8);
    let mut state = CaptureState::new(2, BucketClocks::new(), 0);
    // Both hardware channels send 10 ms frames: bucket 2.
    let plan = ChannelPlan { per_ch_buckets: vec![0b100, 0b100, 0, 0] };
    let data: Vec<u32> = (0..2 * 1200).map(|i| (i as f32 / 4096.0).to_bits()).collect();
    let out = state.capture_callback(&data, 2, &plan, &Vec::new(), &Vec::new(), &pool);
    assert_eq!(out.rounds.len(), 2, "1200 samples hold two 480-sample frames");
    for round in &out.rounds {
        assert_eq!(round.len(), 2, "siblings drain together");
        assert!(round.iter().all(|e| e.frame == 480 && e.pcm.len() == 480));
        assert_eq!(round[0].ts, round[1].ts, "and share one stamp");
    }
    assert_eq!(out.rounds[1][0].ts - out.rounds[0][0].ts, 480);
    assert_eq!(out.rounds[0][0].pcm[1], data[2], "channel 0 holds every second sample");
    assert_eq!(state.total_captured(), 1200);
    assert_eq!(out.peaks.len(), 2);
}

#[test]
fn an_odd_callback_size_loses_no_sample() {
    let pool = FramePool::new(8);
    let mut state = CaptureState::new(1, BucketClocks::new(), 0);
    // 2.5 and 5 ms frames of one channel.
    let plan = ChannelPlan { per_ch_buckets: vec![0b011, 0, 0] };
    let mut fed: Vec<u32> = Vec::new();
    let mut heard: [Vec<u32>; 2] = [Vec::new(), Vec::new()];
    for k in [100usize, 333, 7, 512, 48] {
        let data: Vec<u32> = (0..k).map(|i| ((fed.len() + i) as f32).to_bits()).collect();
        fed.extend(&data);
        let out = state.capture_callback(&data, 1, &plan, &Vec::new(), &Vec::new(), &pool);
        for e in out.rounds.iter().flatten() {
            heard[bucket_index(e.frame)].extend(&e.pcm);
        }
    }
    assert_eq!(heard[0].len(), 1000 / 120 * 120);
    assert_eq!(heard[1].len(), 1000 / 240 * 240);
    for pcm in &heard {
        assert_eq!(pcm[..], fed[..pcm.len()], "every sample once, in order");
    }
}

#[test]
fn a_channel_routed_late_joins_the_grid_of_its_siblings() {
    let pool = FramePool::new(8);
    let mut state = CaptureState::new(2, BucketClocks::new(), 0);
    let data = vec![0.25f32.to_bits(); 2 * 300];
    let none = Vec::new();
    let alone = ChannelPlan { per_ch_buckets: vec![0b100, 0, 0, 0] };
    let both = ChannelPlan { per_ch_buckets: vec![0b100, 0b100, 0, 0] };
    let first = state.capture_callback(&data, 2, &alone, &none, &none, &pool);
    assert!(first.rounds.is_empty());
    let second = state.capture_callback(&data, 2, &both, &none, &none, &pool);
    assert_eq!(second.rounds.len(), 1);
    let round = &second.rounds[0];
    assert_eq!((round[0].ch, round[1].ch), (0, 1));
    assert_eq!(round[0].ts, round[1].ts);
    assert_eq!(round[1].pcm[299], 0, "what it did not capture is silence");
    assert_eq!(round[1].pcm[300], data[0]);
}

#[test]
fn wire_stamps_start_over_before_they_wrap() {
    let mut clocks = BucketClocks::new();
    assert_eq!(clocks.bucket_next_wire_ts(960), 960);
    assert_eq!(clocks.bucket_next_wire_ts(120), 120, "each frame size keeps its own clock");
    clocks.counters[3] = TS_COUNTER_WRAP - 1;
    assert_eq!(clocks.bucket_next_wire_ts(960), TS_COUNTER_WRAP * 960);
    assert_eq!(clocks.bucket_next_wire_ts(960), 0);
    assert_eq!(clocks.bucket_next_wire_ts(960), 960);
}

#[test]
fn tone_legs_are_sent_like_any_channel() {
    let pool = FramePool::new(8);
    let mut state = CaptureState::new(1, BucketClocks::new(), 0);
    let plan = ChannelPlan { per_ch_buckets: vec![0, 0b001, 0b001] };
    let data = vec![0u32; 120];
    let left = vec![0.5f32.to_bits(); 120];
    let right = vec![(-0.75f32).to_bits(); 120];
    let out = state.capture_callback(&data, 1, &plan, &left, &right, &pool);
    assert_eq!(out.rounds.len(), 1);
    assert_eq!(out.rounds[0].iter().map(|e| e.ch).collect::<Vec<_>>(), vec![1, 2]);
    assert_eq!(out.rounds[0][0].pcm, left);
    assert_eq!(out.rounds[0][1].pcm, right);
    assert_eq!(f32::from_bits(out.tone_peaks.0), 0.5);
    assert_eq!(f32::from_bits(out.tone_peaks.1), 0.75);
}
