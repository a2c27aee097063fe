//! The resample slot: staging, topping up and results.

use cascade::audio::peer_group::{Cells, READ_AHEAD};
use cascade::audio::resample::ResampleSlot;
use cascade::audio::sample::{sample_at_least_zero, sample_less_than, sample_magnitude};

fn cells() -> Cells {
    Cells {
        hold: false,
        cm_dir: 0,
        skew_flag: 0,
        skew_ref: 1920,
        merge_ts: 0,
        ready: false,
        boxcar_reset: false,
    }
}

#[test]
fn a_window_is_carried_samples_then_new_ones_then_silence() {
    let mut slot = ResampleSlot::new(32);
    let mut c = cells();
    assert_eq!(slot.begin_job(10), 10 + READ_AHEAD);
    let got: Vec<u32> = (1..=12).collect();
    assert!(slot.top_up(10, &got, Some(5000), 1920, 1920, &mut c));
    assert_eq!(&slot.stage[..12], got.as_slice());
    assert!(slot.stage[12..16].iter().all(|s| *s == 0), "the rest is silence");
    assert_eq!(c.merge_ts, 5000, "nothing was carried, so the window starts at the cursor");
    assert!(!c.ready, "no result before the job has ended");
    // The resampler consumed all but the last six staged samples.
    slot.finish_job(10, &vec![7; 9], 6, true, &mut c);
    assert!(c.ready);
    assert_eq!(slot.in_fill, 6);
    assert_eq!(slot.result(10), vec![7, 7, 7, 7, 7, 7, 7, 7, 7, 0]);

    assert_eq!(slot.begin_job(10), 10, "the carried samples count");
    assert!(slot.top_up(10, &vec![50; 10], Some(5012), 1920, 1920, &mut c));
    assert_eq!(&slot.stage[..2], &[11, 12], "the carried tail comes first");
    assert_eq!(c.merge_ts, 5006, "and moves the window's front back");
}

#[test]
fn a_job_that_recovers_nothing_is_not_ready() {
    let mut slot = ResampleSlot::new(32);
    let mut c = cells();
    slot.begin_job(10);
    assert!(!slot.top_up(10, &Vec::new(), None, 1920, 1920, &mut c));
    c.ready = true;
    slot.finish_job(10, &vec![7; 10], 6, false, &mut c);
    assert!(!c.ready);
    slot.ring_swapped();
    assert_eq!((slot.in_fill, slot.produced), (0, 0));
    slot.reserve_for_period(100);
    assert_eq!(slot.stage.len(), 100 + READ_AHEAD);
}

#[test]
fn sample_patterns_compare_as_the_numbers_they_are() {
    let values = [-1.0f32, -0.5, -0.0, 0.0, 1e-30, 0.25, 1.0, f32::INFINITY, f32::NAN];
    for a in values {
        assert_eq!(sample_at_least_zero(a.to_bits()), a >= 0.0, "{a}");
        if !a.is_nan() {
            assert_eq!(f32::from_bits(sample_magnitude(a.to_bits())), a.abs());
        }
        for b in values {
            assert_eq!(sample_less_than(a.to_bits(), b.to_bits()), a < b, "{a} {b}");
        }
    }
}
