//! Phase-lock decisions: stamps, means, the ratio ladder and the cycle plan.

use cascade::audio::sync::{
    cycle_plan, fill_ratio, group_mean, ladder_ratio, mask_outputs, merge_ts_at_copy,
    outputs_to_mask, ts_advanced, CyclePlan, Ratio,
};

#[test]
fn window_front_sits_behind_the_cursor_by_the_leftover() {
    assert_eq!(merge_ts_at_copy(48_000, 6), 47_994);
    assert_eq!(merge_ts_at_copy(48_000, 0), 48_000);
}

#[test]
fn a_moving_leftover_moves_the_stamp() {
    let unity = merge_ts_at_copy(48_000, 6);
    let drain = merge_ts_at_copy(48_000, 71);
    assert_ne!(unity, drain);
    assert_eq!(unity.wrapping_sub(drain), 65);
}

#[test]
fn a_just_wrapped_stamp_sits_out_one_cycle() {
    assert_eq!(merge_ts_at_copy(3, 10), u32::MAX - 6);
    assert!(!ts_advanced(u32::MAX - 6, 3), "wrapped stamp compares as smaller");
    assert!(ts_advanced(3, 483), "and the next cycle is ordinary again");
}

#[test]
fn only_forward_movement_qualifies() {
    assert!(ts_advanced(1000, 1480));
    assert!(!ts_advanced(1000, 1000));
    assert!(!ts_advanced(1000, 999));
}

#[test]
fn a_backward_step_is_not_read_as_advancement() {
    assert!(!ts_advanced(3_000_000_000, 2_999_999_520));   // one render quantum back
    assert!(ts_advanced(3_000_000_000, 3_000_000_480));
}

#[test]
fn no_advanced_channel_means_all_unity() {
    assert_eq!(cycle_plan(0, false, false), CyclePlan::AllUnity);
    assert_eq!(cycle_plan(0, true, true), CyclePlan::AllUnity);
}

#[test]
fn the_ladder_runs_only_while_common_mode_is_disengaged() {
    assert_eq!(cycle_plan(4, false, true), CyclePlan::Ladder);
    assert_eq!(cycle_plan(4, true, true), CyclePlan::Group);
    assert_eq!(cycle_plan(4, false, false), CyclePlan::Group);
    assert_eq!(cycle_plan(4, true, false), CyclePlan::Group);
}

#[test]
fn the_mean_rounds_half_up_on_the_raw_stamps() {
    let b = 1_000_000u64;
    assert_eq!(group_mean(b + (b - 2) + (b - 3), 3), (b - 2) as u32, "b − 1.67 → b − 2");
    assert_eq!(group_mean(b + (b + 1), 2), (b + 1) as u32, "b + 0.5 → b + 1");
    assert_eq!(group_mean(b + (b - 1), 2), b as u32, "b − 0.5 → b");
}

#[test]
fn stamps_either_side_of_the_wrap_average_to_neither() {
    let m = group_mean((u32::MAX as u64 - 9) + 5, 2);
    assert!(m > 0x7000_0000 && m < 0x9000_0000, "mean {m:#x}");
}

#[test]
fn the_ladder_takes_its_side_from_an_unsigned_comparison() {
    assert_eq!(ladder_ratio(1011, 1000), Ratio::StrongUp);
    assert_eq!(ladder_ratio(1002, 1000), Ratio::MediumUp);
    assert_eq!(ladder_ratio(1001, 1000), Ratio::GentleUp);
    assert_eq!(ladder_ratio(1000, 1000), Ratio::Unity);
    assert_eq!(ladder_ratio(999, 1000), Ratio::GentleDown);
    assert_eq!(ladder_ratio(998, 1000), Ratio::MediumDown);
    assert_eq!(ladder_ratio(989, 1000), Ratio::StrongDown);
    // A stamp just past the wrap, against a mean just before it, is far BELOW it.
    assert_eq!(ladder_ratio(3, u32::MAX - 3), Ratio::StrongDown);
}


fn cycles_to_settle(start_dev: f64, n: usize, render_period: usize) -> (usize, f64) {
    let mut dev = start_dev;
    let feedback = 1.0 - 1.0 / n as f64;
    for cycle in 1..=100_000 {
        let ratio = fill_ratio(dev.round() as i32);
        let step  = correction_per_cycle(ratio, render_period) * feedback;
        if step == 0.0 { return (cycle - 1, dev); }   // unity tier: settled
        dev += step;
        if dev.abs() < 0.5 { return (cycle, dev); }   // rounds to the unity tier
    }
    (usize::MAX, dev)
}

/// Samples a ratio moves the channel by in one render cycle.
fn correction_per_cycle(ratio: Ratio, render_period: usize) -> f64 {
    let ratio = ratio.parts_per_ten_thousand() as f64 / 10_000.0;
    render_period as f64 * (1.0 / ratio - 1.0)
}

fn naive_mid_tier(render_period: usize) -> f64 {
    let rate = correction_per_cycle(Ratio::MediumDown, render_period).abs();
    (11.0 - 2.0) / rate
}

#[test]
fn mid_tier_convergence_decomposed() {
    const PERIOD: usize = 480;   // 10ms render cycle at 48kHz
    let naive = naive_mid_tier(PERIOD);
    println!("  naive (boundary-stop, fixed mean)      {naive:>6.1}");
    println!("  + runs on through the fine tier to zero, and the mean moves with it:");
    let mut counts = vec![];
    for n in [2usize, 3, 4, 8, 16] {
        let (cycles, end) = cycles_to_settle(11.0, n, PERIOD);
        println!("      {n:>2} participants  {cycles:>6} cycles (ends {end:+.2})");
        counts.push((n, cycles));
    }
    // Every participant count takes longer than the naive figure — that is the claim.
    for (n, c) in &counts {
        assert!(*c as f64 > naive,
                "n={n} gave {c} cycles, which should exceed the naive {naive:.1}");
    }
    // And the measured 36 falls inside the range the corrected model spans.
    let (lo, hi) = (counts.last().unwrap().1, counts[0].1);
    assert!((lo..=hi).contains(&36),
            "36 measured should lie within the modelled range {lo}..={hi}");
}

#[test]
fn fine_tier_matches_the_measured_count_under_the_same_model() {
    const PERIOD: usize = 480;
    // The fine tier is entered at |dev| = 1 and settles once it rounds to 0.
    for n in [2usize, 8] {
        let (cycles, _) = cycles_to_settle(1.0, n, PERIOD);
        println!("    fine tier, {n:>2} participants → {cycles} cycles");
    }
    let (c8, _) = cycles_to_settle(1.0, 8, PERIOD);
    assert!(c8 <= 12, "fine tier should settle in a handful of cycles, got {c8}");
}

#[test]
fn the_mask_of_joined_lists_is_the_union() {
    let (a, b) = ([0u8, 5, 127], [5u8, 64, 200]);
    let joined: Vec<u8> = a.iter().chain(&b).copied().collect();
    assert_eq!(outputs_to_mask(&joined), outputs_to_mask(&a) | outputs_to_mask(&b));
    assert_eq!(outputs_to_mask(&joined), 1 | 1 << 5 | 1 << 64 | 1 << 127);
}

#[test]
fn masks_span_all_128_outputs() {
    let mask = outputs_to_mask(&[0, 63, 64, 127, 127, 200]);
    assert_eq!(mask, 1 | (1 << 63) | (1 << 64) | (1 << 127));
    assert_eq!(mask_outputs(mask, 200), vec![0, 63, 64, 127]);
    assert_eq!(mask_outputs(mask, 64), vec![0, 63], "outputs the device lacks are left out");
}

#[test]
fn the_ladder_is_symmetric_and_monotone() {
    let mut last = 0;
    for dev in -20i32..=20 {
        let up = fill_ratio(dev).parts_per_ten_thousand();
        let down = fill_ratio(-dev).parts_per_ten_thousand();
        assert_eq!(up + down, 20_000, "deviation {dev}");
        assert!(up >= last);
        last = up;
    }
    assert_eq!(fill_ratio(11), Ratio::StrongUp);
    assert_eq!(fill_ratio(10), Ratio::MediumUp);
}

#[test]
fn a_mean_lies_among_its_stamps() {
    let stamps = [10u64, 20, 25];
    let m = group_mean(stamps.iter().sum(), 3);
    assert_eq!(m, 18);
}
