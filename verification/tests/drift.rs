//! The drift window, the skew relay and the buffer display.

use cascade::audio::drift::{BufferSnap, DriftWindow};
use cascade::audio::sync::skew_flag;

fn win() -> DriftWindow { DriftWindow::new(0) }

fn settle(w: &mut DriftWindow, depth: usize, setpoint: usize, n: usize) -> i8 {
    let mut dir = 0;
    for _ in 0..n { dir = w.update(depth, setpoint, 192); }
    dir
}

#[test]
fn a_reset_re_arms_the_reference_latch_at_the_new_depth() {
    let mut w = win();
    w.set_window(120);                    // 2.5ms setpoint → 1200-sample window

    // Settle at a 5ms setpoint, resting around 10ms of depth.
    let n = w.window_len();
    settle(&mut w, 480, 240, n);
    assert_eq!(w.calref(), Some(480), "reference latches at the settled depth");

    // The setpoint moves to 40ms and the window is reset, exactly as the resize path
    // leaves it. The channel now rests around 40ms of depth.
    w.reset();
    assert_eq!(w.calref(), None, "reset re-arms the latch");
    let dir = settle(&mut w, 1920, 1920, n);

    assert_eq!(w.calref(), Some(1920), "reference is re-captured at the new depth");
    assert_eq!(dir, 0, "a settled channel at the new depth must not be armed");
}

#[test]
fn a_genuine_excursion_still_arms_drain() {
    let mut w = win();
    w.set_window(120);
    let n = w.window_len();
    settle(&mut w, 1920, 1920, n);
    assert_eq!(w.calref(), Some(1920));

    // Deadband here is min(192, setpoint/2) = 192; push well past it.
    let dir = settle(&mut w, 1920 + 400, 1920, n);
    assert_eq!(dir, -1, "average above calref + band must arm DRAIN");
}

// The 36ms base only binds once setpoint/2 exceeds it — i.e. at setpoints of 72ms or
// more. Below that the clamp wins and the band IS half the setpoint, which covers most
// real buffer settings. Both regimes are pinned here so neither can drift unnoticed.
const SP_100MS: usize = 4800;  // setpoint/2 = 2400 > 1728, so the 36ms base applies
const SP:       i64   = 4800;
const BAND:     i64   = 1728;  // 36ms

#[test]
fn a_reference_inside_the_band_is_not_flagged() {
    assert_eq!(skew_flag(SP, SP_100MS), 0);
    assert_eq!(skew_flag(SP + BAND - 1, SP_100MS), 0);
    assert_eq!(skew_flag(SP - BAND + 1, SP_100MS), 0);
}

#[test]
fn a_reference_on_an_edge_is_flagged() {
    assert_eq!(skew_flag(SP + BAND, SP_100MS), -1);
    assert_eq!(skew_flag(SP - BAND, SP_100MS), 1);
}

#[test]
fn a_reference_outside_the_band_is_flagged_toward_the_setpoint() {
    // Above the band → drain (-1), which subtracts and brings it back down.
    assert_eq!(skew_flag(SP + BAND + 1, SP_100MS), -1);
    // Below → fill (+1), which adds.
    assert_eq!(skew_flag(SP - BAND - 1, SP_100MS), 1);
}

#[test]
fn the_band_is_clamped_to_half_the_setpoint() {
    // 5ms setpoint → band clamps to 120.
    assert_eq!(skew_flag(240 + 120, 240), -1);
    assert_eq!(skew_flag(240 + 119, 240), 0);

    // 40ms — a common setting, and still in the clamped regime: band = 960, not 1728.
    assert_eq!(skew_flag(1920 + 960, 1920), -1, "band at 40ms is setpoint/2 = 960");
    assert_eq!(skew_flag(1920 + 959, 1920), 0);
}

#[test]
fn a_splice_is_folded_out_of_the_boxcar_immediately() {
    let mut w = DriftWindow::new(0);
    let n = w.window_len();

    // Settle at the setpoint first, so the reference latches there.
    for _ in 0..n { w.update(1920, 1920, 192); }
    assert_eq!(w.calref(), Some(1920));

    // Now the buffer deepens. Once the average clears calref + 192 the relay arms.
    let mut dir = 0;
    for _ in 0..n { dir = w.update(2400, 1920, 192); }
    assert_eq!(dir, -1, "an average above calref + band must arm DRAIN");
    let before = w.avg();

    // Splice out 240 samples. Every entry drops by that much, so the average does too.
    w.note_splice(240, -1);
    assert_eq!(w.avg(), before - 240,
               "average must drop by the spliced amount at once, not over the window");
}

#[test]
fn an_average_below_the_band_arms_fill_and_releases_at_the_reference() {
    let mut w = DriftWindow::new(0);
    let n = w.window_len();

    for _ in 0..n { w.update(1920, 1920, 192); }
    assert_eq!(w.calref(), Some(1920));

    // Shallower than calref − 192: FILL arms.
    let mut dir = 0;
    for _ in 0..n { dir = w.update(1600, 1920, 192); }
    assert_eq!(dir, 1, "an average below calref − band must arm FILL");

    // Still below the reference — the relay holds rather than re-testing the edge.
    for _ in 0..n / 2 { dir = w.update(1900, 1920, 192); }
    assert_eq!(dir, 1, "FILL must hold until the average passes back over calref");

    // Strictly above the reference releases it.
    for _ in 0..n { dir = w.update(2000, 1920, 192); }
    assert_eq!(dir, 0, "FILL must release once the average clears calref");
}

#[test]
fn an_average_inside_the_band_arms_neither_direction() {
    let mut w = DriftWindow::new(0);
    let n = w.window_len();
    for _ in 0..n { w.update(1920, 1920, 192); }
    let mut dir = 0;
    for _ in 0..n { dir = w.update(1850, 1920, 192); }
    assert_eq!(dir, 0, "a deviation inside the deadband must arm nothing");
}

#[test]
fn a_fill_splice_raises_the_average_immediately() {
    let mut w = DriftWindow::new(0);
    let n = w.window_len();
    for _ in 0..n { w.update(1600, 1920, 192); }
    let before = w.avg();
    w.note_splice(240, 1);
    assert_eq!(w.avg(), before + 240, "average must rise by the spliced amount at once");
}

#[test]
fn a_splice_larger_than_an_entry_leaves_it_alone() {
    let mut w = DriftWindow::new(0);
    w.update(100, 1920, 192);            // one shallow entry
    w.note_splice(5000, -1);             // far more than it holds
    assert_eq!(w.avg(), 100, "an entry that would go negative is untouched");
}

#[test]
fn the_latch_and_the_servo_share_one_value() {
    let mut w = DriftWindow::new(0);
    assert_eq!(w.reference(), 0, "unlatched until the window fills");

    let n = w.window_len();
    for _ in 0..n { w.update(1920, 1920, 192); }
    assert_eq!(w.reference(), 1920, "latch is visible on the shared cell");

    // The servo adjusts the one reference both sides work about.
    let moved = w.reference() - 480;
    w.set_reference(moved);
    assert_eq!(w.calref(), Some(1440), "producer reads the adjusted reference");
}

#[test]
fn fill_releases_on_the_truncated_average() {
    let mut w = DriftWindow::new(0);
    let n = w.window_len();
    for _ in 0..n { w.update(1920, 1920, 192); }
    let mut dir = 0;
    for _ in 0..n { dir = w.update(1600, 1920, 192); }
    assert_eq!(dir, 1);

    // Half the window at the reference, half one sample above: exactly 1920.5.
    for k in 0..n { dir = w.update(if k % 2 == 0 { 1920 } else { 1921 }, 1920, 192); }
    assert_eq!(w.avg(), 1920);
    assert_eq!(dir, 1, "1920.5 truncates to the reference, which is not past it");

    for _ in 0..n { dir = w.update(1921, 1920, 192); }
    assert_eq!(dir, 0, "a whole sample past the reference releases FILL");
}

#[test]
fn a_window_re_key_clears_the_direction() {
    let mut w = DriftWindow::new(0);
    let n = w.window_len();
    for _ in 0..n { w.update(1920, 1920, 192); }
    for _ in 0..n { w.update(2400, 1920, 192); }
    assert_eq!(w.dir(), -1);

    assert!(!w.set_window(1920), "same setpoint tier: nothing changes");
    assert_eq!(w.dir(), -1);
    assert!(w.set_window(240), "a new tier re-keys");
    assert_eq!(w.dir(), 0, "the direction is cleared with the window");
    assert!(!w.filled());
}

#[test]
fn the_reading_is_the_mean_not_the_extreme() {
    let mut s = BufferSnap::new();
    s.observe(480, 5760);
    for _ in 0..99 { s.observe(5760, 5760); }
    let (mean, min, max, target) = s.take().expect("100 observations");
    assert_eq!(target, 5760);
    assert_eq!(min, 480, "the dip is still reported as the spread's floor");
    assert_eq!(max, 5760);
    // (480 + 99*5760)/100 = 5707 — 53 samples (~1.1ms) off, against the 5280 (110ms)
    // a minimum would have shown.
    assert_eq!(mean, 5707);
}

#[test]
fn a_sawtooth_averages_to_its_midpoint() {
    let mut s = BufferSnap::new();
    for d in 0..=960 { s.observe(4800 + d, 5760); }
    let (mean, min, max, _) = s.take().unwrap();
    assert_eq!(mean, 5280);
    assert_eq!((min, max), (4800, 5760));
}

#[test]
fn an_unobserved_interval_is_absent_and_resets() {
    let mut s = BufferSnap::new();
    assert!(s.take().is_none(), "nothing observed yet");
    s.observe(2400, 4800);
    assert_eq!(s.take().unwrap().0, 2400);
    assert!(s.take().is_none(), "the fold is armed empty again after a take");
}

#[test]
fn nothing_is_decided_before_the_window_has_filled() {
    let mut w = win();
    let n = w.window_len();
    assert_eq!(settle(&mut w, 9000, 1920, n - 1), 0);
    assert_eq!(w.calref(), None);
    assert!(!w.filled());
    settle(&mut w, 9000, 1920, 1);
    assert_eq!(w.calref(), Some(9000), "the fill latches the reference");
}

#[test]
fn excursions_of_one_size_arm_opposite_ways() {
    let mut dirs = Vec::new();
    for depth in [1920 + 300, 1920 - 300] {
        let mut w = win();
        let n = w.window_len();
        settle(&mut w, 1920, 1920, n);
        dirs.push(settle(&mut w, depth, 1920, n));
    }
    assert_eq!(dirs, vec![-1, 1]);
}

#[test]
fn any_depth_and_any_reference_is_averaged_and_compared() {
    let deep = i64::MAX as usize;
    let mut w = DriftWindow::new(i64::MIN);
    w.set_window(120);
    let n = w.window_len();
    assert_eq!(settle(&mut w, deep, 1920, n - 1), 0);
    assert_eq!((w.filled(), w.calref(), w.reference()), (false, None, i64::MIN));
    assert_eq!(settle(&mut w, deep, 1920, 1), 0, "at rest at the reference it filled with");
    assert_eq!((w.avg(), w.calref()), (i64::MAX, Some(i64::MAX)));
    w.set_reference(i64::MIN);
    assert_eq!(w.update(deep, 1920, i64::MAX), -1);
    w.set_reference(i64::MAX);
    assert_eq!(settle(&mut w, 0, 1920, n), 1, "far under the reference it fills");
    assert_eq!(w.calref(), Some(i64::MAX), "an update leaves a latched reference alone");
}
