//! Receive-buffer geometry: setpoints, floors, fills and windows.

use cascade::audio::geometry::{
    boxcar_window_for_setpoint, gap_silence, period_floor_samples, prebuffer_keep,
    receive_half_for_buffer, ring_capacity_floored, target_samples_floored,
    target_samples_for_buffer,
};

#[test]
fn the_setpoint_table_matches_every_tier() {
    assert_eq!(target_samples_for_buffer(2),  120);   // 2.5ms
    assert_eq!(target_samples_for_buffer(5),  240);
    assert_eq!(target_samples_for_buffer(10), 480);
    assert_eq!(target_samples_for_buffer(20), 960);
    assert_eq!(target_samples_for_buffer(40), 1920);
    assert_eq!(target_samples_for_buffer(100), 4800);
}

#[test]
fn the_floor_is_two_frames_at_every_frame_size() {
    for frame in [120usize, 240, 480, 960] {
        assert_eq!(target_samples_floored(5, frame, 0).max(2 * frame), 2 * frame.max(120),
                   "frame {frame}");
    }
    // A small buffer meeting a large frame is dominated by the frame.
    assert_eq!(target_samples_floored(5, 960, 0), 1920);
    // A large buffer meeting a small frame is dominated by the buffer.
    assert_eq!(target_samples_floored(40, 120, 0), 1920);
}

#[test]
fn a_grow_then_shrink_comes_back_down_and_settles() {
    let buffer_ms = 5;
    let configured = target_samples_for_buffer(buffer_ms);   // 240
    let mut setpoint = configured;

    // A 20ms frame arrives: 960 > 240/2 → grow.
    let frame = 960;
    assert!(frame > setpoint / 2, "the grow arm must fire");
    setpoint = target_samples_floored(buffer_ms, frame, 0);
    assert_eq!(setpoint, 1920);

    // The sender drops back to 5ms frames: 240 < 1920/2 and 1920 > 240 → shrink.
    let frame = 240;
    assert!(frame < setpoint / 2 && setpoint > configured, "the shrink arm must fire");
    setpoint = target_samples_floored(buffer_ms, frame, 0);
    assert_eq!(setpoint, 480, "settles at two frames, well below the enlarged 1920");

    // Steady state: neither arm fires again, so this does not oscillate.
    assert!(!(frame > setpoint / 2), "grow must not re-fire");
    assert!(!(frame < setpoint / 2 && setpoint > configured), "shrink must not re-fire");
}

#[test]
fn equivalent_to_the_two_step_restore() {
    for buffer_ms in [2u32, 5, 10, 20, 40, 60, 100] {
        let configured = target_samples_for_buffer(buffer_ms);
        for frame in [120usize, 240, 480, 960] {
            // Two-step: restore the configured latency, then the grow arm re-fires
            // if that leaves the frame above half the setpoint.
            let two_step = if configured / 2 < frame { 2 * frame } else { configured };
            assert_eq!(target_samples_floored(buffer_ms, frame, 0), two_step,
                       "buffer {buffer_ms}ms frame {frame}");
        }
    }
}

#[test]
fn the_shrink_arm_cannot_fire_at_forty_milliseconds_or_more() {
    for buffer_ms in [40u32, 60, 100] {
        let configured = target_samples_for_buffer(buffer_ms);
        for frame in [120usize, 240, 480, 960] {
            let setpoint = target_samples_floored(buffer_ms, frame, 0);
            assert!(setpoint <= configured,
                    "buffer {buffer_ms}ms frame {frame}: setpoint can never exceed the target");
        }
    }
}

#[test]
fn a_frame_that_fits_is_kept_whole() {
    assert_eq!(prebuffer_keep(1920, 0, 960), 960);
    assert_eq!(prebuffer_keep(1920, 960, 960), 960, "lands exactly on the setpoint");
}

#[test]
fn a_concealment_inflated_arrival_is_trimmed_to_the_setpoint() {
    // depth 960, setpoint 1920, a gap recovered 3 frames in one arrival.
    let keep = prebuffer_keep(1920, 960, 2880);
    assert_eq!(keep, 960, "only the room below the setpoint");
    assert_eq!(2880 - keep, 1920, "and 1920 samples are dropped from the FRONT");
}

#[test]
fn no_room_keeps_nothing() {
    assert_eq!(prebuffer_keep(1920, 1920, 960), 0);
    assert_eq!(prebuffer_keep(1920, 2400, 960), 0, "depth already past the setpoint");
}

#[test]
fn a_clean_fill_never_reaches_the_clamp() {
    for period in [0usize, 120, 144, 240, 256, 441, 480, 512, 1024, 2048] {
        let floor = period_floor_samples(period);
        for buffer_ms in [2u32, 5, 10, 20, 40, 60, 100] {
            for frame in [120usize, 240, 480, 960] {
                let setpoint = target_samples_floored(buffer_ms, frame, floor);
                assert_eq!(setpoint % frame, 0,
                           "period {period} buffer {buffer_ms}ms frame {frame}: \
                            setpoint is whole frames");
                // Walk the fill one frame at a time; the clamp must never trim.
                let mut depth = 0usize;
                while depth < setpoint {
                    assert_eq!(prebuffer_keep(setpoint, depth, frame), frame,
                               "trimmed at depth {depth} of {setpoint}");
                    depth += frame;
                }
                assert_eq!(depth, setpoint, "lands exactly on the target");
            }
        }
    }
}

fn buffer_levels() -> Vec<usize> {
    let mut levels: Vec<usize> = (0u32..=10_000).map(target_samples_for_buffer).collect();
    levels.sort_unstable();
    levels.dedup();
    levels
}

#[test]
fn no_period_means_no_floor() {
    assert_eq!(period_floor_samples(0), 0);
}

#[test]
fn a_requested_period_floors_to_its_own_level() {
    assert_eq!(period_floor_samples(120), target_samples_for_buffer(5));
    assert_eq!(period_floor_samples(240), target_samples_for_buffer(10));
    assert_eq!(period_floor_samples(480), target_samples_for_buffer(20));
}

#[test]
fn a_longer_period_rounds_up_to_a_buffer_level() {
    assert_eq!(period_floor_samples(144), 480);    // 10 ms
    assert_eq!(period_floor_samples(256), 960);    // 20 ms
    assert_eq!(period_floor_samples(512), 1920);   // 40 ms
    assert_eq!(period_floor_samples(960), 1920);   // 40 ms
    assert_eq!(period_floor_samples(1024), 2880);  // 60 ms
}

#[test]
fn the_floor_is_the_smallest_buffer_level_holding_two_periods() {
    let levels = buffer_levels();
    for period in 1usize..=4096 {
        let floor = period_floor_samples(period);
        assert!(floor >= 2 * period, "period {period}: floor {floor} holds two periods");
        assert!(levels.contains(&floor), "period {period}: floor {floor} is a buffer level");
        assert!(!levels.iter().any(|&l| l >= 2 * period && l < floor),
                "period {period}: a smaller buffer level holds two periods");
    }
}

#[test]
fn the_floor_raises_but_never_lowers_the_setpoint() {
    for buffer_ms in [5u32, 10, 20, 40, 100] {
        for frame in [120usize, 240, 480, 960] {
            let without = target_samples_floored(buffer_ms, frame, 0);
            let with = target_samples_floored(buffer_ms, frame, period_floor_samples(512));
            assert_eq!(with, without.max(1920), "buffer {buffer_ms}ms frame {frame}");
        }
    }
}

#[test]
fn a_concealed_gap_earns_no_silence() {
    assert_eq!(gap_silence(1920, 100, 960, 0), 0);
    assert_eq!(gap_silence(1920, 0, 480, 0), 0, "plenty of headroom, still nothing");
}

#[test]
fn a_failed_concealment_replaces_exactly_what_was_lost() {
    // depth 100, frame 960, one 480-sample frame lost, headroom 1920-1060 = 860.
    assert_eq!(gap_silence(1920, 100, 960, 480), 480,
               "the loss, not the 860 of headroom");
}

#[test]
fn headroom_caps_the_replacement() {
    // 2880 lost but only 860 of room below the setpoint.
    assert_eq!(gap_silence(1920, 100, 960, 2880), 860);
    assert_eq!(gap_silence(1920, 1920, 960, 960), 0, "no room at all");
    assert_eq!(gap_silence(1920, 1500, 960, 960), 0, "frame alone overshoots");
}

#[test]
fn an_unconcealable_gap_is_left_short() {
    // gap >= 5 never attempts concealment, so `lost` is zero by construction.
    assert_eq!(gap_silence(1920, 200, 960, 0), 0);
}

#[test]
fn the_window_tiers_match_each_setpoint() {
    assert_eq!(boxcar_window_for_setpoint(120), 1200);   // 2.5ms
    assert_eq!(boxcar_window_for_setpoint(240), 600);    // 5ms
    assert_eq!(boxcar_window_for_setpoint(480), 300);    // 10ms
    assert_eq!(boxcar_window_for_setpoint(1920), 150);   // 40ms
    assert_eq!(boxcar_window_for_setpoint(4800), 150);   // 100ms
}

#[test]
fn switching_frame_size_at_a_fixed_buffer_does_not_re_key() {
    let buffer_ms = 40;
    let mut seen = None;
    for frame in [960usize, 120, 240, 480, 960] {
        let setpoint = target_samples_floored(buffer_ms, frame, 0);
        assert_eq!(setpoint, 1920, "frame {frame}: setpoint is unchanged");
        let n = boxcar_window_for_setpoint(setpoint);
        if let Some(prev) = seen {
            assert_eq!(n, prev, "frame {frame}: window must not be re-keyed");
        }
        seen = Some(n);
    }
}

#[test]
fn a_real_setpoint_move_does_re_key() {
    let small = boxcar_window_for_setpoint(target_samples_floored(5, 120, 0));   // 240
    let grown = boxcar_window_for_setpoint(target_samples_floored(5, 960, 0));   // 1920
    assert_eq!(small, 600);
    assert_eq!(grown, 150);
    assert_ne!(small, grown, "a genuine resize re-keys the window");
}

#[test]
fn is_an_exact_match_table() {
    assert_eq!(receive_half_for_buffer(5),  120);
    assert_eq!(receive_half_for_buffer(10), 240);
    // Between the matches, and below the smaller one: all default.
    for ms in [1, 4, 6, 7, 8, 9, 11, 15, 19] {
        assert_eq!(receive_half_for_buffer(ms), 480,
                   "buffer {ms} ms should fall through to the 480 default");
    }
    // At and above 20, also the default.
    for ms in [20, 40, 120, 500, 10_000] {
        assert_eq!(receive_half_for_buffer(ms), 480, "buffer {ms} ms");
    }
}

#[test]
fn a_ring_holds_its_floored_setpoint() {
    for buffer_ms in [2u32, 5, 10, 20, 40, 100] {
        for frame in [120usize, 240, 480, 960] {
            let setpoint = target_samples_floored(buffer_ms, frame, 0);
            assert!(ring_capacity_floored(buffer_ms, frame, 0) >= setpoint);
        }
    }
    assert_eq!(ring_capacity_floored(40, 960, 0), ring_capacity_floored(40, 120, 0));
}

#[test]
fn silence_never_fills_past_the_setpoint() {
    for depth in [0usize, 100, 960, 1919, 1920, 4000] {
        for lost in [0usize, 120, 960, 5000] {
            let s = gap_silence(1920, depth, 960, lost);
            assert!(s <= lost);
            assert!(s == 0 || depth + 960 + s <= 1920);
        }
    }
}
