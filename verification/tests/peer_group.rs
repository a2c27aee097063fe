//! A peer's channels: announcements, votes, the latch, resets and the display.

use cascade::audio::peer_group::{
    is_displayed, note_writer_liveness, ready, Cells, Channel, LateView, Observation, PeerGroup,
    IDLE_RENDERS_LIMIT,
};
use cascade::audio::sync::{cycle_plan, CyclePlan, Ratio};

fn cells(hold: bool) -> Cells {
    Cells {
        hold,
        cm_dir: 0,
        skew_flag: 0,
        skew_ref: 1920,
        merge_ts: 1000,
        ready: true,
        boxcar_reset: false,
    }
}

fn edit(g: &mut PeerGroup, i: usize, change: impl Fn(&mut Cells)) {
    let mut c = g.channel(i).cells;
    change(&mut c);
    g.set_cells(i, c);
}

fn seen(n: usize) -> Vec<Observation> {
    (0..n)
        .map(|_| Observation { write_pos: 0, swap: None, slot_free: true, cursor_ts: None })
        .collect()
}

/// A phase-locked group of `n` released, routed channels, every one listed in the first pass.
fn group_with(n: u8) -> PeerGroup {
    let mut g = PeerGroup::new_with_sync(2, true, 40);
    for slot in 0..n {
        g.add_channel(slot, 0, 1, cells(false), 960);
        g.set_cells(slot as usize, cells(false));
    }
    let mixes = g.render_pass1(&seen(n as usize));
    assert_eq!(mixes.len(), n as usize);
    g
}

/// One phase-locked cycle over channels with these stamps, each past its last dispatch.
fn render_once(g: &mut PeerGroup, stamps: &[u32]) {
    for (i, &ts) in stamps.iter().enumerate() {
        edit(g, i, |c| {
            c.merge_ts = ts;
            c.ready = true;
        });
    }
    g.render_pass1(&seen(stamps.len()));
    g.render_pass2(480);
}

#[test]
fn a_newer_announcement_replaces_the_channel_on_that_slot() {
    let mut g = PeerGroup::new_with_sync(2, false, 20);
    g.add_channel(5, 0, 1, cells(true), 480);
    g.add_channel(5, 40, 1, cells(true), 480);
    assert_eq!(g.num_channels(), 1, "still one channel on the slot");
    assert_eq!(g.channel_depths(), vec![(5, 40)],
               "the channel must read the ring the live decode slot writes");
}

#[test]
fn a_channel_joins_with_no_result_and_no_stamp() {
    let mut g = PeerGroup::new_with_sync(2, true, 40);
    g.add_channel(0, 0, 1, cells(false), 960);
    assert!(g.channel(0).cells == Cells { merge_ts: 0, ready: false, ..cells(false) });
    assert!(g.render_pass1(&seen(1)).is_empty(), "nothing to mix before its first job");
}

#[test]
fn the_skew_quantum_follows_the_tally_and_wraps() {
    for (flag, frames, moved) in [
        (1, 480, 1920 + 480),
        (-1, 480, 1920 - 480),
        (1, usize::MAX, 1919),
        (-1, usize::MAX, 1921),
    ] {
        let mut g = group_with(2);
        edit(&mut g, 0, |c| c.skew_flag = flag);
        assert_eq!(g.group_decision(frames), Ratio::Unity);
        assert!((0..2).all(|i| g.channel(i).cells.skew_ref == moved), "{flag} {frames}");
    }
}

#[test]
fn an_adjusting_tally_engages_the_latch_and_a_zero_tally_releases_it() {
    let mut g = group_with(3);
    edit(&mut g, 0, |c| c.cm_dir = -1);
    edit(&mut g, 1, |c| c.cm_dir = -1);
    assert_eq!(g.group_decision(480), Ratio::StrongDown);
    assert!(g.common_engaged());
    assert_eq!(cycle_plan(3, g.common_engaged(), true), CyclePlan::Group,
               "engaged: the next cycle broadcasts even with channels off the mean");

    edit(&mut g, 0, |c| c.cm_dir = 0);
    edit(&mut g, 1, |c| c.cm_dir = 0);
    assert_eq!(g.group_decision(480), Ratio::Unity);
    assert!(!g.common_engaged(), "a zero tally releases the latch");
}

#[test]
fn a_skew_tally_takes_the_cycle_at_unity_and_leaves_the_latch_alone() {
    let mut g = group_with(3);
    edit(&mut g, 0, |c| c.cm_dir = -1);
    assert_eq!(g.group_decision(480), Ratio::StrongDown);
    assert!(g.common_engaged());

    // The adjusting tally now reads zero, which would release, but the skew relay votes,
    // and a skew cycle decides nothing else.
    edit(&mut g, 0, |c| c.cm_dir = 0);
    edit(&mut g, 1, |c| c.skew_flag = 1);
    edit(&mut g, 2, |c| c.skew_flag = 1);
    assert_eq!(g.group_decision(480), Ratio::Unity, "a skew cycle runs at 1.0");
    assert!(g.common_engaged(), "the adjusting tally is not acted on");
    for i in 0..3 {
        assert_eq!(g.channel(i).cells.skew_ref, 1920 + 480,
                   "every advanced channel moves one render quantum");
        assert_eq!(g.channel(i).cells.skew_flag, 0, "and its flag clears");
    }
}

#[test]
fn only_advanced_channels_vote_and_move() {
    let mut g = PeerGroup::new_with_sync(2, true, 40);
    for slot in 0..3 {
        g.add_channel(slot, 0, 1, cells(false), 960);
        g.set_cells(slot as usize, cells(false));
    }
    // The third channel has no result to mix, so it does not advance.
    edit(&mut g, 2, |c| {
        c.ready = false;
        c.cm_dir = 1;
        c.skew_flag = -1;
    });
    g.render_pass1(&seen(3));
    assert_eq!(g.group_decision(480), Ratio::Unity);
    assert!(!g.common_engaged(), "a channel that did not advance does not vote");
    assert_eq!(g.channel(2).cells.skew_ref, 1920, "nor is it moved");
    assert_eq!(g.channel(2).cells.skew_flag, -1, "nor is its flag cleared");
}

#[test]
fn the_ladder_cycle_resets_every_channel_s_averaging() {
    let mut g = group_with(3);
    render_once(&mut g, &[10_000, 10_000, 10_011]);
    assert!((0..3).all(|i| g.channel(i).cells.boxcar_reset),
            "a ladder cycle resets every channel, including those at the mean");
}

/// A group whose common mode is engaged in the draining direction.
fn engaged_group() -> PeerGroup {
    let mut g = group_with(3);
    edit(&mut g, 0, |c| c.cm_dir = -1);
    assert_eq!(g.group_decision(480), Ratio::StrongDown);
    assert!(g.common_engaged());
    edit(&mut g, 0, |c| c.cm_dir = 0);
    g
}

#[test]
fn an_engaged_common_mode_suppresses_the_ladder_and_the_reset() {
    let mut g = engaged_group();
    for i in 0..3 {
        edit(&mut g, i, |c| c.cm_dir = -1);
    }
    render_once(&mut g, &[10_000, 10_000, 10_011]);
    assert!(g.common_engaged());
    assert!((0..3).all(|i| !g.channel(i).cells.boxcar_reset),
            "no reset while the common mode is engaged");
}

#[test]
fn the_releasing_cycle_resets_when_channels_disagree() {
    let mut g = engaged_group();
    render_once(&mut g, &[10_000, 10_000, 10_011]);
    assert!(!g.common_engaged());
    assert!((0..3).all(|i| g.channel(i).cells.boxcar_reset));
}

#[test]
fn the_ladder_gives_each_channel_its_own_ratio() {
    let mut g = group_with(3);
    for (i, ts) in [10_000u32, 10_000, 10_011].iter().enumerate() {
        edit(&mut g, i, |c| c.merge_ts = *ts);
    }
    g.render_pass1(&seen(3));
    let jobs = g.render_pass2(480);
    // The mean of the three is 10003.67, so 10004 rounded.
    let ratios: Vec<(u8, Ratio)> = jobs.iter().map(|d| (d.slot, d.ratio)).collect();
    assert_eq!(ratios, vec![
        (0, Ratio::MediumDown),
        (1, Ratio::MediumDown),
        (2, Ratio::MediumUp),
    ]);
    assert!((0..3).all(|i| !g.channel(i).cells.ready), "a job is out for every channel");
    assert_eq!(g.channel(2).last_merge_ts, 10_011, "and its stamp is latched");
}

#[test]
fn free_running_channels_take_the_ring_s_stamp_and_dispatch_nothing() {
    let mut g = PeerGroup::new_with_sync(2, false, 20);
    g.add_channel(3, 0, 0b11, cells(false), 480);
    let mixes = g.render_pass1(&vec![Observation {
        write_pos: 10,
        swap: None,
        slot_free: true,
        cursor_ts: Some(777),
    }]);
    assert_eq!(mixes, vec![(3, 0b11)]);
    assert_eq!(g.channel(0).cells.merge_ts, 777);
    assert!(g.render_pass2(480).is_empty());
}

#[test]
fn held_unrouted_and_busy_channels_are_silent() {
    let mut g = PeerGroup::new_with_sync(2, false, 20);
    g.add_channel(0, 0, 1, cells(true), 480);
    g.add_channel(1, 0, 0, cells(false), 480);
    g.add_channel(2, 0, 1, cells(false), 480);
    let mut s = seen(3);
    s[2].slot_free = false;
    assert!(g.render_pass1(&s).is_empty());
}

#[test]
fn rerouting_keeps_what_is_routed_and_returns_the_rest() {
    let mut g = PeerGroup::new_with_sync(2, false, 20);
    for slot in [7u8, 2, 4] {
        g.add_channel(slot, slot as usize, 1, cells(false), 480);
    }
    assert_eq!(g.channel_depths(), vec![(2, 2), (4, 4), (7, 7)], "by ascending slot");
    let mut masks: Vec<Option<u128>> = vec![None; 8];
    masks[2] = Some(0b100);
    masks[7] = Some(1 << 127);
    assert_eq!(g.reroute_channels(&masks), vec![4]);
    assert_eq!(g.num_channels(), 2);
    assert!(g.has_channel(2) && !g.has_channel(4) && g.has_channel(7));
    assert_eq!(g.channel(1).out_mask, 1 << 127);
}

#[test]
fn a_stopped_writer_leaves_the_display() {
    let mut c = Channel {
        source_slot: 0,
        out_mask: 1,
        last_merge_ts: 0,
        last_write_pos: 5,
        writer_idle_renders: 0,
        target_samples: 960,
        depth: 0,
        cells: cells(false),
    };
    for _ in 0..IDLE_RENDERS_LIMIT - 1 {
        note_writer_liveness(&mut c, 5);
    }
    assert!(is_displayed(&c));
    note_writer_liveness(&mut c, 5);
    assert!(!is_displayed(&c));
    note_writer_liveness(&mut c, 6);
    assert!(is_displayed(&c), "one written sample brings it back");
}

#[test]
fn a_ring_swap_arms_the_hold_again() {
    let mut c = Channel {
        source_slot: 0,
        out_mask: 1,
        last_merge_ts: 0,
        last_write_pos: 0,
        writer_idle_renders: 0,
        target_samples: 960,
        depth: 0,
        cells: cells(false),
    };
    assert!(ready(&mut c, None));
    assert!(!ready(&mut c, Some(1920)));
    assert_eq!(c.target_samples, 1920);
    assert!(c.cells.hold && !c.cells.ready);
}

#[test]
fn the_end_of_a_cycle_counts_active_channels_per_output() {
    let mut g = PeerGroup::new_with_sync(2, false, 20);
    g.add_channel(0, 0, 0b01, cells(false), 480);
    g.add_channel(1, 0, 0b11, cells(false), 480);
    g.add_channel(2, 0, 0b11, cells(true), 480);
    let level = |v: f32, depth: usize| LateView { swap: None, level: v.to_bits(), depth };
    let mut n_active = vec![0u32, 0];
    g.render_finish(&vec![level(0.0005, 100), level(0.5, 300), level(0.5, 50)], &mut n_active);
    assert_eq!(n_active, vec![1, 1], "quiet and held channels do not count");
    assert_eq!(g.buffer_fill(), Some((200, 960)), "the mean over the released channels");
    assert_eq!(g.holding(), 1);
    let (mean, min, max, target) = g.take_reading().expect("one render observed");
    assert_eq!((mean, min, max, target), (200, 200, 200, 960));
    assert!(g.take_reading().is_none());
}

#[test]
fn windows_hold_the_longest_callback() {
    let mut g = PeerGroup::new_with_sync(2, true, 20);
    assert_eq!(g.window_len(), 1920);
    g.reserve_for_period(4096);
    g.reserve_for_period(480);
    assert_eq!(g.window_len(), 4102);
}

#[test]
fn phase_lock_and_the_buffer_setting_can_change() {
    let mut g = group_with(1);
    let before = g.channel(0).target_samples;
    g.set_sync(false);
    assert!(!g.sync_enabled());
    g.set_sync(true);
    assert!(g.sync_enabled());
    g.set_buffer_ms(200);
    assert_eq!(g.channel(0).target_samples, before, "a channel that is there keeps its setpoint");
    g.add_channel(9, 0, 1, cells(true), 960);
    assert!(g.channel(1).target_samples > before, "one that joins takes the new one");
}
