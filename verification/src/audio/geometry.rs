//! Receive-buffer geometry: setpoints, their floors, ring capacities, and what one
//! arriving frame may add to a filling buffer. All lengths are samples at 48 kHz.

use vstd::prelude::*;

verus! {

/// Frame size assumed for a channel's first ring, before any packet has been decoded:
/// 20 ms, the largest frame the codec carries here.
pub const INITIAL_FRAME_SAMPLES: usize = 960;

/// The setpoint a buffer setting of `ms` milliseconds asks for, before any floor.
pub open spec fn buffer_level(ms: int) -> int {
    if ms < 5 {
        120
    } else if ms < 10 {
        240
    } else if ms < 20 {
        480
    } else {
        (ms / 20) * 960
    }
}

/// `level` is a setpoint that some buffer setting produces.
pub open spec fn is_buffer_level(level: int) -> bool {
    level == 120 || level == 240 || level == 480 || (level > 0 && level % 960 == 0)
}

pub open spec fn max_of(a: int, b: int) -> int {
    if a >= b {
        a
    } else {
        b
    }
}

pub open spec fn min_of(a: int, b: int) -> int {
    if a <= b {
        a
    } else {
        b
    }
}

/// The setpoint with both floors applied: two frames, and the output-period floor.
pub open spec fn floored_setpoint(ms: int, frame: int, period_floor: int) -> int {
    max_of(max_of(buffer_level(ms), 2 * frame), period_floor)
}

/// The smallest buffer level that holds two callback periods; 0 for no period.
pub open spec fn period_floor(period: int) -> int {
    if period == 0 {
        0
    } else if 2 * period <= 120 {
        120
    } else if 2 * period <= 240 {
        240
    } else if 2 * period <= 480 {
        480
    } else {
        ((2 * period + 959) / 960) * 960
    }
}

/// The frame sizes the wire carries.
pub open spec fn is_frame_size(frame: int) -> bool {
    frame == 120 || frame == 240 || frame == 480 || frame == 960
}

/// The boxcar window length, in packets, for a setpoint.
pub open spec fn boxcar_window(setpoint: int) -> int {
    if setpoint == 120 {
        1200
    } else if setpoint == 240 {
        600
    } else if setpoint == 480 {
        300
    } else {
        150
    }
}

/// How much of an arrival of `frame_len` samples a filling prebuffer keeps.
pub open spec fn prebuffer_kept(setpoint: int, depth: int, frame_len: int) -> int {
    min_of(frame_len, max_of(setpoint - depth, 0))
}

/// The receive half of the shared callback period for a buffer setting: an exact-match
/// table, in which every value but 5 and 10 takes the default.
pub fn receive_half_for_buffer(buffer_ms: u32) -> (half: usize)
    ensures
        half == (if buffer_ms == 5 {
            120int
        } else if buffer_ms == 10 {
            240int
        } else {
            480int
        }),
{
    match buffer_ms {
        5 => 120,
        10 => 240,
        _ => 480,
    }
}

/// Playback setpoint for a configured receive buffer, before any floor.
pub fn target_samples_for_buffer(buffer_ms: u32) -> (target: usize)
    requires
        buffer_level(buffer_ms as int) <= usize::MAX,
    ensures
        target == buffer_level(buffer_ms as int),
{
    if buffer_ms < 5 {
        120
    } else if buffer_ms < 10 {
        240
    } else if buffer_ms < 20 {
        480
    } else {
        (buffer_ms as usize / 20) * 960
    }
}

/// Playback setpoint with both hard floors applied: twice the incoming frame, and the
/// output device's period floor. A frame of 0 (not yet measured) and a floor of 0 (no
/// stream) leave the setting's own level.
pub fn target_samples_floored(
    buffer_ms: u32,
    frame_samples: usize,
    period_floor: usize,
) -> (target: usize)
    requires
        floored_setpoint(buffer_ms as int, frame_samples as int, period_floor as int)
            <= usize::MAX,
    ensures
        target == floored_setpoint(buffer_ms as int, frame_samples as int, period_floor as int),
{
    let mut target: usize = target_samples_for_buffer(buffer_ms);
    if target < 2 * frame_samples {
        target = 2 * frame_samples;
    }
    if target < period_floor {
        target = period_floor;
    }
    target
}

/// The smallest setpoint an output callback period allows: twice the period, rounded up to
/// a level that a buffer setting itself produces. 0 for a period of 0.
pub fn period_floor_samples(period: usize) -> (floor: usize)
    requires
        period_floor(period as int) <= usize::MAX,
    ensures
        floor == period_floor(period as int),
{
    if period == 0 {
        return 0;
    }
    if period <= 60 {
        120
    } else if period <= 120 {
        240
    } else if period <= 240 {
        480
    } else {
        // Halves of 960 counted on the period itself, so that doubling cannot overflow.
        let whole: usize = period / 480;
        let steps: usize = if period % 480 == 0 {
            whole
        } else {
            whole + 1
        };
        steps * 960
    }
}

/// Ring capacity, sized off the floored setpoint: twice the setpoint and a 40 ms margin.
pub fn ring_capacity_floored(
    buffer_ms: u32,
    frame_samples: usize,
    period_floor: usize,
) -> (capacity: usize)
    requires
        2 * floored_setpoint(buffer_ms as int, frame_samples as int, period_floor as int) + 1920
            <= usize::MAX,
    ensures
        capacity == 2 * floored_setpoint(
            buffer_ms as int,
            frame_samples as int,
            period_floor as int,
        ) + 1920,
{
    target_samples_floored(buffer_ms, frame_samples, period_floor) * 2 + 1920
}

/// How much silence a sequence gap earns: what concealment failed to replace, bounded by
/// the room left below the setpoint once the decoded frame is in.
pub fn gap_silence(setpoint: usize, depth: usize, decoded: usize, lost: usize) -> (silence: usize)
    requires
        depth + decoded <= usize::MAX,
    ensures
        silence == min_of(lost as int, max_of(setpoint - (depth + decoded), 0)),
{
    let room: usize = setpoint.saturating_sub(depth + decoded);
    if lost < room {
        lost
    } else {
        room
    }
}

/// How many samples of an arriving frame to keep while the prebuffer fills. The fill stops
/// exactly on the setpoint; the samples dropped are the oldest of the arrival.
pub fn prebuffer_keep(setpoint: usize, depth: usize, frame_len: usize) -> (kept: usize)
    ensures
        kept == prebuffer_kept(setpoint as int, depth as int, frame_len as int),
{
    let room: usize = setpoint.saturating_sub(depth);
    if frame_len < room {
        frame_len
    } else {
        room
    }
}

/// Boxcar window length, in packets, for a setpoint: three seconds' worth while the
/// sender's frame size matches the tier the setpoint came from.
pub fn boxcar_window_for_setpoint(setpoint_samples: usize) -> (n: usize)
    ensures
        n == boxcar_window(setpoint_samples as int),
{
    match setpoint_samples {
        120 => 1200,
        240 => 600,
        480 => 300,
        _ => 150,
    }
}

/// The levels named by `is_buffer_level` are exactly those a buffer setting produces.
pub proof fn law_levels_are_what_settings_produce(level: int)
    ensures
        is_buffer_level(level) <==> exists|ms: int| ms >= 0 && #[trigger] buffer_level(ms) == level,
{
    if is_buffer_level(level) {
        let ms = if level == 120 {
            0
        } else if level == 240 {
            5
        } else if level == 480 {
            10
        } else {
            (level / 960) * 20
        };
        assert(buffer_level(ms) == level);
    }
}

/// A period's floor holds two periods, is a buffer level, and no smaller level would do.
pub proof fn law_period_floor_is_the_smallest_level(period: int, level: int)
    requires
        period > 0,
    ensures
        period_floor(period) >= 2 * period,
        is_buffer_level(period_floor(period)),
        is_buffer_level(level) && level >= 2 * period ==> period_floor(period) <= level,
{
}

/// A period granted as requested floors to the very level that requested it.
pub proof fn law_requested_period_floors_to_its_own_level(level: int)
    requires
        is_buffer_level(level),
    ensures
        period_floor(level / 2) == level,
{
}

/// The floors raise a setpoint and never lower it.
pub proof fn law_floors_only_raise(ms: int, frame: int, floor: int)
    ensures
        floored_setpoint(ms, frame, floor) >= buffer_level(ms),
        floored_setpoint(ms, frame, floor) >= 2 * frame,
        floored_setpoint(ms, frame, floor) == max_of(floored_setpoint(ms, frame, 0), floor),
{
}

/// Every setpoint is a whole number of the frames that can arrive at it, with or without an
/// output-period floor in force.
pub proof fn law_setpoint_is_whole_frames(ms: int, frame: int, period: int)
    requires
        is_frame_size(frame),
        period >= 0,
    ensures
        floored_setpoint(ms, frame, period_floor(period)) % frame == 0,
{
    let setpoint = floored_setpoint(ms, frame, period_floor(period));
    if setpoint == 2 * frame {
        assert((2 * frame) % frame == 0) by (nonlinear_arith)
            requires
                frame > 0,
        ;
    } else if setpoint == buffer_level(ms) {
        lemma_level_is_whole_frames(setpoint, frame);
    } else {
        if period > 0 {
            law_period_floor_is_the_smallest_level(period, 0);
        }
        lemma_level_is_whole_frames(setpoint, frame);
    }
}

proof fn lemma_level_is_whole_frames(level: int, frame: int)
    requires
        is_frame_size(frame),
        is_buffer_level(level),
        level >= 2 * frame,
    ensures
        level % frame == 0,
{
    if level % 960 == 0 {
        let k = level / 960;
        assert(level == 960 * k);
        if frame == 120 {
            assert((960 * k) % 120 == 0);
        } else if frame == 240 {
            assert((960 * k) % 240 == 0);
        } else if frame == 480 {
            assert((960 * k) % 480 == 0);
        }
    }
}

/// A clean fill never reaches the clamp: from any depth that is a whole number of frames
/// below the setpoint, the next frame is kept whole and does not pass the setpoint.
pub proof fn law_clean_fill_never_clamps(ms: int, frame: int, period: int, depth: int)
    requires
        is_frame_size(frame),
        period >= 0,
        depth >= 0,
        depth % frame == 0,
        depth < floored_setpoint(ms, frame, period_floor(period)),
    ensures
        prebuffer_kept(floored_setpoint(ms, frame, period_floor(period)), depth, frame) == frame,
        depth + frame <= floored_setpoint(ms, frame, period_floor(period)),
{
    law_setpoint_is_whole_frames(ms, frame, period);
    lemma_next_multiple(depth, floored_setpoint(ms, frame, period_floor(period)), frame);
}

proof fn lemma_next_multiple(a: int, b: int, step: int)
    requires
        step > 0,
        a % step == 0,
        b % step == 0,
        a < b,
    ensures
        a + step <= b,
{
    let x = a / step;
    let y = b / step;
    assert(a == x * step && b == y * step) by (nonlinear_arith)
        requires
            step > 0,
            a % step == 0,
            b % step == 0,
            x == a / step,
            y == b / step,
    ;
    assert(x < y) by (nonlinear_arith)
        requires
            step > 0,
            x * step < y * step,
    ;
    assert(x * step + step <= y * step) by (nonlinear_arith)
        requires
            step > 0,
            x < y,
    ;
}

/// A prebuffer fill never passes the setpoint from at or below it, whatever arrives.
pub proof fn law_fill_stops_on_the_setpoint(setpoint: int, depth: int, frame_len: int)
    requires
        depth <= setpoint,
        frame_len >= 0,
    ensures
        depth + prebuffer_kept(setpoint, depth, frame_len) <= setpoint,
        depth + frame_len >= setpoint ==> depth + prebuffer_kept(setpoint, depth, frame_len)
            == setpoint,
{
}

/// The one-step floored restore lands where restoring the configured level and then growing
/// to the frame would.
pub proof fn law_one_step_restore_equals_two_steps(ms: int, frame: int)
    requires
        is_frame_size(frame),
    ensures
        floored_setpoint(ms, frame, 0) == (if buffer_level(ms) / 2 < frame {
            2 * frame
        } else {
            buffer_level(ms)
        }),
{
    if ms >= 20 {
        assert(buffer_level(ms) == (ms / 20) * 960);
    }
}

/// At 40 ms and above no frame raises the setpoint past the configured level, so the shrink
/// arm, which needs a setpoint above it, cannot fire.
pub proof fn law_no_shrink_at_forty_ms(ms: int, frame: int)
    requires
        ms >= 40,
        is_frame_size(frame),
    ensures
        floored_setpoint(ms, frame, 0) == buffer_level(ms),
{
    assert(ms / 20 >= 2);
}

/// A setpoint sized for the frame that arrives is at rest: the grow arm (a frame above half
/// the setpoint) does not fire again, and neither does the shrink arm (a frame below half
/// of a setpoint above the configured level).
pub proof fn law_resized_setpoint_is_at_rest(ms: int, frame: int)
    requires
        is_frame_size(frame),
    ensures
        ({
            let setpoint = floored_setpoint(ms, frame, 0);
            !(frame > setpoint / 2) && !(frame < setpoint / 2 && setpoint > buffer_level(ms))
        }),
{
}

/// Silence for a gap is never more than was lost, and never carries the buffer past its
/// setpoint.
pub proof fn law_gap_silence_is_bounded(setpoint: int, depth: int, decoded: int, lost: int)
    requires
        lost >= 0,
    ensures
        ({
            let silence = min_of(lost, max_of(setpoint - (depth + decoded), 0));
            0 <= silence <= lost && (depth + decoded <= setpoint ==> depth + decoded + silence
                <= setpoint)
        }),
{
}

/// A buffer setting takes the largest level that fits in it, at 48 samples a millisecond, and
/// never less than 2.5 ms. The levels are 2.5, 5 and 10 ms and every multiple of 20 ms.
pub proof fn law_a_setting_takes_the_largest_level_that_fits(ms: int, other: int)
    requires
        ms >= 0,
        other == 120 || other == 240 || other == 480 || (other > 0 && other % 960 == 0),
    ensures
        ({
            let level = buffer_level(ms);
            &&& level == 120 || level == 240 || level == 480 || (level > 0 && level % 960 == 0)
            &&& level >= 120
            &&& level > 120 ==> level <= 48 * ms
            &&& other <= 48 * ms ==> other <= level
        }),
{
    if ms >= 20 {
        let k = ms / 20;
        assert(20 * k <= ms < 20 * k + 20);
        assert(buffer_level(ms) == k * 960);
        if other % 960 == 0 && other <= 48 * ms {
            let j = other / 960;
            assert(other == 960 * j);
            assert(j <= k);
        }
    }
}

/// A setpoint is the setting's level, two incoming frames or the period's floor, whichever is
/// the most.
pub proof fn law_a_setpoint_is_the_most_of_three(ms: int, frame: int, floor: int)
    ensures
        ({
            let s = floored_setpoint(ms, frame, floor);
            &&& s >= buffer_level(ms) && s >= 2 * frame && s >= floor
            &&& s == buffer_level(ms) || s == 2 * frame || s == floor
        }),
{
}

/// No period sets no floor.
pub proof fn law_no_period_sets_no_floor()
    ensures
        period_floor(0) == 0,
{
}

/// A window averages over three seconds of packets at the three short setpoints, one packet
/// of half the setpoint at 2.5 ms being one of 2.5 ms, and over 150 packets at any other.
pub proof fn law_a_window_is_three_seconds(setpoint: int)
    ensures
        setpoint == 120 || setpoint == 240 || setpoint == 480 ==> boxcar_window(setpoint) * setpoint
            == 3 * 48_000,
        setpoint != 120 && setpoint != 240 && setpoint != 480 ==> boxcar_window(setpoint) * 960 == 3
            * 48_000,
{
}

/// A filling buffer keeps all of an arrival that fits below the setpoint, and of any other
/// just what fits.
pub proof fn law_a_fill_keeps_what_fits(setpoint: int, depth: int, frame_len: int)
    requires
        frame_len >= 0,
    ensures
        depth + frame_len <= setpoint ==> prebuffer_kept(setpoint, depth, frame_len) == frame_len,
        depth <= setpoint < depth + frame_len ==> prebuffer_kept(setpoint, depth, frame_len)
            == setpoint - depth,
        depth >= setpoint ==> prebuffer_kept(setpoint, depth, frame_len) == 0,
{
}

/// A lost stretch is filled with silence as far as it was long, and never past the setpoint.
pub proof fn law_a_gap_is_filled_up_to_the_setpoint(
    setpoint: usize,
    depth: usize,
    decoded: usize,
    lost: usize,
    silence: usize,
)
    requires
        depth + decoded <= usize::MAX,
        call_ensures(gap_silence, (setpoint, depth, decoded, lost), silence),
    ensures
        silence <= lost,
        depth + decoded + lost <= setpoint ==> silence == lost,
        depth + decoded <= setpoint < depth + decoded + lost ==> depth + decoded + silence
            == setpoint,
        depth + decoded >= setpoint ==> silence == 0,
{
}

/// A ring has room for its setpoint twice and for two of the longest frames besides.
pub proof fn law_a_ring_has_room_to_spare(
    ms: u32,
    frame: usize,
    floor: usize,
    capacity: usize,
    target: usize,
)
    requires
        call_ensures(ring_capacity_floored, (ms, frame, floor), capacity),
        call_ensures(target_samples_floored, (ms, frame, floor), target),
    ensures
        capacity == 2 * target + 2 * 960,
{
}

/// Half of a receive buffer: 2.5 ms of one of 5 ms, 5 ms of one of 10 ms, and 10 ms of any
/// other.
pub proof fn law_half_a_receive_buffer(ms: u32, half: usize)
    requires
        call_ensures(receive_half_for_buffer, (ms,), half),
    ensures
        ms == 5 || ms == 10 ==> 2 * half == 48 * ms,
        ms != 5 && ms != 10 ==> half == 480,
{
}

} // verus!
