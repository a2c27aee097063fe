//! One peer's channels and the two passes of a render cycle: which channels are mixed, how
//! the group decides its resampling ratios, and what the buffer display shows.
//!
//! The samples themselves are mixed by the caller. Values that other threads publish reach
//! a channel through its `Cells`, which the caller loads before a cycle and stores after it.

use vstd::prelude::*;

use crate::audio::drift::{snap_observed, BufferSnap};
use crate::audio::geometry::{floored_setpoint, target_samples_floored};
use crate::audio::sample::{less_than, sample_less_than};
use crate::audio::sync::{
    cycle_plan,
    group_mean,
    ladder_ratio,
    ladder_step,
    mask_has,
    plan_of,
    rounded_mean,
    ts_advanced,
    CyclePlan,
    Ratio,
};
use crate::pick::{count, law_count_bounds, law_picked, picked, sum};

verus! {

/// The resampler's fixed read-ahead: each staged window is the render quantum and this many
/// samples.
pub const READ_AHEAD: usize = 6;

/// Twice the longest frame: the shortest window a channel is given.
pub const WINDOW_MIN: usize = 1920;

/// A channel counts as active above this level: the pattern of 0.001.
pub const ACTIVE_THRESHOLD: u32 = 0x3a83_126f;

/// Renders without a write after which a channel leaves the buffer display.
pub const IDLE_RENDERS_LIMIT: u32 = 10;

/// What a channel shares with the side that writes its packets and with its resample jobs.
#[derive(Clone, Copy, PartialEq, Eq, Structural)]
pub struct Cells {
    /// Prebuffer hold: while it is set, all reads are refused.
    pub hold: bool,
    /// Depth relay direction: -1 drain, 0, +1 fill.
    pub cm_dir: i8,
    /// Skew relay direction, set by the resample job and cleared by the group.
    pub skew_flag: i8,
    /// The reference both relays work about.
    pub skew_ref: i64,
    /// Front of the staged window on the ring's timeline.
    pub merge_ts: u32,
    /// The last job recovered input, so its result can be mixed.
    pub ready: bool,
    /// Request to the writing side to reset its averaging window.
    pub boxcar_reset: bool,
}

/// One incoming channel as the render side keeps it.
#[derive(Clone, Copy, PartialEq, Eq, Structural)]
pub struct Channel {
    pub source_slot: u8,
    /// Output destinations, bit N for output N.
    pub out_mask: u128,
    /// The merge stamp as it stood at the last dispatch.
    pub last_merge_ts: u32,
    pub last_write_pos: u64,
    /// Renders since the write position last moved.
    pub writer_idle_renders: u32,
    pub target_samples: usize,
    /// Samples held in the ring when last seen.
    pub depth: usize,
    pub cells: Cells,
}

/// What the caller saw of a channel when the cycle began.
#[derive(Clone, Copy, PartialEq, Eq, Structural)]
pub struct Observation {
    /// Write position of the ring the channel had when the cycle began.
    pub write_pos: u64,
    /// The setpoint of a ring taken over from the swap inbox.
    pub swap: Option<usize>,
    /// The slot's lock was free, so its ring or its result can be read.
    pub slot_free: bool,
    /// Stamp at the ring's read position.
    pub cursor_ts: Option<u32>,
}

/// What the caller saw of a channel once it had been mixed.
#[derive(Clone, Copy, PartialEq, Eq, Structural)]
pub struct LateView {
    pub swap: Option<usize>,
    /// Tracked level, as a sample pattern.
    pub level: u32,
    pub depth: usize,
}

/// One resample job to hand to a channel's queue.
#[derive(Clone, Copy, Debug, PartialEq, Eq, Structural)]
pub struct Dispatch {
    pub slot: u8,
    pub ratio: Ratio,
    pub target: usize,
}

/// Writer liveness: a write position that moved clears the idle count.
pub open spec fn aged(c: Channel, write_pos: u64) -> Channel {
    if write_pos == c.last_write_pos {
        Channel {
            writer_idle_renders: if c.writer_idle_renders < u32::MAX {
                (c.writer_idle_renders + 1) as u32
            } else {
                u32::MAX
            },
            ..c
        }
    } else {
        Channel { writer_idle_renders: 0, last_write_pos: write_pos, ..c }
    }
}

/// A ring swap: a new setpoint, the hold armed again, and any finished result dropped.
pub open spec fn swapped(c: Channel, swap: Option<usize>) -> Channel {
    match swap {
        None => c,
        Some(target) => Channel {
            target_samples: target,
            cells: Cells { hold: true, ready: false, ..c.cells },
            ..c
        },
    }
}

/// Retrieval succeeds: released, routed, not held by a job, and, under phase lock, with a
/// result to mix.
pub open spec fn retrieved(c: Channel, seen: Observation, sync: bool) -> bool {
    !c.cells.hold && c.out_mask != 0 && seen.slot_free && (sync ==> c.cells.ready)
}

/// A channel after the first pass has visited it.
pub open spec fn visited(c: Channel, seen: Observation, sync: bool) -> Channel {
    let d = swapped(aged(c, seen.write_pos), seen.swap);
    if retrieved(d, seen, sync) && !sync && seen.cursor_ts is Some {
        Channel { cells: Cells { merge_ts: seen.cursor_ts->Some_0, ..d.cells }, ..d }
    } else {
        d
    }
}

/// The sources to mix among the first `n` channels, each with its destinations.
pub open spec fn mixed(
    channels: Seq<Channel>,
    seen: Seq<Observation>,
    sync: bool,
    n: int,
) -> Seq<(u8, u128)>
    decreases n,
{
    if n <= 0 {
        Seq::empty()
    } else {
        let c = visited(channels[n - 1], seen[n - 1], sync);
        if retrieved(c, seen[n - 1], sync) {
            mixed(channels, seen, sync, n - 1).push((c.source_slot, c.out_mask))
        } else {
            mixed(channels, seen, sync, n - 1)
        }
    }
}

/// Retrieved under phase lock, with a stamp past the one latched at the last dispatch.
pub open spec fn advances(c: Channel, seen: Observation, sync: bool) -> bool {
    sync && retrieved(c, seen, sync) && c.last_merge_ts < c.cells.merge_ts
}

/// The channels among the first `n` that advanced, each with its stamp.
pub open spec fn advanced(
    channels: Seq<Channel>,
    seen: Seq<Observation>,
    sync: bool,
    n: int,
) -> Seq<(u8, u32)>
    decreases n,
{
    if n <= 0 {
        Seq::empty()
    } else {
        let c = visited(channels[n - 1], seen[n - 1], sync);
        if advances(c, seen[n - 1], sync) {
            advanced(channels, seen, sync, n - 1).push((c.source_slot, c.cells.merge_ts))
        } else {
            advanced(channels, seen, sync, n - 1)
        }
    }
}

/// The sum of the first `n` stamps.
pub open spec fn stamp_sum(pass1: Seq<(u8, u32)>, n: int) -> int
    decreases n,
{
    if n <= 0 {
        0
    } else {
        stamp_sum(pass1, n - 1) + pass1[n - 1].1
    }
}

/// The slot is among those that advanced.
pub open spec fn listed(pass1: Seq<(u8, u32)>, slot: u8) -> bool {
    exists|j: int| 0 <= j < pass1.len() && #[trigger] pass1[j].0 == slot
}

/// The depth relays of the advanced ones among the first `n` channels, added up.
pub open spec fn adjusting_tally(channels: Seq<Channel>, pass1: Seq<(u8, u32)>, n: int) -> int
    decreases n,
{
    if n <= 0 {
        0
    } else {
        adjusting_tally(channels, pass1, n - 1) + (if listed(
            pass1,
            channels[n - 1].source_slot,
        ) {
            channels[n - 1].cells.cm_dir as int
        } else {
            0
        })
    }
}

/// The skew relays of the advanced ones among the first `n` channels, added up.
pub open spec fn skew_tally(channels: Seq<Channel>, pass1: Seq<(u8, u32)>, n: int) -> int
    decreases n,
{
    if n <= 0 {
        0
    } else {
        skew_tally(channels, pass1, n - 1) + (if listed(pass1, channels[n - 1].source_slot) {
            channels[n - 1].cells.skew_flag as int
        } else {
            0
        })
    }
}

/// An advanced channel whose reference the skew servo moves; any other is left alone.
pub open spec fn skew_moved(c: Channel, pass1: Seq<(u8, u32)>, delta: i64) -> Channel {
    if listed(pass1, c.source_slot) {
        Channel {
            cells: Cells {
                skew_ref: c.cells.skew_ref.wrapping_add(delta),
                skew_flag: 0,
                ..c.cells
            },
            ..c
        }
    } else {
        c
    }
}

pub open spec fn sign(n: int) -> int {
    if n > 0 {
        1
    } else if n < 0 {
        -1
    } else {
        0
    }
}

/// What a group holds: its channels by ascending slot, and the state of the corrections.
#[verifier::ext_equal]
pub struct GroupModel {
    pub channels: Seq<Channel>,
    pub sync: bool,
    /// The channels that advanced this cycle, with their stamps, by ascending slot.
    pub pass1: Seq<(u8, u32)>,
    pub buffer_ms: u32,
    /// The common-mode latch, and the direction last applied.
    pub common_engaged: bool,
    pub common_dir: int,
    pub snap: BufferSnap,
    pub period_hint: usize,
}

/// What a skew cycle of `frames` adds to a reference: the render quantum, with the tally's
/// sign. It wraps, as the reference does.
pub open spec fn skew_quantum(skew: int, frames: int) -> i64 {
    if skew > 0 {
        frames as i64
    } else {
        0i64.wrapping_sub(frames as i64)
    }
}

/// The group decision: the state it leaves, and the ratio for every channel.
pub open spec fn decided(m: GroupModel, frames: int) -> (GroupModel, Ratio) {
    let n = m.channels.len() as int;
    let skew = skew_tally(m.channels, m.pass1, n);
    let adjusting = adjusting_tally(m.channels, m.pass1, n);
    if skew != 0 {
        let delta = skew_quantum(skew, frames);
        (
            GroupModel {
                channels: Seq::new(
                    m.channels.len(),
                    |i: int| skew_moved(m.channels[i], m.pass1, delta),
                ),
                ..m
            },
            Ratio::Unity,
        )
    } else {
        let dir = sign(adjusting);
        (
            GroupModel {
                common_dir: dir,
                common_engaged: if m.common_dir != dir {
                    dir != 0
                } else {
                    m.common_engaged
                },
                ..m
            },
            if dir < 0 {
                Ratio::StrongDown
            } else if dir > 0 {
                Ratio::StrongUp
            } else {
                Ratio::Unity
            },
        )
    }
}

/// The ladder ratio of a slot: its own step if it advanced, unity if not.
pub open spec fn ladder_for(pass1: Seq<(u8, u32)>, slot: u8, mean: int, n: int) -> Ratio
    decreases n,
{
    if n <= 0 {
        Ratio::Unity
    } else if pass1[n - 1].0 == slot {
        ladder_step(pass1[n - 1].1 - mean)
    } else {
        ladder_for(pass1, slot, mean, n - 1)
    }
}

/// A routed channel after its dispatch: the request line stored, the stamp latched, and no
/// result until the job says so.
pub open spec fn dispatched(c: Channel, reset: bool) -> Channel {
    if c.out_mask == 0 {
        c
    } else {
        Channel {
            last_merge_ts: c.cells.merge_ts,
            cells: Cells { boxcar_reset: reset, ready: false, ..c.cells },
            ..c
        }
    }
}

/// The jobs for the first `n` channels, one for every routed channel. With no broadcast each
/// channel takes its ladder ratio.
pub open spec fn jobs(
    channels: Seq<Channel>,
    pass1: Seq<(u8, u32)>,
    broadcast: Option<Ratio>,
    mean: int,
    n: int,
) -> Seq<Dispatch>
    decreases n,
{
    if n <= 0 {
        Seq::empty()
    } else {
        let c = channels[n - 1];
        let rest = jobs(channels, pass1, broadcast, mean, n - 1);
        if c.out_mask == 0 {
            rest
        } else {
            rest.push(
                Dispatch {
                    slot: c.source_slot,
                    ratio: match broadcast {
                        Some(r) => r,
                        None => ladder_for(pass1, c.source_slot, mean, pass1.len() as int),
                    },
                    target: c.target_samples,
                },
            )
        }
    }
}

/// Some advanced channel is off the mean.
pub open spec fn off_mean(pass1: Seq<(u8, u32)>, mean: int) -> bool {
    exists|j: int| 0 <= j < pass1.len() && (#[trigger] pass1[j]).1 != mean
}

/// The second pass of a phase-locked cycle: the state it leaves and the jobs it dispatches.
pub open spec fn second_pass(m: GroupModel, frames: int) -> (GroupModel, Seq<Dispatch>) {
    let mean = rounded_mean(stamp_sum(m.pass1, m.pass1.len() as int), m.pass1.len() as int);
    let any_off = off_mean(m.pass1, mean);
    let plan = plan_of(m.pass1.len() as int, m.common_engaged, any_off);
    let (d, broadcast) = match plan {
        CyclePlan::AllUnity => (m, Some(Ratio::Unity)),
        CyclePlan::Ladder => (m, None),
        CyclePlan::Group => (decided(m, frames).0, Some(decided(m, frames).1)),
    };
    let reset = plan != CyclePlan::AllUnity && !d.common_engaged && any_off;
    (
        GroupModel {
            channels: Seq::new(d.channels.len(), |i: int| dispatched(d.channels[i], reset)),
            ..d
        },
        jobs(d.channels, d.pass1, broadcast, mean, d.channels.len() as int),
    )
}

/// The channel takes part in the buffer display: routed, and its writer has not stopped.
pub open spec fn displayed(c: Channel) -> bool {
    c.out_mask != 0 && c.writer_idle_renders < IDLE_RENDERS_LIMIT
}

/// Totals over the displayed channels among the first `n` that are past their hold: depths,
/// setpoints (at least 1 each), and how many.
pub open spec fn fill_totals(channels: Seq<Channel>, n: int) -> (int, int, int)
    decreases n,
{
    if n <= 0 {
        (0, 0, 0)
    } else {
        let c = channels[n - 1];
        let (d, t, k) = fill_totals(channels, n - 1);
        if displayed(c) && !c.cells.hold {
            (
                d + c.depth,
                t + (if c.target_samples >= 1 {
                    c.target_samples as int
                } else {
                    1
                }),
                k + 1,
            )
        } else {
            (d, t, k)
        }
    }
}

/// The mean depth and the mean setpoint of those channels.
pub open spec fn fill_reading(channels: Seq<Channel>) -> Option<(int, int)> {
    let (d, t, k) = fill_totals(channels, channels.len() as int);
    if k > 0 {
        Some(
            (
                d / k,
                if t / k >= 1 {
                    t / k
                } else {
                    1
                },
            ),
        )
    } else {
        None
    }
}

/// How many of the first `n` channels are displayed and still filling.
pub open spec fn holding_count(channels: Seq<Channel>, n: int) -> int
    decreases n,
{
    if n <= 0 {
        0
    } else {
        holding_count(channels, n - 1) + (if displayed(channels[n - 1]) && channels[n - 1].cells.hold
        {
            1int
        } else {
            0int
        })
    }
}

/// A channel as the end of the cycle finds it.
pub open spec fn settled(c: Channel, late: LateView) -> Channel {
    Channel { depth: late.depth, ..swapped(c, late.swap) }
}

/// How many of the first `n` channels are released, above the active level, and routed to
/// output `o`.
pub open spec fn active_on(channels: Seq<Channel>, late: Seq<LateView>, o: int, n: int) -> int
    decreases n,
{
    if n <= 0 {
        0
    } else {
        let c = settled(channels[n - 1], late[n - 1]);
        active_on(channels, late, o, n - 1) + (if !c.cells.hold && less_than(
            ACTIVE_THRESHOLD,
            late[n - 1].level,
        ) && mask_has(c.out_mask, o) {
            1int
        } else {
            0int
        })
    }
}

/// Where a slot stands, or would be put, among channels by ascending slot.
pub open spec fn place(channels: Seq<Channel>, slot: u8) -> int
    decreases channels.len(),
{
    if channels.len() == 0 {
        0
    } else if channels.last().source_slot < slot {
        channels.len() as int
    } else {
        place(channels.drop_last(), slot)
    }
}

/// The channel on `slot`, or none.
pub open spec fn carries(channels: Seq<Channel>, slot: u8) -> bool {
    exists|i: int| 0 <= i < channels.len() && #[trigger] channels[i].source_slot == slot
}

/// The mask of a slot in a table of them; a slot past its end is not routed.
pub open spec fn mask_for(masks: Seq<Option<u128>>, slot: u8) -> Option<u128> {
    if slot < masks.len() {
        masks[slot as int]
    } else {
        None
    }
}

/// The first `n` channels with their new masks, without those that are routed nowhere.
pub open spec fn rerouted(channels: Seq<Channel>, masks: Seq<Option<u128>>, n: int) -> Seq<Channel>
    decreases n,
{
    if n <= 0 {
        Seq::empty()
    } else {
        let c = channels[n - 1];
        match mask_for(masks, c.source_slot) {
            Some(mask) => rerouted(channels, masks, n - 1).push(Channel { out_mask: mask, ..c }),
            None => rerouted(channels, masks, n - 1),
        }
    }
}

/// The slots among the first `n` that are routed nowhere.
pub open spec fn unrouted(channels: Seq<Channel>, masks: Seq<Option<u128>>, n: int) -> Seq<u8>
    decreases n,
{
    if n <= 0 {
        Seq::empty()
    } else {
        let c = channels[n - 1];
        match mask_for(masks, c.source_slot) {
            Some(_) => unrouted(channels, masks, n - 1),
            None => unrouted(channels, masks, n - 1).push(c.source_slot),
        }
    }
}

pub open spec fn ascending(channels: Seq<Channel>) -> bool {
    forall|i: int, j: int|
        0 <= i < j < channels.len() ==> #[trigger] channels[i].source_slot
            < #[trigger] channels[j].source_slot
}

/// One peer's channels, and what their render cycles decide together.
pub struct PeerGroup {
    channels: Vec<Channel>,
    sync: bool,
    pass1: Vec<(u8, u32)>,
    buffer_ms: u32,
    common_engaged: bool,
    common_dir: i8,
    snap: BufferSnap,
    period_hint: usize,
}

impl View for PeerGroup {
    type V = GroupModel;

    closed spec fn view(&self) -> GroupModel {
        GroupModel {
            channels: self.channels@,
            sync: self.sync,
            pass1: self.pass1@,
            buffer_ms: self.buffer_ms,
            common_engaged: self.common_engaged,
            common_dir: self.common_dir as int,
            snap: self.snap,
            period_hint: self.period_hint,
        }
    }
}

impl GroupModel {
    /// Channels and advanced slots stand in ascending order, each slot once, and the latch
    /// is raised exactly while a direction is applied.
    pub open spec fn well_formed(self) -> bool {
        &&& ascending(self.channels)
        &&& forall|i: int, j: int|
            0 <= i < j < self.pass1.len() ==> #[trigger] self.pass1[i].0 < #[trigger] self.pass1[j].0
        &&& -1 <= self.common_dir <= 1
        &&& self.common_engaged == (self.common_dir != 0)
    }
}

impl PeerGroup {
    /// A group with no channels, phase-locked or not, at a buffer setting.
    pub fn new_with_sync(_num_out_ch: u8, sync: bool, buffer_ms: u32) -> (g: Self)
        ensures
            g@.well_formed(),
            g@ == (GroupModel {
                channels: Seq::empty(),
                sync,
                pass1: Seq::empty(),
                buffer_ms,
                common_engaged: false,
                common_dir: 0,
                snap: BufferSnap { sum: 0, count: 0, min: u32::MAX, max: 0, target: 0, holding: 0 },
                period_hint: 0,
            }),
    {
        PeerGroup {
            channels: Vec::new(),
            sync,
            pass1: Vec::with_capacity(128),
            buffer_ms,
            common_engaged: false,
            common_dir: 0,
            snap: BufferSnap::new(),
            period_hint: 0,
        }
    }

    pub fn sync_enabled(&self) -> (sync: bool)
        ensures
            sync == self@.sync,
    {
        self.sync
    }

    pub fn set_sync(&mut self, sync: bool)
        ensures
            final(self)@ == (GroupModel { sync, ..old(self)@ }),
    {
        self.sync = sync;
    }

    /// A changed buffer setting, for channels that join after it.
    pub fn set_buffer_ms(&mut self, ms: u32)
        ensures
            final(self)@ == (GroupModel { buffer_ms: ms, ..old(self)@ }),
    {
        self.buffer_ms = ms;
    }

    /// Remember the longest callback period the output device granted.
    pub fn reserve_for_period(&mut self, frames: usize)
        ensures
            final(self)@ == (GroupModel {
                period_hint: if old(self)@.period_hint < frames {
                    frames
                } else {
                    old(self)@.period_hint
                },
                ..old(self)@
            }),
    {
        if self.period_hint < frames {
            self.period_hint = frames;
        }
    }

    /// Length of a new channel's staging and output windows: room for two of the longest
    /// frames, or for the longest callback and its read-ahead.
    pub fn window_len(&self) -> (len: usize)
        requires
            self@.period_hint + READ_AHEAD <= usize::MAX,
        ensures
            len == (if self@.period_hint + READ_AHEAD > WINDOW_MIN {
                self@.period_hint + READ_AHEAD
            } else {
                WINDOW_MIN as int
            }),
    {
        let asked: usize = self.period_hint + READ_AHEAD;
        if asked > WINDOW_MIN {
            asked
        } else {
            WINDOW_MIN
        }
    }

    pub fn num_channels(&self) -> (n: usize)
        ensures
            n == self@.channels.len(),
    {
        self.channels.len()
    }

    /// The common-mode latch.
    pub fn common_engaged(&self) -> (engaged: bool)
        ensures
            engaged == self@.common_engaged,
    {
        self.common_engaged
    }

    /// The channel at position `i` in ascending slot order.
    pub fn channel(&self, i: usize) -> (c: Channel)
        requires
            i < self@.channels.len(),
        ensures
            c == self@.channels[i as int],
    {
        self.channels[i]
    }

    /// Load a channel's shared cells, as the other sides have left them.
    pub fn set_cells(&mut self, i: usize, cells: Cells)
        requires
            old(self)@.well_formed(),
            i < old(self)@.channels.len(),
        ensures
            final(self)@.well_formed(),
            final(self)@ == (GroupModel {
                channels: old(self)@.channels.update(
                    i as int,
                    Channel { cells, ..old(self)@.channels[i as int] },
                ),
                ..old(self)@
            }),
    {
        let c: Channel = self.channels[i];
        self.channels.set(i, Channel { cells, ..c });
    }

    /// True if this group carries the given incoming slot.
    pub fn has_channel(&self, slot: u8) -> (has: bool)
        requires
            self@.well_formed(),
        ensures
            has == carries(self@.channels, slot),
    {
        let mut i: usize = 0;
        while i < self.channels.len()
            invariant
                i <= self.channels@.len(),
                forall|j: int| 0 <= j < i ==> #[trigger] self.channels@[j].source_slot != slot,
            decreases self.channels@.len() - i,
        {
            if self.channels[i].source_slot == slot {
                assert(self@.channels[i as int].source_slot == slot);
                return true;
            }
            i = i + 1;
        }
        false
    }

    /// Put a channel on a slot, with no result yet and no stamp. A newer announcement replaces
    /// whatever the slot carried: it is the one wired to the ring that is being written.
    #[verifier::rlimit(40)]
    pub fn add_channel(
        &mut self,
        slot: u8,
        depth: usize,
        out_mask: u128,
        cells: Cells,
        frame_samples: usize,
    )
        requires
            old(self)@.well_formed(),
            floored_setpoint(old(self)@.buffer_ms as int, frame_samples as int, 0) <= usize::MAX,
        ensures
            final(self)@.well_formed(),
            ({
                let c = Channel {
                    source_slot: slot,
                    out_mask,
                    last_merge_ts: 0,
                    last_write_pos: 0,
                    writer_idle_renders: 0,
                    target_samples: floored_setpoint(
                        old(self)@.buffer_ms as int,
                        frame_samples as int,
                        0,
                    ) as usize,
                    depth,
                    cells: Cells { merge_ts: 0, ready: false, ..cells },
                };
                let i = place(old(self)@.channels, slot);
                &&& 0 <= i <= old(self)@.channels.len()
                &&& final(self)@ == (GroupModel {
                    channels: if carries(old(self)@.channels, slot) {
                        old(self)@.channels.update(i, c)
                    } else {
                        old(self)@.channels.insert(i, c)
                    },
                    ..old(self)@
                })
            }),
    {
        let target: usize = target_samples_floored(self.buffer_ms, frame_samples, 0);
        let c = Channel {
            source_slot: slot,
            out_mask,
            last_merge_ts: 0,
            last_write_pos: 0,
            writer_idle_renders: 0,
            target_samples: target,
            depth,
            cells: Cells { merge_ts: 0, ready: false, ..cells },
        };
        let ghost before = self.channels@;
        let mut i: usize = self.channels.len();
        assert(before.subrange(0, i as int) =~= before);
        while i > 0 && self.channels[i - 1].source_slot >= slot
            invariant
                i <= before.len(),
                self.channels@ == before,
                place(before, slot) == place(before.subrange(0, i as int), slot),
                forall|j: int| i <= j < before.len() ==> #[trigger] before[j].source_slot >= slot,
            decreases i,
        {
            assert(before.subrange(0, i as int).drop_last() =~= before.subrange(0, i - 1));
            i = i - 1;
        }
        proof {
            let head = before.subrange(0, i as int);
            if i > 0 {
                assert(head.last() == before[i - 1]);
            }
            assert(place(before, slot) == i);
            assert forall|j: int| 0 <= j < i implies #[trigger] before[j].source_slot < slot by {
                assert(before[j].source_slot <= before[i - 1].source_slot);
            }
        }
        if i < self.channels.len() && self.channels[i].source_slot == slot {
            assert(carries(before, slot));
            assert(ascending(before.update(i as int, c)));
            self.channels.set(i, c);
        } else {
            proof {
                if i < before.len() {
                    assert(before[i as int].source_slot > slot);
                    assert forall|j: int| i <= j < before.len() implies #[trigger] before[j].source_slot
                        > slot by {
                        assert(before[i as int].source_slot <= before[j].source_slot);
                    }
                }
                assert(!carries(before, slot));
                lemma_insert_ascending(before, i as int, c);
            }
            self.channels.insert(i, c);
            assert(self@.channels == before.insert(i as int, c));
        }
    }

    /// Re-apply routing to every channel from a table of masks by slot. A routed channel has
    /// its mask updated in place; one routed nowhere is removed and its slot handed back.
    pub fn reroute_channels(&mut self, masks: &Vec<Option<u128>>) -> (dropped: Vec<u8>)
        requires
            old(self)@.well_formed(),
        ensures
            final(self)@.well_formed(),
            final(self)@ == (GroupModel {
                channels: rerouted(
                    old(self)@.channels,
                    masks@,
                    old(self)@.channels.len() as int,
                ),
                ..old(self)@
            }),
            dropped@ == unrouted(old(self)@.channels, masks@, old(self)@.channels.len() as int),
    {
        let mut kept: Vec<Channel> = Vec::new();
        let mut dropped: Vec<u8> = Vec::new();
        let ghost before = self.channels@;
        let mut i: usize = 0;
        while i < self.channels.len()
            invariant
                i <= before.len(),
                self.channels@ == before,
                ascending(before),
                ascending(kept@),
                kept@.len() <= i,
                forall|j: int|
                    0 <= j < kept@.len() ==> i > 0 && #[trigger] kept@[j].source_slot
                        <= before[i - 1].source_slot,
                kept@ == rerouted(before, masks@, i as int),
                dropped@ == unrouted(before, masks@, i as int),
            decreases before.len() - i,
        {
            let c: Channel = self.channels[i];
            let mask: Option<u128> = if (c.source_slot as usize) < masks.len() {
                masks[c.source_slot as usize]
            } else {
                None
            };
            match mask {
                Some(m) => {
                    kept.push(Channel { out_mask: m, ..c });
                },
                None => {
                    dropped.push(c.source_slot);
                },
            }
            i = i + 1;
        }
        self.channels = kept;
        dropped
    }

    /// First pass: age every channel's writer, apply ring swaps, and gate. Returns the
    /// sources to mix, each with its destinations, and records which channels advanced.
    ///
    /// A channel in its prebuffer hold, one routed nowhere and one whose retrieval fails
    /// contribute nothing, and take no part in the group's decision.
    pub fn render_pass1(&mut self, seen: &Vec<Observation>) -> (mixes: Vec<(u8, u128)>)
        requires
            old(self)@.well_formed(),
            seen@.len() == old(self)@.channels.len(),
        ensures
            final(self)@.well_formed(),
            mixes@ == mixed(
                old(self)@.channels,
                seen@,
                old(self)@.sync,
                old(self)@.channels.len() as int,
            ),
            final(self)@ == (GroupModel {
                channels: Seq::new(
                    old(self)@.channels.len(),
                    |i: int| visited(old(self)@.channels[i], seen@[i], old(self)@.sync),
                ),
                pass1: advanced(
                    old(self)@.channels,
                    seen@,
                    old(self)@.sync,
                    old(self)@.channels.len() as int,
                ),
                ..old(self)@
            }),
    {
        let ghost before = self.channels@;
        let mut mixes: Vec<(u8, u128)> = Vec::new();
        self.pass1.clear();
        let sync: bool = self.sync;
        let n: usize = self.channels.len();
        let mut i: usize = 0;
        while i < n
            invariant
                i <= n,
                n == before.len(),
                n == seen@.len(),
                self.channels@.len() == n,
                ascending(before),
                sync == old(self).sync,
                forall|j: int|
                    0 <= j < i ==> #[trigger] self.channels@[j] == visited(before[j], seen@[j], sync),
                forall|j: int| i <= j < n ==> #[trigger] self.channels@[j] == before[j],
                mixes@ == mixed(before, seen@, sync, i as int),
                self.pass1@ == advanced(before, seen@, sync, i as int),
                forall|j: int|
                    0 <= j < self.pass1@.len() ==> i > 0 && #[trigger] self.pass1@[j].0
                        <= before[i - 1].source_slot,
                forall|j: int, k: int|
                    0 <= j < k < self.pass1@.len() ==> #[trigger] self.pass1@[j].0
                        < #[trigger] self.pass1@[k].0,
                self.sync == old(self).sync,
                self.buffer_ms == old(self).buffer_ms,
                self.common_engaged == old(self).common_engaged,
                self.common_dir == old(self).common_dir,
                self.snap == old(self).snap,
                self.period_hint == old(self).period_hint,
            decreases n - i,
        {
            let mut c: Channel = self.channels[i];
            let o: Observation = seen[i];
            assert(c == before[i as int]);
            note_writer_liveness(&mut c, o.write_pos);
            let released: bool = ready(&mut c, o.swap);
            if released && c.out_mask != 0 && o.slot_free && (!sync || c.cells.ready) {
                if !sync {
                    if let Some(t) = o.cursor_ts {
                        c.cells.merge_ts = t;
                    }
                }
                mixes.push((c.source_slot, c.out_mask));
                if sync && ts_advanced(c.last_merge_ts, c.cells.merge_ts) {
                    self.pass1.push((c.source_slot, c.cells.merge_ts));
                }
            }
            assert(c == visited(before[i as int], o, sync));
            self.channels.set(i, c);
            i = i + 1;
        }
        assert(self.channels@ =~= Seq::new(
            before.len(),
            |i: int| visited(before[i], seen@[i], sync),
        ));
        mixes
    }

    /// The group decision: one ratio for every channel this cycle, from the relays of the
    /// channels that advanced.
    ///
    /// A skew tally other than zero wins: every advanced channel's reference moves one
    /// render quantum the tally's way and its flag clears, at unity, and the common-mode
    /// state stays as it was. A zero skew tally hands the cycle to the adjusting tally,
    /// whose sign picks the ratio and moves the latch where the direction changed.
    pub fn group_decision(&mut self, frames: usize) -> (ratio: Ratio)
        requires
            old(self)@.well_formed(),
        ensures
            final(self)@.well_formed(),
            (final(self)@, ratio) == decided(old(self)@, frames as int),
    {
        let ghost before = self.channels@;
        let ghost pass1 = self.pass1@;
        let n: usize = self.channels.len();
        proof {
            lemma_at_most_256(before);
        }
        let mut adjusting: i32 = 0;
        let mut skew: i32 = 0;
        let mut i: usize = 0;
        while i < n
            invariant
                i <= n,
                n == before.len(),
                n <= 256,
                self.channels@ == before,
                self.pass1@ == pass1,
                adjusting == adjusting_tally(before, pass1, i as int),
                skew == skew_tally(before, pass1, i as int),
                -128 * i <= adjusting <= 128 * i,
                -128 * i <= skew <= 128 * i,
            decreases n - i,
        {
            let c: Channel = self.channels[i];
            if is_listed(&self.pass1, c.source_slot) {
                adjusting = adjusting + c.cells.cm_dir as i32;
                skew = skew + c.cells.skew_flag as i32;
            }
            i = i + 1;
        }
        if skew != 0 {
            let delta: i64 = if skew > 0 {
                frames as i64
            } else {
                0i64.wrapping_sub(frames as i64)
            };
            let mut k: usize = 0;
            while k < n
                invariant
                    k <= n,
                    n == before.len(),
                    self.channels@.len() == n,
                    self.pass1@ == pass1,
                    forall|j: int|
                        0 <= j < k ==> #[trigger] self.channels@[j] == skew_moved(
                            before[j],
                            pass1,
                            delta,
                        ),
                    forall|j: int| k <= j < n ==> #[trigger] self.channels@[j] == before[j],
                    self.sync == old(self).sync,
                    self.buffer_ms == old(self).buffer_ms,
                    self.common_engaged == old(self).common_engaged,
                    self.common_dir == old(self).common_dir,
                    self.snap == old(self).snap,
                    self.period_hint == old(self).period_hint,
                decreases n - k,
            {
                let mut c: Channel = self.channels[k];
                assert(c == before[k as int]);
                if is_listed(&self.pass1, c.source_slot) {
                    c.cells.skew_ref = c.cells.skew_ref.wrapping_add(delta);
                    c.cells.skew_flag = 0;
                }
                self.channels.set(k, c);
                k = k + 1;
            }
            assert(self@.channels =~= decided(old(self)@, frames as int).0.channels);
            assert(self@ =~= decided(old(self)@, frames as int).0);
            return Ratio::Unity;
        }
        let dir: i8 = if adjusting < 0 {
            -1
        } else if adjusting > 0 {
            1
        } else {
            0
        };
        if self.common_dir != dir {
            self.common_dir = dir;
            self.common_engaged = dir != 0;
        }
        if dir < 0 {
            Ratio::StrongDown
        } else if dir > 0 {
            Ratio::StrongUp
        } else {
            Ratio::Unity
        }
    }

    /// Second pass: this cycle's ratios, and one job for every routed channel, held or
    /// released, advanced or not. With phase lock off there is nothing to do.
    pub fn render_pass2(&mut self, frames: usize) -> (dispatches: Vec<Dispatch>)
        requires
            old(self)@.well_formed(),
        ensures
            final(self)@.well_formed(),
            !old(self)@.sync ==> final(self)@ == old(self)@ && dispatches@.len() == 0,
            old(self)@.sync ==> (final(self)@, dispatches@) == second_pass(
                old(self)@,
                frames as int,
            ),
    {
        let mut out: Vec<Dispatch> = Vec::new();
        if !self.sync {
            return out;
        }
        let ghost m = self@;
        let ghost pass1 = self.pass1@;
        proof {
            assert(m.pass1 == pass1);
            assert(m.well_formed());
            lemma_pass1_at_most_256(m.pass1);
        }
        let count: usize = self.pass1.len();
        let mut sum: u64 = 0;
        let mut i: usize = 0;
        while i < count
            invariant
                i <= count <= 256,
                count == pass1.len(),
                self.pass1@ == pass1,
                sum == stamp_sum(pass1, i as int),
                sum <= i * u32::MAX,
            decreases count - i,
        {
            sum = sum + self.pass1[i].1 as u64;
            i = i + 1;
        }
        let mean: u32 = group_mean(sum, count as u64);
        let mut any_off: bool = false;
        let mut j: usize = 0;
        while j < count
            invariant
                j <= count,
                count == pass1.len(),
                self.pass1@ == pass1,
                any_off == exists|k: int| 0 <= k < j && (#[trigger] pass1[k]).1 != mean,
            decreases count - j,
        {
            if self.pass1[j].1 != mean {
                assert(pass1[j as int].1 != mean);
                any_off = true;
            }
            j = j + 1;
        }
        assert(any_off == off_mean(pass1, mean as int));
        let plan: CyclePlan = cycle_plan(count as u64, self.common_engaged, any_off);
        let broadcast: Option<Ratio> = match plan {
            CyclePlan::AllUnity => Some(Ratio::Unity),
            CyclePlan::Ladder => None,
            CyclePlan::Group => Some(self.group_decision(frames)),
        };
        let ghost d = self@;
        let reset: bool = plan != CyclePlan::AllUnity && !self.common_engaged && any_off;
        let n: usize = self.channels.len();
        let mut k: usize = 0;
        while k < n
            invariant
                k <= n,
                n == d.channels.len(),
                self.channels@.len() == n,
                self.pass1@ == pass1,
                d.pass1 == pass1,
                forall|l: int|
                    0 <= l < k ==> #[trigger] self.channels@[l] == dispatched(d.channels[l], reset),
                forall|l: int| k <= l < n ==> #[trigger] self.channels@[l] == d.channels[l],
                out@ == jobs(d.channels, pass1, broadcast, mean as int, k as int),
                self.sync == d.sync,
                self.buffer_ms == d.buffer_ms,
                self.common_engaged == d.common_engaged,
                self.common_dir == d.common_dir,
                self.snap == d.snap,
                self.period_hint == d.period_hint,
            decreases n - k,
        {
            let mut c: Channel = self.channels[k];
            assert(c == d.channels[k as int]);
            if c.out_mask != 0 {
                let ratio: Ratio = match broadcast {
                    Some(r) => r,
                    None => ladder_of(&self.pass1, c.source_slot, mean),
                };
                out.push(Dispatch { slot: c.source_slot, ratio, target: c.target_samples });
                c.cells.boxcar_reset = reset;
                c.last_merge_ts = c.cells.merge_ts;
                c.cells.ready = false;
            }
            self.channels.set(k, c);
            k = k + 1;
        }
        proof {
            let want = second_pass(m, frames as int);
            assert(self@.channels =~= want.0.channels);
            assert(self@ =~= want.0);
        }
        out
    }

    /// End of the cycle: tally the active channels of each output for the gain share, fold
    /// the buffer reading into the display interval, and count the channels still filling.
    pub fn render_finish(&mut self, late: &Vec<LateView>, n_active: &mut Vec<u32>)
        requires
            old(self)@.well_formed(),
            late@.len() == old(self)@.channels.len(),
            forall|o: int|
                0 <= o < old(n_active)@.len() ==> #[trigger] old(n_active)@[o] + active_on(
                    old(self)@.channels,
                    late@,
                    o,
                    old(self)@.channels.len() as int,
                ) <= u32::MAX,
        ensures
            final(self)@.well_formed(),
            final(n_active)@.len() == old(n_active)@.len(),
            forall|o: int|
                0 <= o < old(n_active)@.len() ==> #[trigger] final(n_active)@[o] == old(
                    n_active,
                )@[o] + active_on(
                    old(self)@.channels,
                    late@,
                    o,
                    old(self)@.channels.len() as int,
                ),
            ({
                let channels = Seq::new(
                    old(self)@.channels.len(),
                    |i: int| settled(old(self)@.channels[i], late@[i]),
                );
                let folded = match fill_reading(channels) {
                    Some((depth, target)) => snap_observed(
                        old(self)@.snap,
                        depth as usize,
                        target as usize,
                    ),
                    None => old(self)@.snap,
                };
                final(self)@ == (GroupModel {
                    channels,
                    snap: BufferSnap {
                        holding: holding_count(channels, channels.len() as int) as u32,
                        ..folded
                    },
                    ..old(self)@
                })
            }),
    {
        let ghost before = self.channels@;
        let ghost counts = n_active@;
        let n: usize = self.channels.len();
        proof {
            lemma_at_most_256(before);
        }
        let mut i: usize = 0;
        while i < n
            invariant
                i <= n,
                n == before.len(),
                n == late@.len(),
                n <= 256,
                self.channels@.len() == n,
                n_active@.len() == counts.len(),
                forall|o: int|
                    0 <= o < counts.len() ==> #[trigger] counts[o] + active_on(
                        before,
                        late@,
                        o,
                        n as int,
                    ) <= u32::MAX,
                forall|j: int|
                    0 <= j < i ==> #[trigger] self.channels@[j] == settled(before[j], late@[j]),
                forall|j: int| i <= j < n ==> #[trigger] self.channels@[j] == before[j],
                forall|o: int|
                    0 <= o < counts.len() ==> #[trigger] n_active@[o] == counts[o] + active_on(
                        before,
                        late@,
                        o,
                        i as int,
                    ) && 0 <= active_on(before, late@, o, i as int) <= i,
                self.sync == old(self).sync,
                self.pass1 == old(self).pass1,
                self.buffer_ms == old(self).buffer_ms,
                self.common_engaged == old(self).common_engaged,
                self.common_dir == old(self).common_dir,
                self.snap == old(self).snap,
                self.period_hint == old(self).period_hint,
            decreases n - i,
        {
            let mut c: Channel = self.channels[i];
            assert(c == before[i as int]);
            let l: LateView = late[i];
            let released: bool = ready(&mut c, l.swap);
            c.depth = l.depth;
            assert(c == settled(before[i as int], l));
            let ghost start = n_active@;
            proof {
                assert forall|o: int| 0 <= o < counts.len() implies #[trigger] start[o] + (
                active_on(before, late@, o, i + 1) - active_on(before, late@, o, i as int))
                    <= u32::MAX by {
                    assert(start[o] == counts[o] + active_on(before, late@, o, i as int));
                    lemma_active_grows(before, late@, o, i + 1, n as int);
                }
            }
            if released && sample_less_than(ACTIVE_THRESHOLD, l.level) {
                count_outputs(n_active, c.out_mask);
            }
            assert forall|o: int| 0 <= o < counts.len() implies #[trigger] n_active@[o]
                == counts[o] + active_on(before, late@, o, i + 1) && 0 <= active_on(
                before,
                late@,
                o,
                i + 1,
            ) <= i + 1 by {
                assert(start[o] == counts[o] + active_on(before, late@, o, i as int));
            }
            self.channels.set(i, c);
            i = i + 1;
        }
        let ghost channels = self.channels@;
        assert(channels =~= Seq::new(before.len(), |i: int| settled(before[i], late@[i])));
        assert(ascending(channels));
        let reading: Option<(usize, usize)> = self.buffer_fill();
        if let Some((depth, target)) = reading {
            self.snap.observe(depth, target);
        }
        let holding: u32 = self.holding();
        self.snap.holding = holding;
    }

    /// How many channels are displayed and still filling their prebuffer.
    pub fn holding(&self) -> (count: u32)
        requires
            self@.well_formed(),
        ensures
            count == holding_count(self@.channels, self@.channels.len() as int),
            count <= 256,
    {
        proof {
            lemma_at_most_256(self.channels@);
        }
        let mut count: u32 = 0;
        let mut i: usize = 0;
        while i < self.channels.len()
            invariant
                i <= self.channels@.len() <= 256,
                count == holding_count(self.channels@, i as int),
                count <= i,
            decreases self.channels@.len() - i,
        {
            if is_displayed(&self.channels[i]) && self.channels[i].cells.hold {
                count = count + 1;
            }
            i = i + 1;
        }
        count
    }

    /// Receive-buffer health: the mean depth and the mean setpoint across the channels that
    /// are displayed and past their hold. `None` when there are none.
    pub fn buffer_fill(&self) -> (fill: Option<(usize, usize)>)
        requires
            self@.well_formed(),
        ensures
            match (fill, fill_reading(self@.channels)) {
                (Some(f), Some(r)) => f.0 == r.0 && f.1 == r.1,
                (None, None) => true,
                _ => false,
            },
    {
        proof {
            lemma_at_most_256(self.channels@);
        }
        let mut depth_sum: u128 = 0;
        let mut target_sum: u128 = 0;
        let mut n: u128 = 0;
        let mut i: usize = 0;
        while i < self.channels.len()
            invariant
                i <= self.channels@.len() <= 256,
                (depth_sum as int, target_sum as int, n as int) == fill_totals(
                    self.channels@,
                    i as int,
                ),
                0 <= n <= i,
                depth_sum <= n * 0xffff_ffff_ffff_ffff,
                target_sum <= n * 0xffff_ffff_ffff_ffff,
            decreases self.channels@.len() - i,
        {
            let c: Channel = self.channels[i];
            if is_displayed(&c) && !c.cells.hold {
                let t: usize = if c.target_samples >= 1 {
                    c.target_samples
                } else {
                    1
                };
                depth_sum = depth_sum + c.depth as u128;
                target_sum = target_sum + t as u128;
                n = n + 1;
            }
            i = i + 1;
        }
        if n == 0 {
            return None;
        }
        proof {
            lemma_means_fit(self.channels@);
        }
        let depth: usize = (depth_sum / n) as usize;
        let target: usize = (target_sum / n) as usize;
        Some(
            (
                depth,
                if target >= 1 {
                    target
                } else {
                    1
                },
            ),
        )
    }

    /// Each slot with the depth last seen of it, by ascending slot.
    pub fn channel_depths(&self) -> (depths: Vec<(u8, usize)>)
        ensures
            depths@ == Seq::new(
                self@.channels.len(),
                |i: int| (self@.channels[i].source_slot, self@.channels[i].depth),
            ),
    {
        let mut out: Vec<(u8, usize)> = Vec::new();
        let mut i: usize = 0;
        while i < self.channels.len()
            invariant
                i <= self.channels@.len(),
                out@.len() == i,
                forall|j: int|
                    0 <= j < i ==> #[trigger] out@[j] == (
                        self.channels@[j].source_slot,
                        self.channels@[j].depth,
                    ),
            decreases self.channels@.len() - i,
        {
            out.push((self.channels[i].source_slot, self.channels[i].depth));
            i = i + 1;
        }
        assert(out@ =~= Seq::new(
            self@.channels.len(),
            |i: int| (self@.channels[i].source_slot, self@.channels[i].depth),
        ));
        out
    }

    /// The buffer reading of the display interval, which starts anew.
    pub fn take_reading(&mut self) -> (reading: Option<(u32, u32, u32, u32)>)
        ensures
            reading == crate::audio::drift::snap_reading(old(self)@.snap),
            final(self)@ == (GroupModel {
                snap: BufferSnap {
                    sum: 0,
                    count: 0,
                    min: u32::MAX,
                    max: 0,
                    ..old(self)@.snap
                },
                ..old(self)@
            }),
    {
        self.snap.take()
    }
}

/// Writer liveness, for the buffer display alone: has the write position moved since the
/// last render? Run for every channel, held ones included, so that one whose writer stops
/// while it fills still leaves the display.
pub fn note_writer_liveness(c: &mut Channel, write_pos: u64)
    ensures
        *final(c) == aged(*old(c), write_pos),
{
    if write_pos == c.last_write_pos {
        if c.writer_idle_renders < u32::MAX {
            c.writer_idle_renders = c.writer_idle_renders + 1;
        }
    } else {
        c.writer_idle_renders = 0;
        c.last_write_pos = write_pos;
    }
}

/// Take over a swapped ring, if there is one, and say whether reads are allowed.
pub fn ready(c: &mut Channel, swap: Option<usize>) -> (released: bool)
    ensures
        *final(c) == swapped(*old(c), swap),
        released == !final(c).cells.hold,
{
    if let Some(target) = swap {
        c.target_samples = target;
        c.cells.hold = true;
        c.cells.ready = false;
    }
    !c.cells.hold
}

/// Does this channel take part in the buffer display at all?
pub fn is_displayed(c: &Channel) -> (shown: bool)
    ensures
        shown == displayed(*c),
{
    c.out_mask != 0 && c.writer_idle_renders < IDLE_RENDERS_LIMIT
}

fn is_listed(pass1: &Vec<(u8, u32)>, slot: u8) -> (found: bool)
    ensures
        found == listed(pass1@, slot),
{
    let mut i: usize = 0;
    while i < pass1.len()
        invariant
            i <= pass1@.len(),
            forall|j: int| 0 <= j < i ==> #[trigger] pass1@[j].0 != slot,
        decreases pass1@.len() - i,
    {
        if pass1[i].0 == slot {
            assert(pass1@[i as int].0 == slot);
            return true;
        }
        i = i + 1;
    }
    false
}

fn ladder_of(pass1: &Vec<(u8, u32)>, slot: u8, mean: u32) -> (r: Ratio)
    ensures
        r == ladder_for(pass1@, slot, mean as int, pass1@.len() as int),
{
    let mut i: usize = pass1.len();
    while i > 0
        invariant
            i <= pass1@.len(),
            ladder_for(pass1@, slot, mean as int, pass1@.len() as int) == ladder_for(
                pass1@,
                slot,
                mean as int,
                i as int,
            ),
        decreases i,
    {
        if pass1[i - 1].0 == slot {
            return ladder_ratio(pass1[i - 1].1, mean);
        }
        i = i - 1;
    }
    Ratio::Unity
}

fn count_outputs(n_active: &mut Vec<u32>, mask: u128)
    requires
        forall|o: int|
            0 <= o < old(n_active)@.len() && mask_has(mask, o) ==> #[trigger] old(n_active)@[o]
                < u32::MAX,
    ensures
        final(n_active)@.len() == old(n_active)@.len(),
        forall|o: int|
            0 <= o < old(n_active)@.len() ==> #[trigger] final(n_active)@[o] == old(n_active)@[o]
                + (if mask_has(mask, o) {
                1int
            } else {
                0int
            }),
{
    let ghost before = n_active@;
    let end: usize = if n_active.len() < 128 {
        n_active.len()
    } else {
        128
    };
    let mut o: usize = 0;
    while o < end
        invariant
            o <= end <= 128,
            end <= before.len(),
            n_active@.len() == before.len(),
            forall|k: int|
                0 <= k < before.len() && mask_has(mask, k) ==> #[trigger] before[k] < u32::MAX,
            forall|k: int|
                0 <= k < o ==> #[trigger] n_active@[k] == before[k] + (if mask_has(mask, k) {
                    1int
                } else {
                    0int
                }),
            forall|k: int| o <= k < before.len() ==> #[trigger] n_active@[k] == before[k],
        decreases end - o,
    {
        if (mask >> (o as u128)) & 1 == 1 {
            assert(mask_has(mask, o as int));
            let v: u32 = n_active[o];
            assert(v == before[o as int]);
            n_active.set(o, v + 1);
        }
        o = o + 1;
    }
}

proof fn lemma_active_grows(
    channels: Seq<Channel>,
    late: Seq<LateView>,
    o: int,
    n: int,
    m: int,
)
    requires
        0 <= n <= m,
    ensures
        active_on(channels, late, o, n) <= active_on(channels, late, o, m),
    decreases m,
{
    if n < m {
        lemma_active_grows(channels, late, o, n, m - 1);
    }
}

proof fn lemma_insert_ascending(channels: Seq<Channel>, i: int, c: Channel)
    requires
        ascending(channels),
        0 <= i <= channels.len(),
        forall|j: int| 0 <= j < i ==> #[trigger] channels[j].source_slot < c.source_slot,
        forall|j: int|
            i <= j < channels.len() ==> #[trigger] channels[j].source_slot > c.source_slot,
    ensures
        ascending(channels.insert(i, c)),
{
    let all = channels.insert(i, c);
    assert forall|j: int, k: int| 0 <= j < k < all.len() implies #[trigger] all[j].source_slot
        < #[trigger] all[k].source_slot by {
        let a = if j < i {
            j
        } else {
            j - 1
        };
        let b = if k < i {
            k
        } else {
            k - 1
        };
        if j != i {
            assert(all[j] == channels[a]);
        }
        if k != i {
            assert(all[k] == channels[b]);
        }
    }
}

proof fn lemma_at_most_256(channels: Seq<Channel>)
    requires
        ascending(channels),
    ensures
        channels.len() <= 256,
{
    if channels.len() > 256 {
        lemma_slot_at_least_index(channels, 256);
    }
}

proof fn lemma_slot_at_least_index(channels: Seq<Channel>, i: int)
    requires
        ascending(channels),
        0 <= i < channels.len(),
    ensures
        channels[i].source_slot >= i,
    decreases i,
{
    if i > 0 {
        lemma_slot_at_least_index(channels, i - 1);
        assert(channels[i - 1].source_slot < channels[i].source_slot);
    }
}

proof fn lemma_pass1_at_most_256(pass1: Seq<(u8, u32)>)
    requires
        forall|i: int, j: int|
            0 <= i < j < pass1.len() ==> #[trigger] pass1[i].0 < #[trigger] pass1[j].0,
    ensures
        pass1.len() <= 256,
{
    if pass1.len() > 256 {
        lemma_pass1_slot_at_least_index(pass1, 256);
    }
}

proof fn lemma_pass1_slot_at_least_index(pass1: Seq<(u8, u32)>, i: int)
    requires
        forall|i: int, j: int|
            0 <= i < j < pass1.len() ==> #[trigger] pass1[i].0 < #[trigger] pass1[j].0,
        0 <= i < pass1.len(),
    ensures
        pass1[i].0 >= i,
    decreases i,
{
    if i > 0 {
        lemma_pass1_slot_at_least_index(pass1, i - 1);
        assert(pass1[i - 1].0 < pass1[i].0);
    }
}

proof fn lemma_totals_bound(channels: Seq<Channel>, n: int)
    requires
        0 <= n <= channels.len(),
    ensures
        ({
            let (d, t, k) = fill_totals(channels, n);
            0 <= k <= n && 0 <= d <= k * usize::MAX && 0 <= t <= k * usize::MAX
        }),
    decreases n,
{
    if n > 0 {
        lemma_totals_bound(channels, n - 1);
        let (d, t, k) = fill_totals(channels, n - 1);
        assert((k + 1) * usize::MAX == k * usize::MAX + usize::MAX) by (nonlinear_arith);
    }
}

proof fn lemma_means_fit(channels: Seq<Channel>)
    requires
        fill_totals(channels, channels.len() as int).2 > 0,
    ensures
        ({
            let (d, t, k) = fill_totals(channels, channels.len() as int);
            0 <= d / k <= usize::MAX && 0 <= t / k <= usize::MAX
        }),
{
    lemma_totals_bound(channels, channels.len() as int);
    let (d, t, k) = fill_totals(channels, channels.len() as int);
    let top = usize::MAX as int;
    assert(0 <= d / k <= top && 0 <= t / k <= top) by (nonlinear_arith)
        requires
            k > 0,
            0 <= d <= k * top,
            0 <= t <= k * top,
    ;
}

/// A skew cycle moves every advanced channel's reference by one quantum the tally's way and
/// clears its flag, leaves every other channel and the common-mode state alone, and runs at
/// unity.
pub proof fn law_skew_cycle_decides_nothing_else(m: GroupModel, frames: int)
    requires
        skew_tally(m.channels, m.pass1, m.channels.len() as int) != 0,
    ensures
        decided(m, frames).1 == Ratio::Unity,
        decided(m, frames).0.common_engaged == m.common_engaged,
        decided(m, frames).0.common_dir == m.common_dir,
        forall|i: int|
            0 <= i < m.channels.len() ==> {
                let c = m.channels[i];
                let d = #[trigger] decided(m, frames).0.channels[i];
                &&& !listed(m.pass1, c.source_slot) ==> d == c
                &&& listed(m.pass1, c.source_slot) ==> d == (Channel {
                    cells: Cells {
                        skew_ref: c.cells.skew_ref.wrapping_add(
                            skew_quantum(
                                skew_tally(m.channels, m.pass1, m.channels.len() as int),
                                frames,
                            ),
                        ),
                        skew_flag: 0,
                        ..c.cells
                    },
                    ..c
                })
            },
{
}

/// As long as nothing wraps, a skew cycle moves an advanced channel's reference by exactly
/// `frames`, up for a positive tally and down for a negative one.
pub proof fn law_skew_quantum_is_the_render_length(reference: i64, skew: int, frames: int)
    requires
        0 <= frames <= i64::MAX,
        skew > 0 ==> reference + frames <= i64::MAX,
        skew <= 0 ==> reference - frames >= i64::MIN,
    ensures
        reference.wrapping_add(skew_quantum(skew, frames)) == (if skew > 0 {
            reference + frames
        } else {
            reference - frames
        }),
{
}

/// With the skew relays silent, the latch is raised exactly when the depth relays of the
/// advanced channels do not cancel, and a zero tally releases it at unity.
pub proof fn law_latch_follows_the_tally(m: GroupModel, frames: int)
    requires
        m.well_formed(),
        skew_tally(m.channels, m.pass1, m.channels.len() as int) == 0,
    ensures
        ({
            let tally = adjusting_tally(m.channels, m.pass1, m.channels.len() as int);
            let (d, ratio) = decided(m, frames);
            &&& d.common_engaged == (tally != 0)
            &&& d.channels == m.channels
            &&& (ratio == Ratio::Unity <==> tally == 0)
            &&& (ratio == Ratio::StrongUp <==> tally > 0)
            &&& (ratio == Ratio::StrongDown <==> tally < 0)
        }),
{
}

/// A channel that did not advance casts no vote: its relays do not enter either tally.
pub proof fn law_only_advanced_channels_vote(
    channels: Seq<Channel>,
    other: Seq<Channel>,
    pass1: Seq<(u8, u32)>,
    n: int,
)
    requires
        0 <= n <= channels.len(),
        channels.len() == other.len(),
        forall|i: int|
            0 <= i < n ==> (#[trigger] channels[i]).source_slot == other[i].source_slot && (listed(
                pass1,
                channels[i].source_slot,
            ) ==> channels[i] == other[i]),
    ensures
        adjusting_tally(channels, pass1, n) == adjusting_tally(other, pass1, n),
        skew_tally(channels, pass1, n) == skew_tally(other, pass1, n),
    decreases n,
{
    if n > 0 {
        assert(channels[n - 1].source_slot == other[n - 1].source_slot);
        law_only_advanced_channels_vote(channels, other, pass1, n - 1);
    }
}

/// While the common mode is engaged the ladder does not run: every job of the cycle has one
/// and the same ratio.
pub proof fn law_engaged_common_mode_owns_the_ratio(m: GroupModel, frames: int)
    requires
        m.common_engaged,
    ensures
        ({
            let out = second_pass(m, frames).1;
            forall|i: int, j: int|
                0 <= i < out.len() && 0 <= j < out.len() ==> (#[trigger] out[i]).ratio == (
                #[trigger] out[j]).ratio
        }),
{
    let mean = rounded_mean(stamp_sum(m.pass1, m.pass1.len() as int), m.pass1.len() as int);
    let d = decided(m, frames);
    lemma_broadcast_is_uniform(m.channels, m.pass1, Ratio::Unity, mean, m.channels.len() as int);
    lemma_broadcast_is_uniform(
        d.0.channels,
        d.0.pass1,
        d.1,
        mean,
        d.0.channels.len() as int,
    );
}

proof fn lemma_broadcast_is_uniform(
    channels: Seq<Channel>,
    pass1: Seq<(u8, u32)>,
    r: Ratio,
    mean: int,
    n: int,
)
    ensures
        forall|i: int|
            0 <= i < jobs(channels, pass1, Some(r), mean, n).len() ==> (#[trigger] jobs(
                channels,
                pass1,
                Some(r),
                mean,
                n,
            )[i]).ratio == r,
    decreases n,
{
    if n > 0 {
        lemma_broadcast_is_uniform(channels, pass1, r, mean, n - 1);
        let prev = jobs(channels, pass1, Some(r), mean, n - 1);
        let all = jobs(channels, pass1, Some(r), mean, n);
        assert forall|i: int| 0 <= i < all.len() implies (#[trigger] all[i]).ratio == r by {
            if i < prev.len() {
                assert(all[i] == prev[i]);
            }
        }
    }
}

/// A cycle in which the ladder runs asks every routed channel to reset its averaging, those
/// at the mean included.
pub proof fn law_ladder_cycle_resets_every_channel(m: GroupModel, frames: int, i: int)
    requires
        !m.common_engaged,
        m.pass1.len() > 0,
        off_mean(
            m.pass1,
            rounded_mean(stamp_sum(m.pass1, m.pass1.len() as int), m.pass1.len() as int),
        ),
        0 <= i < m.channels.len(),
        m.channels[i].out_mask != 0,
    ensures
        second_pass(m, frames).0.channels[i].cells.boxcar_reset,
{
}

/// No channel is asked to reset while the common mode stays engaged.
pub proof fn law_engaged_common_mode_suppresses_the_reset(m: GroupModel, frames: int, i: int)
    requires
        m.common_engaged,
        second_pass(m, frames).0.common_engaged,
        0 <= i < m.channels.len(),
        m.channels[i].out_mask != 0,
    ensures
        !second_pass(m, frames).0.channels[i].cells.boxcar_reset,
{
}

/// Every routed channel is dispatched in every phase-locked cycle, whether or not it is held
/// or advanced.
pub proof fn law_every_routed_channel_is_dispatched(
    channels: Seq<Channel>,
    pass1: Seq<(u8, u32)>,
    broadcast: Option<Ratio>,
    mean: int,
    n: int,
    i: int,
)
    requires
        0 <= i < n <= channels.len(),
        channels[i].out_mask != 0,
    ensures
        exists|k: int|
            0 <= k < jobs(channels, pass1, broadcast, mean, n).len() && (#[trigger] jobs(
                channels,
                pass1,
                broadcast,
                mean,
                n,
            )[k]).slot == channels[i].source_slot,
    decreases n,
{
    let all = jobs(channels, pass1, broadcast, mean, n);
    if i == n - 1 {
        assert(all[all.len() - 1].slot == channels[i].source_slot);
    } else {
        law_every_routed_channel_is_dispatched(channels, pass1, broadcast, mean, n - 1, i);
        let prev = jobs(channels, pass1, broadcast, mean, n - 1);
        let k = choose|k: int|
            0 <= k < prev.len() && (#[trigger] prev[k]).slot == channels[i].source_slot;
        assert(all[k] == prev[k]);
    }
}

/// A channel whose writer has stopped for the limit leaves the display, held or not, however
/// many more renders pass.
pub proof fn law_stopped_writer_leaves_the_display(c: Channel, renders: nat)
    requires
        renders >= IDLE_RENDERS_LIMIT,
    ensures
        !displayed(aged_repeatedly(c, renders)),
{
    lemma_idle_count(c, renders);
}

/// A channel seen `renders` times in a row at the same write position.
pub open spec fn aged_repeatedly(c: Channel, renders: nat) -> Channel
    decreases renders,
{
    if renders == 0 {
        c
    } else {
        let before = aged_repeatedly(c, (renders - 1) as nat);
        aged(before, before.last_write_pos)
    }
}

proof fn lemma_idle_count(c: Channel, renders: nat)
    ensures
        aged_repeatedly(c, renders).writer_idle_renders >= (if renders < u32::MAX {
            renders as int
        } else {
            u32::MAX as int
        }),
    decreases renders,
{
    if renders > 0 {
        lemma_idle_count(c, (renders - 1) as nat);
    }
}

/// A held channel and a channel routed nowhere are never mixed and never advance.
pub proof fn law_held_and_unrouted_channels_are_silent(c: Channel, seen: Observation, sync: bool)
    requires
        c.cells.hold || c.out_mask == 0 || seen.swap is Some,
    ensures
        !retrieved(visited(c, seen, sync), seen, sync),
        !advances(visited(c, seen, sync), seen, sync),
{
}

/// Rerouting keeps exactly the channels that are still routed, each with its new mask and
/// everything else as it was.
pub proof fn law_rerouting_keeps_what_is_routed(
    channels: Seq<Channel>,
    masks: Seq<Option<u128>>,
    n: int,
    i: int,
)
    requires
        0 <= i < n <= channels.len(),
        mask_for(masks, channels[i].source_slot) is Some,
    ensures
        rerouted(channels, masks, n).contains(
            Channel {
                out_mask: mask_for(masks, channels[i].source_slot)->Some_0,
                ..channels[i]
            },
        ),
    decreases n,
{
    let all = rerouted(channels, masks, n);
    let want = Channel {
        out_mask: mask_for(masks, channels[i].source_slot)->Some_0,
        ..channels[i]
    };
    if i == n - 1 {
        assert(all[all.len() - 1] == want);
    } else {
        law_rerouting_keeps_what_is_routed(channels, masks, n - 1, i);
        let prev = rerouted(channels, masks, n - 1);
        let k = choose|k: int| 0 <= k < prev.len() && prev[k] == want;
        assert(all[k] == want);
    }
}

/// The channel at `i` advanced this cycle: its slot is on the list of those that did.
pub open spec fn has_advanced(channels: Seq<Channel>, pass1: Seq<(u8, u32)>) -> spec_fn(int) -> bool {
    |i: int| exists|j: int| 0 <= j < pass1.len() && #[trigger] pass1[j].0 == channels[i].source_slot
}

/// The channel at `i` advanced, and its depth relay stands at `dir`.
pub open spec fn votes_depth(channels: Seq<Channel>, pass1: Seq<(u8, u32)>, dir: int) -> spec_fn(
    int,
) -> bool {
    |i: int|
        channels[i].cells.cm_dir == dir && exists|j: int|
            0 <= j < pass1.len() && #[trigger] pass1[j].0 == channels[i].source_slot
}

/// The channel at `i` advanced, and its skew relay stands at `dir`.
pub open spec fn votes_skew(channels: Seq<Channel>, pass1: Seq<(u8, u32)>, dir: int) -> spec_fn(
    int,
) -> bool {
    |i: int|
        channels[i].cells.skew_flag == dir && exists|j: int|
            0 <= j < pass1.len() && #[trigger] pass1[j].0 == channels[i].source_slot
}

/// Every relay stands at -1, 0 or 1.
pub open spec fn relays_in_range(channels: Seq<Channel>) -> bool {
    forall|i: int|
        0 <= i < channels.len() ==> -1 <= (#[trigger] channels[i]).cells.cm_dir <= 1 && -1
            <= channels[i].cells.skew_flag <= 1
}

proof fn lemma_tallies_count_votes(channels: Seq<Channel>, pass1: Seq<(u8, u32)>, n: int)
    requires
        0 <= n <= channels.len(),
        relays_in_range(channels),
    ensures
        adjusting_tally(channels, pass1, n) == count(n, votes_depth(channels, pass1, 1)) - count(
            n,
            votes_depth(channels, pass1, -1),
        ),
        skew_tally(channels, pass1, n) == count(n, votes_skew(channels, pass1, 1)) - count(
            n,
            votes_skew(channels, pass1, -1),
        ),
    decreases n,
{
    if n > 0 {
        lemma_tallies_count_votes(channels, pass1, n - 1);
        let c = channels[n - 1];
        assert(-1 <= c.cells.cm_dir <= 1 && -1 <= c.cells.skew_flag <= 1);
    }
}

/// The common mode goes by the majority of the depth relays of the channels that advanced:
/// with no skew vote, more fill votes than drain votes speed the group up, more drain votes
/// slow it down, either way with the latch raised, and a draw runs at unity with the latch
/// released.
pub proof fn law_the_common_mode_follows_the_majority(m: GroupModel, frames: int)
    requires
        m.well_formed(),
        relays_in_range(m.channels),
        forall|i: int|
            0 <= i < m.channels.len() && has_advanced(m.channels, m.pass1)(i) ==> (
            #[trigger] m.channels[i]).cells.skew_flag == 0,
    ensures
        ({
            let n = m.channels.len() as int;
            let fill = count(n, votes_depth(m.channels, m.pass1, 1));
            let drain = count(n, votes_depth(m.channels, m.pass1, -1));
            let (d, ratio) = decided(m, frames);
            &&& fill > drain ==> ratio == Ratio::StrongUp && d.common_engaged
            &&& fill < drain ==> ratio == Ratio::StrongDown && d.common_engaged
            &&& fill == drain ==> ratio == Ratio::Unity && !d.common_engaged
            &&& d.channels == m.channels
        }),
{
    let n = m.channels.len() as int;
    lemma_tallies_count_votes(m.channels, m.pass1, n);
    law_count_bounds(n, votes_skew(m.channels, m.pass1, 1));
    law_count_bounds(n, votes_skew(m.channels, m.pass1, -1));
    assert forall|i: int| 0 <= i < n implies !#[trigger] votes_skew(m.channels, m.pass1, 1)(i)
        && !votes_skew(m.channels, m.pass1, -1)(i) by {
        if has_advanced(m.channels, m.pass1)(i) {
            assert(m.channels[i].cells.skew_flag == 0);
        }
    }
    assert forall|i: int| 0 <= i < n implies !#[trigger] votes_skew(m.channels, m.pass1, -1)(i) by {
        assert(!votes_skew(m.channels, m.pass1, 1)(i) && !votes_skew(m.channels, m.pass1, -1)(i));
    }
}

/// A group whose advanced channels all ask for a fill is sped up, and one whose advanced
/// channels all ask for a drain is slowed down.
pub proof fn law_unanimous_channels_are_followed(m: GroupModel, frames: int, dir: int)
    requires
        m.well_formed(),
        dir == 1 || dir == -1,
        exists|i: int| 0 <= i < m.channels.len() && #[trigger] has_advanced(m.channels, m.pass1)(i),
        forall|i: int|
            0 <= i < m.channels.len() && has_advanced(m.channels, m.pass1)(i) ==> (
            #[trigger] m.channels[i]).cells.skew_flag == 0 && m.channels[i].cells.cm_dir == dir,
    ensures
        decided(m, frames).1 == (if dir == 1 {
            Ratio::StrongUp
        } else {
            Ratio::StrongDown
        }),
        decided(m, frames).0.common_engaged,
{
    let i = choose|i: int|
        0 <= i < m.channels.len() && #[trigger] has_advanced(m.channels, m.pass1)(i);
    lemma_unanimous_tally(m.channels, m.pass1, dir, m.channels.len() as int);
}

proof fn lemma_unanimous_tally(channels: Seq<Channel>, pass1: Seq<(u8, u32)>, dir: int, n: int)
    requires
        0 <= n <= channels.len(),
        dir == 1 || dir == -1,
        forall|i: int|
            0 <= i < channels.len() && has_advanced(channels, pass1)(i) ==> (
            #[trigger] channels[i]).cells.skew_flag == 0 && channels[i].cells.cm_dir == dir,
    ensures
        skew_tally(channels, pass1, n) == 0,
        adjusting_tally(channels, pass1, n) * dir >= 0,
        (exists|i: int| 0 <= i < n && #[trigger] has_advanced(channels, pass1)(i))
            ==> adjusting_tally(channels, pass1, n) * dir > 0,
    decreases n,
{
    if n > 0 {
        lemma_unanimous_tally(channels, pass1, dir, n - 1);
        let c = channels[n - 1];
        if has_advanced(channels, pass1)(n - 1) {
            assert(c.cells.skew_flag == 0 && c.cells.cm_dir == dir);
        }
        let t = adjusting_tally(channels, pass1, n - 1);
        assert((t + dir) * dir == t * dir + dir * dir) by (nonlinear_arith);
        assert(dir * dir == 1) by (nonlinear_arith)
            requires
                dir == 1 || dir == -1,
        ;
        if exists|i: int| 0 <= i < n && #[trigger] has_advanced(channels, pass1)(i) {
            let i = choose|i: int| 0 <= i < n && #[trigger] has_advanced(channels, pass1)(i);
            if i < n - 1 {
                assert(has_advanced(channels, pass1)(i));
            }
        }
    }
}

/// Turning every relay round turns both tallies round, and with them the ratio.
pub proof fn law_the_tallies_are_symmetric(
    channels: Seq<Channel>,
    mirror: Seq<Channel>,
    pass1: Seq<(u8, u32)>,
    n: int,
)
    requires
        0 <= n <= channels.len(),
        mirror.len() == channels.len(),
        forall|i: int|
            0 <= i < n ==> (#[trigger] mirror[i]).source_slot == channels[i].source_slot
                && mirror[i].cells.cm_dir == -channels[i].cells.cm_dir
                && mirror[i].cells.skew_flag == -channels[i].cells.skew_flag,
    ensures
        adjusting_tally(mirror, pass1, n) == -adjusting_tally(channels, pass1, n),
        skew_tally(mirror, pass1, n) == -skew_tally(channels, pass1, n),
    decreases n,
{
    if n > 0 {
        law_the_tallies_are_symmetric(channels, mirror, pass1, n - 1);
        assert(mirror[n - 1].source_slot == channels[n - 1].source_slot);
    }
}

/// One more channel changes each tally by its own relay if it advanced, and by nothing if it
/// did not.
pub proof fn law_each_channel_has_one_vote(
    channels: Seq<Channel>,
    c: Channel,
    pass1: Seq<(u8, u32)>,
)
    ensures
        ({
            let n = channels.len() as int;
            let more = channels.push(c);
            let voted = exists|j: int| 0 <= j < pass1.len() && #[trigger] pass1[j].0
                == c.source_slot;
            &&& adjusting_tally(more, pass1, n + 1) - adjusting_tally(channels, pass1, n) == (
            if voted {
                c.cells.cm_dir as int
            } else {
                0
            })
            &&& skew_tally(more, pass1, n + 1) - skew_tally(channels, pass1, n) == (if voted {
                c.cells.skew_flag as int
            } else {
                0
            })
        }),
{
    let n = channels.len() as int;
    let more = channels.push(c);
    lemma_tally_of_prefix(channels, more, pass1, n);
    assert(more[n] == c);
}

proof fn lemma_tally_of_prefix(
    channels: Seq<Channel>,
    more: Seq<Channel>,
    pass1: Seq<(u8, u32)>,
    n: int,
)
    requires
        0 <= n <= channels.len() <= more.len(),
        forall|i: int| 0 <= i < channels.len() ==> #[trigger] more[i] == channels[i],
    ensures
        adjusting_tally(more, pass1, n) == adjusting_tally(channels, pass1, n),
        skew_tally(more, pass1, n) == skew_tally(channels, pass1, n),
    decreases n,
{
    if n > 0 {
        lemma_tally_of_prefix(channels, more, pass1, n - 1);
        assert(more[n - 1] == channels[n - 1]);
    }
}

/// The skew servo goes by the majority of the skew relays: with more votes to raise than to
/// lower the references, every advanced channel's reference rises by the render length, with
/// fewer it falls by it, and every advanced flag clears; with none or a draw no reference
/// moves.
pub proof fn law_the_skew_servo_follows_the_majority(m: GroupModel, frames: int, i: int)
    requires
        m.well_formed(),
        relays_in_range(m.channels),
        0 <= frames <= i64::MAX,
        0 <= i < m.channels.len(),
        i64::MIN <= m.channels[i].cells.skew_ref - frames,
        m.channels[i].cells.skew_ref + frames <= i64::MAX,
    ensures
        ({
            let n = m.channels.len() as int;
            let up = count(n, votes_skew(m.channels, m.pass1, 1));
            let down = count(n, votes_skew(m.channels, m.pass1, -1));
            let c = m.channels[i].cells;
            let d = decided(m, frames).0.channels[i].cells;
            let moved = has_advanced(m.channels, m.pass1)(i);
            &&& decided(m, frames).0.channels.len() == m.channels.len()
            &&& up > down && moved ==> d.skew_ref == c.skew_ref + frames && d.skew_flag == 0
            &&& up < down && moved ==> d.skew_ref == c.skew_ref - frames && d.skew_flag == 0
            &&& up == down || !moved ==> d == c
            &&& up != down ==> decided(m, frames).1 == Ratio::Unity
                && decided(m, frames).0.common_engaged == m.common_engaged
        }),
{
    let n = m.channels.len() as int;
    lemma_tallies_count_votes(m.channels, m.pass1, n);
    let c = m.channels[i].cells;
    law_skew_quantum_is_the_render_length(
        c.skew_ref,
        skew_tally(m.channels, m.pass1, n),
        frames,
    );
}

/// The channel at `i` is heard this cycle: past its hold and with no ring swap, routed, not
/// held by its job, and under phase lock with a result.
pub open spec fn is_heard(channels: Seq<Channel>, seen: Seq<Observation>, sync: bool) -> spec_fn(
    int,
) -> bool {
    |i: int|
        !channels[i].cells.hold && seen[i].swap is None && channels[i].out_mask != 0
            && seen[i].slot_free && (!sync || channels[i].cells.ready)
}

/// The channel at `i` is heard under phase lock, and its stamp lies past the one latched at
/// its last dispatch.
pub open spec fn has_moved_on(
    channels: Seq<Channel>,
    seen: Seq<Observation>,
    sync: bool,
) -> spec_fn(int) -> bool {
    |i: int|
        sync && !channels[i].cells.hold && seen[i].swap is None && channels[i].out_mask != 0
            && seen[i].slot_free && channels[i].cells.ready && channels[i].last_merge_ts
            < channels[i].cells.merge_ts
}

proof fn lemma_first_pass(channels: Seq<Channel>, seen: Seq<Observation>, sync: bool, n: int)
    requires
        0 <= n <= channels.len(),
    ensures
        mixed(channels, seen, sync, n) == picked(
            n,
            is_heard(channels, seen, sync),
            |i: int| (channels[i].source_slot, channels[i].out_mask),
        ),
        advanced(channels, seen, sync, n) == picked(
            n,
            has_moved_on(channels, seen, sync),
            |i: int| (channels[i].source_slot, channels[i].cells.merge_ts),
        ),
    decreases n,
{
    if n > 0 {
        lemma_first_pass(channels, seen, sync, n - 1);
        let c = channels[n - 1];
        assert(is_heard(channels, seen, sync)(n - 1) == retrieved(
            visited(c, seen[n - 1], sync),
            seen[n - 1],
            sync,
        ));
    }
}

/// The first pass mixes exactly the channels that are heard, each into its own outputs.
pub proof fn law_exactly_the_heard_channels_are_mixed(
    channels: Seq<Channel>,
    seen: Seq<Observation>,
    sync: bool,
    slot: u8,
    mask: u128,
)
    ensures
        mixed(channels, seen, sync, channels.len() as int).contains((slot, mask)) <==> exists|
            i: int,
        |
            0 <= i < channels.len() && #[trigger] is_heard(channels, seen, sync)(i)
                && channels[i].source_slot == slot && channels[i].out_mask == mask,
        mixed(channels, seen, sync, channels.len() as int).len() == count(
            channels.len() as int,
            is_heard(channels, seen, sync),
        ),
{
    let n = channels.len() as int;
    let f = |i: int| (channels[i].source_slot, channels[i].out_mask);
    lemma_first_pass(channels, seen, sync, n);
    law_picked(n, is_heard(channels, seen, sync), f);
    assert(mixed(channels, seen, sync, n) =~= picked(n, is_heard(channels, seen, sync), f));
    if exists|i: int|
        0 <= i < channels.len() && #[trigger] is_heard(channels, seen, sync)(i)
            && channels[i].source_slot == slot && channels[i].out_mask == mask {
        let i = choose|i: int|
            0 <= i < channels.len() && #[trigger] is_heard(channels, seen, sync)(i)
                && channels[i].source_slot == slot && channels[i].out_mask == mask;
        assert(is_heard(channels, seen, sync)(i) && f(i) == (slot, mask));
    }
}

/// The first pass lists exactly the channels that moved on, each with its own stamp.
pub proof fn law_exactly_the_channels_that_moved_on_are_listed(
    channels: Seq<Channel>,
    seen: Seq<Observation>,
    sync: bool,
    slot: u8,
    ts: u32,
)
    ensures
        advanced(channels, seen, sync, channels.len() as int).contains((slot, ts)) <==> exists|
            i: int,
        |
            0 <= i < channels.len() && #[trigger] has_moved_on(channels, seen, sync)(i)
                && channels[i].source_slot == slot && channels[i].cells.merge_ts == ts,
        advanced(channels, seen, sync, channels.len() as int).len() == count(
            channels.len() as int,
            has_moved_on(channels, seen, sync),
        ),
{
    let n = channels.len() as int;
    let f = |i: int| (channels[i].source_slot, channels[i].cells.merge_ts);
    lemma_first_pass(channels, seen, sync, n);
    law_picked(n, has_moved_on(channels, seen, sync), f);
    assert(advanced(channels, seen, sync, n) =~= picked(n, has_moved_on(channels, seen, sync), f));
    if exists|i: int|
        0 <= i < channels.len() && #[trigger] has_moved_on(channels, seen, sync)(i)
            && channels[i].source_slot == slot && channels[i].cells.merge_ts == ts {
        let i = choose|i: int|
            0 <= i < channels.len() && #[trigger] has_moved_on(channels, seen, sync)(i)
                && channels[i].source_slot == slot && channels[i].cells.merge_ts == ts;
        assert(has_moved_on(channels, seen, sync)(i) && f(i) == (slot, ts));
    }
}

/// What the first pass leaves of a channel: its writer's position and how many renders it has
/// stood still; a swapped ring's setpoint with the hold armed and no result; the ring's stamp
/// for a channel that is heard free-running; and everything else as it was.
pub proof fn law_what_a_visit_leaves(c: Channel, seen: Observation, sync: bool)
    ensures
        ({
            let v = visited(c, seen, sync);
            &&& v.last_write_pos == seen.write_pos
            &&& seen.write_pos != c.last_write_pos ==> v.writer_idle_renders == 0
            &&& seen.write_pos == c.last_write_pos && c.writer_idle_renders < u32::MAX
                ==> v.writer_idle_renders == c.writer_idle_renders + 1
            &&& v.writer_idle_renders >= c.writer_idle_renders || seen.write_pos
                != c.last_write_pos
            &&& seen.swap matches Some(target) ==> v.target_samples == target && v.cells.hold
                && !v.cells.ready
            &&& seen.swap is None ==> v.target_samples == c.target_samples && v.cells.hold
                == c.cells.hold && v.cells.ready == c.cells.ready
            &&& v.cells.merge_ts == (if !sync && seen.swap is None && !c.cells.hold && c.out_mask
                != 0 && seen.slot_free && seen.cursor_ts is Some {
                seen.cursor_ts->Some_0
            } else {
                c.cells.merge_ts
            })
            &&& v.source_slot == c.source_slot && v.out_mask == c.out_mask
            &&& v.last_merge_ts == c.last_merge_ts && v.depth == c.depth
            &&& v.cells.cm_dir == c.cells.cm_dir && v.cells.skew_flag == c.cells.skew_flag
            &&& v.cells.skew_ref == c.cells.skew_ref && v.cells.boxcar_reset
                == c.cells.boxcar_reset
        }),
{
}

/// The stamps that advanced disagree with their rounded mean.
pub open spec fn stamps_differ(pass1: Seq<(u8, u32)>) -> bool {
    exists|i: int, j: int|
        0 <= i < pass1.len() && 0 <= j < pass1.len() && (#[trigger] pass1[i]).1 != (
        #[trigger] pass1[j]).1
}

/// The sum of equal stamps is their number times the stamp.
proof fn lemma_equal_stamps(pass1: Seq<(u8, u32)>, ts: int, n: int)
    requires
        0 <= n <= pass1.len(),
        forall|i: int| 0 <= i < n ==> (#[trigger] pass1[i]).1 == ts,
    ensures
        stamp_sum(pass1, n) == n * ts,
    decreases n,
{
    if n > 0 {
        lemma_equal_stamps(pass1, ts, n - 1);
        assert(n * ts == (n - 1) * ts + ts) by (nonlinear_arith);
        assert(pass1[n - 1].1 == ts);
    } else {
        assert(n * ts == 0) by (nonlinear_arith)
            requires
                n == 0,
        ;
    }
}

/// Some stamp is off the mean exactly where the stamps are not all the same.
proof fn lemma_off_mean(pass1: Seq<(u8, u32)>)
    ensures
        off_mean(
            pass1,
            rounded_mean(stamp_sum(pass1, pass1.len() as int), pass1.len() as int),
        ) == stamps_differ(pass1),
{
    let n = pass1.len() as int;
    let mean = rounded_mean(stamp_sum(pass1, n), n);
    if n > 0 {
        if !stamps_differ(pass1) {
            let ts = pass1[0].1 as int;
            assert forall|i: int| 0 <= i < n implies (#[trigger] pass1[i]).1 == ts by {
                assert(pass1[0].1 == pass1[i].1);
            }
            lemma_equal_stamps(pass1, ts, n);
            assert((n * ts + n / 2) / n == ts) by (nonlinear_arith)
                requires
                    n > 0,
            ;
        }
        if stamps_differ(pass1) && !off_mean(pass1, mean) {
            let (i, j) = choose|i: int, j: int|
                0 <= i < pass1.len() && 0 <= j < pass1.len() && (#[trigger] pass1[i]).1 != (
                #[trigger] pass1[j]).1;
            assert(pass1[i].1 == mean);
            assert(pass1[j].1 == mean);
        }
    }
}

/// The averaging of every routed channel is reset exactly in the cycles in which the advanced
/// stamps are not all the same and the common mode is, or has just been, let go; every
/// routed channel's stamp is latched and its result used up; an unrouted channel keeps its
/// own.
pub proof fn law_what_a_dispatch_leaves(m: GroupModel, frames: int, i: int)
    requires
        m.well_formed(),
        0 <= i < m.channels.len(),
    ensures
        ({
            let end = second_pass(m, frames).0;
            let c = m.channels[i];
            let d = end.channels[i];
            &&& end.channels.len() == m.channels.len()
            &&& d.source_slot == c.source_slot && d.out_mask == c.out_mask
            &&& d.target_samples == c.target_samples && d.depth == c.depth
            &&& d.cells.merge_ts == c.cells.merge_ts && d.cells.hold == c.cells.hold
                && d.cells.cm_dir == c.cells.cm_dir
            &&& c.out_mask != 0 ==> d.last_merge_ts == c.cells.merge_ts && !d.cells.ready
                && d.cells.boxcar_reset == (stamps_differ(m.pass1) && !end.common_engaged)
            &&& c.out_mask == 0 ==> d.last_merge_ts == c.last_merge_ts && d.cells.ready
                == c.cells.ready && d.cells.boxcar_reset == c.cells.boxcar_reset
        }),
{
    lemma_off_mean(m.pass1);
}

proof fn lemma_jobs(
    channels: Seq<Channel>,
    pass1: Seq<(u8, u32)>,
    broadcast: Option<Ratio>,
    mean: int,
    n: int,
)
    requires
        0 <= n <= channels.len(),
    ensures
        ({
            let all = jobs(channels, pass1, broadcast, mean, n);
            let routed = |i: int| channels[i].out_mask != 0;
            &&& all.len() == count(n, routed)
            &&& forall|k: int|
                0 <= k < all.len() ==> exists|i: int|
                    0 <= i < n && #[trigger] channels[i].out_mask != 0 && (#[trigger] all[k]).slot
                        == channels[i].source_slot && all[k].target == channels[i].target_samples
                        && all[k].ratio == (match broadcast {
                        Some(r) => r,
                        None => ladder_for(
                            pass1,
                            channels[i].source_slot,
                            mean,
                            pass1.len() as int,
                        ),
                    })
        }),
    decreases n,
{
    if n > 0 {
        lemma_jobs(channels, pass1, broadcast, mean, n - 1);
        let rest = jobs(channels, pass1, broadcast, mean, n - 1);
        let all = jobs(channels, pass1, broadcast, mean, n);
        assert forall|k: int| 0 <= k < all.len() implies exists|i: int|
            0 <= i < n && #[trigger] channels[i].out_mask != 0 && (#[trigger] all[k]).slot
                == channels[i].source_slot && all[k].target == channels[i].target_samples
                && all[k].ratio == (match broadcast {
                Some(r) => r,
                None => ladder_for(pass1, channels[i].source_slot, mean, pass1.len() as int),
            }) by {
            if k < rest.len() {
                assert(all[k] == rest[k]);
                let i = choose|i: int|
                    0 <= i < n - 1 && #[trigger] channels[i].out_mask != 0 && rest[k].slot
                        == channels[i].source_slot && rest[k].target == channels[i].target_samples
                        && rest[k].ratio == (match broadcast {
                        Some(r) => r,
                        None => ladder_for(
                            pass1,
                            channels[i].source_slot,
                            mean,
                            pass1.len() as int,
                        ),
                    });
                assert(channels[i].out_mask != 0);
            } else {
                assert(channels[n - 1].out_mask != 0);
            }
        }
    }
}

proof fn lemma_ladder_of_listed(pass1: Seq<(u8, u32)>, slot: u8, mean: int, n: int, j: int)
    requires
        0 <= n <= pass1.len(),
        forall|a: int, b: int|
            0 <= a < b < pass1.len() ==> #[trigger] pass1[a].0 < #[trigger] pass1[b].0,
    ensures
        0 <= j < n && pass1[j].0 == slot ==> ladder_for(pass1, slot, mean, n) == ladder_step(
            pass1[j].1 - mean,
        ),
        (forall|a: int| 0 <= a < n ==> (#[trigger] pass1[a]).0 != slot) ==> ladder_for(
            pass1,
            slot,
            mean,
            n,
        ) == Ratio::Unity,
    decreases n,
{
    if n > 0 {
        lemma_ladder_of_listed(pass1, slot, mean, n - 1, j);
        if 0 <= j < n - 1 && pass1[j].0 == slot {
            assert(pass1[j].0 < pass1[n - 1].0);
        }
    }
}

/// Every phase-locked cycle dispatches one job for each routed channel, at that channel's
/// setpoint. Where nothing advanced every job runs at unity. Where the advanced stamps are
/// not all the same and the common mode is released, a channel that advanced is corrected by
/// its own distance from the rounded mean, and one that did not runs at unity. In every other
/// cycle the group decides for all.
pub proof fn law_each_job_has_its_ratio(m: GroupModel, frames: int, k: int)
    requires
        m.well_formed(),
        0 <= k < second_pass(m, frames).1.len(),
    ensures
        ({
            let d = second_pass(m, frames).1[k];
            let n = m.pass1.len() as int;
            let mean = rounded_mean(stamp_sum(m.pass1, n), n);
            &&& exists|i: int|
                0 <= i < m.channels.len() && (#[trigger] m.channels[i]).source_slot == d.slot
                    && m.channels[i].out_mask != 0 && m.channels[i].target_samples == d.target
            &&& n == 0 ==> d.ratio == Ratio::Unity
            &&& n > 0 && stamps_differ(m.pass1) && !m.common_engaged ==> {
                &&& forall|j: int|
                    0 <= j < n && (#[trigger] m.pass1[j]).0 == d.slot ==> d.ratio == ladder_step(
                        m.pass1[j].1 - mean,
                    )
                &&& (forall|j: int| 0 <= j < n ==> (#[trigger] m.pass1[j]).0 != d.slot) ==> d.ratio
                    == Ratio::Unity
            }
            &&& n > 0 && (!stamps_differ(m.pass1) || m.common_engaged) ==> d.ratio == decided(
                m,
                frames,
            ).1
        }),
{
    let n = m.pass1.len() as int;
    let mean = rounded_mean(stamp_sum(m.pass1, n), n);
    lemma_off_mean(m.pass1);
    let plan = plan_of(n, m.common_engaged, off_mean(m.pass1, mean));
    let broadcast = match plan {
        CyclePlan::AllUnity => Some(Ratio::Unity),
        CyclePlan::Ladder => None,
        CyclePlan::Group => Some(decided(m, frames).1),
    };
    let channels = match plan {
        CyclePlan::Group => decided(m, frames).0.channels,
        _ => m.channels,
    };
    let all = second_pass(m, frames).1;
    assert(all == jobs(channels, m.pass1, broadcast, mean, channels.len() as int));
    lemma_jobs(channels, m.pass1, broadcast, mean, channels.len() as int);
    let i = choose|i: int|
        0 <= i < channels.len() && #[trigger] channels[i].out_mask != 0 && all[k].slot
            == channels[i].source_slot && all[k].target == channels[i].target_samples
            && all[k].ratio == (match broadcast {
            Some(r) => r,
            None => ladder_for(m.pass1, channels[i].source_slot, mean, m.pass1.len() as int),
        });
    assert(m.channels[i].source_slot == channels[i].source_slot);
    assert forall|j: int| 0 <= j < n && (#[trigger] m.pass1[j]).0 == all[k].slot implies ladder_for(
        m.pass1,
        all[k].slot,
        mean,
        n,
    ) == ladder_step(m.pass1[j].1 - mean) by {
        lemma_ladder_of_listed(m.pass1, all[k].slot, mean, n, j);
    }
    lemma_ladder_of_listed(m.pass1, all[k].slot, mean, n, 0);
}

/// As many jobs are dispatched as there are routed channels.
pub proof fn law_one_job_for_each_routed_channel(m: GroupModel, frames: int)
    ensures
        second_pass(m, frames).1.len() == count(
            m.channels.len() as int,
            |i: int| m.channels[i].out_mask != 0,
        ),
{
    let n = m.pass1.len() as int;
    let mean = rounded_mean(stamp_sum(m.pass1, n), n);
    let plan = plan_of(n, m.common_engaged, off_mean(m.pass1, mean));
    let d = decided(m, frames);
    lemma_jobs(m.channels, m.pass1, Some(Ratio::Unity), mean, m.channels.len() as int);
    lemma_jobs(m.channels, m.pass1, None, mean, m.channels.len() as int);
    lemma_jobs(d.0.channels, m.pass1, Some(d.1), mean, d.0.channels.len() as int);
    lemma_same_count(
        m.channels.len() as int,
        |i: int| m.channels[i].out_mask != 0,
        |i: int| d.0.channels[i].out_mask != 0,
    );
}

proof fn lemma_same_count(n: int, p: spec_fn(int) -> bool, q: spec_fn(int) -> bool)
    requires
        forall|i: int| 0 <= i < n ==> #[trigger] p(i) == q(i),
    ensures
        count(n, p) == count(n, q),
    decreases n,
{
    if n > 0 {
        lemma_same_count(n - 1, p, q);
        assert(p(n - 1) == q(n - 1));
    }
}

/// The channel at `i` counts for the buffer display: routed, its writer not stopped for ten
/// renders, and past its hold.
pub open spec fn is_shown(channels: Seq<Channel>) -> spec_fn(int) -> bool {
    |i: int|
        channels[i].out_mask != 0 && channels[i].writer_idle_renders < 10
            && !channels[i].cells.hold
}

/// The buffer display is the mean depth and the mean setpoint of the channels that count for
/// it, each rounded down, a setpoint taken as one at least; where none counts there is none.
pub proof fn law_the_display_is_the_mean(channels: Seq<Channel>)
    ensures
        ({
            let n = channels.len() as int;
            let k = count(n, is_shown(channels));
            let depths = sum(n, is_shown(channels), |i: int| channels[i].depth as int);
            let targets = sum(
                n,
                is_shown(channels),
                |i: int|
                    if channels[i].target_samples >= 1 {
                        channels[i].target_samples as int
                    } else {
                        1
                    },
            );
            &&& fill_reading(channels) is Some <==> k > 0
            &&& fill_reading(channels) matches Some(r) ==> r.0 * k <= depths < (r.0 + 1) * k && r.1
                * k <= targets < (r.1 + 1) * k
        }),
{
    let n = channels.len() as int;
    let k = count(n, is_shown(channels));
    lemma_fill_totals(channels, n);
    law_count_bounds(n, is_shown(channels));
    if k > 0 {
        let (d, t, m) = fill_totals(channels, n);
        lemma_targets_at_least_one(channels, n);
        assert((d / k) * k <= d < (d / k + 1) * k) by (nonlinear_arith)
            requires
                k > 0,
        ;
        assert((t / k) * k <= t < (t / k + 1) * k) by (nonlinear_arith)
            requires
                k > 0,
        ;
        assert(t / k >= 1) by (nonlinear_arith)
            requires
                k > 0,
                t >= k,
        ;
    }
}

proof fn lemma_fill_totals(channels: Seq<Channel>, n: int)
    requires
        0 <= n <= channels.len(),
    ensures
        fill_totals(channels, n).0 == sum(
            n,
            is_shown(channels),
            |i: int| channels[i].depth as int,
        ),
        fill_totals(channels, n).1 == sum(
            n,
            is_shown(channels),
            |i: int|
                if channels[i].target_samples >= 1 {
                    channels[i].target_samples as int
                } else {
                    1
                },
        ),
        fill_totals(channels, n).2 == count(n, is_shown(channels)),
    decreases n,
{
    if n > 0 {
        lemma_fill_totals(channels, n - 1);
    }
}

proof fn lemma_targets_at_least_one(channels: Seq<Channel>, n: int)
    requires
        0 <= n <= channels.len(),
    ensures
        fill_totals(channels, n).1 >= fill_totals(channels, n).2,
    decreases n,
{
    if n > 0 {
        lemma_targets_at_least_one(channels, n - 1);
    }
}

/// The channels shown as filling are those that would be displayed but for their hold.
pub proof fn law_filling_channels_are_counted(channels: Seq<Channel>, n: int)
    requires
        0 <= n <= channels.len(),
    ensures
        holding_count(channels, n) == count(
            n,
            |i: int|
                channels[i].out_mask != 0 && channels[i].writer_idle_renders < 10
                    && channels[i].cells.hold,
        ),
    decreases n,
{
    if n > 0 {
        law_filling_channels_are_counted(channels, n - 1);
    }
}

/// An output's active channels are those past their hold and not just swapped, above the
/// active level, whose mask has the output.
pub proof fn law_active_channels_are_counted(
    channels: Seq<Channel>,
    late: Seq<LateView>,
    o: int,
    n: int,
)
    requires
        0 <= n <= channels.len(),
    ensures
        active_on(channels, late, o, n) == count(
            n,
            |i: int|
                !channels[i].cells.hold && late[i].swap is None && less_than(
                    0x3a83_126f,
                    late[i].level,
                ) && mask_has(channels[i].out_mask, o),
        ),
    decreases n,
{
    if n > 0 {
        law_active_channels_are_counted(channels, late, o, n - 1);
    }
}

/// Rerouting drops exactly the slots with no mask in the table, and hands each back; every
/// channel that stays has a mask in the table.
pub proof fn law_rerouting_hands_back_what_is_not_routed(
    channels: Seq<Channel>,
    masks: Seq<Option<u128>>,
    slot: u8,
)
    ensures
        ({
            let n = channels.len() as int;
            let gone = |i: int|
                channels[i].source_slot >= masks.len() || masks[channels[i].source_slot as int] is None;
            &&& unrouted(channels, masks, n).contains(slot) <==> exists|i: int|
                0 <= i < n && #[trigger] channels[i].source_slot == slot && gone(i)
            &&& unrouted(channels, masks, n).len() + rerouted(channels, masks, n).len() == n
            &&& forall|k: int|
                0 <= k < rerouted(channels, masks, n).len() ==> {
                    let c = #[trigger] rerouted(channels, masks, n)[k];
                    c.source_slot < masks.len() && masks[c.source_slot as int] == Some(c.out_mask)
                }
        }),
{
    lemma_rerouting(channels, masks, slot, channels.len() as int);
}

proof fn lemma_rerouting(
    channels: Seq<Channel>,
    masks: Seq<Option<u128>>,
    slot: u8,
    n: int,
)
    requires
        0 <= n <= channels.len(),
    ensures
        unrouted(channels, masks, n).contains(slot) <==> exists|i: int|
            0 <= i < n && #[trigger] channels[i].source_slot == slot && (channels[i].source_slot
                >= masks.len() || masks[channels[i].source_slot as int] is None),
        unrouted(channels, masks, n).len() + rerouted(channels, masks, n).len() == n,
        forall|k: int|
            0 <= k < rerouted(channels, masks, n).len() ==> {
                let c = #[trigger] rerouted(channels, masks, n)[k];
                c.source_slot < masks.len() && masks[c.source_slot as int] == Some(c.out_mask)
            },
    decreases n,
{
    if n > 0 {
        lemma_rerouting(channels, masks, slot, n - 1);
        let gone = unrouted(channels, masks, n);
        let gone_before = unrouted(channels, masks, n - 1);
        let kept = rerouted(channels, masks, n);
        let kept_before = rerouted(channels, masks, n - 1);
        if gone.contains(slot) {
            let k = choose|k: int| 0 <= k < gone.len() && gone[k] == slot;
            if k < gone_before.len() {
                assert(gone_before[k] == slot);
                let i = choose|i: int|
                    0 <= i < n - 1 && #[trigger] channels[i].source_slot == slot && (
                    channels[i].source_slot >= masks.len() || masks[channels[i].source_slot as int]
                        is None);
                assert(channels[i].source_slot == slot);
            } else {
                assert(channels[n - 1].source_slot == slot);
            }
        }
        if gone_before.contains(slot) {
            let k = choose|k: int| 0 <= k < gone_before.len() && gone_before[k] == slot;
            assert(gone[k] == slot);
        }
        if gone.len() > gone_before.len() {
            assert(gone[gone_before.len() as int] == channels[n - 1].source_slot);
        }
        assert forall|k: int| 0 <= k < kept.len() implies {
            let c = #[trigger] kept[k];
            c.source_slot < masks.len() && masks[c.source_slot as int] == Some(c.out_mask)
        } by {
            if k < kept_before.len() {
                assert(kept[k] == kept_before[k]);
            }
        }
    }
}

/// The stamps of all channels that advanced are summed.
pub proof fn law_every_stamp_is_summed(pass1: Seq<(u8, u32)>, n: int)
    requires
        0 <= n <= pass1.len(),
    ensures
        stamp_sum(pass1, n) == sum(n, |j: int| true, |j: int| pass1[j].1 as int),
    decreases n,
{
    if n > 0 {
        law_every_stamp_is_summed(pass1, n - 1);
    }
}

/// A writer that moved on is alive again; one that did not is one render older.
pub proof fn law_a_writer_is_alive_while_it_moves(c: &mut Channel, write_pos: u64, done: ())
    requires
        call_ensures(note_writer_liveness, (c, write_pos), done),
    ensures
        write_pos != old(c).last_write_pos ==> final(c).writer_idle_renders == 0,
        write_pos == old(c).last_write_pos && old(c).writer_idle_renders < u32::MAX
            ==> final(c).writer_idle_renders == old(c).writer_idle_renders + 1,
        write_pos == old(c).last_write_pos && old(c).writer_idle_renders == u32::MAX
            ==> final(c).writer_idle_renders == u32::MAX,
        final(c).last_write_pos == write_pos,
        final(c).cells == old(c).cells && final(c).depth == old(c).depth,
        final(c).source_slot == old(c).source_slot && final(c).out_mask == old(c).out_mask,
        final(c).target_samples == old(c).target_samples,
{
}

/// A swapped ring holds its channel again, at the new setpoint and without a result; without a
/// swap nothing changes, and the channel is released where it is not held.
pub proof fn law_a_swapped_ring_holds_again(c: &mut Channel, swap: Option<usize>, released: bool)
    requires
        call_ensures(ready, (c, swap), released),
    ensures
        swap is None ==> *final(c) == *old(c) && released == !old(c).cells.hold,
        swap matches Some(target) ==> !released && final(c).cells.hold && !final(c).cells.ready
            && final(c).target_samples == target,
        final(c).cells.cm_dir == old(c).cells.cm_dir
            && final(c).cells.merge_ts == old(c).cells.merge_ts,
        final(c).source_slot == old(c).source_slot && final(c).out_mask == old(c).out_mask,
        final(c).depth == old(c).depth,
{
}

/// A channel is shown where it is routed and its writer was seen in the last ten renders.
pub proof fn law_a_routed_live_channel_is_shown(c: Channel, shown: bool)
    requires
        call_ensures(is_displayed, (&c,), shown),
    ensures
        shown <==> c.out_mask != 0 && c.writer_idle_renders < 10,
{
}

/// A channel that is added is there, as it was given, and nothing of the others changes; one
/// that was on its slot is replaced.
pub proof fn law_an_added_channel_is_there(
    g: &mut PeerGroup,
    slot: u8,
    depth: usize,
    out_mask: u128,
    cells: Cells,
    frame_samples: usize,
    done: (),
    i: int,
)
    requires
        old(g)@.well_formed(),
        floored_setpoint(old(g)@.buffer_ms as int, frame_samples as int, 0) <= usize::MAX,
        call_ensures(PeerGroup::add_channel, (g, slot, depth, out_mask, cells, frame_samples), done),
    ensures
        exists|k: int|
            0 <= k < final(g)@.channels.len() && ({
                let c = #[trigger] final(g)@.channels[k];
                &&& c.source_slot == slot && c.depth == depth && c.out_mask == out_mask
                &&& c.target_samples == floored_setpoint(
                    old(g)@.buffer_ms as int,
                    frame_samples as int,
                    0,
                )
                &&& c.cells.hold == cells.hold && c.cells.skew_ref == cells.skew_ref
                &&& !c.cells.ready && c.cells.merge_ts == 0 && c.last_merge_ts == 0
                &&& c.writer_idle_renders == 0
            }),
        0 <= i < old(g)@.channels.len() && old(g)@.channels[i].source_slot != slot
            ==> final(g)@.channels.contains(old(g)@.channels[i]),
        final(g)@.channels.len() == old(g)@.channels.len() + (if exists|j: int|
            0 <= j < old(g)@.channels.len()
                && (#[trigger] old(g)@.channels[j]).source_slot == slot {
            0int
        } else {
            1int
        }),
        final(g)@.sync == old(g)@.sync && final(g)@.pass1 == old(g)@.pass1,
{
    let before = old(g)@.channels;
    let after = final(g)@.channels;
    let p = place(before, slot);
    lemma_place(before, slot);
    if carries(before, slot) {
        let j = choose|j: int| 0 <= j < before.len() && (#[trigger] before[j]).source_slot == slot;
        assert(j == p);
        assert(after[p].source_slot == slot);
        if 0 <= i < before.len() && before[i].source_slot != slot {
            assert(after[i] == before[i]);
        }
    } else {
        assert(after[p].source_slot == slot);
        if 0 <= i < before.len() {
            if i < p {
                assert(after[i] == before[i]);
            } else {
                assert(after[i + 1] == before[i]);
            }
        }
    }
}

/// A slot stands behind every lower one and before every one that is not.
proof fn lemma_place(channels: Seq<Channel>, slot: u8)
    requires
        ascending(channels),
    ensures
        0 <= place(channels, slot) <= channels.len(),
        forall|i: int| 0 <= i < channels.len()
            ==> ((#[trigger] channels[i]).source_slot < slot <==> i
            < place(channels, slot)),
        forall|i: int|
            0 <= i < channels.len() && (#[trigger] channels[i]).source_slot == slot ==> i == place(
                channels,
                slot,
            ),
    decreases channels.len(),
{
    if channels.len() > 0 {
        let rest = channels.drop_last();
        let n = channels.len() as int;
        assert forall|i: int, j: int| 0 <= i < j < rest.len() implies (
        #[trigger] rest[i]).source_slot < (#[trigger] rest[j]).source_slot by {
            assert(channels[i].source_slot < channels[j].source_slot);
        }
        lemma_place(rest, slot);
        assert forall|i: int| 0 <= i < n implies ((#[trigger] channels[i]).source_slot < slot <==> i
            < place(channels, slot)) by {
            if i < n - 1 {
                assert(rest[i] == channels[i]);
                assert(channels[i].source_slot < channels[n - 1].source_slot);
            }
        }
        assert forall|i: int|
            0 <= i < n && (#[trigger] channels[i]).source_slot == slot implies i == place(
            channels,
            slot,
        ) by {
            let p = place(channels, slot);
            assert(i >= p);
            if p < i {
                assert(channels[p].source_slot < channels[i].source_slot);
            }
        }
    }
}

/// A group carries a slot exactly where one of its channels stands on it.
pub proof fn law_a_slot_is_carried_by_its_channel(g: PeerGroup, slot: u8, has: bool)
    requires
        call_ensures(PeerGroup::has_channel, (&g, slot), has),
    ensures
        has <==> exists|i: int|
            0 <= i < g@.channels.len() && (#[trigger] g@.channels[i]).source_slot == slot,
{
}

/// A group's settings are set one by one; the longest period reserved for counts, and a window
/// holds it with six samples ahead, or 1920.
pub proof fn law_settings_are_set_one_by_one(
    a: &mut PeerGroup,
    sync: bool,
    b: &mut PeerGroup,
    ms: u32,
    c: &mut PeerGroup,
    frames: usize,
    done: (),
    len: usize,
)
    requires
        call_ensures(PeerGroup::set_sync, (a, sync), done),
        call_ensures(PeerGroup::set_buffer_ms, (b, ms), done),
        call_ensures(PeerGroup::reserve_for_period, (c, frames), done),
        call_ensures(PeerGroup::window_len, (final(c),), len),
    ensures
        final(a)@.sync == sync && final(a)@.buffer_ms == old(a)@.buffer_ms,
        final(a)@.channels == old(a)@.channels,
        final(b)@.buffer_ms == ms && final(b)@.sync == old(b)@.sync,
        final(b)@.channels == old(b)@.channels,
        len >= frames + 6 && len >= old(c)@.period_hint + 6 && len >= 1920,
        len == 1920 || len == frames + 6 || len == old(c)@.period_hint + 6,
        final(c)@.channels == old(c)@.channels && final(c)@.sync == old(c)@.sync,
{
}

/// The depth of every channel is told with its slot, in order.
pub proof fn law_every_depth_is_told(g: PeerGroup, depths: Vec<(u8, usize)>, i: int)
    requires
        call_ensures(PeerGroup::channel_depths, (&g,), depths),
        0 <= i < g@.channels.len(),
    ensures
        depths@.len() == g@.channels.len(),
        depths@[i].0 == g@.channels[i].source_slot,
        depths@[i].1 == g@.channels[i].depth,
{
}

/// What is mixed and what is dispatched comes by ascending slot, each slot once.
pub proof fn law_channels_come_by_ascending_slot(
    channels: Seq<Channel>,
    seen: Seq<Observation>,
    sync: bool,
    pass1: Seq<(u8, u32)>,
    broadcast: Option<Ratio>,
    mean: int,
    n: int,
)
    requires
        ascending(channels),
        0 <= n <= channels.len(),
    ensures
        ({
            let m = mixed(channels, seen, sync, n);
            let j = jobs(channels, pass1, broadcast, mean, n);
            &&& forall|a: int|
                0 <= a < m.len() ==> exists|i: int|
                    0 <= i < n && (#[trigger] m[a]).0 == (#[trigger] channels[i]).source_slot
            &&& forall|a: int, b: int|
                0 <= a < b < m.len() ==> (#[trigger] m[a]).0 < (#[trigger] m[b]).0
            &&& forall|a: int|
                0 <= a < j.len() ==> exists|i: int|
                    0 <= i < n && (#[trigger] j[a]).slot == (#[trigger] channels[i]).source_slot
            &&& forall|a: int, b: int|
                0 <= a < b < j.len() ==> (#[trigger] j[a]).slot < (#[trigger] j[b]).slot
        }),
    decreases n,
{
    if n > 0 {
        law_channels_come_by_ascending_slot(channels, seen, sync, pass1, broadcast, mean, n - 1);
        let m0 = mixed(channels, seen, sync, n - 1);
        let m = mixed(channels, seen, sync, n);
        let j0 = jobs(channels, pass1, broadcast, mean, n - 1);
        let j = jobs(channels, pass1, broadcast, mean, n);
        let c = channels[n - 1];
        assert forall|a: int| 0 <= a < m.len() implies exists|i: int|
            0 <= i < n && (#[trigger] m[a]).0 == (#[trigger] channels[i]).source_slot by {
            if a < m0.len() {
                assert(m[a] == m0[a]);
                let i = choose|i: int|
                    0 <= i < n - 1 && m0[a].0 == (#[trigger] channels[i]).source_slot;
                assert(m[a].0 == channels[i].source_slot);
            } else {
                assert(m[a].0 == channels[n - 1].source_slot);
            }
        }
        assert forall|a: int, b: int| 0 <= a < b < m.len() implies (#[trigger] m[a]).0 < (
        #[trigger] m[b]).0 by {
            assert(m[a] == m0[a]);
            if b < m0.len() {
                assert(m[b] == m0[b]);
            } else {
                let i = choose|i: int|
                    0 <= i < n - 1 && m0[a].0 == (#[trigger] channels[i]).source_slot;
                assert(channels[i].source_slot < channels[n - 1].source_slot);
            }
        }
        assert forall|a: int| 0 <= a < j.len() implies exists|i: int|
            0 <= i < n && (#[trigger] j[a]).slot == (#[trigger] channels[i]).source_slot by {
            if a < j0.len() {
                assert(j[a] == j0[a]);
                let i = choose|i: int|
                    0 <= i < n - 1 && j0[a].slot == (#[trigger] channels[i]).source_slot;
                assert(j[a].slot == channels[i].source_slot);
            } else {
                assert(j[a].slot == channels[n - 1].source_slot);
            }
        }
        assert forall|a: int, b: int| 0 <= a < b < j.len() implies (#[trigger] j[a]).slot < (
        #[trigger] j[b]).slot by {
            assert(j[a] == j0[a]);
            if b < j0.len() {
                assert(j[b] == j0[b]);
            } else {
                let i = choose|i: int|
                    0 <= i < n - 1 && j0[a].slot == (#[trigger] channels[i]).source_slot;
                assert(channels[i].source_slot < channels[n - 1].source_slot);
            }
        }
    }
}

/// The decision of a group is that of the majority of its channels that advanced: with no skew
/// to correct it speeds up where more of them are to fill than to drain, slows down where
/// fewer are, and runs at unity where they balance.
pub proof fn law_a_group_decides_with_its_majority(g: &mut PeerGroup, frames: usize, ratio: Ratio)
    requires
        old(g)@.well_formed(),
        relays_in_range(old(g)@.channels),
        forall|i: int|
            0 <= i < old(g)@.channels.len() && has_advanced(old(g)@.channels, old(g)@.pass1)(i)
                ==> (
            #[trigger] old(g)@.channels[i]).cells.skew_flag == 0,
        call_ensures(PeerGroup::group_decision, (g, frames), ratio),
    ensures
        ({
            let m = old(g)@;
            let n = m.channels.len() as int;
            let fill = count(n, votes_depth(m.channels, m.pass1, 1));
            let drain = count(n, votes_depth(m.channels, m.pass1, -1));
            &&& ratio == Ratio::StrongUp <==> fill > drain
            &&& ratio == Ratio::StrongDown <==> fill < drain
            &&& ratio == Ratio::Unity <==> fill == drain
            &&& final(g)@.common_engaged <==> fill != drain
            &&& final(g)@.channels == m.channels
        }),
{
    law_the_common_mode_follows_the_majority(old(g)@, frames as int);
}

} // verus!
