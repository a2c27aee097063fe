//! macOS: unit configuration, the slice that follows a granted period, callback bounds and
//! the faults read from device properties.

use vstd::prelude::*;
use vstd::string::*;

use crate::pick::sum;
use crate::text::{decimal, push_decimal, push_signed, signed_decimal};

verus! {

/// Element 0: on an output unit the side the host feeds.
pub const ELEM_OUTPUT: u32 = 0;

/// Element 1: the input element.
pub const ELEM_INPUT: u32 = 1;

/// The status a capture callback answers with when it cannot take the frames.
pub const PARAM_ERROR: i32 = -50;

/// The rate every device is opened at, in Hz.
pub const RATE: u32 = 48_000;

/// Bytes of one sample.
pub const SAMPLE_BYTES: usize = 4;

/// Which direction a unit is configured for.
#[derive(Clone, Copy, Debug, PartialEq, Eq, Structural)]
pub enum Dir {
    Output,
    Input,
}

pub open spec fn dir_label(d: Dir) -> Seq<char> {
    if d == Dir::Input {
        "input"@
    } else {
        "output"@
    }
}

impl Dir {
    pub fn label(self) -> (s: &'static str)
        ensures
            s@ == dir_label(self),
    {
        match self {
            Dir::Input => "input",
            Dir::Output => "output",
        }
    }
}

/// A status from the host: nothing on success, else what failed and with which status.
pub fn check(status: i32, what: &str) -> (r: Result<(), String>)
    ensures
        r is Ok <==> status == 0,
        r matches Err(e) ==> e@ == what@ + " failed: OSStatus "@ + signed_decimal(status as int),
{
    if status == 0 {
        Ok(())
    } else {
        let mut s: String = String::new();
        s.append(what);
        s.append(" failed: OSStatus ");
        push_signed(&mut s, status as i64);
        assert(s@ =~= what@ + " failed: OSStatus "@ + signed_decimal(status as int));
        Err(s)
    }
}

/// Which side of the unit faces the host.
#[derive(Clone, Copy, Debug, PartialEq, Eq, Structural)]
pub enum Side {
    Input,
    Output,
}

/// What the two units differ in.
#[derive(Clone, Copy, Debug, PartialEq, Eq, Structural)]
pub struct UnitSettings {
    /// Whether the input element, then the output element, is enabled.
    pub input_enabled: u32,
    pub output_enabled: u32,
    /// Where the stream format is set.
    pub format_side: Side,
    pub format_elem: u32,
}

/// An output unit takes its format on the side the host feeds, an input unit on the side the
/// host reads.
pub fn unit_settings(dir: Dir) -> (u: UnitSettings)
    ensures
        u == (match dir {
            Dir::Output => UnitSettings {
                input_enabled: 0,
                output_enabled: 1,
                format_side: Side::Input,
                format_elem: ELEM_OUTPUT,
            },
            Dir::Input => UnitSettings {
                input_enabled: 1,
                output_enabled: 0,
                format_side: Side::Output,
                format_elem: ELEM_INPUT,
            },
        }),
{
    match dir {
        Dir::Output => UnitSettings {
            input_enabled: 0,
            output_enabled: 1,
            format_side: Side::Input,
            format_elem: ELEM_OUTPUT,
        },
        Dir::Input => UnitSettings {
            input_enabled: 1,
            output_enabled: 0,
            format_side: Side::Output,
            format_elem: ELEM_INPUT,
        },
    }
}

/// The largest number of frames one callback may carry: the period asked for, or the granted
/// one where the device granted more.
pub open spec fn slice_for(period: u32, granted: Option<u32>) -> u32 {
    match granted {
        Some(g) => if g > period {
            g
        } else {
            period
        },
        None => period,
    }
}

/// The maximum slice once the granted period is known, and whether it has to be set anew.
pub fn configured_slice(period: u32, granted: Option<u32>) -> (r: (u32, bool))
    ensures
        r.0 == slice_for(period, granted),
        r.1 == (r.0 != period),
{
    match granted {
        Some(g) => {
            if g > period {
                (g, true)
            } else {
                (period, false)
            }
        },
        None => (period, false),
    }
}

/// The channels of the first `n` buffers.
pub open spec fn channel_sum(buffers: Seq<u32>, n: int) -> int
    decreases n,
{
    if n <= 0 {
        0
    } else {
        channel_sum(buffers, n - 1) + buffers[n - 1]
    }
}

proof fn lemma_channel_sum_grows(buffers: Seq<u32>, n: int, m: int)
    requires
        0 <= n <= m,
    ensures
        0 <= channel_sum(buffers, n) <= channel_sum(buffers, m),
    decreases m,
{
    if n < m {
        lemma_channel_sum_grows(buffers, n, m - 1);
    } else if n > 0 {
        lemma_channel_sum_grows(buffers, n - 1, n - 1);
    }
}

/// How many channels a device carries: those of all its buffers, up to what a stream can
/// count.
pub fn channel_count(buffers: &Vec<u32>) -> (n: u16)
    requires
        channel_sum(buffers@, buffers@.len() as int) <= u32::MAX,
    ensures
        n == (if channel_sum(buffers@, buffers@.len() as int) < u16::MAX {
            channel_sum(buffers@, buffers@.len() as int)
        } else {
            u16::MAX as int
        }),
{
    let mut total: u32 = 0;
    let mut i: usize = 0;
    while i < buffers.len()
        invariant
            i <= buffers@.len(),
            total == channel_sum(buffers@, i as int),
            channel_sum(buffers@, buffers@.len() as int) <= u32::MAX,
        decreases buffers@.len() - i,
    {
        proof {
            lemma_channel_sum_grows(buffers@, i + 1, buffers@.len() as int);
        }
        total = total + buffers[i];
        i = i + 1;
    }
    if total < u16::MAX as u32 {
        total as u16
    } else {
        u16::MAX
    }
}

/// A negotiated configuration.
#[derive(Clone, Copy, Debug, PartialEq, Eq, Structural)]
pub struct Config {
    pub channels: u16,
    pub sample_rate: u32,
    pub period: u32,
}

impl Config {
    pub fn channels(&self) -> (n: u16)
        ensures
            n == self.channels,
    {
        self.channels
    }

    pub fn sample_rate(&self) -> (hz: u32)
        ensures
            hz == self.sample_rate,
    {
        self.sample_rate
    }
}

/// The configuration of a device, or why it has none: its channels cannot be read, it has
/// none in this direction, or it does not run at 48 kHz.
pub fn find_config(
    name: &str,
    dir: Dir,
    period: u32,
    channels: Result<u16, String>,
    supports_rate: bool,
) -> (r: Result<Config, String>)
    ensures
        r matches Ok(c) ==> (channels == Ok::<u16, String>(c.channels) && c.channels != 0
            && supports_rate && c.sample_rate == RATE && c.period == period),
        r matches Err(e) ==> e@ == (match channels {
            Err(why) => "cannot read the channel count of "@ + dir_label(dir) + " device '"@
                + name@ + "': "@ + why@,
            Ok(n) => if n == 0 {
                dir_label(dir) + " device '"@ + name@ + "' has no "@ + dir_label(dir)
                    + " channels"@
            } else {
                dir_label(dir) + " device '"@ + name@ + "' does not support 48 kHz"@
            },
        }),
        r is Ok <==> (channels matches Ok(n) && n != 0 && supports_rate),
{
    let mut s: String = String::new();
    match channels {
        Err(why) => {
            s.append("cannot read the channel count of ");
            s.append(dir.label());
            s.append(" device '");
            s.append(name);
            s.append("': ");
            s.append(why.as_str());
            assert(s@ =~= "cannot read the channel count of "@ + dir_label(dir) + " device '"@
                + name@ + "': "@ + why@);
            Err(s)
        },
        Ok(n) => {
            if n == 0 {
                s.append(dir.label());
                s.append(" device '");
                s.append(name);
                s.append("' has no ");
                s.append(dir.label());
                s.append(" channels");
                assert(s@ =~= dir_label(dir) + " device '"@ + name@ + "' has no "@ + dir_label(dir)
                    + " channels"@);
                Err(s)
            } else if !supports_rate {
                s.append(dir.label());
                s.append(" device '");
                s.append(name);
                s.append("' does not support 48 kHz");
                assert(s@ =~= dir_label(dir) + " device '"@ + name@
                    + "' does not support 48 kHz"@);
                Err(s)
            } else {
                Ok(Config { channels: n, sample_rate: RATE, period })
            }
        },
    }
}

/// A failed open.
pub struct OpenError {
    pub message: String,
}

/// Devices are shared here, so none is ever busy.
pub fn is_device_busy(err: &OpenError) -> (busy: bool)
    ensures
        !busy,
{
    false
}

/// A fault of a live stream, by what it means for the caller.
pub enum StreamFault {
    /// The hardware is gone.
    DeviceLost,
    /// The stream is no longer valid but the device is present: rebuild.
    Invalidated,
    /// Anything else: keep the device.
    Transient(String),
}

/// What a watched property says after it changed.
#[derive(Clone, Copy, Debug, PartialEq, Eq, Structural)]
pub enum PropertyReading {
    /// Whether the device is alive, with the status of asking it.
    Alive { status: i32, alive: u32 },
    /// Whether the nominal rate could be read and is another than the stream's.
    Rate { moved: bool },
    Other,
}

/// A device that no longer answers is as gone as one that says so; a rate moved from outside
/// invalidates the stream.
pub fn property_fault(reading: PropertyReading) -> (f: Option<StreamFault>)
    ensures
        match reading {
            PropertyReading::Alive { status, alive } => if status != 0 || alive == 0 {
                f == Some(StreamFault::DeviceLost)
            } else {
                f is None
            },
            PropertyReading::Rate { moved } => if moved {
                f == Some(StreamFault::Invalidated)
            } else {
                f is None
            },
            PropertyReading::Other => f is None,
        },
{
    match reading {
        PropertyReading::Alive { status, alive } => {
            if status != 0 || alive == 0 {
                Some(StreamFault::DeviceLost)
            } else {
                None
            }
        },
        PropertyReading::Rate { moved } => {
            if moved {
                Some(StreamFault::Invalidated)
            } else {
                None
            }
        },
        PropertyReading::Other => None,
    }
}

/// How many samples a playback callback may write: what was asked for, as far as the buffer
/// really goes.
pub fn render_len(frames: u32, channels: u16, buffer_bytes: u32) -> (len: usize)
    requires
        frames * channels <= usize::MAX,
    ensures
        len == (if frames * channels < buffer_bytes / 4 {
            frames * channels
        } else {
            (buffer_bytes / 4) as int
        }),
{
    let wanted: usize = frames as usize * channels as usize;
    let capacity: usize = buffer_bytes as usize / SAMPLE_BYTES;
    if wanted < capacity {
        wanted
    } else {
        capacity
    }
}

/// A capture callback's bounds: the pull buffer is never resized.
#[derive(Clone, Copy, Debug, PartialEq, Eq, Structural)]
pub struct CaptureBounds {
    pub channels: u16,
    /// Samples the pull buffer holds.
    pub buffer_len: usize,
    /// An oversize callback has been reported.
    pub oversize_reported: bool,
}

/// What a capture callback does.
pub enum Pull {
    /// Pull this many samples.
    Samples(usize),
    /// Answer with an error; say so where a message is given.
    Oversize(Option<String>),
}

pub open spec fn oversize_message(frames: int, limit: int) -> Seq<char> {
    "capture callback carried "@ + decimal(frames) + " frames, more than the "@ + decimal(limit)
        + " the unit was built for — this input is silent until it is rebuilt"@
}

/// Frames the pull buffer holds.
pub open spec fn frame_limit(b: CaptureBounds) -> int {
    b.buffer_len as int / (if b.channels == 0 {
        1
    } else {
        b.channels as int
    })
}

impl CaptureBounds {
    /// Bounds for a unit of this slice: no callback within the slice is oversize.
    pub fn new(slice: u32, channels: u16) -> (b: Self)
        requires
            slice * channels <= usize::MAX,
        ensures
            b == (CaptureBounds {
                channels,
                buffer_len: (slice * channels) as usize,
                oversize_reported: false,
            }),
    {
        CaptureBounds {
            channels,
            buffer_len: slice as usize * channels as usize,
            oversize_reported: false,
        }
    }

    /// A callback with this many frames. More than the buffer holds is refused.
    pub fn on_callback(&self, frames: u32) -> (p: Pull)
        requires
            frames * self.channels <= usize::MAX,
        ensures
            match p {
                Pull::Samples(n) => n == frames * self.channels && n <= self.buffer_len,
                Pull::Oversize(m) => frames * self.channels > self.buffer_len && (m is None
                    <==> self.oversize_reported) && (m matches Some(t) ==> t@ == oversize_message(
                    frames as int,
                    frame_limit(*self),
                )),
            },
    {
        let wanted: usize = frames as usize * self.channels as usize;
        if wanted <= self.buffer_len {
            return Pull::Samples(wanted);
        }
        if self.oversize_reported {
            return Pull::Oversize(None);
        }
        let per: usize = if self.channels == 0 {
            1
        } else {
            self.channels as usize
        };
        let mut s: String = String::new();
        s.append("capture callback carried ");
        push_decimal(&mut s, frames as u64);
        s.append(" frames, more than the ");
        push_decimal(&mut s, (self.buffer_len / per) as u64);
        s.append(" the unit was built for — this input is silent until it is rebuilt");
        assert(s@ =~= oversize_message(frames as int, frame_limit(*self)));
        Pull::Oversize(Some(s))
    }

    /// The oversize message was handed on, or could not be without waiting.
    pub fn on_reported(&mut self, accepted: bool)
        ensures
            *final(self) == (CaptureBounds { oversize_reported: accepted, ..*old(self) }),
    {
        self.oversize_reported = accepted;
    }

    /// How many samples of a pull are real: the count it reports, within what was asked for.
    pub fn delivered(bytes: u32, wanted: usize) -> (n: usize)
        ensures
            n == (if bytes / 4 < wanted {
                (bytes / 4) as int
            } else {
                wanted as int
            }),
    {
        let got: usize = bytes as usize / SAMPLE_BYTES;
        if got < wanted {
            got
        } else {
            wanted
        }
    }
}

/// The period a trial open asks for: the one the device has, so that nothing moves under a
/// running unit. A device that does not say is not tried.
pub fn probe_period(status: i32, frames: u32) -> (p: Option<usize>)
    ensures
        p == (if status == 0 && frames > 0 {
            Some(frames as usize)
        } else {
            None
        }),
{
    if status == 0 && frames > 0 {
        Some(frames as usize)
    } else {
        None
    }
}

/// The slice covers both what was asked for and what was granted, so no callback the device
/// delivers exceeds the pull buffer sized by it.
pub proof fn law_the_slice_covers_the_grant(period: u32, granted: Option<u32>, frames: u32,
    channels: u16)
    requires
        frames <= period || (granted matches Some(g) && frames <= g),
    ensures
        slice_for(period, granted) >= period,
        granted matches Some(g) ==> slice_for(period, granted) >= g,
        frames * channels <= slice_for(period, granted) * channels,
{
    let s = slice_for(period, granted);
    assert(frames * channels <= s * channels) by (nonlinear_arith)
        requires
            frames <= s,
    ;
}

/// The slice is no more than it has to be: the period asked for, or the granted one where that
/// is more; only then is it set anew.
pub proof fn law_the_slice_is_the_larger_period(
    period: u32,
    granted: Option<u32>,
    r: (u32, bool),
)
    requires
        call_ensures(configured_slice, (period, granted), r),
    ensures
        r.0 == period || granted == Some(r.0),
        r.0 >= period && (granted matches Some(g) ==> r.0 >= g),
        r.1 <==> (granted matches Some(g) && g > period),
{
}

/// Each unit has its own direction switched on and the other off, and takes its format on the
/// element that is on, on the side that faces the host.
pub proof fn law_a_unit_has_one_direction(dir: Dir, u: UnitSettings)
    requires
        call_ensures(unit_settings, (dir,), u),
    ensures
        u.input_enabled == 1 <==> dir == Dir::Input,
        u.output_enabled == 1 <==> dir == Dir::Output,
        u.input_enabled + u.output_enabled == 1,
        u.format_elem == u.input_enabled,
        u.format_side == Side::Output <==> dir == Dir::Input,
{
}

/// A device has the channels of all its buffers together, as far as a stream can count.
pub proof fn law_channels_of_all_buffers_count(buffers: Vec<u32>, n: u16)
    requires
        call_ensures(channel_count, (&buffers,), n),
    ensures
        ({
            let total = sum(buffers@.len() as int, |i: int| true, |i: int| buffers@[i] as int);
            &&& total <= 65_535 ==> n == total
            &&& total > 65_535 ==> n == 65_535
        }),
{
    lemma_channels_summed(buffers@, buffers@.len() as int);
}

proof fn lemma_channels_summed(buffers: Seq<u32>, n: int)
    requires
        0 <= n <= buffers.len(),
    ensures
        channel_sum(buffers, n) == sum(n, |i: int| true, |i: int| buffers[i] as int),
    decreases n,
{
    if n > 0 {
        lemma_channels_summed(buffers, n - 1);
    }
}

/// A device is configured exactly where its channels are known, there are some, and it runs at
/// 48 kHz, and then as it was asked for.
pub proof fn law_a_device_is_configured_as_asked(
    name: &str,
    dir: Dir,
    period: u32,
    channels: Result<u16, String>,
    supports_rate: bool,
    r: Result<Config, String>,
)
    requires
        call_ensures(find_config, (name, dir, period, channels, supports_rate), r),
    ensures
        r is Ok <==> supports_rate && channels is Ok && channels->Ok_0 > 0,
        r matches Ok(c) ==> c.sample_rate == 48_000 && c.period == period && c.channels
            == channels->Ok_0,
        r matches Err(e) ==> e@.len() > name@.len(),
{
    reveal_strlit(" device '");
}

/// A direction is called by its own name.
pub proof fn law_directions_are_told_apart(d: Dir)
    ensures
        dir_label(d) == "input"@ <==> d == Dir::Input,
        dir_label(d) == "output"@ <==> d == Dir::Output,
{
    reveal_strlit("input");
    reveal_strlit("output");
    assert("input"@.len() == 5 && "output"@.len() == 6);
}

/// A device that is dead, or does not answer, is lost; a moved rate invalidates the stream; and
/// nothing else is a fault.
pub proof fn law_faults_of_properties(
    status: i32,
    alive: u32,
    moved: bool,
    life: Option<StreamFault>,
    rate: Option<StreamFault>,
    other: Option<StreamFault>,
)
    requires
        call_ensures(property_fault, (PropertyReading::Alive { status, alive },), life),
        call_ensures(property_fault, (PropertyReading::Rate { moved },), rate),
        call_ensures(property_fault, (PropertyReading::Other,), other),
    ensures
        life is None <==> status == 0 && alive != 0,
        life is Some ==> life->Some_0 is DeviceLost,
        rate is Some <==> moved,
        rate is Some ==> rate->Some_0 is Invalidated,
        other is None,
{
}

/// A playback callback writes what is asked for and never past the buffer; a pull is real as
/// far as it reports and never past what was asked for.
pub proof fn law_callbacks_stay_in_their_buffers(
    frames: u32,
    channels: u16,
    buffer_bytes: u32,
    len: usize,
    bytes: u32,
    wanted: usize,
    n: usize,
)
    requires
        call_ensures(render_len, (frames, channels, buffer_bytes), len),
        call_ensures(CaptureBounds::delivered, (bytes, wanted), n),
    ensures
        4 * len <= buffer_bytes && len <= frames * channels,
        len < frames * channels ==> 4 * (len + 1) > buffer_bytes,
        n <= wanted && 4 * n <= bytes,
        n < wanted ==> 4 * (n + 1) > bytes,
{
}

/// The bounds of a unit let every callback within its slice through whole and refuse every
/// longer one; a refusal is said until it has been handed on.
pub proof fn law_callbacks_within_the_slice_are_pulled(
    slice: u32,
    channels: u16,
    frames: u32,
    b: CaptureBounds,
    p: Pull,
)
    requires
        channels > 0,
        call_ensures(CaptureBounds::new, (slice, channels), b),
        slice * channels <= usize::MAX,
        call_ensures(CaptureBounds::on_callback, (&b, frames), p),
    ensures
        p is Samples <==> frames <= slice,
        p matches Pull::Samples(n) ==> n == frames * channels,
        p matches Pull::Oversize(m) ==> m is Some,
        frame_limit(b) == slice,
{
    assert(frames * channels > slice * channels <==> frames > slice) by (nonlinear_arith)
        requires
            channels > 0,
    ;
    assert((slice * channels) as int / channels as int == slice) by (nonlinear_arith)
        requires
            channels > 0,
    ;
}

/// A refused callback is said once it could be handed on, and not again.
pub proof fn law_a_refused_callback_is_said_once(
    b: &mut CaptureBounds,
    accepted: bool,
    done: (),
    frames: u32,
    p: Pull,
)
    requires
        call_ensures(CaptureBounds::on_reported, (b, accepted), done),
        call_ensures(CaptureBounds::on_callback, (final(b), frames), p),
    ensures
        final(b).buffer_len == old(b).buffer_len && final(b).channels == old(b).channels,
        p matches Pull::Oversize(m) ==> (m is Some <==> !accepted),
{
}

/// What is said of a refused callback names the frames it carried and those there is room for.
pub proof fn law_a_refused_callback_names_both_counts(frames: int, limit: int)
    ensures
        ({
            let s = oversize_message(frames, limit);
            let a = "capture callback carried "@;
            let b = " frames, more than the "@;
            let x = (a.len() + decimal(frames).len()) as int;
            let y = (x + b.len()) as int;
            &&& s.subrange(a.len() as int, x) == decimal(frames)
            &&& s.subrange(x, y) == b
            &&& s.subrange(y, y + decimal(limit).len()) == decimal(limit)
        }),
{
    let s = oversize_message(frames, limit);
    let a = "capture callback carried "@;
    let b = " frames, more than the "@;
    let x = (a.len() + decimal(frames).len()) as int;
    let y = (x + b.len()) as int;
    assert(s.subrange(a.len() as int, x) =~= decimal(frames));
    assert(s.subrange(x, y) =~= b);
    assert(s.subrange(y, y + decimal(limit).len()) =~= decimal(limit));
}

/// A trial open asks for the period the device says it has, and there is none where it does
/// not say.
pub proof fn law_a_trial_moves_no_period(status: i32, frames: u32, p: Option<usize>)
    requires
        call_ensures(probe_period, (status, frames), p),
    ensures
        p is Some <==> status == 0 && frames > 0,
        p matches Some(n) ==> n == frames,
{
}

/// A status is an error exactly where it is not zero, and the error says what failed and with
/// which status.
pub proof fn law_only_zero_is_success(status: i32, what: &str, r: Result<(), String>)
    requires
        call_ensures(check, (status, what), r),
    ensures
        r is Ok <==> status == 0,
        r matches Err(e) ==> ({
            let n = what@.len() as int;
            let d = signed_decimal(status as int);
            &&& e@.len() >= n + d.len()
            &&& e@.subrange(0, n) == what@
            &&& e@.subrange(e@.len() - d.len(), e@.len() as int) == d
        }),
{
    if let Err(e) = r {
        let n = what@.len() as int;
        let d = signed_decimal(status as int);
        assert(e@.subrange(0, n) =~= what@);
        assert(e@.subrange(e@.len() - d.len(), e@.len() as int) =~= d);
    }
}

} // verus!
