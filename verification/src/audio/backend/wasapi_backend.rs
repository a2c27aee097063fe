//! Windows: exclusive-mode negotiation, the periods a device is tried at, the stream thread
//! and its polling rhythm, disconnect classification and sample layout.

use vstd::prelude::*;
use vstd::string::*;

use crate::audio::backend::command::Cmd;
use crate::audio::backend::pack::{
    fitting, law_only_whole_samples_are_read, law_samples_stand_one_after_another, pack, packed_all,
    unpack, unpacked_all,
};
use crate::text::{decimal, push_decimal};

pub mod dis;

verus! {

/// Byte alignment asked for only after a device has refused an unaligned period.
pub const PERIOD_ALIGN_BYTES: u32 = 128;

/// Fraction of a period between polls while the device's rhythm is unknown.
pub const POLL_DIVISOR: i64 = 4;

/// How long the stream thread waits before it looks at its command again.
pub const EVENT_TIMEOUT_MS: u32 = 200;

/// 100-nanosecond units per second.
pub const HNS_PER_SEC: i64 = 10_000_000;

/// The rate every device is opened at, in Hz.
pub const RATE: u32 = 48_000;

/// Cadence once the device is nearly due, in 100-nanosecond units.
pub const FINE_HNS: i64 = 2_500;

/// How long before the predicted time the thread wakes, in nanoseconds.
pub const GUARD_NS: u64 = 500_000;

/// A gap this long, in nanoseconds, is a stall and not the device's rhythm.
pub const STALL_NS: u64 = 100_000_000;

/// How often the count of short reads is reported at most, in nanoseconds.
pub const PARTIAL_LOG_NS: u64 = 10_000_000_000;

/// One endpoint, by its identifier: the handle itself belongs to one thread.
pub struct Device {
    pub id: String,
    pub name: String,
}

pub fn device_name(dev: &Device) -> (name: String)
    ensures
        name@ == dev.name@,
{
    dev.name.as_str().to_owned()
}

/// The endpoint identifier, which survives reboots and renaming.
pub fn device_uid(dev: &Device) -> (uid: Option<String>)
    ensures
        uid matches Some(u) && u@ == dev.id@,
{
    Some(dev.id.as_str().to_owned())
}

/// Which direction a device is opened for.
#[derive(Clone, Copy, Debug, PartialEq, Eq, Structural)]
pub enum Dir {
    Input,
    Output,
}

pub open spec fn dir_label(d: Dir) -> Seq<char> {
    if d == Dir::Input {
        "input"@
    } else {
        "output"@
    }
}

impl Dir {
    pub fn label(self) -> (s: &'static str)
        ensures
            s@ == dir_label(self),
    {
        match self {
            Dir::Input => "input",
            Dir::Output => "output",
        }
    }
}

/// The device sample formats accepted. 24 bits come left-justified in four bytes, where they
/// scale like 32, or packed into three.
#[derive(Clone, Copy, Debug, PartialEq, Eq, Structural)]
pub enum Fmt {
    F32,
    S32,
    S24In4,
    S24In3,
    S16,
}

/// How a sample is stored: container bits, valid bits, and whether it is a float.
#[derive(Clone, Copy, Debug, PartialEq, Eq, Structural)]
pub struct Shape {
    pub store_bits: usize,
    pub valid_bits: usize,
    pub float: bool,
}

pub open spec fn shape_of(f: Fmt) -> Shape {
    match f {
        Fmt::F32 => Shape { store_bits: 32, valid_bits: 32, float: true },
        Fmt::S32 => Shape { store_bits: 32, valid_bits: 32, float: false },
        Fmt::S24In4 => Shape { store_bits: 32, valid_bits: 24, float: false },
        Fmt::S24In3 => Shape { store_bits: 24, valid_bits: 24, float: false },
        Fmt::S16 => Shape { store_bits: 16, valid_bits: 16, float: false },
    }
}

pub open spec fn fmt_name(f: Fmt) -> Seq<char> {
    match f {
        Fmt::F32 => "F32"@,
        Fmt::S32 => "S32"@,
        Fmt::S24In4 => "S24-in-32 (valid bits left-justified)"@,
        Fmt::S24In3 => "S24 packed"@,
        Fmt::S16 => "S16"@,
    }
}

/// Full scale of an integer format. Left-justified samples scale by their container.
pub open spec fn full_scale_of(f: Fmt) -> int {
    match f {
        Fmt::F32 => 1,
        Fmt::S32 => 0x8000_0000,
        Fmt::S24In4 => 0x8000_0000,
        Fmt::S24In3 => 0x80_0000,
        Fmt::S16 => 0x8000,
    }
}

impl Fmt {
    pub fn shape(self) -> (s: Shape)
        ensures
            s == shape_of(self),
    {
        match self {
            Fmt::F32 => Shape { store_bits: 32, valid_bits: 32, float: true },
            Fmt::S32 => Shape { store_bits: 32, valid_bits: 32, float: false },
            Fmt::S24In4 => Shape { store_bits: 32, valid_bits: 24, float: false },
            Fmt::S24In3 => Shape { store_bits: 24, valid_bits: 24, float: false },
            Fmt::S16 => Shape { store_bits: 16, valid_bits: 16, float: false },
        }
    }

    /// The container, not the valid bits, drives the byte count.
    pub fn bytes_per_sample(self) -> (n: usize)
        ensures
            n == shape_of(self).store_bits / 8,
    {
        self.shape().store_bits / 8
    }

    pub fn name(self) -> (s: &'static str)
        ensures
            s@ == fmt_name(self),
    {
        match self {
            Fmt::F32 => "F32",
            Fmt::S32 => "S32",
            Fmt::S24In4 => "S24-in-32 (valid bits left-justified)",
            Fmt::S24In3 => "S24 packed",
            Fmt::S16 => "S16",
        }
    }

    pub fn full_scale(self) -> (scale: u32)
        ensures
            scale == full_scale_of(self),
    {
        match self {
            Fmt::F32 => 1,
            Fmt::S32 => 0x8000_0000,
            Fmt::S24In4 => 0x8000_0000,
            Fmt::S24In3 => 0x80_0000,
            Fmt::S16 => 0x8000,
        }
    }
}

/// The formats in descending preference.
pub open spec fn preference() -> Seq<Fmt> {
    seq![Fmt::F32, Fmt::S32, Fmt::S24In4, Fmt::S24In3, Fmt::S16]
}

/// A negotiated configuration.
#[derive(Clone, Copy, Debug, PartialEq, Eq, Structural)]
pub struct Config {
    pub channels: u16,
    pub sample_rate: u32,
    /// The device period in 100-nanosecond units.
    pub period_hns: i64,
    /// The period in frames.
    pub period: usize,
    pub fmt: Fmt,
}

impl Config {
    pub fn channels(&self) -> (n: u16)
        ensures
            n == self.channels,
    {
        self.channels
    }

    pub fn sample_rate(&self) -> (hz: u32)
        ensures
            hz == self.sample_rate,
    {
        self.sample_rate
    }
}

/// The largest period, in frames or in 100-nanosecond units, that converts without overflow.
pub const PERIOD_LIMIT: i64 = 900_000_000_000;

/// A period in frames as a duration.
pub fn desired_hns(period_frames: usize) -> (hns: i64)
    requires
        period_frames <= PERIOD_LIMIT,
    ensures
        hns == period_frames * HNS_PER_SEC / 48_000,
{
    period_frames as i64 * HNS_PER_SEC / 48_000
}

/// A duration as a period in frames, rounded down.
pub open spec fn frames_of_hns(hns: int) -> int {
    hns * 48_000 / HNS_PER_SEC as int
}

/// What a device says of a format it is asked for.
pub enum Answer {
    Refused(String),
    /// It offers a format at this rate and channel count.
    Offered { rate: u32, channels: u16 },
}

/// The search for a format the device takes at 48 kHz and its own channel count.
pub struct Negotiation {
    /// The channel count the endpoint declares.
    pub channels: u16,
    /// Formats tried so far.
    pub tried: usize,
    /// Why the last one was not taken.
    pub last: Option<String>,
}

/// Rate and channel count are topology and must be exact; only the bit depth may move.
pub open spec fn accepts(channels: u16, a: Answer) -> bool {
    a matches Answer::Offered { rate, channels: c } && rate == RATE && c == channels
}

/// Why an answer was not taken.
pub open spec fn refusal(fmt: Fmt, channels: u16, a: Answer) -> Seq<char> {
    match a {
        Answer::Refused(reason) => fmt_name(fmt) + ": "@ + reason@,
        Answer::Offered { rate, channels: c } => fmt_name(fmt) + ": device offered "@ + decimal(
            rate as int,
        ) + " Hz / "@ + decimal(c as int) + " ch instead of 48000 Hz / "@ + decimal(
            channels as int,
        ) + " ch"@,
    }
}

/// What is said of a device that no format suits.
pub open spec fn negotiation_failure(dir: Dir, name: Seq<char>, last: Option<Seq<char>>) -> Seq<
    char,
> {
    dir_label(dir) + " device '"@ + name
        + "' does not support 48 kHz in exclusive mode in any accepted format (F32, S32, S24-in-32 (valid bits left-justified), S24 packed, S16) — Cascade does not fall back to shared mode, because shared mode resamples"@
        + (match last {
        Some(e) => ". Last refusal — "@ + e,
        None => Seq::empty(),
    })
}

impl Negotiation {
    pub open spec fn last_text(self) -> Option<Seq<char>> {
        match self.last {
            Some(s) => Some(s@),
            None => None,
        }
    }

    pub fn new(channels: u16) -> (n: Self)
        ensures
            n.channels == channels,
            n.tried == 0,
            n.last is None,
    {
        Negotiation { channels, tried: 0, last: None }
    }

    /// The next format to ask for, most preferred first; none once all have been.
    pub fn next_format(&self) -> (f: Option<Fmt>)
        ensures
            f == (if self.tried < preference().len() {
                Some(preference()[self.tried as int])
            } else {
                None
            }),
    {
        match self.tried {
            0 => Some(Fmt::F32),
            1 => Some(Fmt::S32),
            2 => Some(Fmt::S24In4),
            3 => Some(Fmt::S24In3),
            4 => Some(Fmt::S16),
            _ => None,
        }
    }

    /// Take in what the device said of the format asked for. Anything but the exact topology
    /// moves the search on, with the reason kept.
    pub fn on_answer(&mut self, answer: Answer) -> (taken: bool)
        requires
            old(self).tried < preference().len(),
        ensures
            taken == accepts(old(self).channels, answer),
            final(self).channels == old(self).channels,
            taken ==> *final(self) == *old(self),
            !taken ==> final(self).tried == old(self).tried + 1 && final(self).last_text() == Some(
                refusal(preference()[old(self).tried as int], old(self).channels, answer),
            ),
    {
        let fmt: Fmt = match self.tried {
            0 => Fmt::F32,
            1 => Fmt::S32,
            2 => Fmt::S24In4,
            3 => Fmt::S24In3,
            _ => Fmt::S16,
        };
        let mut s: String = String::new();
        s.append(fmt.name());
        match &answer {
            Answer::Offered { rate, channels } => {
                if *rate == RATE && *channels == self.channels {
                    return true;
                }
                s.append(": device offered ");
                push_decimal(&mut s, *rate as u64);
                s.append(" Hz / ");
                push_decimal(&mut s, *channels as u64);
                s.append(" ch instead of 48000 Hz / ");
                push_decimal(&mut s, self.channels as u64);
                s.append(" ch");
            },
            Answer::Refused(reason) => {
                s.append(": ");
                s.append(reason.as_str());
            },
        }
        assert(s@ =~= refusal(fmt, self.channels, answer));
        self.tried = self.tried + 1;
        self.last = Some(s);
        false
    }

    /// The configuration for a format taken at a period the device can run.
    pub fn config(&self, fmt: Fmt, period_hns: i64) -> (cfg: Config)
        requires
            0 <= period_hns <= PERIOD_LIMIT,
            frames_of_hns(period_hns as int) <= usize::MAX,
        ensures
            cfg.channels == self.channels,
            cfg.sample_rate == RATE,
            cfg.period_hns == period_hns,
            cfg.period == frames_of_hns(period_hns as int),
            cfg.fmt == fmt,
    {
        Config {
            channels: self.channels,
            sample_rate: RATE,
            period_hns,
            period: (period_hns * 48_000 / HNS_PER_SEC) as usize,
            fmt,
        }
    }

    /// What to say once every format has been turned down.
    pub fn failure(&self, dir: Dir, name: &str) -> (s: String)
        ensures
            s@ == negotiation_failure(dir, name@, self.last_text()),
    {
        let mut s: String = String::new();
        s.append(dir.label());
        s.append(" device '");
        s.append(name);
        s.append(
            "' does not support 48 kHz in exclusive mode in any accepted format (F32, S32, S24-in-32 (valid bits left-justified), S24 packed, S16) — Cascade does not fall back to shared mode, because shared mode resamples",
        );
        match &self.last {
            Some(e) => {
                s.append(". Last refusal — ");
                s.append(e.as_str());
            },
            None => {},
        }
        assert(s@ =~= negotiation_failure(dir, name@, self.last_text()));
        s
    }
}

/// How a stream learns that the device wants servicing.
#[derive(Clone, Copy, Debug, PartialEq, Eq, Structural)]
pub enum Timing {
    /// The driver signals once per period.
    Events,
    /// Nothing signals: the thread asks repeatedly.
    Polling,
}

/// Where a period to try comes from.
#[derive(Clone, Copy, Debug, PartialEq, Eq, Structural)]
pub enum Why {
    Requested,
    ByteAligned,
    Default,
    Minimum,
}

/// A period to try.
#[derive(Clone, Copy, Debug, PartialEq, Eq, Structural)]
pub struct Attempt {
    pub period_hns: i64,
    pub why: Why,
}

/// What else to try once the requested period was refused: the nearest byte-aligned one,
/// then the device's own default and minimum, each only where it differs from what is tried
/// already.
pub open spec fn fallbacks(requested: i64, aligned: Option<i64>, own: Option<(i64, i64)>) -> Seq<
    Attempt,
> {
    let byte_aligned = match aligned {
        Some(a) => if a != requested {
            seq![Attempt { period_hns: a, why: Why::ByteAligned }]
        } else {
            Seq::empty()
        },
        None => Seq::empty(),
    };
    let device = match own {
        Some((d, m)) => (if d != requested {
            seq![Attempt { period_hns: d, why: Why::Default }]
        } else {
            Seq::empty()
        }) + (if m != d && m != requested {
            seq![Attempt { period_hns: m, why: Why::Minimum }]
        } else {
            Seq::empty()
        }),
        None => Seq::empty(),
    };
    byte_aligned + device
}

/// The `n`th thing to try: every period with events first, then every one polled.
pub open spec fn nth_try(attempts: Seq<Attempt>, n: int) -> Option<(Attempt, Timing)> {
    if n < attempts.len() {
        Some((attempts[n], Timing::Events))
    } else if n < 2 * attempts.len() {
        Some((attempts[n - attempts.len()], Timing::Polling))
    } else {
        None
    }
}

/// The search for a period and a timing that the device initialises with. The format never
/// moves.
pub struct OpenSearch {
    attempts: Vec<Attempt>,
    refusals: usize,
}

impl OpenSearch {
    pub closed spec fn attempts(&self) -> Seq<Attempt> {
        self.attempts@
    }

    /// How often the device has refused so far.
    pub closed spec fn refusals(&self) -> int {
        self.refusals as int
    }

    pub open spec fn well_formed(&self) -> bool {
        &&& 1 <= self.attempts().len() <= 4
        &&& 0 <= self.refusals() <= 2 * self.attempts().len()
        &&& self.refusals() == 0 ==> self.attempts().len() == 1
        &&& self.attempts()[0].why == Why::Requested
    }

    pub fn new(period_hns: i64) -> (s: Self)
        ensures
            s.well_formed(),
            s.attempts() == seq![Attempt { period_hns, why: Why::Requested }],
            s.refusals() == 0,
    {
        let mut attempts: Vec<Attempt> = Vec::new();
        attempts.push(Attempt { period_hns, why: Why::Requested });
        let s = OpenSearch { attempts, refusals: 0 };
        assert(s.attempts() =~= seq![Attempt { period_hns, why: Why::Requested }]);
        s
    }

    /// What to try now; none once everything was refused.
    pub fn next_try(&self) -> (t: Option<(Attempt, Timing)>)
        requires
            self.well_formed(),
        ensures
            t == nth_try(self.attempts(), self.refusals()),
    {
        let n: usize = self.attempts.len();
        if self.refusals < n {
            Some((self.attempts[self.refusals], Timing::Events))
        } else if self.refusals < 2 * n {
            Some((self.attempts[self.refusals - n], Timing::Polling))
        } else {
            None
        }
    }

    /// The device refused what was tried. `aligned` and `own`, the device's default and
    /// minimum, are what it says of its periods; they count on the first refusal alone.
    pub fn on_refused(&mut self, aligned: Option<i64>, own: Option<(i64, i64)>)
        requires
            old(self).well_formed(),
            nth_try(old(self).attempts(), old(self).refusals()) is Some,
        ensures
            final(self).well_formed(),
            final(self).refusals() == old(self).refusals() + 1,
            final(self).attempts() == old(self).attempts() + (if old(self).refusals() == 0 {
                fallbacks(old(self).attempts()[0].period_hns, aligned, own)
            } else {
                Seq::empty()
            }),
    {
        let ghost before = self.attempts@;
        if self.refusals == 0 {
            let requested: i64 = self.attempts[0].period_hns;
            if let Some(a) = aligned {
                if a != requested {
                    self.attempts.push(Attempt { period_hns: a, why: Why::ByteAligned });
                }
            }
            if let Some(pair) = own {
                let d: i64 = pair.0;
                let m: i64 = pair.1;
                if d != requested {
                    self.attempts.push(Attempt { period_hns: d, why: Why::Default });
                }
                if m != d && m != requested {
                    self.attempts.push(Attempt { period_hns: m, why: Why::Minimum });
                }
            }
            assert(self.attempts@ =~= before + fallbacks(requested, aligned, own));
        }
        self.refusals = self.refusals + 1;
        assert(self.attempts@ =~= before + (if old(self).refusals == 0 {
            fallbacks(before[0].period_hns, aligned, own)
        } else {
            Seq::empty()
        }));
    }
}

/// A fault of a live stream, by what it means for the caller.
pub enum StreamFault {
    /// The hardware is gone.
    DeviceLost,
    /// The stream is no longer valid but the device is present: rebuild.
    Invalidated,
    /// Anything else: keep the device.
    Transient(String),
}

/// A fault with its text as characters.
#[verifier::ext_equal]
pub enum FaultView {
    DeviceLost,
    Invalidated,
    Transient(Seq<char>),
}

impl View for StreamFault {
    type V = FaultView;

    open spec fn view(&self) -> FaultView {
        match self {
            StreamFault::DeviceLost => FaultView::DeviceLost,
            StreamFault::Invalidated => FaultView::Invalidated,
            StreamFault::Transient(s) => FaultView::Transient(s@),
        }
    }
}

/// An exclusive client already owns the endpoint.
pub const AUDCLNT_E_DEVICE_IN_USE: i32 = -2004287478;

/// Exclusive mode is switched off for the endpoint.
pub const AUDCLNT_E_EXCLUSIVE_MODE_NOT_ALLOWED: i32 = -2004287468;

/// The endpoint went away, or its format changed.
pub const AUDCLNT_E_DEVICE_INVALIDATED: i32 = -2004287484;

/// A fault by the recorded disconnect reason where there is one, else by the error's code.
pub open spec fn classified(disconnect: u8, hresult: Option<i32>, message: Seq<char>) -> FaultView {
    match dis::meaning(disconnect) {
        Some(f) => f,
        None => if hresult == Some(AUDCLNT_E_DEVICE_INVALIDATED) {
            FaultView::Invalidated
        } else if hresult == Some(AUDCLNT_E_DEVICE_IN_USE) {
            FaultView::DeviceLost
        } else {
            FaultView::Transient(message)
        },
    }
}

pub fn classify(disconnect: u8, hresult: Option<i32>, message: String) -> (f: StreamFault)
    ensures
        f@ == classified(disconnect, hresult, message@),
{
    match dis::fault(disconnect) {
        Some(f) => f,
        None => {
            match hresult {
                Some(c) => {
                    if c == AUDCLNT_E_DEVICE_INVALIDATED {
                        StreamFault::Invalidated
                    } else if c == AUDCLNT_E_DEVICE_IN_USE {
                        StreamFault::DeviceLost
                    } else {
                        StreamFault::Transient(message)
                    }
                },
                None => StreamFault::Transient(message),
            }
        },
    }
}

/// The marker of a device that something holds.
#[derive(Clone, Copy, Debug, PartialEq, Eq, Structural)]
pub struct DeviceBusy;

/// A failed open: what to show, and the busy marker where the device is held.
pub struct OpenError {
    pub message: String,
    pub busy: Option<DeviceBusy>,
}

/// Does this error carry the device-busy marker?
pub fn is_device_busy(err: &OpenError) -> (busy: bool)
    ensures
        busy == (err.busy is Some),
{
    err.busy.is_some()
}

/// What is said of a failed open.
pub open spec fn open_message(
    name: Seq<char>,
    dir: Dir,
    code: Option<i32>,
    reason: Seq<char>,
) -> Seq<char> {
    if code == Some(AUDCLNT_E_DEVICE_IN_USE) {
        "cannot open "@ + dir_label(dir) + " device '"@ + name
            + "' exclusively: it is already held — either by another application, or by Cascade's own stream on the same endpoint mid-rebuild"@
    } else if code == Some(AUDCLNT_E_EXCLUSIVE_MODE_NOT_ALLOWED) {
        dir_label(dir) + " device '"@ + name
            + "': exclusive mode is disabled for this endpoint. Enable \"Allow applications to take exclusive control of this device\" in Sound → Device properties → Advanced. Cascade does not fall back to shared mode, because shared mode resamples."@
    } else {
        "cannot open "@ + dir_label(dir) + " device '"@ + name + "': "@ + reason
    }
}

/// The error of a failed open. A device that is held gets the marker.
pub fn open_error(dev: &Device, dir: Dir, code: Option<i32>, reason: &str) -> (e: OpenError)
    ensures
        e.busy is Some <==> code == Some(AUDCLNT_E_DEVICE_IN_USE),
        e.message@ == open_message(dev.name@, dir, code, reason@),
{
    let held: bool = match code {
        Some(c) => c == AUDCLNT_E_DEVICE_IN_USE,
        None => false,
    };
    let disallowed: bool = match code {
        Some(c) => c == AUDCLNT_E_EXCLUSIVE_MODE_NOT_ALLOWED,
        None => false,
    };
    let mut s: String = String::new();
    if !disallowed {
        s.append("cannot open ");
    }
    s.append(dir.label());
    s.append(" device '");
    s.append(dev.name.as_str());
    if held {
        s.append(
            "' exclusively: it is already held — either by another application, or by Cascade's own stream on the same endpoint mid-rebuild",
        );
    } else if disallowed {
        s.append(
            "': exclusive mode is disabled for this endpoint. Enable \"Allow applications to take exclusive control of this device\" in Sound → Device properties → Advanced. Cascade does not fall back to shared mode, because shared mode resamples.",
        );
    } else {
        s.append("': ");
        s.append(reason);
    }
    assert(s@ =~= open_message(dev.name@, dir, code, reason@));
    OpenError {
        message: s,
        busy: if held {
            Some(DeviceBusy)
        } else {
            None
        },
    }
}

/// What the stream thread does next under its command.
#[derive(Clone, Copy, Debug, PartialEq, Eq, Structural)]
pub enum RunAction {
    /// Leave, stopping the device first where `stop` says so.
    Exit { stop: bool },
    /// Put one buffer of silence in front and start the device.
    Start,
    /// Wait for the device and move one period.
    Cycle,
    /// Stop the device, then wait for a command.
    Halt,
    /// Wait for a command.
    Wait,
}

/// The stream thread between periods.
#[derive(Clone, Copy, Debug, PartialEq, Eq, Structural)]
pub struct Runner {
    pub running: bool,
    /// The recorded disconnect has been reported in this run.
    pub disconnect_reported: bool,
}

pub open spec fn ran(r: Runner, cmd: Cmd) -> (Runner, RunAction) {
    match cmd {
        Cmd::Dead => (r, RunAction::Exit { stop: r.running }),
        Cmd::Running => (
            r,
            if r.running {
                RunAction::Cycle
            } else {
                RunAction::Start
            },
        ),
        _ => (
            Runner { running: false, ..r },
            if r.running {
                RunAction::Halt
            } else {
                RunAction::Wait
            },
        ),
    }
}

/// A recorded disconnect, reported the first time it is seen.
pub open spec fn disconnected(r: Runner, code: u8) -> (Runner, Option<FaultView>) {
    if r.disconnect_reported || dis::meaning(code) is None {
        (r, None)
    } else {
        (Runner { disconnect_reported: true, ..r }, dis::meaning(code))
    }
}

impl Runner {
    pub fn new() -> (r: Self)
        ensures
            r == (Runner { running: false, disconnect_reported: false }),
    {
        Runner { running: false, disconnect_reported: false }
    }

    pub fn on_command(&mut self, cmd: Cmd) -> (action: RunAction)
        ensures
            (*final(self), action) == ran(*old(self), cmd),
    {
        match cmd {
            Cmd::Dead => RunAction::Exit { stop: self.running },
            Cmd::Running => {
                if self.running {
                    RunAction::Cycle
                } else {
                    RunAction::Start
                }
            },
            Cmd::Prepared | Cmd::Stopped => {
                if self.running {
                    self.running = false;
                    RunAction::Halt
                } else {
                    RunAction::Wait
                }
            },
        }
    }

    /// The device was started, or refused to: a refusal leaves the stream stopped.
    pub fn on_started(&mut self, ok: bool) -> (cmd: Cmd)
        ensures
            *final(self) == (Runner { running: old(self).running || ok, ..*old(self) }),
            cmd == (if ok {
                Cmd::Running
            } else {
                Cmd::Stopped
            }),
    {
        if ok {
            self.running = true;
            Cmd::Running
        } else {
            Cmd::Stopped
        }
    }

    /// The recorded disconnect code before each wait. It stays recorded, so that the error it
    /// also causes is classified alike.
    pub fn on_disconnect(&mut self, code: u8) -> (f: Option<StreamFault>)
        ensures
            (
                *final(self),
                match f {
                    Some(x) => Some(x@),
                    None => None,
                },
            ) == disconnected(*old(self), code),
    {
        if self.disconnect_reported {
            return None;
        }
        let f: Option<StreamFault> = dis::fault(code);
        if f.is_some() {
            self.disconnect_reported = true;
        }
        f
    }
}

/// The device's rhythm, learned from the gaps between the times it was found ready. Times are
/// in nanoseconds on one clock.
#[derive(Clone, Copy, Debug, PartialEq, Eq)]
pub struct Rhythm {
    pub last_ready: Option<u64>,
    pub interval: Option<u64>,
    /// The cadence while the rhythm is unknown, in 100-nanosecond units.
    pub coarse_hns: i64,
}

pub open spec fn gap_between(from: int, to: int) -> int {
    if to < from {
        0
    } else {
        to - from
    }
}

/// A short average: three parts the old estimate, one part the new gap.
pub open spec fn learned(interval: Option<u64>, gap: int) -> Option<int> {
    if gap >= STALL_NS {
        None
    } else {
        match interval {
            Some(e) => Some((3 * e + gap) / 4),
            None => Some(gap),
        }
    }
}

pub open spec fn interval_int(i: Option<u64>) -> Option<int> {
    match i {
        Some(x) => Some(x as int),
        None => None,
    }
}

/// The single long wait before the device is next due, in 100-nanosecond units: until the
/// guard before the predicted time, where that is still ahead.
pub open spec fn nap_until_due(last: int, interval: int, now: int) -> Option<int> {
    if last + interval > now + GUARD_NS {
        Some((last + interval - GUARD_NS - now) / 100)
    } else {
        None
    }
}

impl Rhythm {
    pub open spec fn well_formed(&self) -> bool {
        &&& self.coarse_hns >= 1
        &&& self.interval matches Some(e) ==> e < STALL_NS
        &&& self.interval is Some ==> self.last_ready is Some
    }

    /// A rhythm still to be learned, for a device initialised at this period.
    pub fn new(period_hns: i64) -> (r: Self)
        requires
            period_hns >= 0,
        ensures
            r.well_formed(),
            r.last_ready is None,
            r.interval is None,
            r.coarse_hns == (if period_hns as int / POLL_DIVISOR as int > 1 {
                period_hns as int / POLL_DIVISOR as int
            } else {
                1
            }),
    {
        let part: i64 = period_hns / POLL_DIVISOR;
        Rhythm {
            last_ready: None,
            interval: None,
            coarse_hns: if part > 1 {
                part
            } else {
                1
            },
        }
    }

    pub fn nap(&self, now: u64) -> (hns: Option<i64>)
        requires
            self.well_formed(),
        ensures
            match (self.last_ready, self.interval) {
                (Some(last), Some(e)) => match nap_until_due(last as int, e as int, now as int) {
                    Some(n) => hns matches Some(h) && h == n,
                    None => hns is None,
                },
                _ => hns is None,
            },
    {
        match (self.last_ready, self.interval) {
            (Some(last), Some(e)) => {
                let due: u128 = last as u128 + e as u128;
                let soon: u128 = now as u128 + GUARD_NS as u128;
                if due > soon {
                    Some(((due - soon) / 100) as i64)
                } else {
                    None
                }
            },
            _ => None,
        }
    }

    /// How long to wait between two questions, in 100-nanosecond units.
    pub fn step(&self) -> (hns: i64)
        ensures
            hns == (if self.interval is Some {
                FINE_HNS
            } else {
                self.coarse_hns
            }),
    {
        if self.interval.is_some() {
            FINE_HNS
        } else {
            self.coarse_hns
        }
    }

    /// The device was found ready.
    pub fn on_ready(&mut self, now: u64)
        requires
            old(self).well_formed(),
        ensures
            final(self).well_formed(),
            final(self).last_ready == Some(now),
            final(self).coarse_hns == old(self).coarse_hns,
            interval_int(final(self).interval) == (match old(self).last_ready {
                Some(prev) => learned(old(self).interval, gap_between(prev as int, now as int)),
                None => interval_int(old(self).interval),
            }),
    {
        if let Some(prev) = self.last_ready {
            let gap: u64 = if now < prev {
                0
            } else {
                now - prev
            };
            if gap < STALL_NS {
                self.interval = Some(
                    match self.interval {
                        Some(e) => (e * 3 + gap) / 4,
                        None => gap,
                    },
                );
            } else {
                self.interval = None;
            }
        }
        self.last_ready = Some(now);
    }

    /// The device was not found ready in time: what was learned no longer holds.
    pub fn on_missed(&mut self)
        requires
            old(self).well_formed(),
        ensures
            final(self).well_formed(),
            final(self).last_ready is None,
            final(self).interval is None,
            final(self).coarse_hns == old(self).coarse_hns,
    {
        self.interval = None;
        self.last_ready = None;
    }
}

/// Is a whole period there: room for one, or one to read? A device that does not answer is
/// not ready.
pub fn whole_period(count: Option<u32>, frames: usize) -> (ready: bool)
    ensures
        ready == (count matches Some(c) && c >= frames),
{
    match count {
        Some(c) => c as usize >= frames,
        None => false,
    }
}

/// After the wait has run out: is there something to read all the same? Only an input that
/// holds any frames is read short.
pub fn short_read(dir: Dir, padding: Option<u32>) -> (take: bool)
    ensures
        take == (dir == Dir::Input && (padding matches Some(p) && p > 0)),
{
    match (dir, padding) {
        (Dir::Input, Some(p)) => p > 0,
        _ => false,
    }
}

/// How often a read was short, reported now and then. Times are in nanoseconds.
#[derive(Clone, Copy, Debug, PartialEq, Eq, Structural)]
pub struct ShortReads {
    pub count: u64,
    pub last_log: u64,
}

impl ShortReads {
    pub fn new(now: u64) -> (s: Self)
        ensures
            s == (ShortReads { count: 0, last_log: now }),
    {
        ShortReads { count: 0, last_log: now }
    }

    /// Count one; a count comes back where a report is due, and counting starts over.
    pub fn on_short(&mut self, now: u64) -> (due: Option<u64>)
        requires
            old(self).count < u64::MAX,
        ensures
            ({
                let n = (old(self).count + 1) as u64;
                if gap_between(old(self).last_log as int, now as int) >= PARTIAL_LOG_NS {
                    due == Some(n) && *final(self) == (ShortReads { count: 0, last_log: now })
                } else {
                    due is None && *final(self) == (ShortReads { count: n, ..*old(self) })
                }
            }),
    {
        self.count = self.count + 1;
        let gap: u64 = if now < self.last_log {
            0
        } else {
            now - self.last_log
        };
        if gap >= PARTIAL_LOG_NS {
            let n: u64 = self.count;
            self.last_log = now;
            self.count = 0;
            Some(n)
        } else {
            None
        }
    }
}

/// Integer samples in the device's format, interleaved. A float sample is its bit pattern.
pub fn encode(fmt: Fmt, src: &Vec<i32>) -> (bytes: Vec<u8>)
    ensures
        bytes@ == packed_all(src@, shape_of(fmt).store_bits as int / 8, src@.len() as int),
{
    let w: usize = fmt.bytes_per_sample();
    pack(src, w)
}

/// The device's format as integer samples: as many as both the bytes and `limit` hold.
pub fn decode(fmt: Fmt, src: &Vec<u8>, limit: usize) -> (values: Vec<i32>)
    ensures
        values@ == unpacked_all(
            src@,
            shape_of(fmt).store_bits as int / 8,
            fitting(src@.len() as int, shape_of(fmt).store_bits as int / 8, limit as int),
        ),
{
    let w: usize = fmt.bytes_per_sample();
    unpack(src, w, limit)
}

/// The requested period is tried first, and no period is polled before every one has been
/// refused with events; each is then tried polled as well.
pub proof fn law_events_are_tried_before_polling(attempts: Seq<Attempt>, n: int, m: int)
    requires
        0 <= n < m,
    ensures
        nth_try(attempts, n) matches Some(t) && t.1 == Timing::Polling ==> (nth_try(
            attempts,
            m,
        ) matches Some(u) ==> u.1 == Timing::Polling),
        n < attempts.len() ==> nth_try(attempts, n) == Some((attempts[n], Timing::Events))
            && nth_try(attempts, n + attempts.len()) == Some((attempts[n], Timing::Polling)),
{
}

/// Every period added after a refusal differs from the requested one.
pub proof fn law_no_refused_period_is_asked_for_twice(
    requested: i64,
    aligned: Option<i64>,
    own: Option<(i64, i64)>,
    i: int,
)
    requires
        0 <= i < fallbacks(requested, aligned, own).len(),
    ensures
        fallbacks(requested, aligned, own)[i].period_hns != requested,
{
}

/// A recorded disconnect is reported once in a run, however often it is looked at.
pub proof fn law_a_disconnect_is_reported_once(r: Runner, code: u8, again: u8)
    ensures
        disconnected(r, code).1 is Some ==> disconnected(disconnected(r, code).0, again).1 is None,
{
}

/// A disconnect and the error it causes are one fault: with a reason recorded the error's own
/// code does not matter.
pub proof fn law_a_recorded_reason_decides(code: u8, hresult: Option<i32>, message: Seq<char>)
    requires
        code != dis::NONE,
    ensures
        Some(classified(code, hresult, message)) == dis::meaning(code),
{
}

/// The learned interval lies between the old estimate and the new gap.
pub proof fn law_rhythm_follows_the_device(interval: u64, gap: int)
    requires
        0 <= gap < STALL_NS,
    ensures
        learned(Some(interval), gap) matches Some(e) && (if interval <= gap {
            interval <= e <= gap
        } else {
            gap <= e <= interval
        }),
{
}

/// The long wait ends before the device is due.
pub proof fn law_the_nap_ends_before_the_device_is_due(last: int, interval: int, now: int)
    ensures
        nap_until_due(last, interval, now) matches Some(h) ==> now + 100 * h + GUARD_NS <= last
            + interval,
{
}

/// A sample is stored in whole bytes, with all its valid bits in them; only floats are floats,
/// and only the 24 bits in four bytes leave some of them over.
pub proof fn law_samples_are_stored_in_whole_bytes(f: Fmt, n: usize)
    requires
        call_ensures(Fmt::bytes_per_sample, (f,), n),
    ensures
        shape_of(f).store_bits == 8 * n,
        shape_of(f).valid_bits <= shape_of(f).store_bits,
        shape_of(f).float <==> f == Fmt::F32,
        shape_of(f).valid_bits < shape_of(f).store_bits <==> f == Fmt::S24In4,
        n == 2 <==> f == Fmt::S16,
        n == 3 <==> f == Fmt::S24In3,
        n <= 4,
        shape_of(Fmt::S24In4).valid_bits == 24,
{
}

/// Full scale goes by the container: half of what its bits count, and 1 for a float.
pub proof fn law_full_scale_goes_by_the_container(f: Fmt)
    ensures
        f == Fmt::F32 ==> full_scale_of(f) == 1,
        f != Fmt::F32 && shape_of(f).store_bits == 32 ==> 2 * full_scale_of(f) == 0x1_0000_0000,
        shape_of(f).store_bits == 24 ==> 2 * full_scale_of(f) == 0x100_0000,
        shape_of(f).store_bits == 16 ==> 2 * full_scale_of(f) == 0x1_0000,
        shape_of(f).store_bits == 16 || shape_of(f).store_bits == 24 || shape_of(f).store_bits
            == 32,
{
}

/// Every format is tried, each once, the float first and then from the most valid bits to the
/// fewest, and of two with as many the one in the wider container.
pub proof fn law_every_format_is_tried_best_first(f: Fmt, i: int, j: int)
    requires
        0 <= i < j < preference().len(),
    ensures
        preference().contains(f),
        preference().len() == 5,
        preference()[i] != preference()[j],
        preference()[j] != Fmt::F32,
        shape_of(preference()[i]).valid_bits >= shape_of(preference()[j]).valid_bits,
        shape_of(preference()[i]).store_bits >= shape_of(preference()[j]).store_bits,
{
    let p = preference();
    assert(p[0] == Fmt::F32 && p[1] == Fmt::S32 && p[2] == Fmt::S24In4 && p[3] == Fmt::S24In3
        && p[4] == Fmt::S16);
}

/// A direction is called by its own name.
pub proof fn law_directions_are_told_apart(d: Dir)
    ensures
        dir_label(d) == "input"@ <==> d == Dir::Input,
        dir_label(d) == "output"@ <==> d == Dir::Output,
{
    reveal_strlit("input");
    reveal_strlit("output");
    assert("input"@.len() == 5 && "output"@.len() == 6);
}

/// A period in frames and its duration in 100-nanosecond units agree at 48 000 frames a
/// second, both rounded down; there and back a period loses one frame at most.
pub proof fn law_periods_convert_at_48_khz(frames: usize, hns: i64)
    requires
        frames <= PERIOD_LIMIT,
        call_ensures(desired_hns, (frames,), hns),
    ensures
        hns * 48_000 <= frames * 10_000_000 < (hns + 1) * 48_000,
        frames_of_hns(hns as int) * 10_000_000 <= hns * 48_000 < (frames_of_hns(hns as int) + 1)
            * 10_000_000,
        frames - 1 <= frames_of_hns(hns as int) <= frames,
{
}

/// An answer is taken exactly where it offers 48 kHz and the device's own channel count.
pub proof fn law_only_the_exact_topology_is_taken(
    channels: u16,
    rate: u32,
    offered: u16,
    reason: String,
)
    ensures
        accepts(channels, Answer::Offered { rate, channels: offered }) <==> rate == 48_000
            && offered == channels,
        !accepts(channels, Answer::Refused(reason)),
{
}

/// What is kept of a refusal starts with the format and ends with the device's reason, or names
/// the rate and the channels it offered, in that order.
pub proof fn law_a_refusal_is_kept_with_its_format(
    fmt: Fmt,
    channels: u16,
    reason: String,
    rate: u32,
    offered: u16,
)
    ensures
        refusal(fmt, channels, Answer::Refused(reason)) == fmt_name(fmt) + ": "@ + reason@,
        ({
            let s = refusal(fmt, channels, Answer::Offered { rate, channels: offered });
            let lead = fmt_name(fmt) + ": device offered "@ + decimal(rate as int) + " Hz / "@
                + decimal(offered as int);
            let tail = decimal(channels as int) + " ch"@;
            &&& s.len() >= lead.len() + tail.len()
            &&& s.subrange(0, lead.len() as int) == lead
            &&& s.subrange(s.len() - tail.len(), s.len() as int) == tail
        }),
{
    let s = refusal(fmt, channels, Answer::Offered { rate, channels: offered });
    let lead = fmt_name(fmt) + ": device offered "@ + decimal(rate as int) + " Hz / "@ + decimal(
        offered as int,
    );
    let tail = decimal(channels as int) + " ch"@;
    assert(s.subrange(0, lead.len() as int) =~= lead);
    assert(s.subrange(s.len() - tail.len(), s.len() as int) =~= tail);
}

/// A negotiation that takes an answer stays at the format it gave out; one that does not goes
/// on to the next, and keeps why. The channel count never moves.
pub proof fn law_a_negotiation_moves_on_only_when_refused(
    n: &mut Negotiation,
    answer: Answer,
    taken: bool,
    before: Option<Fmt>,
    after: Option<Fmt>,
)
    requires
        old(n).tried < 5,
        call_ensures(Negotiation::next_format, (old(n),), before),
        call_ensures(Negotiation::on_answer, (n, answer), taken),
        call_ensures(Negotiation::next_format, (final(n),), after),
    ensures
        before is Some,
        taken ==> after == before,
        !taken ==> after != before && final(n).last is Some,
        taken <==> (answer matches Answer::Offered { rate, channels } && rate == 48_000
            && channels == old(n).channels),
        final(n).channels == old(n).channels,
{
    let p = preference();
    assert(p[0] == Fmt::F32 && p[1] == Fmt::S32 && p[2] == Fmt::S24In4 && p[3] == Fmt::S24In3
        && p[4] == Fmt::S16);
}

/// The configuration that a negotiation settles on runs at 48 kHz with the device's channels,
/// in the format and at the period that were taken.
pub proof fn law_a_negotiation_settles_on_what_was_taken(
    n: Negotiation,
    fmt: Fmt,
    period_hns: i64,
    cfg: Config,
)
    requires
        call_ensures(Negotiation::config, (&n, fmt, period_hns), cfg),
    ensures
        cfg.sample_rate == 48_000 && cfg.channels == n.channels,
        cfg.fmt == fmt && cfg.period_hns == period_hns,
        cfg.period * 10_000_000 <= period_hns * 48_000 < (cfg.period + 1) * 10_000_000,
{
}

/// What is said of a device that no format suits names its direction and the device, and ends
/// with the last refusal where there is one.
pub proof fn law_a_failed_negotiation_names_the_device(
    dir: Dir,
    name: Seq<char>,
    last: Option<Seq<char>>,
)
    ensures
        ({
            let s = negotiation_failure(dir, name, last);
            let lead = dir_label(dir) + " device '"@ + name;
            let tail = match last {
                Some(e) => e,
                None => Seq::empty(),
            };
            &&& s.len() >= lead.len() + tail.len()
            &&& s.subrange(0, lead.len() as int) == lead
            &&& s.subrange(s.len() - tail.len(), s.len() as int) == tail
        }),
{
    let s = negotiation_failure(dir, name, last);
    let lead = dir_label(dir) + " device '"@ + name;
    let tail = match last {
        Some(e) => e,
        None => Seq::empty(),
    };
    assert(s.subrange(0, lead.len() as int) =~= lead);
    assert(s.subrange(s.len() - tail.len(), s.len() as int) =~= tail);
}

/// What else is tried after a refusal: the aligned period, the device's default and its
/// minimum, each where it is known and differs from the requested one, and the minimum where
/// it also differs from the default; in that order, each once.
pub proof fn law_which_periods_are_fallen_back_on(
    requested: i64,
    aligned: Option<i64>,
    own: Option<(i64, i64)>,
    a: Attempt,
)
    ensures
        ({
            let f = fallbacks(requested, aligned, own);
            &&& f.contains(a) <==> {
                ||| a.why == Why::ByteAligned && aligned == Some(a.period_hns) && a.period_hns
                    != requested
                ||| a.why == Why::Default && (own matches Some(p) && p.0 == a.period_hns)
                    && a.period_hns != requested
                ||| a.why == Why::Minimum && (own matches Some(p) && p.1 == a.period_hns && p.0
                    != p.1) && a.period_hns != requested
            }
            &&& forall|i: int, j: int|
                0 <= i < j < f.len() ==> (#[trigger] f[i]).why != (#[trigger] f[j]).why && f[i].why
                    != Why::Minimum && f[j].why != Why::ByteAligned
        }),
{
    let f = fallbacks(requested, aligned, own);
    let first = match aligned {
        Some(x) => if x != requested {
            1int
        } else {
            0
        },
        None => 0,
    };
    if a.why == Why::ByteAligned && aligned == Some(a.period_hns) && a.period_hns != requested {
        assert(f[0] == a);
    }
    if let Some(p) = own {
        if a.why == Why::Default && p.0 == a.period_hns && a.period_hns != requested {
            assert(f[first] == a);
        }
        if a.why == Why::Minimum && p.1 == a.period_hns && p.0 != p.1 && a.period_hns != requested {
            let second = if p.0 != requested {
                first + 1
            } else {
                first
            };
            assert(f[second] == a);
        }
    }
}

/// Every period is tried twice, and after that there is nothing left to try.
pub proof fn law_the_search_ends_after_both_rounds(attempts: Seq<Attempt>, n: int)
    requires
        n >= 0,
    ensures
        nth_try(attempts, n) is None <==> n >= 2 * attempts.len(),
{
}

/// A first refusal opens the fallbacks and no later one does; each refusal is one step on.
pub proof fn law_only_the_first_refusal_opens_the_fallbacks(
    s: &mut OpenSearch,
    aligned: Option<i64>,
    own: Option<(i64, i64)>,
    done: (),
)
    requires
        call_ensures(OpenSearch::on_refused, (s, aligned, own), done),
    ensures
        final(s).refusals() == old(s).refusals() + 1,
        old(s).refusals() > 0 ==> final(s).attempts() == old(s).attempts(),
        old(s).refusals() == 0 ==> final(s).attempts().len() == old(s).attempts().len() + fallbacks(
            old(s).attempts()[0].period_hns,
            aligned,
            own,
        ).len(),
{
    assert(old(s).attempts() + Seq::<Attempt>::empty() =~= old(s).attempts());
}

/// Without a recorded reason an error counts by its code: an invalidated endpoint has the
/// stream set up again, one that something else took is lost, and any other keeps the device
/// and its own text.
pub proof fn law_an_error_counts_by_its_code(hresult: Option<i32>, message: Seq<char>)
    ensures
        ({
            let f = classified(0, hresult, message);
            &&& f == FaultView::Invalidated <==> hresult == Some(-2004287484i32)
            &&& f == FaultView::DeviceLost <==> hresult == Some(-2004287478i32)
            &&& f is Transient ==> f == FaultView::Transient(message)
        }),
{
}

/// A failed open is marked busy exactly where the endpoint is held. It always names the
/// direction and the device, and the reason wherever there is no better advice.
pub proof fn law_a_failed_open_names_the_device(
    dev: Device,
    dir: Dir,
    code: Option<i32>,
    reason: &str,
    e: OpenError,
)
    requires
        call_ensures(open_error, (&dev, dir, code, reason), e),
    ensures
        e.busy is Some <==> code == Some(-2004287478i32),
        ({
            let s = e.message@;
            let named = dir_label(dir) + " device '"@ + dev.name@;
            let lead = if code == Some(-2004287468i32) {
                named
            } else {
                "cannot open "@ + named
            };
            &&& s.len() >= lead.len()
            &&& s.subrange(0, lead.len() as int) == lead
            &&& code != Some(-2004287468i32) && code != Some(-2004287478i32) ==> s == lead + "': "@
                + reason@
        }),
{
    let s = e.message@;
    let named = dir_label(dir) + " device '"@ + dev.name@;
    let lead = if code == Some(-2004287468i32) {
        named
    } else {
        "cannot open "@ + named
    };
    assert(s.subrange(0, lead.len() as int) =~= lead);
    if code != Some(-2004287468i32) && code != Some(-2004287478i32) {
        assert(s =~= lead + "': "@ + reason@);
    }
}

/// What a command does to the stream thread: it leaves on the last one, stopping the device
/// where it runs; it cycles or starts while it is told to run; and it halts or waits otherwise.
/// Only a started device counts as running.
pub proof fn law_what_a_command_does(r: Runner, cmd: Cmd)
    ensures
        ({
            let (next, action) = ran(r, cmd);
            &&& action is Exit <==> cmd == Cmd::Dead
            &&& action matches RunAction::Exit { stop } ==> stop == r.running
            &&& action == RunAction::Cycle <==> cmd == Cmd::Running && r.running
            &&& action == RunAction::Start <==> cmd == Cmd::Running && !r.running
            &&& action == RunAction::Halt <==> cmd != Cmd::Running && cmd != Cmd::Dead && r.running
            &&& next.running <==> r.running && action != RunAction::Halt
            &&& next.disconnect_reported == r.disconnect_reported
        }),
{
}

/// A device that started runs, and one that would not leaves the stream stopped.
pub proof fn law_a_started_device_runs(r: &mut Runner, ok: bool, cmd: Cmd)
    requires
        call_ensures(Runner::on_started, (r, ok), cmd),
    ensures
        ok ==> cmd == Cmd::Running && final(r).running,
        !ok ==> cmd == Cmd::Stopped && *final(r) == *old(r),
        final(r).disconnect_reported == old(r).disconnect_reported,
{
}

/// A disconnect is reported as what its reason means, the first time it is seen; a look that
/// reports nothing changes nothing.
pub proof fn law_a_disconnect_is_reported_as_what_it_means(r: Runner, code: u8)
    ensures
        ({
            let (next, f) = disconnected(r, code);
            &&& !r.disconnect_reported ==> f == dis::meaning(code)
            &&& r.disconnect_reported ==> f is None
            &&& f is None ==> next == r
            &&& f is Some ==> next.disconnect_reported
            &&& next.running == r.running
        }),
{
}

/// The first gap is taken as the interval, and each later one moves the interval a quarter of
/// the way to it, rounded down. A gap of a tenth of a second or more is forgotten with what was
/// learned before.
pub proof fn law_an_interval_is_learned_by_quarters(interval: Option<u64>, gap: int)
    requires
        gap >= 0,
    ensures
        learned(interval, gap) is None <==> gap >= 100_000_000,
        gap < 100_000_000 && interval is None ==> learned(interval, gap) == Some(gap),
        (learned(interval, gap) matches Some(e) && interval is Some) ==> ({
            let e = learned(interval, gap)->Some_0;
            let old_e = interval->Some_0;
            4 * (e - old_e) <= gap - old_e < 4 * (e - old_e) + 4
        }),
{
}

/// The time between two readings, none where the clock went back.
pub proof fn law_a_gap_is_never_negative(from: int, to: int)
    ensures
        to >= from ==> gap_between(from, to) == to - from,
        to < from ==> gap_between(from, to) == 0,
{
}

/// The long wait is as long as it can be: it ends within one unit of half a millisecond before
/// the device is due, and there is none where that has come already.
pub proof fn law_the_nap_is_as_long_as_it_can_be(last: int, interval: int, now: int)
    ensures
        nap_until_due(last, interval, now) is None <==> last + interval <= now + 500_000,
        nap_until_due(last, interval, now) matches Some(h) ==> now + 100 * h + 500_000 <= last
            + interval < now + 100 * h + 500_100,
{
}

/// A rhythm that is still unknown is asked after four times a period, a known one every 250
/// microseconds once the device is nearly due.
pub proof fn law_how_often_a_device_is_asked(
    period_hns: i64,
    fresh: Rhythm,
    r: Rhythm,
    step: i64,
    first: i64,
)
    requires
        period_hns >= 0,
        call_ensures(Rhythm::new, (period_hns,), fresh),
        call_ensures(Rhythm::step, (&fresh,), first),
        call_ensures(Rhythm::step, (&r,), step),
    ensures
        period_hns >= 4 ==> 4 * first <= period_hns < 4 * first + 4,
        first >= 1,
        r.interval is Some ==> step == 2_500,
        r.interval is None ==> step == r.coarse_hns,
{
}

/// The interval is learned from two readings of a ready device in a row; a missed one starts
/// over.
pub proof fn law_a_rhythm_takes_two_readings(r: &mut Rhythm, now: u64, done: ())
    requires
        call_ensures(Rhythm::on_ready, (r, now), done),
    ensures
        final(r).last_ready == Some(now),
        final(r).coarse_hns == old(r).coarse_hns,
        old(r).last_ready is None ==> interval_int(final(r).interval) == interval_int(
            old(r).interval,
        ),
        (old(r).last_ready matches Some(prev) && old(r).interval is None && prev <= now && now - prev
            < 100_000_000) ==> final(r).interval == Some(
            (now - old(r).last_ready->Some_0) as u64,
        ),
        (old(r).last_ready matches Some(prev) && now >= prev + 100_000_000)
            ==> final(r).interval is None,
{
}

/// What was learned is forgotten where the device was not ready in time.
pub proof fn law_a_miss_starts_over(r: &mut Rhythm, done: ())
    requires
        call_ensures(Rhythm::on_missed, (r,), done),
    ensures
        final(r).last_ready is None && final(r).interval is None,
        final(r).coarse_hns == old(r).coarse_hns,
{
}

/// A period counts as there where a whole one is; an input alone is read short, and only where
/// it holds something.
pub proof fn law_what_is_moved(
    count: u32,
    frames: usize,
    whole: bool,
    silent: bool,
    padding: u32,
    input: bool,
    output: bool,
    unanswered: bool,
)
    requires
        call_ensures(whole_period, (Some(count), frames), whole),
        call_ensures(whole_period, (None, frames), silent),
        call_ensures(short_read, (Dir::Input, Some(padding)), input),
        call_ensures(short_read, (Dir::Output, Some(padding)), output),
        call_ensures(short_read, (Dir::Input, None), unanswered),
    ensures
        whole <==> count >= frames,
        !silent,
        input <==> padding > 0,
        !output && !unanswered,
{
}

/// Short reads are counted one by one and reported every ten seconds at most; a report tells
/// all since the last, and counting starts over.
pub proof fn law_short_reads_are_reported_now_and_then(
    s: &mut ShortReads,
    now: u64,
    due: Option<u64>,
)
    requires
        old(s).count < u64::MAX,
        call_ensures(ShortReads::on_short, (s, now), due),
    ensures
        due is Some <==> now >= old(s).last_log + 10_000_000_000,
        due matches Some(n) ==> n == old(s).count + 1 && final(s).count == 0 && final(s).last_log
            == now,
        due is None ==> final(s).count == old(s).count + 1 && final(s).last_log == old(s).last_log,
{
}

/// What a device is given takes as many bytes a sample as its format has, and what is read
/// from it is as many samples as there are whole containers, up to the limit.
pub proof fn law_a_format_sets_the_bytes(
    fmt: Fmt,
    src: Vec<i32>,
    bytes: Vec<u8>,
    raw: Vec<u8>,
    limit: usize,
    values: Vec<i32>,
)
    requires
        call_ensures(encode, (fmt, &src), bytes),
        call_ensures(decode, (fmt, &raw, limit), values),
    ensures
        8 * bytes@.len() == shape_of(fmt).store_bits * src@.len(),
        values@.len() <= limit,
        values@.len() * shape_of(fmt).store_bits <= 8 * raw@.len(),
        values@.len() < limit ==> (values@.len() + 1) * shape_of(fmt).store_bits > 8 * raw@.len(),
{
    let w = shape_of(fmt).store_bits as int / 8;
    let k = src@.len() as int;
    assert(shape_of(fmt).store_bits == 8 * w);
    if k > 0 {
        law_samples_stand_one_after_another(src@, w, k, 0);
    }
    law_only_whole_samples_are_read(raw@, w, limit as int, 0);
    let n = values@.len() as int;
    assert(8 * (w * k) == (8 * w) * k) by (nonlinear_arith);
    assert(8 * (n * w) == n * (8 * w)) by (nonlinear_arith);
    assert(8 * ((n + 1) * w) == (n + 1) * (8 * w)) by (nonlinear_arith);
}

/// An endpoint is known by its identifier, whatever it is called, and shown by its name.
pub proof fn law_an_identifier_survives_renaming(
    a: Device,
    b: Device,
    x: Option<String>,
    y: Option<String>,
    name: String,
)
    requires
        a.id@ == b.id@,
        call_ensures(device_uid, (&a,), x),
        call_ensures(device_uid, (&b,), y),
        call_ensures(device_name, (&a,), name),
    ensures
        x is Some && y is Some,
        x->Some_0@ == y->Some_0@ && x->Some_0@ == a.id@,
        name@ == a.name@,
{
}

/// The marker of a failed open is what says that the endpoint is held.
pub proof fn law_a_held_endpoint_is_recognised(
    dev: Device,
    dir: Dir,
    code: Option<i32>,
    reason: &str,
    e: OpenError,
    busy: bool,
)
    requires
        call_ensures(open_error, (&dev, dir, code, reason), e),
        call_ensures(is_device_busy, (&e,), busy),
    ensures
        busy <==> code == Some(-2004287478i32),
{
}

/// Every format has a name of its own.
pub proof fn law_formats_have_their_own_names(f: Fmt, g: Fmt)
    ensures
        fmt_name(f) == fmt_name(g) ==> f == g,
{
    reveal_strlit("F32");
    reveal_strlit("S32");
    reveal_strlit("S24-in-32 (valid bits left-justified)");
    reveal_strlit("S24 packed");
    reveal_strlit("S16");
    assert("F32"@.len() == 3 && "S32"@.len() == 3 && "S16"@.len() == 3);
    assert("S24 packed"@.len() == 10);
    assert("S24-in-32 (valid bits left-justified)"@.len() == 37);
    assert("F32"@[0] == 'F' && "S32"@[0] == 'S' && "S16"@[0] == 'S');
    assert("S32"@[1] == '3' && "S16"@[1] == '1');
}

} // verus!
