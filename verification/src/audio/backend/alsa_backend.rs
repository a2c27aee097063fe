//! Linux: naming and negotiating ALSA hardware devices, the stream thread's commands and
//! faults, and the packed sample formats.

use vstd::prelude::*;
use vstd::string::*;

use crate::audio::backend::command::Cmd;
use crate::audio::backend::pack::{fitting, pack, packed_all, unpack, unpacked_all};
use crate::names::name_same;
use crate::text::{
    decimal, law_a_number_reads_back, number_read, push_decimal, push_signed, signed_decimal,
};

verus! {

/// The wall-clock margin the device ring must hold.
pub const PERIOD_MARGIN_MS: u32 = 20;

/// Never fewer than two periods: one being filled while one is played.
pub const MIN_PERIODS: u32 = 2;

/// How long the stream thread waits before it looks at its command again.
pub const WAIT_TIMEOUT_MS: u32 = 200;

/// The rate every device is opened at, in Hz.
pub const RATE: u32 = 48_000;

/// The period a trial open asks for.
pub const PROBE_PERIOD: usize = 480;

/// One hardware endpoint. The numeric indices open it; the driver's short identifier, which
/// survives renumbering, goes into the stable identifier.
pub struct Device {
    pub card: i32,
    pub dev: u32,
    pub card_id: String,
    pub card_name: String,
    pub pcm_name: String,
}

/// The hardware address of a card and device: "hw:card,dev".
pub open spec fn hw_address(card: Seq<char>, dev: int) -> Seq<char> {
    "hw:"@ + card + ","@ + decimal(dev)
}

impl Device {
    /// The name the device is opened by: always the hardware itself, with no conversion
    /// layer.
    pub fn pcm_id(&self) -> (id: String)
        ensures
            id@ == hw_address(signed_decimal(self.card as int), self.dev as int),
    {
        let mut s: String = String::new();
        s.append("hw:");
        push_signed(&mut s, self.card as i64);
        s.append(",");
        push_decimal(&mut s, self.dev as u64);
        assert(s@ =~= hw_address(signed_decimal(self.card as int), self.dev as int));
        s
    }
}

/// What the user is shown: the card, its device where that adds something, and the address.
pub open spec fn shown_name(dev: Device) -> Seq<char> {
    let tail = " ("@ + hw_address(signed_decimal(dev.card as int), dev.dev as int) + ")"@;
    if dev.pcm_name@.len() == 0 || dev.pcm_name@ == dev.card_name@ {
        dev.card_name@ + tail
    } else {
        dev.card_name@ + ": "@ + dev.pcm_name@ + tail
    }
}

pub fn device_name(dev: &Device) -> (name: String)
    ensures
        name@ == shown_name(*dev),
{
    let id: String = dev.pcm_id();
    let mut s: String = String::new();
    s.append(dev.card_name.as_str());
    if !(dev.pcm_name.as_str().is_empty() || name_same(
        dev.pcm_name.as_str(),
        dev.card_name.as_str(),
    )) {
        s.append(": ");
        s.append(dev.pcm_name.as_str());
    }
    s.append(" (");
    s.append(id.as_str());
    s.append(")");
    assert(s@ =~= shown_name(*dev));
    s
}

/// The stable identifier a configuration stores, keyed on the card's driver identifier; none
/// where the card has none.
pub fn device_uid(dev: &Device) -> (uid: Option<String>)
    ensures
        uid is None <==> dev.card_id@.len() == 0,
        uid matches Some(u) ==> u@ == hw_address(dev.card_id@, dev.dev as int),
{
    if dev.card_id.as_str().is_empty() {
        None
    } else {
        let mut s: String = String::new();
        s.append("hw:");
        s.append(dev.card_id.as_str());
        s.append(",");
        push_decimal(&mut s, dev.dev as u64);
        assert(s@ =~= hw_address(dev.card_id@, dev.dev as int));
        Some(s)
    }
}

/// Which direction a device is opened for.
#[derive(Clone, Copy, Debug, PartialEq, Eq, Structural)]
pub enum Dir {
    Input,
    Output,
}

impl Dir {
    pub fn label(self) -> (s: &'static str)
        ensures
            s@ == (if self == Dir::Input {
                "input"@
            } else {
                "output"@
            }),
    {
        match self {
            Dir::Input => "input",
            Dir::Output => "output",
        }
    }
}

/// The device sample formats accepted. 24 bits come packed into three bytes or right-justified
/// in four; left-justified in four they are 32-bit samples.
#[derive(Clone, Copy, Debug, PartialEq, Eq, Structural)]
pub enum Fmt {
    F32,
    S32,
    S24In4,
    S24In3,
    S16,
}

pub open spec fn fmt_name(f: Fmt) -> Seq<char> {
    match f {
        Fmt::F32 => "F32"@,
        Fmt::S32 => "S32_LE"@,
        Fmt::S24In4 => "S24_LE (24-in-32, right-justified)"@,
        Fmt::S24In3 => "S24_3LE (packed)"@,
        Fmt::S16 => "S16_LE"@,
    }
}

/// Full scale of an integer format: the divisor travels with the format, since a
/// right-justified sample does not scale by its container.
pub open spec fn full_scale_of(f: Fmt) -> int {
    match f {
        Fmt::F32 => 1,
        Fmt::S32 => 0x8000_0000,
        Fmt::S24In4 => 0x80_0000,
        Fmt::S24In3 => 0x80_0000,
        Fmt::S16 => 0x8000,
    }
}

impl Fmt {
    pub fn name(self) -> (s: &'static str)
        ensures
            s@ == fmt_name(self),
    {
        match self {
            Fmt::F32 => "F32",
            Fmt::S32 => "S32_LE",
            Fmt::S24In4 => "S24_LE (24-in-32, right-justified)",
            Fmt::S24In3 => "S24_3LE (packed)",
            Fmt::S16 => "S16_LE",
        }
    }

    pub fn full_scale(self) -> (scale: u32)
        ensures
            scale == full_scale_of(self),
    {
        match self {
            Fmt::F32 => 1,
            Fmt::S32 => 0x8000_0000,
            Fmt::S24In4 => 0x80_0000,
            Fmt::S24In3 => 0x80_0000,
            Fmt::S16 => 0x8000,
        }
    }

    /// One carrier serves both 32-bit integer formats; they differ in their scale alone.
    pub fn carrier(self) -> (c: Carrier)
        ensures
            c == (match self {
                Fmt::F32 => Carrier::Float,
                Fmt::S32 => Carrier::Int32,
                Fmt::S24In4 => Carrier::Int32,
                Fmt::S24In3 => Carrier::Bytes,
                Fmt::S16 => Carrier::Int16,
            }),
    {
        match self {
            Fmt::F32 => Carrier::Float,
            Fmt::S32 => Carrier::Int32,
            Fmt::S24In4 => Carrier::Int32,
            Fmt::S24In3 => Carrier::Bytes,
            Fmt::S16 => Carrier::Int16,
        }
    }
}

/// What a format's samples travel in.
#[derive(Clone, Copy, Debug, PartialEq, Eq, Structural)]
pub enum Carrier {
    Float,
    Int32,
    Int16,
    /// Packed samples, as raw bytes.
    Bytes,
}

/// The formats in descending preference.
pub open spec fn preference() -> Seq<Fmt> {
    seq![Fmt::F32, Fmt::S32, Fmt::S24In4, Fmt::S24In3, Fmt::S16]
}

/// A negotiated configuration.
#[derive(Clone, Copy, Debug, PartialEq, Eq, Structural)]
pub struct Config {
    pub channels: u16,
    pub sample_rate: u32,
    pub period: usize,
    pub fmt: Fmt,
}

impl Config {
    pub fn channels(&self) -> (n: u16)
        ensures
            n == self.channels,
    {
        self.channels
    }

    pub fn sample_rate(&self) -> (hz: u32)
        ensures
            hz == self.sample_rate,
    {
        self.sample_rate
    }
}

/// Rounded-up quotient.
pub open spec fn ceil_div(a: int, b: int) -> int {
    if a % b == 0 {
        a / b
    } else {
        a / b + 1
    }
}

/// The period count whose ring holds the margin: as many periods as cover it, and never
/// fewer than two.
pub open spec fn period_count(period_frames: int, rate: int) -> int {
    if period_frames == 0 {
        MIN_PERIODS as int
    } else {
        let want = ceil_div(PERIOD_MARGIN_MS * rate, 1000 * period_frames);
        if want < MIN_PERIODS {
            MIN_PERIODS as int
        } else {
            want
        }
    }
}

pub fn periods_for(period_frames: usize, rate: u32) -> (periods: u32)
    ensures
        periods == period_count(period_frames as int, rate as int),
{
    if period_frames == 0 {
        return MIN_PERIODS;
    }
    let margin: u128 = PERIOD_MARGIN_MS as u128;
    assert(margin == 20);
    let a: u128 = margin * rate as u128;
    let b: u128 = 1000 * period_frames as u128;
    let q: u128 = a / b;
    assert(q <= a) by (nonlinear_arith)
        requires
            q == a / b,
            b >= 1000,
    ;
    let want: u128 = if a % b == 0 {
        q
    } else {
        q + 1
    };
    proof {
        let x = a as int;
        let y = b as int;
        assert(x / y <= x / 1000) by (nonlinear_arith)
            requires
                x >= 0,
                y >= 1000,
        ;
    }
    if want < MIN_PERIODS as u128 {
        MIN_PERIODS
    } else {
        want as u32
    }
}

/// What the hardware granted for one format.
#[derive(Clone, Copy, Debug, PartialEq, Eq, Structural)]
pub struct Granted {
    pub rate: u32,
    pub channels: u32,
    pub period: usize,
    pub periods: u32,
}

/// Software parameters: wake at one period, and never start before the whole ring is full.
#[derive(Clone, Copy, Debug, PartialEq, Eq, Structural)]
pub struct SwParams {
    pub avail_min: i64,
    pub start_threshold: i64,
    pub stop_threshold: i64,
}

pub fn sw_params(period: usize, periods: u32) -> (sw: SwParams)
    requires
        period * periods <= i64::MAX,
        period <= i64::MAX,
    ensures
        sw.avail_min == period,
        sw.start_threshold == period * periods,
        sw.stop_threshold == period * periods,
{
    let ring: i64 = period as i64 * periods as i64;
    SwParams { avail_min: period as i64, start_threshold: ring, stop_threshold: ring }
}

/// The search for a format that the device takes at 48 kHz.
pub struct FormatSearch {
    /// Formats tried so far.
    pub tried: usize,
    /// Why the last one was not taken.
    pub last: Option<String>,
}

/// A device's answer, texts by their characters.
#[verifier::ext_equal]
pub enum HwAnswer {
    Granted(Granted),
    Failed(Seq<char>),
}

pub open spec fn answer_of(a: Result<Granted, String>) -> HwAnswer {
    match a {
        Ok(g) => HwAnswer::Granted(g),
        Err(e) => HwAnswer::Failed(e@),
    }
}

/// Why an answer is not taken; none where it is. Nothing is resampled, so only a grant at
/// exactly 48 kHz is.
pub open spec fn refusal(a: HwAnswer) -> Option<Seq<char>> {
    match a {
        HwAnswer::Granted(g) => if g.rate == RATE {
            None
        } else {
            Some(
                "device would run at "@ + decimal(g.rate as int)
                    + " Hz, not 48000 Hz — Cascade does not resample"@,
            )
        },
        HwAnswer::Failed(e) => Some(e),
    }
}

/// The configuration a grant settles. Of the channel count the low 16 bits count.
pub open spec fn settled(g: Granted, fmt: Fmt) -> Config {
    Config { channels: g.channels as u16, sample_rate: RATE, period: g.period, fmt }
}

/// What is said of a device that no format suits.
pub open spec fn search_failure(dir: Dir, name: Seq<char>, last: Option<Seq<char>>) -> Seq<char> {
    (if dir == Dir::Input {
        "input"@
    } else {
        "output"@
    }) + " device '"@ + name
        + "' does not support 48 kHz in any accepted format (F32, S32_LE, S24_LE (24-in-32, right-justified), S24_3LE (packed), S16_LE) — this device cannot be used without resampling, which Cascade does not do"@
        + (match last {
        Some(e) => ": "@ + e,
        None => Seq::empty(),
    })
}

impl FormatSearch {
    pub open spec fn last_text(self) -> Option<Seq<char>> {
        match self.last {
            Some(s) => Some(s@),
            None => None,
        }
    }

    pub fn new() -> (s: Self)
        ensures
            s.tried == 0,
            s.last is None,
    {
        FormatSearch { tried: 0, last: None }
    }

    /// The next format to try, most preferred first; none once all have been.
    pub fn next_format(&self) -> (f: Option<Fmt>)
        ensures
            f == (if self.tried < preference().len() {
                Some(preference()[self.tried as int])
            } else {
                None
            }),
    {
        match self.tried {
            0 => Some(Fmt::F32),
            1 => Some(Fmt::S32),
            2 => Some(Fmt::S24In4),
            3 => Some(Fmt::S24In3),
            4 => Some(Fmt::S16),
            _ => None,
        }
    }

    /// Take in what the hardware said of the format just tried. The first one granted at
    /// exactly 48 kHz settles the configuration.
    pub fn outcome(&mut self, answer: Result<Granted, String>) -> (cfg: Option<Config>)
        requires
            old(self).tried < preference().len(),
        ensures
            final(self).tried == old(self).tried + 1,
            match refusal(answer_of(answer)) {
                None => final(self).last == old(self).last && cfg == Some(
                    settled(answer->Ok_0, preference()[old(self).tried as int]),
                ),
                Some(e) => final(self).last_text() == Some(e) && cfg is None,
            },
    {
        let fmt: Fmt = match self.tried {
            0 => Fmt::F32,
            1 => Fmt::S32,
            2 => Fmt::S24In4,
            3 => Fmt::S24In3,
            _ => Fmt::S16,
        };
        self.tried = self.tried + 1;
        match answer {
            Ok(g) => {
                if g.rate == RATE {
                    Some(
                        Config {
                            channels: #[verifier::truncate] (g.channels as u16),
                            sample_rate: RATE,
                            period: g.period,
                            fmt,
                        },
                    )
                } else {
                    let mut s: String = String::new();
                    s.append("device would run at ");
                    push_decimal(&mut s, g.rate as u64);
                    s.append(" Hz, not 48000 Hz — Cascade does not resample");
                    assert(s@ =~= "device would run at "@ + decimal(g.rate as int)
                        + " Hz, not 48000 Hz — Cascade does not resample"@);
                    self.last = Some(s);
                    None
                }
            },
            Err(e) => {
                self.last = Some(e);
                None
            },
        }
    }

    /// What to say once every format has been turned down.
    pub fn failure(&self, dir: Dir, name: &str) -> (s: String)
        ensures
            s@ == search_failure(dir, name@, self.last_text()),
    {
        let mut s: String = String::new();
        s.append(dir.label());
        s.append(" device '");
        s.append(name);
        s.append(
            "' does not support 48 kHz in any accepted format (F32, S32_LE, S24_LE (24-in-32, right-justified), S24_3LE (packed), S16_LE) — this device cannot be used without resampling, which Cascade does not do",
        );
        match &self.last {
            Some(e) => {
                s.append(": ");
                s.append(e.as_str());
            },
            None => {},
        }
        assert(s@ =~= search_failure(dir, name@, self.last_text()));
        s
    }
}

/// How many periods of silence go into the ring before it starts: all of them on playback, so
/// that the first real period has somewhere to land.
pub fn prefill_periods(dir: Dir, periods: u32) -> (n: u32)
    ensures
        n == (if dir == Dir::Output {
            periods
        } else {
            0
        }),
{
    match dir {
        Dir::Output => periods,
        Dir::Input => 0,
    }
}

/// Is a whole period there to be moved? A wait that ran out, or less than a period, is not
/// evidence of anything.
pub fn period_available(waited: bool, avail: usize, frames: usize) -> (due: bool)
    ensures
        due == (waited && avail >= frames),
{
    waited && avail >= frames
}

/// A fault of a live stream, by what it means for the caller.
pub enum StreamFault {
    /// The hardware is gone.
    DeviceLost,
    /// The stream is no longer valid but the device is present: rebuild.
    Invalidated,
    /// Anything else: keep the device.
    Transient(String),
}

/// Error numbers of the kernel that decide something here.
pub const ENOENT: i32 = 2;

pub const EINTR: i32 = 4;

pub const ENXIO: i32 = 6;

pub const EAGAIN: i32 = 11;

pub const EBUSY: i32 = 16;

pub const ENODEV: i32 = 19;

pub const EPIPE: i32 = 32;

pub const EBADFD: i32 = 77;

pub const ESTRPIPE: i32 = 86;

/// Classify a device error by its number.
pub fn classify(errno: i32, message: String) -> (f: StreamFault)
    ensures
        f is DeviceLost <==> errno == ENODEV || errno == ENXIO || errno == ENOENT,
        f is Invalidated <==> errno == EBADFD || errno == ESTRPIPE,
        f matches StreamFault::Transient(m) ==> m == message,
{
    if errno == ENODEV || errno == ENXIO || errno == ENOENT {
        StreamFault::DeviceLost
    } else if errno == EBADFD || errno == ESTRPIPE {
        StreamFault::Invalidated
    } else {
        StreamFault::Transient(message)
    }
}

/// The marker of a device that something holds.
#[derive(Clone, Copy, Debug, PartialEq, Eq, Structural)]
pub struct DeviceBusy;

/// A failed open: what to show, and the busy marker where the device is held.
pub struct OpenError {
    pub message: String,
    pub busy: Option<DeviceBusy>,
}

/// Does this error carry the device-busy marker?
pub fn is_device_busy(err: &OpenError) -> (busy: bool)
    ensures
        busy == (err.busy is Some),
{
    err.busy.is_some()
}

/// What to do about a held device.
pub open spec fn busy_advice() -> Seq<char> {
    " — `hw:` devices are opened exclusively, so this usually means it is already held: either by another application (commonly PipeWire or PulseAudio; try stopping or masking it), or by Cascade's own stream on the same device mid-rebuild"@
}

pub fn busy_hint() -> (s: &'static str)
    ensures
        s@ == busy_advice(),
{
    " — `hw:` devices are opened exclusively, so this usually means it is already held: either by another application (commonly PipeWire or PulseAudio; try stopping or masking it), or by Cascade's own stream on the same device mid-rebuild"
}

/// The error of a failed open. A device that is held gets the marker and a hint.
pub fn open_error(device: &Device, dir: Dir, errno: i32, reason: &str) -> (e: OpenError)
    ensures
        e.busy is Some <==> errno == EBUSY,
        e.message@ == "cannot open "@ + (if dir == Dir::Input {
            "input"@
        } else {
            "output"@
        }) + " device '"@ + shown_name(*device) + "': "@ + reason@ + (if errno == EBUSY {
            busy_advice()
        } else {
            Seq::empty()
        }),
{
    let name: String = device_name(device);
    let mut s: String = String::new();
    s.append("cannot open ");
    s.append(dir.label());
    s.append(" device '");
    s.append(name.as_str());
    s.append("': ");
    s.append(reason);
    let ghost stem = s@;
    if errno == EBUSY {
        s.append(busy_hint());
    }
    assert(stem + Seq::<char>::empty() =~= stem);
    assert(s@ =~= "cannot open "@ + (if dir == Dir::Input {
        "input"@
    } else {
        "output"@
    }) + " device '"@ + shown_name(*device) + "': "@ + reason@ + (if errno == EBUSY {
        busy_advice()
    } else {
        Seq::empty()
    }));
    OpenError {
        message: s,
        busy: if errno == EBUSY {
            Some(DeviceBusy)
        } else {
            None
        },
    }
}

/// What the stream thread does next under its command.
#[derive(Clone, Copy, Debug, PartialEq, Eq, Structural)]
pub enum LoopAction {
    Exit,
    /// Bring the device into the running state, then move periods.
    Begin,
    /// Move one period.
    Pump,
    /// Discard what is queued, make the device ready to start again, then wait.
    Halt,
    /// Wait for a command.
    Wait,
}

/// The stream thread between periods.
#[derive(Clone, Copy, Debug, PartialEq, Eq, Structural)]
pub struct StreamLoop {
    pub running: bool,
    /// The present fault has been reported; the next period that moves arms it again.
    pub fault_reported: bool,
    /// Faults are no longer wanted.
    pub detached: bool,
}

pub open spec fn commanded_step(l: StreamLoop, cmd: Cmd) -> (StreamLoop, LoopAction) {
    match cmd {
        Cmd::Dead => (l, LoopAction::Exit),
        Cmd::Running => if l.running {
            (l, LoopAction::Pump)
        } else {
            (StreamLoop { running: true, fault_reported: false, ..l }, LoopAction::Begin)
        },
        _ => if l.running {
            (StreamLoop { running: false, ..l }, LoopAction::Halt)
        } else {
            (l, LoopAction::Wait)
        },
    }
}

/// What became of one period.
#[derive(Clone, Copy, Debug, PartialEq, Eq, Structural)]
pub enum PumpOutcome {
    /// A period moved, or none was due yet.
    Done { moved: bool },
    Failed { errno: i32 },
}

/// What the thread does after a period.
#[derive(Clone, Copy, Debug, PartialEq, Eq, Structural)]
pub enum AfterPump {
    Continue,
    /// The ring ran dry or over: recover, and take a failure to as a fault.
    Recover,
    /// Pause before the next attempt, and report the fault first where `report` says so.
    Pause { report: bool },
}

/// A failure that is not recovered: paused over, and reported on the way into failing.
pub open spec fn faulted(l: StreamLoop) -> (StreamLoop, AfterPump) {
    (
        StreamLoop { fault_reported: true, ..l },
        AfterPump::Pause { report: !l.fault_reported && !l.detached },
    )
}

pub open spec fn pumped(l: StreamLoop, o: PumpOutcome) -> (StreamLoop, AfterPump) {
    match o {
        PumpOutcome::Done { moved } => (
            if moved {
                StreamLoop { fault_reported: false, ..l }
            } else {
                l
            },
            AfterPump::Continue,
        ),
        PumpOutcome::Failed { errno } => if errno == EPIPE {
            (l, AfterPump::Recover)
        } else if errno == EAGAIN || errno == EINTR {
            (l, AfterPump::Continue)
        } else {
            faulted(l)
        },
    }
}

impl StreamLoop {
    pub fn new() -> (l: Self)
        ensures
            l == (StreamLoop { running: false, fault_reported: false, detached: false }),
    {
        StreamLoop { running: false, fault_reported: false, detached: false }
    }

    /// What to do under a command.
    pub fn on_command(&mut self, cmd: Cmd) -> (action: LoopAction)
        ensures
            (*final(self), action) == commanded_step(*old(self), cmd),
    {
        match cmd {
            Cmd::Dead => LoopAction::Exit,
            Cmd::Running => {
                if !self.running {
                    self.running = true;
                    self.fault_reported = false;
                    LoopAction::Begin
                } else {
                    LoopAction::Pump
                }
            },
            Cmd::Prepared | Cmd::Stopped => {
                if self.running {
                    self.running = false;
                    LoopAction::Halt
                } else {
                    LoopAction::Wait
                }
            },
        }
    }

    /// Starting the device failed: the stream is stopped, and the fault is reported unless
    /// faults are no longer wanted.
    pub fn begin_failed(&mut self) -> (r: (Cmd, bool))
        ensures
            *final(self) == (StreamLoop { running: false, ..*old(self) }),
            r.0 == Cmd::Stopped,
            r.1 == !old(self).detached,
    {
        self.running = false;
        (Cmd::Stopped, !self.detached)
    }

    /// What to do after a period.
    pub fn on_pump(&mut self, o: PumpOutcome) -> (after: AfterPump)
        ensures
            (*final(self), after) == pumped(*old(self), o),
    {
        match o {
            PumpOutcome::Done { moved } => {
                if moved {
                    self.fault_reported = false;
                }
                AfterPump::Continue
            },
            PumpOutcome::Failed { errno } => {
                if errno == EPIPE {
                    AfterPump::Recover
                } else if errno == EAGAIN || errno == EINTR {
                    AfterPump::Continue
                } else {
                    self.on_fault()
                }
            },
        }
    }

    /// A fault that stays: a failed period, or a failed recovery.
    pub fn on_fault(&mut self) -> (after: AfterPump)
        ensures
            (*final(self), after) == faulted(*old(self)),
    {
        let report: bool = !self.fault_reported && !self.detached;
        self.fault_reported = true;
        AfterPump::Pause { report }
    }
}

/// Write integer samples into packed 24-bit ones. Of each the low 24 bits count.
pub fn s24_3_from_ints(values: &Vec<i32>) -> (bytes: Vec<u8>)
    ensures
        bytes@ == packed_all(values@, 3, values@.len() as int),
{
    pack(values, 3)
}

/// Read packed 24-bit samples into integers: as many as both the bytes and `limit` hold.
pub fn s24_3_to_ints(bytes: &Vec<u8>, limit: usize) -> (values: Vec<i32>)
    ensures
        values@ == unpacked_all(bytes@, 3, fitting(bytes@.len() as int, 3, limit as int)),
{
    unpack(bytes, 3, limit)
}

/// The ring a period count makes holds the margin, and no smaller count above the minimum
/// would.
pub proof fn law_ring_holds_the_margin(period_frames: int, rate: int)
    requires
        period_frames > 0,
        rate > 0,
    ensures
        ({
            let n = period_count(period_frames, rate);
            &&& n >= MIN_PERIODS
            &&& n * period_frames * 1000 >= PERIOD_MARGIN_MS * rate
            &&& n > MIN_PERIODS ==> (n - 1) * period_frames * 1000 < PERIOD_MARGIN_MS * rate
        }),
{
    let a = PERIOD_MARGIN_MS * rate;
    let b = 1000 * period_frames;
    let want = ceil_div(a, b);
    let n = period_count(period_frames, rate);
    assert(want * b >= a && (want - 1) * b < a) by (nonlinear_arith)
        requires
            b > 0,
            a > 0,
            want == (if a % b == 0 {
                a / b
            } else {
                a / b + 1
            }),
    ;
    assert(n * b >= want * b) by (nonlinear_arith)
        requires
            n >= want,
            b > 0,
    ;
    assert(n * period_frames * 1000 == n * b) by (nonlinear_arith)
        requires
            b == 1000 * period_frames,
    ;
    assert((n - 1) * period_frames * 1000 == (n - 1) * b) by (nonlinear_arith)
        requires
            b == 1000 * period_frames,
    ;
}

/// One failing device is reported once: after a report nothing more is until a period moves.
pub proof fn law_a_fault_is_reported_once(l: StreamLoop, errno: i32)
    ensures
        ({
            let first = pumped(l, PumpOutcome::Failed { errno });
            first.1 is Pause ==> pumped(first.0, PumpOutcome::Failed { errno }).1
                == (AfterPump::Pause { report: false })
        }),
{
}

/// Once faults are detached none is reported.
pub proof fn law_detached_faults_are_silent(l: StreamLoop, o: PumpOutcome)
    requires
        l.detached,
    ensures
        pumped(l, o).1 matches AfterPump::Pause { report } ==> !report,
        pumped(l, o).0.detached,
{
}

/// An address reads as "hw:", the card, a comma and the device's number.
pub proof fn law_an_address_names_card_and_device(card: Seq<char>, dev: int)
    requires
        dev >= 0,
    ensures
        ({
            let s = hw_address(card, dev);
            let n = card.len() as int;
            &&& s.len() > n + 4
            &&& s.subrange(0, 3) == "hw:"@
            &&& s.subrange(3, 3 + n) == card
            &&& s[3 + n] == ','
            &&& number_read(s.subrange(4 + n, s.len() as int)) == dev
        }),
{
    reveal_strlit("hw:");
    reveal_strlit(",");
    let s = hw_address(card, dev);
    let n = card.len() as int;
    law_a_number_reads_back(dev);
    assert(s.subrange(0, 3) =~= "hw:"@);
    assert(s.subrange(3, 3 + n) =~= card);
    assert(s.subrange(4 + n, s.len() as int) =~= decimal(dev));
}

/// A device is shown by its card first and its address, in brackets, last; its own name stands
/// between them exactly where it has one that is not the card's.
pub proof fn law_a_shown_name_starts_with_the_card(dev: Device)
    ensures
        ({
            let s = shown_name(dev);
            let c = dev.card_name@.len() as int;
            let p = dev.pcm_name@.len() as int;
            let tail = " ("@ + hw_address(signed_decimal(dev.card as int), dev.dev as int) + ")"@;
            let t = s.len() - tail.len();
            &&& c <= t
            &&& s.subrange(0, c) == dev.card_name@
            &&& s.subrange(t, s.len() as int) == tail
            &&& p == 0 || dev.pcm_name@ == dev.card_name@ ==> t == c
            &&& p > 0 && dev.pcm_name@ != dev.card_name@ ==> {
                &&& t == c + 2 + p
                &&& s.subrange(c, c + 2) == ": "@
                &&& s.subrange(c + 2, t) == dev.pcm_name@
            }
        }),
{
    reveal_strlit(": ");
    let s = shown_name(dev);
    let c = dev.card_name@.len() as int;
    let p = dev.pcm_name@.len() as int;
    let tail = " ("@ + hw_address(signed_decimal(dev.card as int), dev.dev as int) + ")"@;
    let t = s.len() - tail.len();
    assert(s.subrange(0, c) =~= dev.card_name@);
    assert(s.subrange(t, s.len() as int) =~= tail);
    if p > 0 && dev.pcm_name@ != dev.card_name@ {
        assert(s.subrange(c, c + 2) =~= ": "@);
        assert(s.subrange(c + 2, t) =~= dev.pcm_name@);
    }
}

/// Both forms of 24 bits have one full scale, a 256th of that of 32 bits and 256 times that of
/// 16; a float's is 1.
pub proof fn law_full_scale_goes_by_the_bits(f: Fmt)
    ensures
        full_scale_of(Fmt::F32) == 1,
        full_scale_of(Fmt::S16) == 32_768,
        full_scale_of(Fmt::S24In3) == 256 * full_scale_of(Fmt::S16),
        full_scale_of(Fmt::S24In4) == full_scale_of(Fmt::S24In3),
        full_scale_of(Fmt::S32) == 256 * full_scale_of(Fmt::S24In4),
{
}

/// Only floats travel as floats and only packed samples as bytes; the 32-bit formats share one
/// carrier.
pub proof fn law_carriers_go_by_the_container(f: Fmt, c: Carrier)
    requires
        call_ensures(Fmt::carrier, (f,), c),
    ensures
        c == Carrier::Float <==> f == Fmt::F32,
        c == Carrier::Bytes <==> f == Fmt::S24In3,
        c == Carrier::Int16 <==> f == Fmt::S16,
        c == Carrier::Int32 <==> f == Fmt::S32 || f == Fmt::S24In4,
{
}

/// Every format is tried, each once, floats first and then from the most bits to the fewest.
pub proof fn law_every_format_is_tried_best_first(f: Fmt, i: int, j: int)
    requires
        0 <= i < j < preference().len(),
    ensures
        preference().contains(f),
        preference().len() == 5,
        preference()[i] != preference()[j],
        preference()[j] != Fmt::F32,
        i > 0 ==> full_scale_of(preference()[i]) >= full_scale_of(preference()[j]),
        preference()[i] == Fmt::S24In3 ==> preference()[j] != Fmt::S24In4,
{
    let p = preference();
    assert(p[0] == Fmt::F32 && p[1] == Fmt::S32 && p[2] == Fmt::S24In4 && p[3] == Fmt::S24In3
        && p[4] == Fmt::S16);
}

/// The ring holds twenty milliseconds and two periods at least; without a period there are
/// two.
pub proof fn law_the_ring_holds_twenty_milliseconds(period_frames: int, rate: int)
    requires
        period_frames >= 0,
        rate > 0,
    ensures
        period_count(period_frames, rate) >= 2,
        period_frames > 0 ==> period_count(period_frames, rate) * period_frames * 1000 >= 20 * rate,
        period_frames > 0 && period_count(period_frames, rate) > 2 ==> (period_count(
            period_frames,
            rate,
        ) - 1) * period_frames * 1000 < 20 * rate,
        period_frames == 0 ==> period_count(period_frames, rate) == 2,
{
    if period_frames > 0 {
        law_ring_holds_the_margin(period_frames, rate);
    }
}

/// A device is woken for one period, and started and stopped by the whole ring.
pub proof fn law_the_ring_starts_full(period: usize, periods: u32, sw: SwParams)
    requires
        call_ensures(sw_params, (period, periods), sw),
    ensures
        sw.avail_min == period,
        sw.start_threshold == sw.avail_min * periods,
        sw.stop_threshold == sw.start_threshold,
{
}

/// An answer is taken exactly where it grants 48 kHz. A grant at another rate is turned down
/// with that rate in the text, and a failure with its own text.
pub proof fn law_only_48_khz_is_taken(g: Granted, why: Seq<char>, fmt: Fmt)
    ensures
        refusal(HwAnswer::Granted(g)) is None <==> g.rate == 48_000,
        refusal(HwAnswer::Failed(why)) == Some(why),
        refusal(HwAnswer::Granted(g)) matches Some(s) ==> {
            let lead = "device would run at "@;
            let n = lead.len() as int;
            let d = decimal(g.rate as int);
            s.len() >= n + d.len() && s.subrange(0, n) == lead && s.subrange(n, n + d.len()) == d
        },
        settled(g, fmt).sample_rate == 48_000,
        settled(g, fmt).period == g.period,
        settled(g, fmt).fmt == fmt,
        g.channels <= u16::MAX ==> settled(g, fmt).channels == g.channels,
{
    if let Some(s) = refusal(HwAnswer::Granted(g)) {
        let lead = "device would run at "@;
        let n = lead.len() as int;
        let d = decimal(g.rate as int);
        assert(s.subrange(0, n) =~= lead);
        assert(s.subrange(n, n + d.len()) =~= d);
    }
}

/// The format that a search settles on is the one it last gave out to be tried; a search that
/// settles on none goes on to the next.
pub proof fn law_a_search_settles_on_what_was_tried(
    s: &mut FormatSearch,
    f: Option<Fmt>,
    answer: Result<Granted, String>,
    cfg: Option<Config>,
)
    requires
        old(s).tried < 5,
        call_ensures(FormatSearch::next_format, (old(s),), f),
        call_ensures(FormatSearch::outcome, (s, answer), cfg),
    ensures
        f is Some,
        final(s).tried == old(s).tried + 1,
        cfg is Some <==> (answer matches Ok(g) && g.rate == 48_000),
        cfg matches Some(c) ==> f == Some(c.fmt) && c.sample_rate == 48_000 && c.period
            == answer->Ok_0.period,
        cfg is None ==> final(s).last is Some,
        answer matches Err(e) ==> final(s).last_text() == Some(e@),
{
}

/// What is said of a device that no format suits names its direction and the device, and ends
/// with the last reason where there is one.
pub proof fn law_a_failed_search_names_the_device(
    dir: Dir,
    name: Seq<char>,
    last: Option<Seq<char>>,
)
    ensures
        ({
            let s = search_failure(dir, name, last);
            let lead = (if dir == Dir::Input {
                "input"@
            } else {
                "output"@
            }) + " device '"@ + name;
            let tail = match last {
                Some(e) => ": "@ + e,
                None => Seq::empty(),
            };
            &&& s.len() >= lead.len() + tail.len()
            &&& s.subrange(0, lead.len() as int) == lead
            &&& s.subrange(s.len() - tail.len(), s.len() as int) == tail
        }),
{
    let s = search_failure(dir, name, last);
    let lead = (if dir == Dir::Input {
        "input"@
    } else {
        "output"@
    }) + " device '"@ + name;
    let tail = match last {
        Some(e) => ": "@ + e,
        None => Seq::empty(),
    };
    assert(s.subrange(0, lead.len() as int) =~= lead);
    assert(s.subrange(s.len() - tail.len(), s.len() as int) =~= tail);
}

/// A playback ring is filled with silence before it starts, a capture ring is not; and a
/// period is moved only where a whole one is there after a wait that ended in time.
pub proof fn law_whole_periods_move(
    periods: u32,
    out: u32,
    back: u32,
    waited: bool,
    avail: usize,
    frames: usize,
    due: bool,
)
    requires
        call_ensures(prefill_periods, (Dir::Output, periods), out),
        call_ensures(prefill_periods, (Dir::Input, periods), back),
        call_ensures(period_available, (waited, avail, frames), due),
    ensures
        out == periods && back == 0,
        due ==> waited && avail >= frames,
        waited && avail >= frames ==> due,
{
}

/// A device that is not there any more is lost, a stream that no longer holds is set up again,
/// and every other error keeps the device and its own text.
pub proof fn law_errors_go_by_their_numbers(errno: i32, message: String, f: StreamFault)
    requires
        call_ensures(classify, (errno, message), f),
    ensures
        f is DeviceLost <==> errno == 19 || errno == 6 || errno == 2,
        f is Invalidated <==> errno == 77 || errno == 86,
        f matches StreamFault::Transient(m) ==> m@ == message@,
{
}

/// A device that is held, and no other, is marked as busy and gets advice; the reason is always
/// said.
pub proof fn law_a_held_device_gets_advice(
    device: Device,
    dir: Dir,
    errno: i32,
    reason: &str,
    held: OpenError,
    other: OpenError,
)
    requires
        errno != 16,
        call_ensures(open_error, (&device, dir, 16i32, reason), held),
        call_ensures(open_error, (&device, dir, errno, reason), other),
    ensures
        held.busy is Some && other.busy is None,
        held.message@ == other.message@ + busy_advice(),
        other.message@.len() >= reason@.len(),
        other.message@.subrange(
            other.message@.len() - reason@.len(),
            other.message@.len() as int,
        ) == reason@,
{
    let m = other.message@;
    let r = reason@;
    assert(m.subrange(m.len() - r.len(), m.len() as int) =~= r);
    assert(held.message@ =~= m + busy_advice());
}

/// What a command does to the stream thread: it leaves on the last one, runs while it is told
/// to run and stands otherwise, and does the work of changing over exactly where it changes.
pub proof fn law_what_a_command_does(l: StreamLoop, cmd: Cmd)
    ensures
        ({
            let (next, action) = commanded_step(l, cmd);
            &&& action == LoopAction::Exit <==> cmd == Cmd::Dead
            &&& action == LoopAction::Begin <==> cmd == Cmd::Running && !l.running
            &&& action == LoopAction::Pump <==> cmd == Cmd::Running && l.running
            &&& action == LoopAction::Halt <==> cmd != Cmd::Running && cmd != Cmd::Dead && l.running
            &&& cmd != Cmd::Dead ==> next.running == (cmd == Cmd::Running)
            &&& cmd == Cmd::Dead ==> next == l
            &&& action == LoopAction::Begin ==> !next.fault_reported
            &&& action != LoopAction::Begin ==> next.fault_reported == l.fault_reported
            &&& next.detached == l.detached
        }),
{
}

/// What follows a period: a ring that ran dry or over is recovered, an interruption is passed
/// over, and any other failure is paused over and reported the first time. A period that moves
/// makes the next failure the first again.
pub proof fn law_what_follows_a_period(l: StreamLoop, errno: i32, moved: bool)
    ensures
        ({
            let (next, after) = pumped(l, PumpOutcome::Failed { errno });
            &&& after == AfterPump::Recover <==> errno == 32
            &&& after == AfterPump::Continue <==> errno == 11 || errno == 4
            &&& after matches AfterPump::Pause { report } ==> report == (!l.fault_reported
                && !l.detached) && next.fault_reported
            &&& !(after is Pause) ==> next == l
            &&& next.running == l.running && next.detached == l.detached
        }),
        ({
            let (next, after) = pumped(l, PumpOutcome::Done { moved });
            &&& after == AfterPump::Continue
            &&& next.fault_reported == (l.fault_reported && !moved)
            &&& next.running == l.running && next.detached == l.detached
        }),
{
}

/// A device that would not start leaves the stream stopped and is said to have failed, unless
/// faults are no longer wanted.
pub proof fn law_a_failed_start_stops(l: &mut StreamLoop, r: (Cmd, bool))
    requires
        call_ensures(StreamLoop::begin_failed, (l,), r),
    ensures
        r.0 == Cmd::Stopped,
        r.1 <==> !old(l).detached,
        !final(l).running,
        final(l).fault_reported == old(l).fault_reported && final(l).detached == old(l).detached,
{
}

/// A stable identifier goes by the card's driver identifier and the device, whatever the card
/// is numbered or called; the address it is opened by goes by the number.
pub proof fn law_an_identifier_survives_renumbering(
    a: Device,
    b: Device,
    x: Option<String>,
    y: Option<String>,
    id: String,
)
    requires
        a.card_id@ == b.card_id@,
        a.dev == b.dev,
        call_ensures(device_uid, (&a,), x),
        call_ensures(device_uid, (&b,), y),
        call_ensures(Device::pcm_id, (&a,), id),
    ensures
        x is Some == y is Some,
        x is Some ==> x->Some_0@ == y->Some_0@,
        x is None <==> a.card_id@.len() == 0,
        x is Some ==> x->Some_0@ == hw_address(a.card_id@, a.dev as int),
        id@ == hw_address(signed_decimal(a.card as int), a.dev as int),
{
}

/// The marker of a failed open is what says that the device is held.
pub proof fn law_a_held_device_is_recognised(
    device: Device,
    dir: Dir,
    errno: i32,
    reason: &str,
    e: OpenError,
    busy: bool,
)
    requires
        call_ensures(open_error, (&device, dir, errno, reason), e),
        call_ensures(is_device_busy, (&e,), busy),
    ensures
        busy <==> errno == 16,
{
}

/// A direction is called by its own name, and a configuration tells what it holds.
pub proof fn law_directions_are_told_apart(
    d: Dir,
    s: &'static str,
    cfg: Config,
    channels: u16,
    rate: u32,
)
    requires
        call_ensures(Dir::label, (d,), s),
        call_ensures(Config::channels, (&cfg,), channels),
        call_ensures(Config::sample_rate, (&cfg,), rate),
    ensures
        s@ == "input"@ <==> d == Dir::Input,
        s@ == "output"@ <==> d == Dir::Output,
        channels == cfg.channels && rate == cfg.sample_rate,
{
    reveal_strlit("input");
    reveal_strlit("output");
    assert("input"@.len() == 5 && "output"@.len() == 6);
}

/// A failure that is not recovered is reported the first time, unless faults are no longer
/// wanted, and not again.
pub proof fn law_a_lasting_fault_is_reported_once(l: &mut StreamLoop, after: AfterPump)
    requires
        call_ensures(StreamLoop::on_fault, (l,), after),
    ensures
        after == (AfterPump::Pause { report: !old(l).fault_reported && !old(l).detached }),
        final(l).fault_reported,
        final(l).running == old(l).running && final(l).detached == old(l).detached,
{
}

/// Every format has a name of its own.
pub proof fn law_formats_have_their_own_names(f: Fmt, g: Fmt)
    ensures
        fmt_name(f) == fmt_name(g) ==> f == g,
{
    reveal_strlit("F32");
    reveal_strlit("S32_LE");
    reveal_strlit("S24_LE (24-in-32, right-justified)");
    reveal_strlit("S24_3LE (packed)");
    reveal_strlit("S16_LE");
    assert("F32"@.len() == 3 && "S24_3LE (packed)"@.len() == 16);
    assert("S32_LE"@.len() == 6 && "S16_LE"@.len() == 6);
    assert("S24_LE (24-in-32, right-justified)"@.len() == 34);
    assert("S32_LE"@[1] == '3' && "S16_LE"@[1] == '1');
}

} // verus!
