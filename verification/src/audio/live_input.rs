//! What is shown of the running input device, and how its faults are answered.

use vstd::prelude::*;

use crate::audio::sample::SILENCE;

verus! {

/// The running input: its device, rate and channels, and the peak of each channel. An empty
/// name is no device.
pub struct LiveInput {
    pub device: String,
    pub rate: u32,
    pub channels: usize,
    pub peaks: Vec<u32>,
}

impl LiveInput {
    /// The input stopped: nothing is shown any more, and no meter keeps its last value.
    pub fn stop_input(&mut self)
        ensures
            final(self).device@.len() == 0,
            final(self).rate == 0,
            final(self).channels == 0,
            final(self).peaks@ == Seq::new(old(self).peaks@.len(), |i: int| SILENCE),
    {
        self.device = String::new();
        self.rate = 0;
        self.channels = 0;
        let n: usize = self.peaks.len();
        let mut peaks: Vec<u32> = Vec::new();
        let mut i: usize = 0;
        while i < n
            invariant
                i <= n,
                peaks@ == Seq::new(i as nat, |j: int| SILENCE),
            decreases n - i,
        {
            peaks.push(SILENCE);
            i = i + 1;
            assert(peaks@ =~= Seq::new(i as nat, |j: int| SILENCE));
        }
        self.peaks = peaks;
    }
}

/// A fault of the input stream.
#[derive(Clone, Copy, Debug, PartialEq, Eq, Structural)]
pub enum InputFault {
    /// The hardware is gone.
    DeviceLost,
    /// The stream is no longer valid; the device is present.
    Invalidated,
    /// A glitch that passes.
    Transient,
}

/// What is said of a fault.
#[derive(Clone, Copy, Debug, PartialEq, Eq, Structural)]
pub enum FaultNote {
    /// The device is no longer available.
    Disconnected,
    /// The device's rate changed, and the stream is set up again.
    Reconfiguring,
    /// The rate change is the daemon's own: nothing new.
    RebuildEcho,
    /// The device is kept.
    Retained,
}

/// The answer to a fault: the flags to raise for the loop that owns the stream, and what is
/// said.
#[derive(Clone, Copy, Debug, PartialEq, Eq, Structural)]
pub struct FaultAnswer {
    pub lost: bool,
    pub invalid: bool,
    pub note: FaultNote,
}

/// Answer a fault. Only hardware that is gone takes the device down; an invalid stream is
/// rebuilt, and one that the running rebuild itself caused is not said a second time.
pub fn on_input_fault(fault: InputFault, rebuilding: bool) -> (a: FaultAnswer)
    ensures
        a.lost == (fault == InputFault::DeviceLost),
        a.invalid == (fault == InputFault::Invalidated),
        a.note == (match fault {
            InputFault::DeviceLost => FaultNote::Disconnected,
            InputFault::Invalidated => if rebuilding {
                FaultNote::RebuildEcho
            } else {
                FaultNote::Reconfiguring
            },
            InputFault::Transient => FaultNote::Retained,
        }),
{
    match fault {
        InputFault::DeviceLost => FaultAnswer {
            lost: true,
            invalid: false,
            note: FaultNote::Disconnected,
        },
        InputFault::Invalidated => FaultAnswer {
            lost: false,
            invalid: true,
            note: if rebuilding {
                FaultNote::RebuildEcho
            } else {
                FaultNote::Reconfiguring
            },
        },
        InputFault::Transient => FaultAnswer {
            lost: false,
            invalid: false,
            note: FaultNote::Retained,
        },
    }
}

/// A fault takes the device down, or has the stream set up again, or does neither, and never
/// both; only what does neither is said to keep the device. A rebuild that runs changes
/// nothing of that but what is said.
pub proof fn law_a_fault_has_one_answer(
    fault: InputFault,
    quiet: FaultAnswer,
    rebuilding: FaultAnswer,
)
    requires
        call_ensures(on_input_fault, (fault, false), quiet),
        call_ensures(on_input_fault, (fault, true), rebuilding),
    ensures
        !(quiet.lost && quiet.invalid),
        quiet.lost <==> fault == InputFault::DeviceLost,
        quiet.invalid <==> fault == InputFault::Invalidated,
        quiet.note == FaultNote::Retained <==> !quiet.lost && !quiet.invalid,
        quiet.note == FaultNote::Disconnected <==> quiet.lost,
        rebuilding.lost == quiet.lost && rebuilding.invalid == quiet.invalid,
        rebuilding.note != quiet.note <==> quiet.invalid,
        rebuilding.note == FaultNote::RebuildEcho <==> quiet.invalid,
{
}

} // verus!
