//! Why a session was disconnected, in codes small enough for one shared byte.

use vstd::prelude::*;
use vstd::string::*;

use crate::audio::backend::wasapi_backend::{FaultView, StreamFault};

verus! {

pub const NONE: u8 = 0;

pub const DEVICE_REMOVAL: u8 = 1;

pub const SERVER_SHUTDOWN: u8 = 2;

pub const FORMAT_CHANGED: u8 = 3;

pub const SESSION_LOGOFF: u8 = 4;

pub const SESSION_DISCONNECTED: u8 = 5;

pub const EXCLUSIVE_OVERRIDE: u8 = 6;

pub const UNKNOWN: u8 = 7;

/// The reasons the session callback can give.
#[derive(Clone, Copy, Debug, PartialEq, Eq, Structural)]
pub enum DisconnectReason {
    DeviceRemoval,
    ServerShutdown,
    FormatChanged,
    SessionLogoff,
    SessionDisconnected,
    ExclusiveModeOverride,
    Unknown,
}

pub open spec fn code_of(r: DisconnectReason) -> u8 {
    match r {
        DisconnectReason::DeviceRemoval => DEVICE_REMOVAL,
        DisconnectReason::ServerShutdown => SERVER_SHUTDOWN,
        DisconnectReason::FormatChanged => FORMAT_CHANGED,
        DisconnectReason::SessionLogoff => SESSION_LOGOFF,
        DisconnectReason::SessionDisconnected => SESSION_DISCONNECTED,
        DisconnectReason::ExclusiveModeOverride => EXCLUSIVE_OVERRIDE,
        DisconnectReason::Unknown => UNKNOWN,
    }
}

pub fn code(r: &DisconnectReason) -> (c: u8)
    ensures
        c == code_of(*r),
{
    match r {
        DisconnectReason::DeviceRemoval => DEVICE_REMOVAL,
        DisconnectReason::ServerShutdown => SERVER_SHUTDOWN,
        DisconnectReason::FormatChanged => FORMAT_CHANGED,
        DisconnectReason::SessionLogoff => SESSION_LOGOFF,
        DisconnectReason::SessionDisconnected => SESSION_DISCONNECTED,
        DisconnectReason::ExclusiveModeOverride => EXCLUSIVE_OVERRIDE,
        DisconnectReason::Unknown => UNKNOWN,
    }
}

/// What a code means for the stream. Only a removal is the device gone; a stolen endpoint and
/// the session's own events are said and lived with; everything else is a rebuild.
pub open spec fn meaning(code: u8) -> Option<FaultView> {
    if code == NONE {
        None
    } else if code == DEVICE_REMOVAL {
        Some(FaultView::DeviceLost)
    } else if code == EXCLUSIVE_OVERRIDE {
        Some(FaultView::Transient("another application took exclusive control of this device"@))
    } else if code == SESSION_LOGOFF {
        Some(FaultView::Transient("the Windows session logged off"@))
    } else if code == SESSION_DISCONNECTED {
        Some(FaultView::Transient("the Windows session was disconnected"@))
    } else {
        Some(FaultView::Invalidated)
    }
}

pub fn fault(code: u8) -> (f: Option<StreamFault>)
    ensures
        meaning(code) == (match f {
            Some(x) => Some(x@),
            None => None,
        }),
{
    if code == NONE {
        None
    } else if code == DEVICE_REMOVAL {
        Some(StreamFault::DeviceLost)
    } else if code == EXCLUSIVE_OVERRIDE {
        Some(
            StreamFault::Transient(
                "another application took exclusive control of this device".to_owned(),
            ),
        )
    } else if code == SESSION_LOGOFF {
        Some(StreamFault::Transient("the Windows session logged off".to_owned()))
    } else if code == SESSION_DISCONNECTED {
        Some(StreamFault::Transient("the Windows session was disconnected".to_owned()))
    } else {
        Some(StreamFault::Invalidated)
    }
}

/// The hardware counts as gone for a removal and for no other reason.
pub proof fn law_only_a_removal_loses_the_device(r: DisconnectReason)
    ensures
        meaning(code_of(r)) == Some(FaultView::DeviceLost) <==> r
            == DisconnectReason::DeviceRemoval,
        meaning(code_of(r)) is Some,
{
}

/// Every reason has a code of its own, and none has the code of no reason.
pub proof fn law_reasons_have_their_own_codes(r: DisconnectReason, other: DisconnectReason)
    ensures
        code_of(r) == code_of(other) ==> r == other,
        code_of(r) != 0,
        meaning(0) is None,
{
}

/// What each reason means: a removal loses the device; a stolen endpoint and the session's own
/// events are said, each in words of its own, and lived with; a server that stops, a format
/// that changes and whatever is unknown have the stream set up again.
pub proof fn law_what_each_reason_means(r: DisconnectReason, other: DisconnectReason, code: u8)
    ensures
        meaning(code_of(r)) == Some(FaultView::Invalidated) <==> {
            ||| r == DisconnectReason::ServerShutdown
            ||| r == DisconnectReason::FormatChanged
            ||| r == DisconnectReason::Unknown
        },
        (meaning(code_of(r)) matches Some(FaultView::Transient(_t))) <==> {
            ||| r == DisconnectReason::ExclusiveModeOverride
            ||| r == DisconnectReason::SessionLogoff
            ||| r == DisconnectReason::SessionDisconnected
        },
        (meaning(code_of(r)) matches Some(FaultView::Transient(t)) && meaning(
            code_of(other),
        ) == Some(FaultView::Transient(t))) ==> r == other,
        code > 7 ==> meaning(code) == Some(FaultView::Invalidated),
{
    reveal_strlit("another application took exclusive control of this device");
    reveal_strlit("the Windows session logged off");
    reveal_strlit("the Windows session was disconnected");
    assert("another application took exclusive control of this device"@.len() == 57);
    assert("the Windows session logged off"@.len() == 30);
    assert("the Windows session was disconnected"@.len() == 36);
}

} // verus!
