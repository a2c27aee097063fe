//! The REST requests that change something: what each asks for and how it is answered.

use vstd::prelude::*;

use crate::api::json::{
    bool_member, bool_of, json_of, member, text_member, text_of, unsigned_member,
    unsigned_of,
};
use crate::api::messages::{Hot, HotCommand};

verus! {

/// How a request is answered.
#[derive(Clone, Copy, Debug, PartialEq, Eq, Structural)]
pub enum Answer {
    /// Done.
    Done,
    /// Done, with this bitrate.
    DoneBitrate(u32),
    /// The routing matrix is missing.
    MissingMatrix,
    /// Nothing takes commands.
    Unavailable,
}

pub open spec fn hot_opt(c: Option<HotCommand>) -> Option<Hot> {
    match c {
        Some(h) => Some(h@),
        None => None,
    }
}

/// Whether a phase-lock request switches it on; a request that does not say switches it off.
pub fn phase_request(body: &serde_json::Value) -> (enabled: bool)
    ensures
        enabled == (bool_of(member(json_of(*body), "enabled"@)) == Some(true)),
{
    match bool_member(body, "enabled") {
        Some(b) => b,
        None => false,
    }
}

/// A bitrate request. `available` says whether anything takes commands.
pub fn bitrate_request(body: &serde_json::Value, available: bool) -> (r: (
    Option<HotCommand>,
    Answer,
))
    ensures
        ({
            let kbps = match unsigned_of(member(json_of(*body), "kbps"@)) {
                Some(x) => (x as int % 0x1_0000_0000) as u32,
                None => 0,
            };
            if available {
                hot_opt(r.0) == Some(Hot::SetBitrate(kbps)) && r.1 == Answer::DoneBitrate(kbps)
            } else {
                r.0 is None && r.1 == Answer::Unavailable
            }
        }),
{
    let kbps: u32 = match unsigned_member(body, "kbps") {
        Some(x) => (x % 0x1_0000_0000) as u32,
        None => 0,
    };
    if available {
        (Some(HotCommand::SetBitrate(kbps)), Answer::DoneBitrate(kbps))
    } else {
        (None, Answer::Unavailable)
    }
}

/// A routing request for one peer, outgoing where `send` says so. Without a matrix nothing is
/// asked for.
pub fn routing_request(peer: String, body: &serde_json::Value, send: bool, available: bool) -> (r: (
    Option<HotCommand>,
    Answer,
))
    ensures
        match text_of(member(json_of(*body), "matrix"@)) {
            None => r.0 is None && r.1 == Answer::MissingMatrix,
            Some(matrix) => if available {
                hot_opt(r.0) == Some(
                    if send {
                        Hot::SetSendRouting { peer: peer@, matrix }
                    } else {
                        Hot::SetReceiveRouting { peer: peer@, matrix }
                    },
                ) && r.1 == Answer::Done
            } else {
                r.0 is None && r.1 == Answer::Unavailable
            },
        },
{
    match text_member(body, "matrix") {
        None => (None, Answer::MissingMatrix),
        Some(matrix) => {
            if !available {
                (None, Answer::Unavailable)
            } else if send {
                (Some(HotCommand::SetSendRouting { peer, matrix }), Answer::Done)
            } else {
                (Some(HotCommand::SetReceiveRouting { peer, matrix }), Answer::Done)
            }
        },
    }
}

/// Where nothing takes commands a request asks for nothing; else a bitrate is asked for as it
/// was sent, in its low 32 bits, and answered with the same.
pub proof fn law_a_bitrate_is_asked_for_as_sent(
    body: serde_json::Value,
    taken: (Option<HotCommand>, Answer),
    refused: (Option<HotCommand>, Answer),
)
    requires
        call_ensures(bitrate_request, (&body, true), taken),
        call_ensures(bitrate_request, (&body, false), refused),
    ensures
        refused.0 is None && refused.1 == Answer::Unavailable,
        taken.1 matches Answer::DoneBitrate(kbps) && hot_opt(taken.0) == Some(
            Hot::SetBitrate(kbps),
        ),
        unsigned_of(member(json_of(body), "kbps"@)) matches Some(x) ==> x <= u32::MAX
            ==> taken.1 == Answer::DoneBitrate(x as u32),
        unsigned_of(member(json_of(body), "kbps"@)) is None ==> taken.1 == Answer::DoneBitrate(0),
{
}

/// A routing request asks for its own direction and peer, with the matrix as it was sent; one
/// without a matrix asks for nothing, whatever takes commands.
pub proof fn law_a_routing_request_keeps_its_direction(
    peer: String,
    body: serde_json::Value,
    out: (Option<HotCommand>, Answer),
    back: (Option<HotCommand>, Answer),
    refused: (Option<HotCommand>, Answer),
    send: bool,
)
    requires
        call_ensures(routing_request, (peer, &body, true, true), out),
        call_ensures(routing_request, (peer, &body, false, true), back),
        call_ensures(routing_request, (peer, &body, send, false), refused),
    ensures
        refused.0 is None,
        text_of(member(json_of(body), "matrix"@)) matches Some(matrix) ==> {
            &&& hot_opt(out.0) == Some(Hot::SetSendRouting { peer: peer@, matrix })
            &&& hot_opt(back.0) == Some(Hot::SetReceiveRouting { peer: peer@, matrix })
            &&& out.1 == Answer::Done && back.1 == Answer::Done
            &&& refused.1 == Answer::Unavailable
        },
        text_of(member(json_of(body), "matrix"@)) is None ==> {
            &&& out.0 is None && back.0 is None
            &&& out.1 == Answer::MissingMatrix && back.1 == Answer::MissingMatrix
            &&& refused.1 == Answer::MissingMatrix
        },
{
}

/// Phase lock is switched on by a request that says so, and off by any other.
pub proof fn law_a_phase_request_has_to_say_so(body: serde_json::Value, enabled: bool)
    requires
        call_ensures(phase_request, (&body,), enabled),
    ensures
        bool_of(member(json_of(body), "enabled"@)) matches Some(b) ==> enabled == b,
        bool_of(member(json_of(body), "enabled"@)) is None ==> !enabled,
{
}

} // verus!
