//! What a client message asks for: the commands, events and settings changes it turns into.

use vstd::prelude::*;
use vstd::string::*;

use crate::api::config::{
    find, find_remote, lemma_remote_named, remotes_of, restore_fields, restored_all, sent_in,
    sent_remotes, sent_views, voice_normalised, Config, Remote, RemoteConfig, Sent, SentRemote,
    Settings,
};
use crate::api::json::{
    array_of, bool_member, bool_of, chars_opt, double_member, double_of, json_get, json_of,
    json_read, member, read_json, text_member, text_of, unsigned_array_member, unsigned_elements,
    unsigned_member, unsigned_of, Json,
};
use crate::audio::encode::OUTGOING_CHANNELS_MAX;
use crate::names::name_same;
use crate::pick::count;

verus! {

/// The frame size where a message gives none: the double-precision pattern of 20.
pub const FRAME_MS_DEFAULT: u64 = 0x4034_0000_0000_0000;

/// The receive buffer where a message gives none, in milliseconds.
pub const BUFFER_MS_DEFAULT: u32 = 120;

/// The bitrate where a message gives none, in kbit/s.
pub const BITRATE_DEFAULT: u32 = 128;

/// A command to the running daemon.
pub enum HotCommand {
    SetBitrate(u32),
    /// Move the audio socket. Port and interface are one address.
    SetBindAddress { iface: String, port: u16 },
    SetSendRouting { peer: String, matrix: String },
    SetReceiveRouting { peer: String, matrix: String },
    SetOnAir(bool),
    /// Claim or release the output device for this daemon alone.
    SetExclusiveOutput(bool),
    SetLabel { channel: usize, label: String },
    SetTone { peer: String, slots: Vec<u8> },
    /// Frame sizes are double-precision patterns of milliseconds.
    SetFrameSize { frame_ms: u64 },
    SetMode { mode: String },
    SetRemoteFrameSize { peer: String, frame_ms: u64 },
    SetRemoteMode { peer: String, mode: String },
    SetReceiveBuffer { peer: String, ms: u32 },
    SetEncryption { peer: String, on: bool },
    /// Add a remote, or set an existing one up again.
    AddRemote(RemoteConfig),
    RemoveRemote(String),
    /// Take a remote down and keep its settings.
    DisableRemote(String),
    /// Switch the capture device; an empty name is none.
    SetInputDevice(String),
    SetOutputDevice(String),
}

/// A command, texts by their characters.
#[verifier::ext_equal]
pub enum Hot {
    SetBitrate(u32),
    SetBindAddress { iface: Seq<char>, port: u16 },
    SetSendRouting { peer: Seq<char>, matrix: Seq<char> },
    SetReceiveRouting { peer: Seq<char>, matrix: Seq<char> },
    SetOnAir(bool),
    SetExclusiveOutput(bool),
    SetLabel { channel: usize, label: Seq<char> },
    SetTone { peer: Seq<char>, slots: Seq<u8> },
    SetFrameSize { frame_ms: u64 },
    SetMode { mode: Seq<char> },
    SetRemoteFrameSize { peer: Seq<char>, frame_ms: u64 },
    SetRemoteMode { peer: Seq<char>, mode: Seq<char> },
    SetReceiveBuffer { peer: Seq<char>, ms: u32 },
    SetEncryption { peer: Seq<char>, on: bool },
    AddRemote(Remote),
    RemoveRemote(Seq<char>),
    DisableRemote(Seq<char>),
    SetInputDevice(Seq<char>),
    SetOutputDevice(Seq<char>),
}

impl View for HotCommand {
    type V = Hot;

    open spec fn view(&self) -> Hot {
        match self {
            HotCommand::SetBitrate(kbps) => Hot::SetBitrate(*kbps),
            HotCommand::SetBindAddress { iface, port } => Hot::SetBindAddress {
                iface: iface@,
                port: *port,
            },
            HotCommand::SetSendRouting { peer, matrix } => Hot::SetSendRouting {
                peer: peer@,
                matrix: matrix@,
            },
            HotCommand::SetReceiveRouting { peer, matrix } => Hot::SetReceiveRouting {
                peer: peer@,
                matrix: matrix@,
            },
            HotCommand::SetOnAir(on) => Hot::SetOnAir(*on),
            HotCommand::SetExclusiveOutput(on) => Hot::SetExclusiveOutput(*on),
            HotCommand::SetLabel { channel, label } => Hot::SetLabel {
                channel: *channel,
                label: label@,
            },
            HotCommand::SetTone { peer, slots } => Hot::SetTone { peer: peer@, slots: slots@ },
            HotCommand::SetFrameSize { frame_ms } => Hot::SetFrameSize { frame_ms: *frame_ms },
            HotCommand::SetMode { mode } => Hot::SetMode { mode: mode@ },
            HotCommand::SetRemoteFrameSize { peer, frame_ms } => Hot::SetRemoteFrameSize {
                peer: peer@,
                frame_ms: *frame_ms,
            },
            HotCommand::SetRemoteMode { peer, mode } => Hot::SetRemoteMode {
                peer: peer@,
                mode: mode@,
            },
            HotCommand::SetReceiveBuffer { peer, ms } => Hot::SetReceiveBuffer {
                peer: peer@,
                ms: *ms,
            },
            HotCommand::SetEncryption { peer, on } => Hot::SetEncryption { peer: peer@, on: *on },
            HotCommand::AddRemote(r) => Hot::AddRemote(r@),
            HotCommand::RemoveRemote(n) => Hot::RemoveRemote(n@),
            HotCommand::DisableRemote(n) => Hot::DisableRemote(n@),
            HotCommand::SetInputDevice(n) => Hot::SetInputDevice(n@),
            HotCommand::SetOutputDevice(n) => Hot::SetOutputDevice(n@),
        }
    }
}

/// One remote's routing, as clients are told of it.
pub struct RoutingRow {
    pub name: String,
    pub send_matrix: Option<String>,
    pub receive_matrix: Option<String>,
}

#[verifier::ext_equal]
pub struct Row {
    pub name: Seq<char>,
    pub send_matrix: Option<Seq<char>>,
    pub receive_matrix: Option<Seq<char>>,
}

impl View for RoutingRow {
    type V = Row;

    open spec fn view(&self) -> Row {
        Row {
            name: self.name@,
            send_matrix: chars_opt(self.send_matrix),
            receive_matrix: chars_opt(self.receive_matrix),
        }
    }
}

pub open spec fn row_views(rows: Seq<RoutingRow>) -> Seq<Row> {
    Seq::new(rows.len(), |i: int| rows[i]@)
}

/// Every remote's routing, in order.
pub open spec fn routing_of(rs: Seq<Remote>) -> Seq<Row> {
    Seq::new(
        rs.len(),
        |i: int|
            Row {
                name: rs[i].name,
                send_matrix: rs[i].send_matrix,
                receive_matrix: rs[i].receive_matrix,
            },
    )
}

/// What to do for a message, in this order. A command or a phase change is offered to its
/// channel where there is one.
pub enum Effect {
    /// Switch phase lock for a peer.
    Phase { peer: String, enabled: bool },
    Hot(HotCommand),
    /// Store the on-air flag.
    OnAir(bool),
    /// Have the settings written, soon.
    RequestSave,
    /// Tell every client a peer's phase-lock state.
    PhaseState { peer: String, enabled: bool },
    /// Tell every client the on-air state.
    OnAirState(bool),
    /// Tell every client the routing.
    Routing(Vec<RoutingRow>),
    /// Have the web UI's listener move to the configured address.
    Rebind,
    /// Answer this client whether its settings were written.
    ConfigSaved(bool),
}

#[verifier::ext_equal]
pub enum Eff {
    Phase { peer: Seq<char>, enabled: bool },
    Hot(Hot),
    OnAir(bool),
    RequestSave,
    PhaseState { peer: Seq<char>, enabled: bool },
    OnAirState(bool),
    Routing(Seq<Row>),
    Rebind,
    ConfigSaved(bool),
}

impl View for Effect {
    type V = Eff;

    open spec fn view(&self) -> Eff {
        match self {
            Effect::Phase { peer, enabled } => Eff::Phase { peer: peer@, enabled: *enabled },
            Effect::Hot(h) => Eff::Hot(h@),
            Effect::OnAir(on) => Eff::OnAir(*on),
            Effect::RequestSave => Eff::RequestSave,
            Effect::PhaseState { peer, enabled } => Eff::PhaseState {
                peer: peer@,
                enabled: *enabled,
            },
            Effect::OnAirState(on) => Eff::OnAirState(*on),
            Effect::Routing(rows) => Eff::Routing(row_views(rows@)),
            Effect::Rebind => Eff::Rebind,
            Effect::ConfigSaved(ok) => Eff::ConfigSaved(*ok),
        }
    }
}

pub open spec fn effect_views(es: Seq<Effect>) -> Seq<Eff> {
    Seq::new(es.len(), |i: int| es[i]@)
}

/// What a message is about.
#[derive(Clone, Copy, Debug, PartialEq, Eq, Structural)]
pub enum Kind {
    Phase,
    ToneRouting,
    SetFrameSize,
    SetMode,
    SetRemoteFrameSize,
    SetRemoteMode,
    SetEncryption,
    SetBuffer,
    SetExclusiveOutput,
    SetLabel,
    OnAir,
    SetBitrate,
    RoutingTx,
    RoutingRx,
    SaveConfig,
    Other,
}

/// The kind a message's type names.
pub open spec fn kind_of(name: Seq<char>) -> Kind {
    if name == "phase"@ {
        Kind::Phase
    } else if name == "tone_routing"@ {
        Kind::ToneRouting
    } else if name == "set_frame_size"@ {
        Kind::SetFrameSize
    } else if name == "set_mode"@ {
        Kind::SetMode
    } else if name == "set_remote_frame_size"@ {
        Kind::SetRemoteFrameSize
    } else if name == "set_remote_mode"@ {
        Kind::SetRemoteMode
    } else if name == "set_encryption"@ {
        Kind::SetEncryption
    } else if name == "set_buffer"@ {
        Kind::SetBuffer
    } else if name == "set_exclusive_output"@ {
        Kind::SetExclusiveOutput
    } else if name == "set_label"@ {
        Kind::SetLabel
    } else if name == "on_air"@ {
        Kind::OnAir
    } else if name == "set_bitrate"@ {
        Kind::SetBitrate
    } else if name == "routing_tx"@ {
        Kind::RoutingTx
    } else if name == "routing_rx"@ {
        Kind::RoutingRx
    } else if name == "save_config"@ {
        Kind::SaveConfig
    } else {
        Kind::Other
    }
}

pub fn kind_named(name: &str) -> (k: Kind)
    ensures
        k == kind_of(name@),
{
    if name_same(name, "phase") {
        Kind::Phase
    } else if name_same(name, "tone_routing") {
        Kind::ToneRouting
    } else if name_same(name, "set_frame_size") {
        Kind::SetFrameSize
    } else if name_same(name, "set_mode") {
        Kind::SetMode
    } else if name_same(name, "set_remote_frame_size") {
        Kind::SetRemoteFrameSize
    } else if name_same(name, "set_remote_mode") {
        Kind::SetRemoteMode
    } else if name_same(name, "set_encryption") {
        Kind::SetEncryption
    } else if name_same(name, "set_buffer") {
        Kind::SetBuffer
    } else if name_same(name, "set_exclusive_output") {
        Kind::SetExclusiveOutput
    } else if name_same(name, "set_label") {
        Kind::SetLabel
    } else if name_same(name, "on_air") {
        Kind::OnAir
    } else if name_same(name, "set_bitrate") {
        Kind::SetBitrate
    } else if name_same(name, "routing_tx") {
        Kind::RoutingTx
    } else if name_same(name, "routing_rx") {
        Kind::RoutingRx
    } else if name_same(name, "save_config") {
        Kind::SaveConfig
    } else {
        Kind::Other
    }
}

/// What a message carries, each member as it reads and none where it is missing or of
/// another type.
pub struct MessageFields {
    pub kind: Kind,
    pub peer: Option<String>,
    pub mode: Option<String>,
    pub label: Option<String>,
    pub matrix: Option<String>,
    pub enabled: Option<bool>,
    pub on: Option<bool>,
    /// The member `ms`, as a double's pattern and as an unsigned integer.
    pub ms_double: Option<u64>,
    pub ms: Option<u64>,
    pub channel: Option<u64>,
    pub kbps: Option<u64>,
    pub slots: Option<Vec<Option<u64>>>,
    /// What settings to save say of their remotes, where there are settings.
    pub config: Option<Vec<SentRemote>>,
}

#[verifier::ext_equal]
pub struct Fields {
    pub kind: Kind,
    pub peer: Option<Seq<char>>,
    pub mode: Option<Seq<char>>,
    pub label: Option<Seq<char>>,
    pub matrix: Option<Seq<char>>,
    pub enabled: Option<bool>,
    pub on: Option<bool>,
    pub ms_double: Option<u64>,
    pub ms: Option<u64>,
    pub channel: Option<u64>,
    pub kbps: Option<u64>,
    pub slots: Option<Seq<Option<u64>>>,
    pub config: Option<Seq<Sent>>,
}

impl View for MessageFields {
    type V = Fields;

    open spec fn view(&self) -> Fields {
        Fields {
            kind: self.kind,
            peer: chars_opt(self.peer),
            mode: chars_opt(self.mode),
            label: chars_opt(self.label),
            matrix: chars_opt(self.matrix),
            enabled: self.enabled,
            on: self.on,
            ms_double: self.ms_double,
            ms: self.ms,
            channel: self.channel,
            kbps: self.kbps,
            slots: match self.slots {
                Some(s) => Some(s@),
                None => None,
            },
            config: match self.config {
                Some(s) => Some(sent_views(s@)),
                None => None,
            },
        }
    }
}

/// What a JSON message carries.
pub open spec fn fields_of(j: Json) -> Fields {
    Fields {
        kind: match text_of(member(j, "type"@)) {
            Some(name) => kind_of(name),
            None => Kind::Other,
        },
        peer: text_of(member(j, "peer"@)),
        mode: text_of(member(j, "mode"@)),
        label: text_of(member(j, "label"@)),
        matrix: text_of(member(j, "matrix"@)),
        enabled: bool_of(member(j, "enabled"@)),
        on: bool_of(member(j, "on"@)),
        ms_double: double_of(member(j, "ms"@)),
        ms: unsigned_of(member(j, "ms"@)),
        channel: unsigned_of(member(j, "channel"@)),
        kbps: unsigned_of(member(j, "kbps"@)),
        slots: match array_of(member(j, "slots"@)) {
            Some(s) => Some(unsigned_elements(s)),
            None => None,
        },
        config: match member(j, "config"@) {
            Some(c) => Some(sent_in(c)),
            None => None,
        },
    }
}

/// Read what a message carries.
pub fn read_fields(v: &serde_json::Value) -> (f: MessageFields)
    ensures
        f@ == fields_of(json_of(*v)),
{
    let kind: Kind = match text_member(v, "type") {
        Some(name) => kind_named(name.as_str()),
        None => Kind::Other,
    };
    let config: Option<Vec<SentRemote>> = match json_get(v, "config") {
        Some(c) => Some(sent_remotes(c)),
        None => None,
    };
    let f = MessageFields {
        kind,
        peer: text_member(v, "peer"),
        mode: text_member(v, "mode"),
        label: text_member(v, "label"),
        matrix: text_member(v, "matrix"),
        enabled: bool_member(v, "enabled"),
        on: bool_member(v, "on"),
        ms_double: double_member(v, "ms"),
        ms: unsigned_member(v, "ms"),
        channel: unsigned_member(v, "channel"),
        kbps: unsigned_member(v, "kbps"),
        slots: unsigned_array_member(v, "slots"),
        config,
    };
    assert(f@ =~= fields_of(json_of(*v)));
    f
}

/// What a settings save still has to do once the settings are written.
pub struct SavePlan {
    /// The audio socket's new address, where it moved.
    pub bind: Option<(String, u16)>,
    /// The remotes to set up again under a new name of this instance.
    pub readd: Vec<RemoteConfig>,
    /// The new devices, where they changed.
    pub input: Option<String>,
    pub output: Option<String>,
    pub routing: Vec<RoutingRow>,
}

#[verifier::ext_equal]
pub struct Plan {
    pub bind: Option<(Seq<char>, u16)>,
    pub readd: Seq<Remote>,
    pub input: Option<Seq<char>>,
    pub output: Option<Seq<char>>,
    pub routing: Seq<Row>,
}

impl View for SavePlan {
    type V = Plan;

    open spec fn view(&self) -> Plan {
        Plan {
            bind: match self.bind {
                Some(b) => Some((b.0@, b.1)),
                None => None,
            },
            readd: remotes_of(self.readd@),
            input: chars_opt(self.input),
            output: chars_opt(self.output),
            routing: row_views(self.routing@),
        }
    }
}

/// What a message turned into.
pub struct Handled {
    pub effects: Vec<Effect>,
    /// The settings changed and are to be written now; what follows once they are.
    pub save: Option<SavePlan>,
}

#[verifier::ext_equal]
pub struct Outcome {
    pub settings: Settings,
    pub effects: Seq<Eff>,
    pub save: Option<Plan>,
}

/// A message that changes no settings.
pub open spec fn only(cfg: Settings, effects: Seq<Eff>) -> Outcome {
    Outcome { settings: cfg, effects, save: None }
}

/// One command, where a message names a peer at all.
pub open spec fn for_peer(cfg: Settings, peer: Option<Seq<char>>, command: Hot) -> Outcome {
    if peer is Some && peer->Some_0.len() > 0 {
        only(cfg, seq![Eff::Hot(command)])
    } else {
        only(cfg, Seq::empty())
    }
}

pub open spec fn or_text(s: Option<Seq<char>>, default: Seq<char>) -> Seq<char> {
    match s {
        Some(x) => x,
        None => default,
    }
}

/// A tone slot: the low byte of its number, and 2 at most; anything else is none.
pub open spec fn tone_slot(n: Option<u64>) -> u8 {
    let low = match n {
        Some(x) => x as int % 256,
        None => 0,
    };
    if low < 2 {
        low as u8
    } else {
        2
    }
}

pub open spec fn tone_slots(s: Seq<Option<u64>>) -> Seq<u8> {
    Seq::new(s.len(), |i: int| tone_slot(s[i]))
}

/// The remotes with the first of this name changed.
pub open spec fn with_remote(
    rs: Seq<Remote>,
    name: Seq<char>,
    change: spec_fn(Remote) -> Remote,
) -> Seq<Remote> {
    match find(rs, name) {
        Some(i) => rs.update(i, change(rs[i])),
        None => rs,
    }
}

/// A matrix as it is stored: an empty one is none.
pub open spec fn stored_matrix(m: Seq<char>) -> Option<Seq<char>> {
    if m.len() == 0 {
        None
    } else {
        Some(m)
    }
}

/// The name of every remote that is gone, in order, over the first `n` old ones.
pub open spec fn removals(old: Seq<Remote>, new: Seq<Remote>, n: int) -> Seq<Eff>
    decreases n,
{
    if n <= 0 {
        Seq::empty()
    } else if find(new, old[n - 1].name) is None {
        removals(old, new, n - 1).push(Eff::Hot(Hot::RemoveRemote(old[n - 1].name)))
    } else {
        removals(old, new, n - 1)
    }
}

/// What a remote's new settings ask for against its old ones.
pub open spec fn remote_change(old: Option<Remote>, new: Remote) -> Seq<Eff> {
    match old {
        None => if new.enabled {
            seq![Eff::Hot(Hot::AddRemote(new))]
        } else {
            Seq::empty()
        },
        Some(o) => if o.enabled && !new.enabled {
            seq![Eff::Hot(Hot::DisableRemote(new.name))]
        } else if new.enabled && (!o.enabled || o.host != new.host || o.port != new.port
            || o.password != new.password) {
            seq![Eff::Hot(Hot::AddRemote(new))]
        } else {
            Seq::empty()
        },
    }
}

pub open spec fn old_remote(old: Seq<Remote>, name: Seq<char>) -> Option<Remote> {
    match find(old, name) {
        Some(i) => Some(old[i]),
        None => None,
    }
}

/// What the first `n` new remotes ask for, in order.
pub open spec fn changes(old: Seq<Remote>, new: Seq<Remote>, n: int) -> Seq<Eff>
    decreases n,
{
    if n <= 0 {
        Seq::empty()
    } else {
        changes(old, new, n - 1) + remote_change(old_remote(old, new[n - 1].name), new[n - 1])
    }
}

/// The enabled ones of the first `n` remotes.
pub open spec fn enabled_of(rs: Seq<Remote>, n: int) -> Seq<Remote>
    decreases n,
{
    if n <= 0 {
        Seq::empty()
    } else if rs[n - 1].enabled {
        enabled_of(rs, n - 1).push(rs[n - 1])
    } else {
        enabled_of(rs, n - 1)
    }
}

/// The settings a save leaves: those sent, with what a save does not set put back and voice
/// on its one frame size.
pub open spec fn committed(typed: Settings, sent: Seq<Sent>, old: Settings) -> Settings {
    let put_back = restored_all(typed.remotes, sent, old.remotes);
    Settings {
        remotes: Seq::new(put_back.len(), |i: int| voice_normalised(put_back[i])),
        ..typed
    }
}

/// What is left to do of a change of settings once they are written.
pub open spec fn plan_for(old: Settings, new: Settings) -> Plan {
    Plan {
        bind: if old.port != new.port || old.network_interface != new.network_interface {
            Some((new.network_interface, new.port))
        } else {
            None
        },
        readd: if old.name != new.name {
            enabled_of(new.remotes, new.remotes.len() as int)
        } else {
            Seq::empty()
        },
        input: if old.input_device != new.input_device {
            Some(new.input_device)
        } else {
            None
        },
        output: if old.output_device != new.output_device {
            Some(new.output_device)
        } else {
            None
        },
        routing: routing_of(new.remotes),
    }
}

/// What a change of settings asks for at once: the listener's move, then the remotes.
pub open spec fn save_effects(old: Settings, new: Settings) -> Seq<Eff> {
    (if old.api_port != new.api_port || old.api_bind != new.api_bind {
        seq![Eff::Rebind]
    } else {
        Seq::empty()
    }) + removals(old.remotes, new.remotes, old.remotes.len() as int) + changes(
        old.remotes,
        new.remotes,
        new.remotes.len() as int,
    )
}

/// What a message turns into. `typed` is its settings member read as settings.
pub open spec fn handled(f: Fields, typed: Option<Settings>, cfg: Settings) -> Outcome {
    match f.kind {
        Kind::Phase => match (f.peer, f.enabled) {
            (Some(peer), Some(enabled)) => Outcome {
                settings: Settings {
                    remotes: with_remote(
                        cfg.remotes,
                        peer,
                        |r: Remote| Remote { phase_lock: enabled, ..r },
                    ),
                    ..cfg
                },
                effects: seq![
                    Eff::Phase { peer, enabled },
                    Eff::RequestSave,
                    Eff::PhaseState { peer, enabled },
                ],
                save: None,
            },
            _ => only(cfg, Seq::empty()),
        },
        Kind::ToneRouting => match (f.peer, f.slots) {
            (Some(peer), Some(slots)) => only(
                cfg,
                seq![Eff::Hot(Hot::SetTone { peer, slots: tone_slots(slots) })],
            ),
            _ => only(cfg, Seq::empty()),
        },
        Kind::SetFrameSize => only(
            cfg,
            seq![
                Eff::Hot(
                    Hot::SetFrameSize {
                        frame_ms: match f.ms_double {
                            Some(x) => x,
                            None => FRAME_MS_DEFAULT,
                        },
                    },
                ),
            ],
        ),
        Kind::SetMode => only(
            cfg,
            seq![Eff::Hot(Hot::SetMode { mode: or_text(f.mode, "audio"@) })],
        ),
        Kind::SetRemoteFrameSize => for_peer(
            cfg,
            f.peer,
            Hot::SetRemoteFrameSize {
                peer: f.peer->Some_0,
                frame_ms: match f.ms_double {
                    Some(x) => x,
                    None => FRAME_MS_DEFAULT,
                },
            },
        ),
        Kind::SetRemoteMode => for_peer(
            cfg,
            f.peer,
            Hot::SetRemoteMode { peer: f.peer->Some_0, mode: or_text(f.mode, "audio"@) },
        ),
        Kind::SetEncryption => for_peer(
            cfg,
            f.peer,
            Hot::SetEncryption { peer: f.peer->Some_0, on: f.on == Some(true) },
        ),
        Kind::SetBuffer => for_peer(
            cfg,
            f.peer,
            Hot::SetReceiveBuffer {
                peer: f.peer->Some_0,
                ms: match f.ms {
                    Some(x) => (x as int % 0x1_0000_0000) as u32,
                    None => BUFFER_MS_DEFAULT,
                },
            },
        ),
        Kind::SetExclusiveOutput => only(
            cfg,
            seq![Eff::Hot(Hot::SetExclusiveOutput(f.on == Some(true)))],
        ),
        Kind::SetLabel => match (f.channel, f.label) {
            (Some(ch), Some(label)) => only(
                cfg,
                seq![
                    Eff::Hot(
                        Hot::SetLabel {
                            channel: if ch < OUTGOING_CHANNELS_MAX {
                                ch as usize
                            } else {
                                (OUTGOING_CHANNELS_MAX - 1) as usize
                            },
                            label,
                        },
                    ),
                ],
            ),
            _ => only(cfg, Seq::empty()),
        },
        Kind::OnAir => {
            let on = f.enabled != Some(false);
            only(cfg, seq![Eff::OnAir(on), Eff::OnAirState(on), Eff::Hot(Hot::SetOnAir(on))])
        },
        Kind::SetBitrate => only(
            cfg,
            seq![
                Eff::Hot(
                    Hot::SetBitrate(
                        match f.kbps {
                            Some(x) => (x as int % 0x1_0000_0000) as u32,
                            None => BITRATE_DEFAULT,
                        },
                    ),
                ),
            ],
        ),
        Kind::RoutingTx => match (f.peer, f.matrix) {
            (Some(peer), Some(matrix)) => {
                let settings = Settings {
                    remotes: with_remote(
                        cfg.remotes,
                        peer,
                        |r: Remote| Remote { send_matrix: stored_matrix(matrix), ..r },
                    ),
                    ..cfg
                };
                Outcome {
                    settings,
                    effects: seq![
                        Eff::Hot(Hot::SetSendRouting { peer, matrix }),
                        Eff::RequestSave,
                        Eff::Routing(routing_of(settings.remotes)),
                    ],
                    save: None,
                }
            },
            _ => only(cfg, Seq::empty()),
        },
        Kind::RoutingRx => match (f.peer, f.matrix) {
            (Some(peer), Some(matrix)) => {
                let settings = Settings {
                    remotes: with_remote(
                        cfg.remotes,
                        peer,
                        |r: Remote| Remote { receive_matrix: stored_matrix(matrix), ..r },
                    ),
                    ..cfg
                };
                Outcome {
                    settings,
                    effects: seq![
                        Eff::Hot(Hot::SetReceiveRouting { peer, matrix }),
                        Eff::RequestSave,
                        Eff::Routing(routing_of(settings.remotes)),
                    ],
                    save: None,
                }
            },
            _ => only(cfg, Seq::empty()),
        },
        Kind::SaveConfig => match (f.config, typed) {
            (Some(sent), Some(t)) => {
                let new = committed(t, sent, cfg);
                Outcome {
                    settings: new,
                    effects: save_effects(cfg, new),
                    save: Some(plan_for(cfg, new)),
                }
            },
            _ => only(cfg, Seq::empty()),
        },
        Kind::Other => only(cfg, Seq::empty()),
    }
}

/// The outcome of what a function returned and the settings it left.
pub open spec fn outcome_of(h: Handled, cfg: Settings) -> Outcome {
    Outcome {
        settings: cfg,
        effects: effect_views(h.effects@),
        save: match h.save {
            Some(p) => Some(p@),
            None => None,
        },
    }
}

fn nothing() -> (h: Handled)
    ensures
        effect_views(h.effects@) == Seq::<Eff>::empty(),
        h.save is None,
{
    let h = Handled { effects: Vec::new(), save: None };
    assert(effect_views(h.effects@) =~= Seq::<Eff>::empty());
    h
}

fn one(e: Effect) -> (h: Handled)
    ensures
        effect_views(h.effects@) == seq![e@],
        h.save is None,
{
    let mut effects: Vec<Effect> = Vec::new();
    effects.push(e);
    assert(effect_views(effects@) =~= seq![e@]);
    Handled { effects, save: None }
}

fn three(a: Effect, b: Effect, c: Effect) -> (h: Handled)
    ensures
        effect_views(h.effects@) == seq![a@, b@, c@],
        h.save is None,
{
    let mut effects: Vec<Effect> = Vec::new();
    effects.push(a);
    effects.push(b);
    effects.push(c);
    assert(effect_views(effects@) =~= seq![a@, b@, c@]);
    Handled { effects, save: None }
}

/// The routing of every remote, as clients are told of it.
pub fn build_routing_snapshot(remotes: &Vec<RemoteConfig>) -> (rows: Vec<RoutingRow>)
    ensures
        row_views(rows@) == routing_of(remotes_of(remotes@)),
{
    let mut rows: Vec<RoutingRow> = Vec::new();
    let mut i: usize = 0;
    while i < remotes.len()
        invariant
            i <= remotes@.len(),
            rows@.len() == i,
            forall|j: int|
                0 <= j < i ==> (#[trigger] rows@[j])@ == (Row {
                    name: remotes@[j].name@,
                    send_matrix: chars_opt(remotes@[j].send_matrix),
                    receive_matrix: chars_opt(remotes@[j].receive_matrix),
                }),
        decreases remotes@.len() - i,
    {
        let r: &RemoteConfig = &remotes[i];
        rows.push(
            RoutingRow {
                name: r.name.as_str().to_owned(),
                send_matrix: crate::api::config::copy_text(&r.send_matrix),
                receive_matrix: crate::api::config::copy_text(&r.receive_matrix),
            },
        );
        i = i + 1;
    }
    assert(row_views(rows@) =~= routing_of(remotes_of(remotes@)));
    rows
}

/// A matrix as it is stored.
fn matrix_to_store(m: &str) -> (s: Option<String>)
    ensures
        chars_opt(s) == stored_matrix(m@),
{
    if m.is_empty() {
        None
    } else {
        Some(m.to_owned())
    }
}

fn tone_slots_of(s: &Vec<Option<u64>>) -> (slots: Vec<u8>)
    ensures
        slots@ == tone_slots(s@),
{
    let mut slots: Vec<u8> = Vec::new();
    let mut i: usize = 0;
    while i < s.len()
        invariant
            i <= s@.len(),
            slots@.len() == i,
            forall|j: int| 0 <= j < i ==> #[trigger] slots@[j] == tone_slot(s@[j]),
        decreases s@.len() - i,
    {
        let low: u64 = match s[i] {
            Some(x) => x % 256,
            None => 0,
        };
        slots.push(
            if low < 2 {
                low as u8
            } else {
                2
            },
        );
        i = i + 1;
    }
    assert(slots@ =~= tone_slots(s@));
    slots
}

fn set_phase_lock(cfg: &mut Config, peer: &str, enabled: bool)
    ensures
        final(cfg)@ == (Settings {
            remotes: with_remote(
                old(cfg)@.remotes,
                peer@,
                |r: Remote| Remote { phase_lock: enabled, ..r },
            ),
            ..old(cfg)@
        }),
{
    let ghost before = cfg@.remotes;
    if let Some(i) = find_remote(&cfg.remotes, peer) {
        let mut r: RemoteConfig = cfg.remotes.remove(i);
        r.phase_lock = enabled;
        cfg.remotes.insert(i, r);
    }
    assert(cfg@.remotes =~= with_remote(
        before,
        peer@,
        |r: Remote| Remote { phase_lock: enabled, ..r },
    ));
}

fn set_send_matrix(cfg: &mut Config, peer: &str, matrix: &str)
    ensures
        final(cfg)@ == (Settings {
            remotes: with_remote(
                old(cfg)@.remotes,
                peer@,
                |r: Remote| Remote { send_matrix: stored_matrix(matrix@), ..r },
            ),
            ..old(cfg)@
        }),
{
    let ghost before = cfg@.remotes;
    if let Some(i) = find_remote(&cfg.remotes, peer) {
        let mut r: RemoteConfig = cfg.remotes.remove(i);
        r.send_matrix = matrix_to_store(matrix);
        cfg.remotes.insert(i, r);
    }
    assert(cfg@.remotes =~= with_remote(
        before,
        peer@,
        |r: Remote| Remote { send_matrix: stored_matrix(matrix@), ..r },
    ));
}

fn set_receive_matrix(cfg: &mut Config, peer: &str, matrix: &str)
    ensures
        final(cfg)@ == (Settings {
            remotes: with_remote(
                old(cfg)@.remotes,
                peer@,
                |r: Remote| Remote { receive_matrix: stored_matrix(matrix@), ..r },
            ),
            ..old(cfg)@
        }),
{
    let ghost before = cfg@.remotes;
    if let Some(i) = find_remote(&cfg.remotes, peer) {
        let mut r: RemoteConfig = cfg.remotes.remove(i);
        r.receive_matrix = matrix_to_store(matrix);
        cfg.remotes.insert(i, r);
    }
    assert(cfg@.remotes =~= with_remote(
        before,
        peer@,
        |r: Remote| Remote { receive_matrix: stored_matrix(matrix@), ..r },
    ));
}

/// Append the commands for the remotes that are gone.
fn push_removals(before_save: &Vec<RemoteConfig>, new: &Vec<RemoteConfig>, effects: &mut Vec<Effect>)
    ensures
        effect_views(final(effects)@) == effect_views(old(effects)@) + removals(
            remotes_of(before_save@),
            remotes_of(new@),
            before_save@.len() as int,
        ),
{
    let ghost before = effect_views(effects@);
    let mut i: usize = 0;
    assert(effect_views(effects@) =~= before + removals(remotes_of(before_save@), remotes_of(new@), 0));
    while i < before_save.len()
        invariant
            i <= before_save@.len(),
            effect_views(effects@) == before + removals(
                remotes_of(before_save@),
                remotes_of(new@),
                i as int,
            ),
        decreases before_save@.len() - i,
    {
        let ghost held = effect_views(effects@);
        if find_remote(new, before_save[i].name.as_str()).is_none() {
            effects.push(Effect::Hot(HotCommand::RemoveRemote(before_save[i].name.as_str().to_owned())));
            assert(effect_views(effects@) =~= held.push(
                Eff::Hot(Hot::RemoveRemote(remotes_of(before_save@)[i as int].name)),
            ));
        }
        i = i + 1;
        assert(effect_views(effects@) =~= before + removals(
            remotes_of(before_save@),
            remotes_of(new@),
            i as int,
        ));
    }
}

/// Append the commands the new remotes ask for.
fn push_changes(before_save: &Vec<RemoteConfig>, new: &Vec<RemoteConfig>, effects: &mut Vec<Effect>)
    ensures
        effect_views(final(effects)@) == effect_views(old(effects)@) + changes(
            remotes_of(before_save@),
            remotes_of(new@),
            new@.len() as int,
        ),
{
    let ghost before = effect_views(effects@);
    let mut i: usize = 0;
    assert(effect_views(effects@) =~= before + changes(remotes_of(before_save@), remotes_of(new@), 0));
    while i < new.len()
        invariant
            i <= new@.len(),
            effect_views(effects@) == before + changes(remotes_of(before_save@), remotes_of(new@), i as int),
        decreases new@.len() - i,
    {
        let ghost held = effect_views(effects@);
        let r: &RemoteConfig = &new[i];
        let ghost o = old_remote(remotes_of(before_save@), r@.name);
        // What to do: nothing, take down, or set up.
        let disable: bool;
        let add_again: bool;
        match find_remote(before_save, r.name.as_str()) {
            None => {
                disable = false;
                add_again = r.enabled;
            },
            Some(k) => {
                let was: &RemoteConfig = &before_save[k];
                let details_changed: bool = !name_same(was.host.as_str(), r.host.as_str())
                    || was.port != r.port || !name_same(
                    was.password.as_str(),
                    r.password.as_str(),
                );
                disable = was.enabled && !r.enabled;
                add_again = r.enabled && (!was.enabled || details_changed);
                assert(o == Some(was@));
            },
        }
        if disable {
            effects.push(Effect::Hot(HotCommand::DisableRemote(r.name.as_str().to_owned())));
        } else if add_again {
            effects.push(Effect::Hot(HotCommand::AddRemote(r.copy())));
        }
        assert(effect_views(effects@) =~= held + remote_change(o, r@));
        i = i + 1;
        assert(effect_views(effects@) =~= before + changes(
            remotes_of(before_save@),
            remotes_of(new@),
            i as int,
        ));
    }
}

/// The remotes that are switched on, copied.
fn enabled_remotes(rs: &Vec<RemoteConfig>) -> (on: Vec<RemoteConfig>)
    ensures
        remotes_of(on@) == enabled_of(remotes_of(rs@), rs@.len() as int),
{
    let mut on: Vec<RemoteConfig> = Vec::new();
    let mut i: usize = 0;
    assert(remotes_of(on@) =~= enabled_of(remotes_of(rs@), 0));
    while i < rs.len()
        invariant
            i <= rs@.len(),
            remotes_of(on@) == enabled_of(remotes_of(rs@), i as int),
        decreases rs@.len() - i,
    {
        let ghost held = remotes_of(on@);
        if rs[i].enabled {
            on.push(rs[i].copy());
            assert(remotes_of(on@) =~= held.push(remotes_of(rs@)[i as int]));
        }
        i = i + 1;
    }
    on
}

fn normalise_all(cfg: &mut Config)
    ensures
        final(cfg)@ == (Settings {
            remotes: Seq::new(
                old(cfg)@.remotes.len(),
                |i: int| voice_normalised(old(cfg)@.remotes[i]),
            ),
            ..old(cfg)@
        }),
{
    let ghost before = cfg.remotes@;
    let n: usize = cfg.remotes.len();
    let mut i: usize = 0;
    while i < n
        invariant
            i <= n,
            n == before.len(),
            cfg.general == old(cfg).general,
            cfg.audio == old(cfg).audio,
            cfg.api == old(cfg).api,
            cfg.remotes@.len() == n,
            forall|j: int|
                0 <= j < n ==> (#[trigger] cfg.remotes@[j])@ == (if j < i {
                    voice_normalised(before[j]@)
                } else {
                    before[j]@
                }),
        decreases n - i,
    {
        let mut r: RemoteConfig = cfg.remotes.remove(i);
        r.normalise_voice();
        cfg.remotes.insert(i, r);
        i = i + 1;
    }
    assert(cfg@.remotes =~= Seq::new(
        old(cfg)@.remotes.len(),
        |i: int| voice_normalised(old(cfg)@.remotes[i]),
    ));
}

/// What is left to do of a change of settings once they are written.
fn plan_save(old: &Config, new: &Config) -> (p: SavePlan)
    ensures
        p@ == plan_for(old@, new@),
{
    let bind_changed: bool = old.general.port != new.general.port || !name_same(
        old.general.network_interface.as_str(),
        new.general.network_interface.as_str(),
    );
    let renamed: bool = !name_same(old.general.name.as_str(), new.general.name.as_str());
    let input_changed: bool = !name_same(
        old.audio.input_device.as_str(),
        new.audio.input_device.as_str(),
    );
    let output_changed: bool = !name_same(
        old.audio.output_device.as_str(),
        new.audio.output_device.as_str(),
    );
    let p = SavePlan {
        bind: if bind_changed {
            Some((new.general.network_interface.as_str().to_owned(), new.general.port))
        } else {
            None
        },
        readd: if renamed {
            enabled_remotes(&new.remotes)
        } else {
            Vec::new()
        },
        input: if input_changed {
            Some(new.audio.input_device.as_str().to_owned())
        } else {
            None
        },
        output: if output_changed {
            Some(new.audio.output_device.as_str().to_owned())
        } else {
            None
        },
        routing: build_routing_snapshot(&new.remotes),
    };
    assert(p@.readd =~= plan_for(old@, new@).readd);
    p
}

/// Take in settings a client saved: `typed` replaces the settings, with what a save does not
/// set put back, and what that changes is worked out against the settings before.
fn save_config(typed: Config, sent: &Vec<SentRemote>, cfg: &mut Config) -> (h: Handled)
    ensures
        outcome_of(h, final(cfg)@) == ({
            let new = committed(typed@, sent_views(sent@), old(cfg)@);
            Outcome {
                settings: new,
                effects: save_effects(old(cfg)@, new),
                save: Some(plan_for(old(cfg)@, new)),
            }
        }),
{
    let mut new_cfg: Config = typed;
    restore_fields(&mut new_cfg, sent, cfg);
    normalise_all(&mut new_cfg);
    assert(new_cfg@ =~= committed(typed@, sent_views(sent@), cfg@));
    let mut effects: Vec<Effect> = Vec::new();
    assert(effect_views(effects@) =~= Seq::<Eff>::empty());
    if cfg.api.port != new_cfg.api.port || !name_same(
        cfg.api.bind.as_str(),
        new_cfg.api.bind.as_str(),
    ) {
        effects.push(Effect::Rebind);
        assert(effect_views(effects@) =~= seq![Eff::Rebind]);
    }
    push_removals(&cfg.remotes, &new_cfg.remotes, &mut effects);
    push_changes(&cfg.remotes, &new_cfg.remotes, &mut effects);
    let plan: SavePlan = plan_save(cfg, &new_cfg);
    *cfg = new_cfg;
    Handled { effects, save: Some(plan) }
}

/// `g` is `f` with the label it sets cut to what the wire carries: `to` is what the cap gives
/// for the label sent.
pub open spec fn label_cut<F: Fn(String) -> String>(cap: F, f: Fields, g: Fields) -> bool {
    if f.kind == Kind::SetLabel && f.channel is Some && f.label is Some {
        exists|from: String, to: String|
            from@ == f.label->Some_0 && #[trigger] call_ensures(cap, (from,), to) && g == (Fields {
                label: Some(to@),
                ..f
            })
    } else {
        g == f
    }
}

/// Decide on a message. `typed` is the message's settings member read as settings, where it
/// has one and it reads as such; it counts for a save alone. `cap` cuts a label to what the
/// wire carries. The settings change in place.
pub fn handle_message<F: Fn(String) -> String>(
    f: MessageFields,
    typed: Option<Config>,
    cap: F,
    cfg: &mut Config,
) -> (h: Handled)
    requires
        forall|label: String| #[trigger] call_requires(cap, (label,)),
    ensures
        exists|g: Fields| #[trigger]
            label_cut(cap, f@, g) && outcome_of(h, final(cfg)@) == handled(
                g,
                match typed {
                    Some(t) => Some(t@),
                    None => None,
                },
                old(cfg)@,
            ),
{
    let ghost sent = f@;
    assert(f.kind != Kind::SetLabel ==> label_cut(cap, sent, sent));
    match f.kind {
        Kind::Phase => {
            match (f.peer, f.enabled) {
                (Some(peer), Some(enabled)) => {
                    set_phase_lock(cfg, peer.as_str(), enabled);
                    three(
                        Effect::Phase { peer: peer.as_str().to_owned(), enabled },
                        Effect::RequestSave,
                        Effect::PhaseState { peer, enabled },
                    )
                },
                _ => nothing(),
            }
        },
        Kind::ToneRouting => {
            match (f.peer, f.slots) {
                (Some(peer), Some(slots)) => one(
                    Effect::Hot(HotCommand::SetTone { peer, slots: tone_slots_of(&slots) }),
                ),
                _ => nothing(),
            }
        },
        Kind::SetFrameSize => {
            let frame_ms: u64 = match f.ms_double {
                Some(x) => x,
                None => FRAME_MS_DEFAULT,
            };
            one(Effect::Hot(HotCommand::SetFrameSize { frame_ms }))
        },
        Kind::SetMode => {
            let mode: String = match f.mode {
                Some(m) => m,
                None => "audio".to_owned(),
            };
            one(Effect::Hot(HotCommand::SetMode { mode }))
        },
        Kind::SetRemoteFrameSize => {
            match f.peer {
                Some(peer) => {
                    if peer.as_str().is_empty() {
                        nothing()
                    } else {
                        let frame_ms: u64 = match f.ms_double {
                            Some(x) => x,
                            None => FRAME_MS_DEFAULT,
                        };
                        one(Effect::Hot(HotCommand::SetRemoteFrameSize { peer, frame_ms }))
                    }
                },
                None => nothing(),
            }
        },
        Kind::SetRemoteMode => {
            match f.peer {
                Some(peer) => {
                    if peer.as_str().is_empty() {
                        nothing()
                    } else {
                        let mode: String = match f.mode {
                            Some(m) => m,
                            None => "audio".to_owned(),
                        };
                        one(Effect::Hot(HotCommand::SetRemoteMode { peer, mode }))
                    }
                },
                None => nothing(),
            }
        },
        Kind::SetEncryption => {
            match f.peer {
                Some(peer) => {
                    if peer.as_str().is_empty() {
                        nothing()
                    } else {
                        let on: bool = match f.on {
                            Some(b) => b,
                            None => false,
                        };
                        one(Effect::Hot(HotCommand::SetEncryption { peer, on }))
                    }
                },
                None => nothing(),
            }
        },
        Kind::SetBuffer => {
            match f.peer {
                Some(peer) => {
                    if peer.as_str().is_empty() {
                        nothing()
                    } else {
                        let ms: u32 = match f.ms {
                            Some(x) => (x % 0x1_0000_0000) as u32,
                            None => BUFFER_MS_DEFAULT,
                        };
                        one(Effect::Hot(HotCommand::SetReceiveBuffer { peer, ms }))
                    }
                },
                None => nothing(),
            }
        },
        Kind::SetExclusiveOutput => {
            let on: bool = match f.on {
                Some(b) => b,
                None => false,
            };
            one(Effect::Hot(HotCommand::SetExclusiveOutput(on)))
        },
        Kind::SetLabel => {
            match (f.channel, f.label) {
                (Some(ch), Some(label)) => {
                    let channel: usize = if ch < OUTGOING_CHANNELS_MAX as u64 {
                        ch as usize
                    } else {
                        OUTGOING_CHANNELS_MAX - 1
                    };
                    let ghost from = label;
                    let label: String = cap(label);
                    assert(call_ensures(cap, (from,), label));
                    assert(label_cut(cap, sent, (Fields { label: Some(label@), ..sent })));
                    one(Effect::Hot(HotCommand::SetLabel { channel, label }))
                },
                _ => {
                    assert(label_cut(cap, sent, sent));
                    nothing()
                },
            }
        },
        Kind::OnAir => {
            let on: bool = match f.enabled {
                Some(b) => b,
                None => true,
            };
            three(
                Effect::OnAir(on),
                Effect::OnAirState(on),
                Effect::Hot(HotCommand::SetOnAir(on)),
            )
        },
        Kind::SetBitrate => {
            let kbps: u32 = match f.kbps {
                Some(x) => (x % 0x1_0000_0000) as u32,
                None => BITRATE_DEFAULT,
            };
            one(Effect::Hot(HotCommand::SetBitrate(kbps)))
        },
        Kind::RoutingTx => {
            match (f.peer, f.matrix) {
                (Some(peer), Some(matrix)) => {
                    set_send_matrix(cfg, peer.as_str(), matrix.as_str());
                    let rows: Vec<RoutingRow> = build_routing_snapshot(&cfg.remotes);
                    three(
                        Effect::Hot(HotCommand::SetSendRouting { peer, matrix }),
                        Effect::RequestSave,
                        Effect::Routing(rows),
                    )
                },
                _ => nothing(),
            }
        },
        Kind::RoutingRx => {
            match (f.peer, f.matrix) {
                (Some(peer), Some(matrix)) => {
                    set_receive_matrix(cfg, peer.as_str(), matrix.as_str());
                    let rows: Vec<RoutingRow> = build_routing_snapshot(&cfg.remotes);
                    three(
                        Effect::Hot(HotCommand::SetReceiveRouting { peer, matrix }),
                        Effect::RequestSave,
                        Effect::Routing(rows),
                    )
                },
                _ => nothing(),
            }
        },
        Kind::SaveConfig => {
            match (f.config, typed) {
                (Some(sent), Some(t)) => save_config(t, &sent, cfg),
                _ => nothing(),
            }
        },
        Kind::Other => nothing(),
    }
}

/// Handle a client's message. One that is no JSON, or of no known kind, asks for nothing.
pub fn handle_ws_msg<F: Fn(String) -> String>(
    text: &str,
    typed: Option<Config>,
    cap: F,
    cfg: &mut Config,
) -> (h: Handled)
    requires
        forall|label: String| #[trigger] call_requires(cap, (label,)),
    ensures
        match json_read(text@) {
            Some(j) => exists|g: Fields| #[trigger]
                label_cut(cap, fields_of(j), g) && outcome_of(h, final(cfg)@) == handled(
                    g,
                    match typed {
                        Some(t) => Some(t@),
                        None => None,
                    },
                    old(cfg)@,
                ),
            None => outcome_of(h, final(cfg)@) == only(old(cfg)@, Seq::empty()),
        },
{
    match read_json(text) {
        Some(v) => {
            let f: MessageFields = read_fields(&v);
            handle_message(f, typed, cap, cfg)
        },
        None => nothing(),
    }
}

/// The commands that set these remotes up again.
pub open spec fn readds(rs: Seq<Remote>) -> Seq<Eff> {
    Seq::new(rs.len(), |i: int| Eff::Hot(Hot::AddRemote(rs[i])))
}

/// What follows a save: the answer, then, where the settings were written, everything that
/// picks them up.
pub open spec fn after(p: Plan, ok: bool) -> Seq<Eff> {
    if !ok {
        seq![Eff::ConfigSaved(false)]
    } else {
        seq![Eff::ConfigSaved(true), Eff::Routing(p.routing)] + (match p.bind {
            Some(b) => seq![Eff::Hot(Hot::SetBindAddress { iface: b.0, port: b.1 })],
            None => Seq::empty(),
        }) + readds(p.readd) + (match p.input {
            Some(d) => seq![Eff::Hot(Hot::SetInputDevice(d))],
            None => Seq::empty(),
        }) + (match p.output {
            Some(d) => seq![Eff::Hot(Hot::SetOutputDevice(d))],
            None => Seq::empty(),
        })
    }
}

/// The settings were written, or could not be. They apply either way; a failed write is said.
pub fn after_save(p: SavePlan, ok: bool) -> (effects: Vec<Effect>)
    ensures
        effect_views(effects@) == after(p@, ok),
{
    let ghost plan = p@;
    let mut effects: Vec<Effect> = Vec::new();
    effects.push(Effect::ConfigSaved(ok));
    if !ok {
        assert(effect_views(effects@) =~= seq![Eff::ConfigSaved(false)]);
        return effects;
    }
    effects.push(Effect::Routing(p.routing));
    let ghost mut want = seq![Eff::ConfigSaved(true), Eff::Routing(plan.routing)];
    assert(effect_views(effects@) =~= want);
    if let Some(b) = p.bind {
        effects.push(Effect::Hot(HotCommand::SetBindAddress { iface: b.0, port: b.1 }));
    }
    proof {
        want = want + (match plan.bind {
            Some(b) => seq![Eff::Hot(Hot::SetBindAddress { iface: b.0, port: b.1 })],
            None => Seq::empty(),
        });
    }
    assert(effect_views(effects@) =~= want);
    let readd: Vec<RemoteConfig> = p.readd;
    let mut i: usize = 0;
    assert(effect_views(effects@) =~= want + readds(plan.readd).subrange(0, 0));
    while i < readd.len()
        invariant
            i <= readd@.len(),
            plan.readd == remotes_of(readd@),
            effect_views(effects@) == want + readds(plan.readd).subrange(0, i as int),
        decreases readd@.len() - i,
    {
        let ghost held = effect_views(effects@);
        effects.push(Effect::Hot(HotCommand::AddRemote(readd[i].copy())));
        assert(effect_views(effects@) =~= held.push(readds(plan.readd)[i as int]));
        i = i + 1;
        assert(effect_views(effects@) =~= want + readds(plan.readd).subrange(0, i as int));
    }
    proof {
        assert(readds(plan.readd).subrange(0, i as int) =~= readds(plan.readd));
        want = want + readds(plan.readd);
    }
    if let Some(d) = p.input {
        effects.push(Effect::Hot(HotCommand::SetInputDevice(d)));
    }
    proof {
        want = want + (match plan.input {
            Some(d) => seq![Eff::Hot(Hot::SetInputDevice(d))],
            None => Seq::empty(),
        });
    }
    assert(effect_views(effects@) =~= want);
    if let Some(d) = p.output {
        effects.push(Effect::Hot(HotCommand::SetOutputDevice(d)));
    }
    proof {
        want = want + (match plan.output {
            Some(d) => seq![Eff::Hot(Hot::SetOutputDevice(d))],
            None => Seq::empty(),
        });
    }
    assert(effect_views(effects@) =~= want);
    effects
}

/// No two remotes share a name.
pub open spec fn names_differ(rs: Seq<Remote>) -> bool {
    forall|i: int, j: int|
        0 <= i < j < rs.len() ==> (#[trigger] rs[i]).name != (#[trigger] rs[j]).name
}

proof fn lemma_found_at_its_place(rs: Seq<Remote>, i: int)
    requires
        names_differ(rs),
        0 <= i < rs.len(),
    ensures
        find(rs, rs[i].name) == Some(i),
{
    lemma_remote_named(rs, rs[i].name, rs.len() as int);
    match find(rs, rs[i].name) {
        Some(k) => {
            if k < i {
                assert(rs[k].name != rs[i].name);
            }
        },
        None => {
            assert(rs[i].name != rs[i].name);
        },
    }
}

proof fn lemma_same_remotes_ask_for_nothing(rs: Seq<Remote>, n: int)
    requires
        names_differ(rs),
        0 <= n <= rs.len(),
    ensures
        removals(rs, rs, n) == Seq::<Eff>::empty(),
        changes(rs, rs, n) == Seq::<Eff>::empty(),
    decreases n,
{
    if n > 0 {
        lemma_same_remotes_ask_for_nothing(rs, n - 1);
        lemma_found_at_its_place(rs, n - 1);
        assert(remote_change(old_remote(rs, rs[n - 1].name), rs[n - 1]) =~= Seq::<Eff>::empty());
        assert(changes(rs, rs, n) =~= Seq::<Eff>::empty());
    }
}

/// Saving the settings as they are asks for nothing: no remote is touched, no device, no
/// address.
pub proof fn law_unchanged_settings_ask_for_nothing(s: Settings)
    requires
        names_differ(s.remotes),
    ensures
        save_effects(s, s) == Seq::<Eff>::empty(),
        plan_for(s, s) == (Plan {
            bind: None,
            readd: Seq::empty(),
            input: None,
            output: None,
            routing: routing_of(s.remotes),
        }),
        after(plan_for(s, s), true) == seq![
            Eff::ConfigSaved(true),
            Eff::Routing(routing_of(s.remotes)),
        ],
{
    lemma_same_remotes_ask_for_nothing(s.remotes, s.remotes.len() as int);
    assert(save_effects(s, s) =~= Seq::<Eff>::empty());
    assert(readds(Seq::<Remote>::empty()) =~= Seq::<Eff>::empty());
    assert(after(plan_for(s, s), true) =~= seq![
        Eff::ConfigSaved(true),
        Eff::Routing(routing_of(s.remotes)),
    ]);
}

proof fn lemma_removals_hold(old_rs: Seq<Remote>, new_rs: Seq<Remote>, i: int, n: int)
    requires
        0 <= i < n <= old_rs.len(),
        find(new_rs, old_rs[i].name) is None,
    ensures
        removals(old_rs, new_rs, n).contains(Eff::Hot(Hot::RemoveRemote(old_rs[i].name))),
    decreases n,
{
    let r = removals(old_rs, new_rs, n);
    let e = Eff::Hot(Hot::RemoveRemote(old_rs[i].name));
    if i == n - 1 {
        assert(r[r.len() - 1] == e);
    } else {
        lemma_removals_hold(old_rs, new_rs, i, n - 1);
        let q = removals(old_rs, new_rs, n - 1);
        let k = choose|k: int| 0 <= k < q.len() && q[k] == e;
        assert(r[k] == e);
    }
}

proof fn lemma_removals_only_remove(old_rs: Seq<Remote>, new_rs: Seq<Remote>, n: int, k: int)
    requires
        0 <= n <= old_rs.len(),
        0 <= k < removals(old_rs, new_rs, n).len(),
    ensures
        exists|i: int|
            0 <= i < n && find(new_rs, (#[trigger] old_rs[i]).name) is None && removals(
                old_rs,
                new_rs,
                n,
            )[k] == Eff::Hot(Hot::RemoveRemote(old_rs[i].name)),
    decreases n,
{
    if n > 0 {
        let q = removals(old_rs, new_rs, n - 1);
        if k < q.len() {
            lemma_removals_only_remove(old_rs, new_rs, n - 1, k);
        } else {
            assert(find(new_rs, old_rs[n - 1].name) is None);
        }
    }
}

proof fn lemma_changes_respect_the_switch(old_rs: Seq<Remote>, new_rs: Seq<Remote>, n: int, k: int)
    requires
        0 <= n <= new_rs.len(),
        0 <= k < changes(old_rs, new_rs, n).len(),
    ensures
        match changes(old_rs, new_rs, n)[k] {
            Eff::Hot(Hot::AddRemote(r)) => r.enabled,
            Eff::Hot(Hot::DisableRemote(_)) => true,
            _ => false,
        },
    decreases n,
{
    if n > 0 && k < changes(old_rs, new_rs, n - 1).len() {
        lemma_changes_respect_the_switch(old_rs, new_rs, n - 1, k);
    }
}

/// Every remote that a save leaves out is removed, and no other is.
pub proof fn law_a_save_removes_exactly_what_it_leaves_out(old_s: Settings, new_s: Settings, i: int)
    requires
        0 <= i < old_s.remotes.len(),
    ensures
        save_effects(old_s, new_s).contains(
            Eff::Hot(Hot::RemoveRemote(old_s.remotes[i].name)),
        ) <==> find(new_s.remotes, old_s.remotes[i].name) is None,
{
    let e = Eff::Hot(Hot::RemoveRemote(old_s.remotes[i].name));
    let head: Seq<Eff> = if old_s.api_port != new_s.api_port || old_s.api_bind != new_s.api_bind {
        seq![Eff::Rebind]
    } else {
        Seq::empty()
    };
    let gone = removals(old_s.remotes, new_s.remotes, old_s.remotes.len() as int);
    let rest = changes(old_s.remotes, new_s.remotes, new_s.remotes.len() as int);
    let all = save_effects(old_s, new_s);
    assert(all == head + gone + rest);
    if find(new_s.remotes, old_s.remotes[i].name) is None {
        lemma_removals_hold(old_s.remotes, new_s.remotes, i, old_s.remotes.len() as int);
        let k = choose|k: int| 0 <= k < gone.len() && gone[k] == e;
        assert(all[head.len() + k] == e);
    }
    if all.contains(e) {
        let k = choose|k: int| 0 <= k < all.len() && all[k] == e;
        if k < head.len() {
            assert(all[k] == head[k]);
        } else if k < head.len() + gone.len() {
            assert(all[k] == gone[k - head.len()]);
            lemma_removals_only_remove(
                old_s.remotes,
                new_s.remotes,
                old_s.remotes.len() as int,
                k - head.len(),
            );
        } else {
            assert(all[k] == rest[k - head.len() - gone.len()]);
            lemma_changes_respect_the_switch(
                old_s.remotes,
                new_s.remotes,
                new_s.remotes.len() as int,
                k - head.len() - gone.len(),
            );
        }
    }
}

proof fn lemma_enabled_are_enabled(rs: Seq<Remote>, n: int, k: int)
    requires
        0 <= n <= rs.len(),
        0 <= k < enabled_of(rs, n).len(),
    ensures
        enabled_of(rs, n)[k].enabled,
    decreases n,
{
    if n > 0 && k < enabled_of(rs, n - 1).len() {
        lemma_enabled_are_enabled(rs, n - 1, k);
    }
}

proof fn lemma_enabled_are_listed(rs: Seq<Remote>, i: int, n: int)
    requires
        0 <= i < n <= rs.len(),
        rs[i].enabled,
    ensures
        enabled_of(rs, n).contains(rs[i]),
    decreases n,
{
    let l = enabled_of(rs, n);
    if i == n - 1 {
        assert(l[l.len() - 1] == rs[i]);
    } else {
        lemma_enabled_are_listed(rs, i, n - 1);
        let q = enabled_of(rs, n - 1);
        let k = choose|k: int| 0 <= k < q.len() && q[k] == rs[i];
        assert(l[k] == rs[i]);
    }
}

/// A remote that is switched off is never set up, neither by a save nor by what follows it.
pub proof fn law_a_disabled_remote_is_never_set_up(
    old_s: Settings,
    new_s: Settings,
    ok: bool,
    r: Remote,
)
    requires
        !r.enabled,
    ensures
        !save_effects(old_s, new_s).contains(Eff::Hot(Hot::AddRemote(r))),
        !after(plan_for(old_s, new_s), ok).contains(Eff::Hot(Hot::AddRemote(r))),
{
    let e = Eff::Hot(Hot::AddRemote(r));
    let head: Seq<Eff> = if old_s.api_port != new_s.api_port || old_s.api_bind != new_s.api_bind {
        seq![Eff::Rebind]
    } else {
        Seq::empty()
    };
    let gone = removals(old_s.remotes, new_s.remotes, old_s.remotes.len() as int);
    let rest = changes(old_s.remotes, new_s.remotes, new_s.remotes.len() as int);
    let all = save_effects(old_s, new_s);
    assert(all == head + gone + rest);
    if all.contains(e) {
        let k = choose|k: int| 0 <= k < all.len() && all[k] == e;
        if k < head.len() {
            assert(all[k] == head[k]);
        } else if k < head.len() + gone.len() {
            assert(all[k] == gone[k - head.len()]);
            lemma_removals_only_remove(
                old_s.remotes,
                new_s.remotes,
                old_s.remotes.len() as int,
                k - head.len(),
            );
        } else {
            assert(all[k] == rest[k - head.len() - gone.len()]);
            lemma_changes_respect_the_switch(
                old_s.remotes,
                new_s.remotes,
                new_s.remotes.len() as int,
                k - head.len() - gone.len(),
            );
        }
    }
    let p = plan_for(old_s, new_s);
    let t = after(p, ok);
    if t.contains(e) {
        let k = choose|k: int| 0 <= k < t.len() && t[k] == e;
        if ok {
            let bind: int = if p.bind is Some {
                3
            } else {
                2
            };
            if bind <= k < bind + p.readd.len() {
                assert(t[k] == readds(p.readd)[k - bind]);
                assert(p.readd[k - bind] == r);
                lemma_enabled_are_enabled(new_s.remotes, new_s.remotes.len() as int, k - bind);
            }
        }
    }
}

/// A rename sets every remote that is switched on up again, since each derives its identity
/// from this instance's name when it is set up.
pub proof fn law_a_rename_sets_every_enabled_remote_up_again(
    old_s: Settings,
    new_s: Settings,
    i: int,
)
    requires
        old_s.name != new_s.name,
        0 <= i < new_s.remotes.len(),
        new_s.remotes[i].enabled,
    ensures
        after(plan_for(old_s, new_s), true).contains(
            Eff::Hot(Hot::AddRemote(new_s.remotes[i])),
        ),
{
    let p = plan_for(old_s, new_s);
    let t = after(p, true);
    lemma_enabled_are_listed(new_s.remotes, i, new_s.remotes.len() as int);
    let k = choose|k: int| 0 <= k < p.readd.len() && p.readd[k] == new_s.remotes[i];
    let bind: int = if p.bind is Some {
        3
    } else {
        2
    };
    assert(t[bind + k] == readds(p.readd)[k]);
}

/// Going on or off air is always passed on to the running daemon, so that no line-up tone
/// survives into a transmission.
pub proof fn law_on_air_is_always_passed_on(f: Fields, typed: Option<Settings>, cfg: Settings)
    requires
        f.kind == Kind::OnAir,
    ensures
        handled(f, typed, cfg).effects.contains(Eff::Hot(Hot::SetOnAir(f.enabled != Some(false)))),
        handled(f, typed, cfg).settings == cfg,
{
    let e = handled(f, typed, cfg).effects;
    assert(e[2] == Eff::Hot(Hot::SetOnAir(f.enabled != Some(false))));
}

/// A routing edit reaches the stored settings, and a save that follows keeps it, whatever
/// routing the save carried.
pub proof fn law_a_save_keeps_an_edited_routing(
    f: Fields,
    cfg: Settings,
    save: Fields,
    typed: Settings,
    i: int,
)
    requires
        f.kind == Kind::RoutingTx,
        f.peer is Some && f.matrix is Some,
        find(cfg.remotes, f.peer->Some_0) is Some,
        save.kind == Kind::SaveConfig,
        save.config is Some,
        0 <= i < typed.remotes.len(),
        crate::api::config::stored_for(
            typed.remotes[i],
            crate::api::config::sent_at(save.config->Some_0, i),
            handled(f, None, cfg).settings.remotes,
        ) == find(cfg.remotes, f.peer->Some_0),
    ensures
        handled(save, Some(typed), handled(f, None, cfg).settings).settings.remotes[i].send_matrix
            == stored_matrix(f.matrix->Some_0),
{
    lemma_remote_named(cfg.remotes, f.peer->Some_0, cfg.remotes.len() as int);
}

/// What follows a save that was written, by kind: the new device and the new address where
/// each changed and as it is now set, every remote that is switched on after a rename, the
/// routing, and the answer. Nothing else follows.
pub proof fn law_what_follows_a_save(old_s: Settings, new_s: Settings, e: Eff)
    ensures
        ({
            let t = after(plan_for(old_s, new_s), true);
            match e {
                Eff::Hot(Hot::SetOutputDevice(d)) => t.contains(e) <==> old_s.output_device
                    != new_s.output_device && d == new_s.output_device,
                Eff::Hot(Hot::SetInputDevice(d)) => t.contains(e) <==> old_s.input_device
                    != new_s.input_device && d == new_s.input_device,
                Eff::Hot(Hot::SetBindAddress { iface, port }) => t.contains(e) <==> (old_s.port
                    != new_s.port || old_s.network_interface != new_s.network_interface) && iface
                    == new_s.network_interface && port == new_s.port,
                Eff::Hot(Hot::AddRemote(r)) => t.contains(e) <==> old_s.name != new_s.name
                    && r.enabled && new_s.remotes.contains(r),
                Eff::Routing(rows) => t.contains(e) <==> rows == routing_of(new_s.remotes),
                Eff::ConfigSaved(ok) => t.contains(e) <==> ok,
                _ => !t.contains(e),
            }
        }),
{
    let p = plan_for(old_s, new_s);
    let t = after(p, true);
    let bind: int = if p.bind is Some {
        3
    } else {
        2
    };
    let input: int = bind + p.readd.len() + (if p.input is Some {
        1int
    } else {
        0int
    });
    assert(t[0] == Eff::ConfigSaved(true));
    assert(t[1] == Eff::Routing(routing_of(new_s.remotes)));
    if p.bind is Some {
        assert(t[2] == Eff::Hot(
            Hot::SetBindAddress { iface: new_s.network_interface, port: new_s.port },
        ));
    }
    if p.input is Some {
        assert(t[bind + p.readd.len()] == Eff::Hot(Hot::SetInputDevice(new_s.input_device)));
    }
    if p.output is Some {
        assert(t[input] == Eff::Hot(Hot::SetOutputDevice(new_s.output_device)));
    }
    assert forall|k: int| bind <= k < bind + p.readd.len() implies #[trigger] t[k] == Eff::Hot(
        Hot::AddRemote(p.readd[k - bind]),
    ) by {
        assert(t[k] == readds(p.readd)[k - bind]);
    }
    lemma_enabled_exactly(new_s.remotes, new_s.remotes.len() as int);
    if t.contains(e) {
        let k = choose|k: int| 0 <= k < t.len() && t[k] == e;
        if bind <= k < bind + p.readd.len() {
            assert(t[k] == Eff::Hot(Hot::AddRemote(p.readd[k - bind])));
            assert(p.readd.contains(p.readd[k - bind]));
        }
    }
    if let Eff::Hot(Hot::AddRemote(r)) = e {
        if old_s.name != new_s.name && r.enabled && new_s.remotes.contains(r) {
            assert(p.readd.contains(r));
            let k = choose|k: int| 0 <= k < p.readd.len() && p.readd[k] == r;
            assert(t[bind + k] == e);
        }
    }
}

/// A save that could not be written is answered so, and nothing else follows.
pub proof fn law_a_failed_save_is_only_answered(p: Plan)
    ensures
        after(p, false) == seq![Eff::ConfigSaved(false)],
{
}

proof fn lemma_enabled_exactly(rs: Seq<Remote>, n: int)
    requires
        0 <= n <= rs.len(),
    ensures
        forall|r: Remote| #[trigger]
            enabled_of(rs, n).contains(r) <==> r.enabled && exists|i: int|
                0 <= i < n && #[trigger] rs[i] == r,
    decreases n,
{
    if n > 0 {
        lemma_enabled_exactly(rs, n - 1);
        let rest = enabled_of(rs, n - 1);
        let all = enabled_of(rs, n);
        assert forall|r: Remote| #[trigger] all.contains(r) <==> r.enabled && exists|i: int|
            0 <= i < n && #[trigger] rs[i] == r by {
            if all.contains(r) {
                let k = choose|k: int| 0 <= k < all.len() && all[k] == r;
                if k < rest.len() {
                    assert(rest[k] == r);
                    assert(rest.contains(r));
                } else {
                    assert(rs[n - 1] == r);
                }
            }
            if rest.contains(r) {
                let k = choose|k: int| 0 <= k < rest.len() && rest[k] == r;
                assert(all[k] == r);
            }
            if r.enabled && rs[n - 1] == r {
                assert(all[rest.len() as int] == r);
            }
        }
    }
}

/// The old remote, where there is one, differs from the new one in what its connection is
/// made of, or was switched off.
pub open spec fn must_be_set_up(old: Option<Remote>, new: Remote) -> bool {
    match old {
        Some(o) => !o.enabled || o.host != new.host || o.port != new.port || o.password
            != new.password,
        None => true,
    }
}

proof fn lemma_changes(old_rs: Seq<Remote>, new_rs: Seq<Remote>, n: int, e: Eff)
    requires
        0 <= n <= new_rs.len(),
    ensures
        match e {
            Eff::Hot(Hot::AddRemote(r)) => changes(old_rs, new_rs, n).contains(e) <==> r.enabled
                && must_be_set_up(old_remote(old_rs, r.name), r) && exists|i: int|
                0 <= i < n && #[trigger] new_rs[i] == r,
            Eff::Hot(Hot::DisableRemote(name)) => changes(old_rs, new_rs, n).contains(e) <==> exists|
                i: int,
            |
                0 <= i < n && (#[trigger] new_rs[i]).name == name && !new_rs[i].enabled && (
                old_remote(old_rs, name) matches Some(o) && o.enabled),
            _ => !changes(old_rs, new_rs, n).contains(e),
        },
    decreases n,
{
    if n > 0 {
        lemma_changes(old_rs, new_rs, n - 1, e);
        let rest = changes(old_rs, new_rs, n - 1);
        let new = new_rs[n - 1];
        let last = remote_change(old_remote(old_rs, new.name), new);
        let all = changes(old_rs, new_rs, n);
        assert(all == rest + last);
        if all.contains(e) {
            let k = choose|k: int| 0 <= k < all.len() && all[k] == e;
            if k < rest.len() {
                assert(rest[k] == e);
                assert(rest.contains(e));
            } else {
                assert(last[k - rest.len()] == e);
                assert(new_rs[n - 1] == new);
            }
        }
        if rest.contains(e) {
            let k = choose|k: int| 0 <= k < rest.len() && rest[k] == e;
            assert(all[k] == e);
        }
        if last.len() > 0 {
            assert(all[rest.len() as int] == last[0]);
        }
    }
}

/// What a save asks for at once, by kind. A remote is set up where it is switched on and is
/// new, was off, or is reached differently than before; it is taken down where it was on and
/// is switched off; and the listener moves where its address changed. Nothing but these, and
/// the removal of remotes that are gone, is asked for.
pub proof fn law_what_a_save_asks_for_at_once(old_s: Settings, new_s: Settings, e: Eff)
    ensures
        ({
            let t = save_effects(old_s, new_s);
            match e {
                Eff::Rebind => t.contains(e) <==> old_s.api_port != new_s.api_port
                    || old_s.api_bind != new_s.api_bind,
                Eff::Hot(Hot::AddRemote(r)) => t.contains(e) <==> new_s.remotes.contains(r)
                    && r.enabled && must_be_set_up(old_remote(old_s.remotes, r.name), r),
                Eff::Hot(Hot::DisableRemote(name)) => t.contains(e) <==> exists|i: int|
                    0 <= i < new_s.remotes.len() && (#[trigger] new_s.remotes[i]).name == name
                        && !new_s.remotes[i].enabled && (old_remote(old_s.remotes, name) matches
                    Some(o) && o.enabled),
                Eff::Hot(Hot::RemoveRemote(name)) => t.contains(e) <==> (exists|i: int|
                    0 <= i < old_s.remotes.len() && (#[trigger] old_s.remotes[i]).name == name)
                    && forall|i: int|
                    0 <= i < new_s.remotes.len() ==> (#[trigger] new_s.remotes[i]).name != name,
                _ => !t.contains(e),
            }
        }),
{
    let head: Seq<Eff> = if old_s.api_port != new_s.api_port || old_s.api_bind != new_s.api_bind {
        seq![Eff::Rebind]
    } else {
        Seq::empty()
    };
    let gone = removals(old_s.remotes, new_s.remotes, old_s.remotes.len() as int);
    let rest = changes(old_s.remotes, new_s.remotes, new_s.remotes.len() as int);
    let all = save_effects(old_s, new_s);
    assert(all == head + gone + rest);
    lemma_changes(old_s.remotes, new_s.remotes, new_s.remotes.len() as int, e);
    if all.contains(e) {
        let k = choose|k: int| 0 <= k < all.len() && all[k] == e;
        if k < head.len() {
            assert(all[k] == head[k]);
        } else if k < head.len() + gone.len() {
            assert(all[k] == gone[k - head.len()]);
            lemma_removals_only_remove(
                old_s.remotes,
                new_s.remotes,
                old_s.remotes.len() as int,
                k - head.len(),
            );
            let i = choose|i: int|
                0 <= i < old_s.remotes.len() && find(
                    new_s.remotes,
                    (#[trigger] old_s.remotes[i]).name,
                ) is None && gone[k - head.len()] == Eff::Hot(
                    Hot::RemoveRemote(old_s.remotes[i].name),
                );
            lemma_remote_named(
                new_s.remotes,
                old_s.remotes[i].name,
                new_s.remotes.len() as int,
            );
        } else {
            assert(all[k] == rest[k - head.len() - gone.len()]);
            assert(rest.contains(e));
        }
    }
    if rest.contains(e) {
        let k = choose|k: int| 0 <= k < rest.len() && rest[k] == e;
        assert(all[head.len() + gone.len() + k] == e);
    }
    if head.len() > 0 {
        assert(all[0] == head[0]);
    }
    if let Eff::Hot(Hot::RemoveRemote(name)) = e {
        if (exists|i: int| 0 <= i < old_s.remotes.len() && (#[trigger] old_s.remotes[i]).name == name)
            && forall|i: int|
            0 <= i < new_s.remotes.len() ==> (#[trigger] new_s.remotes[i]).name != name {
            let i = choose|i: int|
                0 <= i < old_s.remotes.len() && (#[trigger] old_s.remotes[i]).name == name;
            lemma_remote_named(new_s.remotes, name, new_s.remotes.len() as int);
            law_a_save_removes_exactly_what_it_leaves_out(old_s, new_s, i);
        }
    }
}

/// The old remote of a name is the first of the old ones that has it.
pub proof fn law_the_old_remote_is_the_first_of_its_name(old: Seq<Remote>, name: Seq<char>, i: int)
    requires
        0 <= i < old.len(),
        old[i].name == name,
        forall|j: int| 0 <= j < i ==> (#[trigger] old[j]).name != name,
    ensures
        old_remote(old, name) == Some(old[i]),
{
    lemma_remote_named(old, name, old.len() as int);
}

/// Where no old remote has a name, there is none.
pub proof fn law_a_new_name_has_no_old_remote(old: Seq<Remote>, name: Seq<char>)
    requires
        forall|j: int| 0 <= j < old.len() ==> (#[trigger] old[j]).name != name,
    ensures
        old_remote(old, name) is None,
{
    lemma_remote_named(old, name, old.len() as int);
}

/// A save commits what was sent: every setting of the instance as it arrived, each remote
/// with its stored fields put back and voice at 20 ms; it asks for what the change from the
/// present settings takes, now and once written.
pub proof fn law_a_save_commits_what_was_sent(
    f: Fields,
    typed: Settings,
    cfg: Settings,
    i: int,
)
    requires
        f.kind == Kind::SaveConfig,
        f.config is Some,
        0 <= i < typed.remotes.len(),
    ensures
        ({
            let out = handled(f, Some(typed), cfg);
            let r = out.settings.remotes[i];
            let put_back = restored_all(typed.remotes, f.config->Some_0, cfg.remotes)[i];
            &&& out.settings.name == typed.name && out.settings.port == typed.port
            &&& out.settings.network_interface == typed.network_interface
            &&& out.settings.input_device == typed.input_device
            &&& out.settings.output_device == typed.output_device
            &&& out.settings.api_bind == typed.api_bind && out.settings.api_port == typed.api_port
            &&& out.settings.remotes.len() == typed.remotes.len()
            &&& r.voice ==> r.frame_ms == 0x41a0_0000
            &&& r == (Remote { frame_ms: r.frame_ms, ..put_back })
            &&& !r.voice ==> r.frame_ms == put_back.frame_ms
            &&& out.effects == save_effects(cfg, out.settings)
            &&& out.save == Some(plan_for(cfg, out.settings))
        }),
{
}

/// A save without settings, or with settings that do not read as such, changes nothing.
pub proof fn law_an_unreadable_save_is_ignored(f: Fields, typed: Option<Settings>, cfg: Settings)
    requires
        f.kind == Kind::SaveConfig,
        f.config is None || typed is None,
    ensures
        handled(f, typed, cfg).settings == cfg,
        handled(f, typed, cfg).effects.len() == 0,
        handled(f, typed, cfg).save is None,
{
}

/// A phase-lock switch is stored in the first remote of that name and in nothing else, passed
/// on, saved and told.
pub proof fn law_phase_lock_is_stored_and_passed_on(
    f: Fields,
    typed: Option<Settings>,
    cfg: Settings,
    peer: Seq<char>,
    on: bool,
    i: int,
)
    requires
        f.kind == Kind::Phase,
        f.peer == Some(peer),
        f.enabled == Some(on),
        0 <= i < cfg.remotes.len(),
    ensures
        ({
            let out = handled(f, typed, cfg);
            let first = cfg.remotes[i].name == peer && forall|j: int|
                0 <= j < i ==> (#[trigger] cfg.remotes[j]).name != peer;
            &&& out.settings == (Settings { remotes: out.settings.remotes, ..cfg })
            &&& out.settings.remotes.len() == cfg.remotes.len()
            &&& first ==> out.settings.remotes[i] == (Remote { phase_lock: on, ..cfg.remotes[i] })
            &&& !first ==> out.settings.remotes[i] == cfg.remotes[i]
            &&& out.effects == seq![
                Eff::Phase { peer, enabled: on },
                Eff::RequestSave,
                Eff::PhaseState { peer, enabled: on },
            ]
            &&& out.save is None
        }),
{
    lemma_remote_named(cfg.remotes, peer, cfg.remotes.len() as int);
}

/// A routing edit of one direction is stored in the first remote of that name, an empty one
/// as none, and in nothing else; it is passed on as it came, saved, and the routing that now
/// stands is told.
pub proof fn law_routing_is_stored_and_passed_on(
    f: Fields,
    typed: Option<Settings>,
    cfg: Settings,
    peer: Seq<char>,
    matrix: Seq<char>,
    i: int,
)
    requires
        f.kind == Kind::RoutingTx || f.kind == Kind::RoutingRx,
        f.peer == Some(peer),
        f.matrix == Some(matrix),
        0 <= i < cfg.remotes.len(),
    ensures
        ({
            let out = handled(f, typed, cfg);
            let send = f.kind == Kind::RoutingTx;
            let kept = if matrix.len() > 0 {
                Some(matrix)
            } else {
                None
            };
            let first = cfg.remotes[i].name == peer && forall|j: int|
                0 <= j < i ==> (#[trigger] cfg.remotes[j]).name != peer;
            &&& out.settings == (Settings { remotes: out.settings.remotes, ..cfg })
            &&& out.settings.remotes.len() == cfg.remotes.len()
            &&& first && send ==> out.settings.remotes[i] == (Remote {
                send_matrix: kept,
                ..cfg.remotes[i]
            })
            &&& first && !send ==> out.settings.remotes[i] == (Remote {
                receive_matrix: kept,
                ..cfg.remotes[i]
            })
            &&& !first ==> out.settings.remotes[i] == cfg.remotes[i]
            &&& out.effects == seq![
                Eff::Hot(
                    if send {
                        Hot::SetSendRouting { peer, matrix }
                    } else {
                        Hot::SetReceiveRouting { peer, matrix }
                    },
                ),
                Eff::RequestSave,
                Eff::Routing(routing_of(out.settings.remotes)),
            ]
            &&& out.save is None
        }),
{
    lemma_remote_named(cfg.remotes, peer, cfg.remotes.len() as int);
}

/// The routing that clients are told is every remote's name and matrices, in order.
pub proof fn law_routing_rows_are_the_remotes(rs: Seq<Remote>, i: int)
    requires
        0 <= i < rs.len(),
    ensures
        routing_of(rs).len() == rs.len(),
        routing_of(rs)[i].name == rs[i].name,
        routing_of(rs)[i].send_matrix == rs[i].send_matrix,
        routing_of(rs)[i].receive_matrix == rs[i].receive_matrix,
{
}

/// A message about one peer that names none asks for nothing.
pub proof fn law_a_message_without_its_peer_asks_for_nothing(
    f: Fields,
    typed: Option<Settings>,
    cfg: Settings,
)
    requires
        f.kind == Kind::Phase || f.kind == Kind::ToneRouting || f.kind == Kind::RoutingTx || f.kind
            == Kind::RoutingRx ==> f.peer is None,
        f.kind == Kind::SetRemoteFrameSize || f.kind == Kind::SetRemoteMode || f.kind
            == Kind::SetEncryption || f.kind == Kind::SetBuffer ==> f.peer is None
            || f.peer->Some_0.len() == 0,
        f.kind == Kind::Phase || f.kind == Kind::ToneRouting || f.kind == Kind::RoutingTx || f.kind
            == Kind::RoutingRx || f.kind == Kind::SetRemoteFrameSize || f.kind
            == Kind::SetRemoteMode || f.kind == Kind::SetEncryption || f.kind == Kind::SetBuffer
            || f.kind == Kind::Other,
    ensures
        handled(f, typed, cfg).effects.len() == 0,
        handled(f, typed, cfg).settings == cfg,
        handled(f, typed, cfg).save is None,
{
}

/// A setting of one peer goes to that peer alone, with the value sent, or with what stands in
/// for it: 20 ms, audio, off, 120 ms. It changes no stored settings.
pub proof fn law_a_peer_s_setting_is_passed_on(
    f: Fields,
    typed: Option<Settings>,
    cfg: Settings,
    peer: Seq<char>,
)
    requires
        f.peer == Some(peer),
        peer.len() > 0,
    ensures
        ({
            let out = handled(f, typed, cfg);
            &&& f.kind == Kind::SetRemoteFrameSize ==> out.effects == seq![
                Eff::Hot(
                    Hot::SetRemoteFrameSize {
                        peer,
                        frame_ms: if f.ms_double is Some {
                            f.ms_double->Some_0
                        } else {
                            0x4034_0000_0000_0000
                        },
                    },
                ),
            ]
            &&& f.kind == Kind::SetRemoteMode ==> out.effects == seq![
                Eff::Hot(
                    Hot::SetRemoteMode {
                        peer,
                        mode: if f.mode is Some {
                            f.mode->Some_0
                        } else {
                            "audio"@
                        },
                    },
                ),
            ]
            &&& f.kind == Kind::SetEncryption ==> out.effects == seq![
                Eff::Hot(Hot::SetEncryption { peer, on: f.on is Some && f.on->Some_0 }),
            ]
            &&& f.kind == Kind::SetBuffer && (f.ms is Some ==> f.ms->Some_0 <= u32::MAX)
                ==> out.effects == seq![
                Eff::Hot(
                    Hot::SetReceiveBuffer {
                        peer,
                        ms: if f.ms is Some {
                            f.ms->Some_0 as u32
                        } else {
                            120
                        },
                    },
                ),
            ]
            &&& f.kind == Kind::ToneRouting && f.slots is Some ==> out.effects == seq![
                Eff::Hot(Hot::SetTone { peer, slots: tone_slots(f.slots->Some_0) }),
            ]
            &&& f.kind == Kind::SetRemoteFrameSize || f.kind == Kind::SetRemoteMode || f.kind
                == Kind::SetEncryption || f.kind == Kind::SetBuffer || f.kind == Kind::ToneRouting
                ==> out.settings == cfg && out.save is None
        }),
{
    assert(handled(f, typed, cfg).effects =~= handled(f, typed, cfg).effects);
}

/// A setting of the whole daemon is passed on with the value sent, or with what stands in for
/// it: 20 ms, audio, off, 128 kbit/s. It changes no stored settings.
pub proof fn law_a_daemon_setting_is_passed_on(f: Fields, typed: Option<Settings>, cfg: Settings)
    ensures
        ({
            let out = handled(f, typed, cfg);
            &&& f.kind == Kind::SetFrameSize ==> out.effects == seq![
                Eff::Hot(
                    Hot::SetFrameSize {
                        frame_ms: if f.ms_double is Some {
                            f.ms_double->Some_0
                        } else {
                            0x4034_0000_0000_0000
                        },
                    },
                ),
            ]
            &&& f.kind == Kind::SetMode ==> out.effects == seq![
                Eff::Hot(
                    Hot::SetMode {
                        mode: if f.mode is Some {
                            f.mode->Some_0
                        } else {
                            "audio"@
                        },
                    },
                ),
            ]
            &&& f.kind == Kind::SetExclusiveOutput ==> out.effects == seq![
                Eff::Hot(Hot::SetExclusiveOutput(f.on is Some && f.on->Some_0)),
            ]
            &&& f.kind == Kind::SetBitrate && (f.kbps is Some ==> f.kbps->Some_0 <= u32::MAX)
                ==> out.effects == seq![
                Eff::Hot(
                    Hot::SetBitrate(
                        if f.kbps is Some {
                            f.kbps->Some_0 as u32
                        } else {
                            128
                        },
                    ),
                ),
            ]
            &&& f.kind == Kind::OnAir ==> ({
                let on = f.enabled is None || f.enabled->Some_0;
                out.effects == seq![
                    Eff::OnAir(on),
                    Eff::OnAirState(on),
                    Eff::Hot(Hot::SetOnAir(on)),
                ]
            })
            &&& f.kind == Kind::SetFrameSize || f.kind == Kind::SetMode || f.kind
                == Kind::SetExclusiveOutput || f.kind == Kind::SetBitrate || f.kind == Kind::OnAir
                ==> out.settings == cfg && out.save is None
        }),
{
}

/// A label goes to the channel it was sent for, or to the last one there is; without a channel
/// or a label nothing is set.
pub proof fn law_a_label_reaches_its_channel(f: Fields, typed: Option<Settings>, cfg: Settings)
    requires
        f.kind == Kind::SetLabel,
    ensures
        ({
            let out = handled(f, typed, cfg);
            &&& out.settings == cfg && out.save is None
            &&& f.channel is None || f.label is None ==> out.effects.len() == 0
            &&& f.channel is Some && f.label is Some ==> out.effects.len() == 1 && (
            out.effects[0] matches Eff::Hot(Hot::SetLabel { channel, label }) && label
                == f.label->Some_0 && channel <= 127 && (f.channel->Some_0 <= 127 ==> channel
                == f.channel->Some_0) && (f.channel->Some_0 > 127 ==> channel == 127))
        }),
{
}

/// A tone slot is off, left or right, as the low byte of its number is 0, 1 or more; what is
/// no number is off. Every slot sent is there, in its place.
pub proof fn law_tone_slots_are_off_left_or_right(s: Seq<Option<u64>>, i: int)
    requires
        0 <= i < s.len(),
    ensures
        tone_slots(s).len() == s.len(),
        s[i] is None ==> tone_slots(s)[i] == 0,
        s[i] matches Some(n) ==> (tone_slots(s)[i] == 0 <==> n % 256 == 0) && (tone_slots(s)[i] == 1
            <==> n % 256 == 1) && (tone_slots(s)[i] == 2 <==> n % 256 >= 2),
{
}

/// Every kind of message has its own type name, and a name that is none of these is no kind.
pub proof fn law_kinds_go_by_their_names(name: Seq<char>)
    ensures
        kind_of(name) == Kind::Phase <==> name == "phase"@,
        kind_of(name) == Kind::ToneRouting <==> name == "tone_routing"@,
        kind_of(name) == Kind::SetFrameSize <==> name == "set_frame_size"@,
        kind_of(name) == Kind::SetMode <==> name == "set_mode"@,
        kind_of(name) == Kind::SetRemoteFrameSize <==> name == "set_remote_frame_size"@,
        kind_of(name) == Kind::SetRemoteMode <==> name == "set_remote_mode"@,
        kind_of(name) == Kind::SetEncryption <==> name == "set_encryption"@,
        kind_of(name) == Kind::SetBuffer <==> name == "set_buffer"@,
        kind_of(name) == Kind::SetExclusiveOutput <==> name == "set_exclusive_output"@,
        kind_of(name) == Kind::SetLabel <==> name == "set_label"@,
        kind_of(name) == Kind::OnAir <==> name == "on_air"@,
        kind_of(name) == Kind::SetBitrate <==> name == "set_bitrate"@,
        kind_of(name) == Kind::RoutingTx <==> name == "routing_tx"@,
        kind_of(name) == Kind::RoutingRx <==> name == "routing_rx"@,
        kind_of(name) == Kind::SaveConfig <==> name == "save_config"@,
{
    reveal_strlit("phase");
    reveal_strlit("tone_routing");
    reveal_strlit("set_frame_size");
    reveal_strlit("set_mode");
    reveal_strlit("set_remote_frame_size");
    reveal_strlit("set_remote_mode");
    reveal_strlit("set_encryption");
    reveal_strlit("set_buffer");
    reveal_strlit("set_exclusive_output");
    reveal_strlit("set_label");
    reveal_strlit("on_air");
    reveal_strlit("set_bitrate");
    reveal_strlit("routing_tx");
    reveal_strlit("routing_rx");
    reveal_strlit("save_config");
    // Names of one length differ in a letter.
    assert("phase"@.len() == 5);
    assert("tone_routing"@.len() == 12);
    assert("set_frame_size"@.len() == 14);
    assert("set_mode"@.len() == 8);
    assert("set_remote_frame_size"@.len() == 21);
    assert("set_remote_mode"@.len() == 15);
    assert("set_encryption"@.len() == 14);
    assert("set_buffer"@.len() == 10);
    assert("set_exclusive_output"@.len() == 20);
    assert("set_label"@.len() == 9);
    assert("on_air"@.len() == 6);
    assert("set_bitrate"@.len() == 11);
    assert("routing_tx"@.len() == 10);
    assert("routing_rx"@.len() == 10);
    assert("save_config"@.len() == 11);
    assert("routing_tx"@[8] == 't' && "routing_rx"@[8] == 'r' && "set_buffer"@[0] == 's');
    assert("set_bitrate"@[4] == 'b' && "save_config"@[1] == 'a' && "set_bitrate"@[1] == 'e');
    assert("set_frame_size"@[4] == 'f' && "set_encryption"@[4] == 'e');
}

/// What a message carries is read from the members of those names, each as its own type.
pub proof fn law_a_message_is_read_by_its_members(j: Json)
    ensures
        ({
            let f = fields_of(j);
            &&& f.peer == text_of(member(j, "peer"@)) && f.mode == text_of(member(j, "mode"@))
            &&& f.label == text_of(member(j, "label"@)) && f.matrix == text_of(
                member(j, "matrix"@),
            )
            &&& f.enabled == bool_of(member(j, "enabled"@)) && f.on == bool_of(member(j, "on"@))
            &&& f.ms_double == double_of(member(j, "ms"@)) && f.ms == unsigned_of(
                member(j, "ms"@),
            )
            &&& f.channel == unsigned_of(member(j, "channel"@)) && f.kbps == unsigned_of(
                member(j, "kbps"@),
            )
            &&& f.config is Some <==> member(j, "config"@) is Some
            &&& f.slots is Some <==> array_of(member(j, "slots"@)) is Some
            &&& text_of(member(j, "type"@)) is None ==> f.kind == Kind::Other
            &&& text_of(member(j, "type"@)) matches Some(name) ==> f.kind == kind_of(name)
        }),
{
}

/// A command reads as what it carries, each device, name and setting for itself.
pub proof fn law_a_command_is_what_it_carries(h: HotCommand)
    ensures
        match h {
            HotCommand::SetOutputDevice(d) => h@ == Hot::SetOutputDevice(d@),
            HotCommand::SetInputDevice(d) => h@ == Hot::SetInputDevice(d@),
            HotCommand::SetBindAddress { iface, port } => h@ matches Hot::SetBindAddress {
                iface: i,
                port: p,
            } && i == iface@ && p == port,
            HotCommand::SetSendRouting { peer, matrix } => h@ matches Hot::SetSendRouting {
                peer: p,
                matrix: m,
            } && p == peer@ && m == matrix@,
            HotCommand::SetReceiveRouting { peer, matrix } => h@ matches Hot::SetReceiveRouting {
                peer: p,
                matrix: m,
            } && p == peer@ && m == matrix@,
            HotCommand::SetBitrate(k) => h@ == Hot::SetBitrate(k),
            HotCommand::SetOnAir(on) => h@ == Hot::SetOnAir(on),
            HotCommand::SetExclusiveOutput(on) => h@ == Hot::SetExclusiveOutput(on),
            HotCommand::SetLabel { channel, label } => h@ matches Hot::SetLabel {
                channel: c,
                label: l,
            } && c == channel && l == label@,
            HotCommand::SetTone { peer, slots } => h@ matches Hot::SetTone { peer: p, slots: s }
                && p
                == peer@ && s == slots@,
            HotCommand::SetFrameSize { frame_ms } => h@ == (Hot::SetFrameSize { frame_ms }),
            HotCommand::SetMode { mode } => h@ == (Hot::SetMode { mode: mode@ }),
            HotCommand::SetRemoteFrameSize { peer, frame_ms } => h@ == (Hot::SetRemoteFrameSize {
                peer: peer@,
                frame_ms,
            }),
            HotCommand::SetRemoteMode { peer, mode } => h@ == (Hot::SetRemoteMode {
                peer: peer@,
                mode: mode@,
            }),
            HotCommand::SetReceiveBuffer { peer, ms } => h@ == (Hot::SetReceiveBuffer {
                peer: peer@,
                ms,
            }),
            HotCommand::SetEncryption { peer, on } => h@
                == (Hot::SetEncryption { peer: peer@, on }),
            HotCommand::AddRemote(r) => h@ == Hot::AddRemote(r@),
            HotCommand::RemoveRemote(n) => h@ == Hot::RemoveRemote(n@),
            HotCommand::DisableRemote(n) => h@ == Hot::DisableRemote(n@),
        },
{
}

/// An effect reads as what it carries.
pub proof fn law_an_effect_is_what_it_carries(e: Effect)
    ensures
        match e {
            Effect::Phase { peer, enabled } => e@ == (Eff::Phase { peer: peer@, enabled }),
            Effect::Hot(h) => e@ == Eff::Hot(h@),
            Effect::OnAir(on) => e@ == Eff::OnAir(on),
            Effect::RequestSave => e@ == Eff::RequestSave,
            Effect::PhaseState { peer, enabled } => e@
                == (Eff::PhaseState { peer: peer@, enabled }),
            Effect::OnAirState(on) => e@ == Eff::OnAirState(on),
            Effect::Routing(rows) => e@ matches Eff::Routing(v) && v.len() == rows@.len() && forall|
                i: int,
            |
                0 <= i < v.len() ==> (#[trigger] v[i]).name == rows@[i].name@,
            Effect::Rebind => e@ == Eff::Rebind,
            Effect::ConfigSaved(ok) => e@ == Eff::ConfigSaved(ok),
        },
{
}

/// What a function returned is told as it is: the settings it left, its effects in their order,
/// and the rest of a save where there is one.
pub proof fn law_an_outcome_is_what_was_returned(h: Handled, cfg: Settings, i: int)
    ensures
        ({
            let o = outcome_of(h, cfg);
            &&& o.settings == cfg
            &&& o.effects.len() == h.effects@.len()
            &&& 0 <= i < h.effects@.len() ==> o.effects[i] == h.effects@[i]@
            &&& o.save is Some <==> h.save is Some
            &&& h.save matches Some(p) ==> ({
                let s = o.save->Some_0;
                &&& s.input is Some <==> p.input is Some
                &&& p.input matches Some(d) ==> s.input == Some(d@)
                &&& s.output is Some <==> p.output is Some
                &&& p.output matches Some(d) ==> s.output == Some(d@)
                &&& s.bind is Some <==> p.bind is Some
                &&& p.bind matches Some(b) ==> s.bind == Some((b.0@, b.1))
                &&& s.readd.len() == p.readd@.len() && s.routing.len() == p.routing@.len()
            })
        }),
{
}

/// What follows a save comes in order: the answer first, then the routing, then the address,
/// the remotes and the devices, the output last; and nothing of it twice.
pub proof fn law_what_follows_a_save_comes_in_order(old_s: Settings, new_s: Settings)
    ensures
        ({
            let t = after(plan_for(old_s, new_s), true);
            let n = t.len() as int;
            let bound = old_s.port != new_s.port || old_s.network_interface
                != new_s.network_interface;
            let named = old_s.name != new_s.name;
            let input = old_s.input_device != new_s.input_device;
            let output = old_s.output_device != new_s.output_device;
            &&& t[0] == Eff::ConfigSaved(true)
            &&& t[1] == Eff::Routing(routing_of(new_s.remotes))
            &&& bound ==> t[2] == Eff::Hot(
                Hot::SetBindAddress { iface: new_s.network_interface, port: new_s.port },
            )
            &&& output ==> t[n - 1] == Eff::Hot(Hot::SetOutputDevice(new_s.output_device))
            &&& input ==> t[if output {
                n - 2
            } else {
                n - 1
            }] == Eff::Hot(Hot::SetInputDevice(new_s.input_device))
            &&& n == 2 + (if bound {
                1int
            } else {
                0
            }) + (if named {
                count(new_s.remotes.len() as int, |i: int| new_s.remotes[i].enabled)
            } else {
                0
            }) + (if input {
                1int
            } else {
                0
            }) + (if output {
                1int
            } else {
                0
            })
        }),
{
    lemma_enabled_count(new_s.remotes, new_s.remotes.len() as int);
}

proof fn lemma_enabled_count(rs: Seq<Remote>, n: int)
    requires
        0 <= n <= rs.len(),
    ensures
        enabled_of(rs, n).len() == count(n, |i: int| rs[i].enabled),
    decreases n,
{
    if n > 0 {
        lemma_enabled_count(rs, n - 1);
    }
}

/// A save moves the web page first, then takes leave of the remotes that are gone, and only
/// then sets others up or down; in all it asks once for the page and for each remote at most.
pub proof fn law_a_save_takes_leave_before_it_sets_up(
    old_s: Settings,
    new_s: Settings,
    a: int,
    b: int,
)
    requires
        0 <= a < b < save_effects(old_s, new_s).len(),
    ensures
        ({
            let t = save_effects(old_s, new_s);
            &&& t[b] != Eff::Rebind
            &&& t[b] is Hot && t[b]->Hot_0 is RemoveRemote ==> t[a] == Eff::Rebind || (t[a] is Hot
                && t[a]->Hot_0 is RemoveRemote)
            &&& t.len() <= 1 + old_s.remotes.len() + new_s.remotes.len()
        }),
{
    let m = old_s.remotes.len() as int;
    let n = new_s.remotes.len() as int;
    let first = if old_s.api_port != new_s.api_port || old_s.api_bind != new_s.api_bind {
        1int
    } else {
        0int
    };
    let out = removals(old_s.remotes, new_s.remotes, m);
    let set = changes(old_s.remotes, new_s.remotes, n);
    let t = save_effects(old_s, new_s);
    lemma_removals_len(old_s.remotes, new_s.remotes, m);
    lemma_changes_shape(old_s.remotes, new_s.remotes, n);
    let r = out.len() as int;
    if first <= b < first + r {
        lemma_removals_shape(old_s.remotes, new_s.remotes, m, b - first);
        assert(t[b] == out[b - first]);
    } else {
        assert(t[b] == set[b - first - r]);
    }
    if first <= a < first + r {
        lemma_removals_shape(old_s.remotes, new_s.remotes, m, a - first);
        assert(t[a] == out[a - first]);
    }
}

proof fn lemma_removals_len(old_rs: Seq<Remote>, new_rs: Seq<Remote>, n: int)
    requires
        0 <= n <= old_rs.len(),
    ensures
        removals(old_rs, new_rs, n).len() <= n,
    decreases n,
{
    if n > 0 {
        lemma_removals_len(old_rs, new_rs, n - 1);
    }
}

proof fn lemma_removals_shape(old_rs: Seq<Remote>, new_rs: Seq<Remote>, n: int, k: int)
    requires
        0 <= n <= old_rs.len(),
        0 <= k < removals(old_rs, new_rs, n).len(),
    ensures
        removals(old_rs, new_rs, n)[k] is Hot,
        removals(old_rs, new_rs, n)[k]->Hot_0 is RemoveRemote,
    decreases n,
{
    if n > 0 && k < removals(old_rs, new_rs, n - 1).len() {
        lemma_removals_shape(old_rs, new_rs, n - 1, k);
    }
}

proof fn lemma_changes_shape(old_rs: Seq<Remote>, new_rs: Seq<Remote>, n: int)
    requires
        0 <= n <= new_rs.len(),
    ensures
        changes(old_rs, new_rs, n).len() <= n,
        forall|k: int|
            0 <= k < changes(old_rs, new_rs, n).len() ==> (#[trigger] changes(
                old_rs,
                new_rs,
                n,
            )[k]) is Hot && !(changes(old_rs, new_rs, n)[k]->Hot_0 is RemoveRemote),
    decreases n,
{
    if n > 0 {
        lemma_changes_shape(old_rs, new_rs, n - 1);
        let rest = changes(old_rs, new_rs, n - 1);
        let all = changes(old_rs, new_rs, n);
        assert forall|k: int| 0 <= k < all.len() implies (#[trigger] all[k]) is Hot && !(
        all[k]->Hot_0 is RemoveRemote) by {
            if k < rest.len() {
                assert(all[k] == rest[k]);
            }
        }
    }
}

/// Of a number that is wider than what it sets the low 32 bits count.
pub proof fn law_wide_numbers_keep_their_low_bits(
    f: Fields,
    typed: Option<Settings>,
    cfg: Settings,
    n: u64,
)
    requires
        f.peer is Some && f.peer->Some_0.len() > 0,
    ensures
        ({
            let out = handled(f, typed, cfg);
            &&& f.kind == Kind::SetBuffer && f.ms == Some(n) ==> out.effects.len() == 1 && (
            out.effects[0] matches Eff::Hot(Hot::SetReceiveBuffer { peer, ms }) && peer
                == f.peer->Some_0 && (n - ms) % 0x1_0000_0000 == 0)
            &&& f.kind == Kind::SetBitrate && f.kbps == Some(n) ==> out.effects.len() == 1 && (
            out.effects[0] matches Eff::Hot(Hot::SetBitrate(kbps)) && (n - kbps) % 0x1_0000_0000
                == 0)
        }),
{
}

/// Only the label of a message that sets one is cut, by the cap and nothing else; every other
/// message is taken as it came.
pub proof fn law_only_a_label_is_cut<F: Fn(String) -> String>(cap: F, f: Fields, g: Fields)
    requires
        label_cut(cap, f, g),
    ensures
        f.kind != Kind::SetLabel || f.channel is None || f.label is None ==> g == f,
        g.kind == f.kind && g.peer == f.peer && g.channel == f.channel && g.mode == f.mode,
        g.matrix == f.matrix && g.enabled == f.enabled && g.on == f.on && g.ms == f.ms,
        g.label is Some <==> f.label is Some,
        f.kind == Kind::SetLabel && f.channel is Some && f.label is Some ==> exists|
            from: String,
            to: String,
        |
            from@ == f.label->Some_0 && #[trigger] call_ensures(cap, (from,), to)
                && g.label == Some(
                to@,
            ),
{
}

/// The slots of a message are read one by one as numbers, and its settings as what they say of
/// the remotes.
pub proof fn law_slots_and_settings_are_read_one_by_one(j: Json, i: int)
    ensures
        ({
            let f = fields_of(j);
            &&& array_of(member(j, "slots"@)) matches Some(s) ==> {
                &&& f.slots is Some && f.slots->Some_0.len() == s.len()
                &&& 0 <= i < s.len() ==> f.slots->Some_0[i] == unsigned_of(Some(s[i]))
            }
            &&& member(j, "config"@) matches Some(c) ==> f.config == Some(sent_in(c))
        }),
{
}

/// What a save is followed by is what its plan says: each device that changed is set to its
/// own new name, and nothing else is set.
pub proof fn law_a_saved_device_is_set_to_its_own_name(
    p: SavePlan,
    effects: Vec<Effect>,
    d: Seq<char>,
)
    requires
        call_ensures(after_save, (p, true), effects),
    ensures
        effect_views(effects@).contains(Eff::Hot(Hot::SetOutputDevice(d))) <==> (
        p.output matches Some(o) && o@ == d),
        effect_views(effects@).contains(Eff::Hot(Hot::SetInputDevice(d))) <==> (
        p.input matches Some(i) && i@ == d),
{
    let t = after(p@, true);
    let n = t.len() as int;
    let e = Eff::Hot(Hot::SetOutputDevice(d));
    let f = Eff::Hot(Hot::SetInputDevice(d));
    assert(forall|k: int| 0 <= k < readds(p@.readd).len() ==> (#[trigger] readds(p@.readd)[k])
        == Eff::Hot(Hot::AddRemote(p@.readd[k])));
    if p.output matches Some(o) && o@ == d {
        assert(t[n - 1] == e);
    }
    if p.input matches Some(i) && i@ == d {
        assert(t[if p.output is Some {
            n - 2
        } else {
            n - 1
        }] == f);
    }
}

} // verus!
