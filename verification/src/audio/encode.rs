//! The send side: encoder settings, per-remote preferences, the streams that routing calls
//! for, and the frames and packets each stream sends.

use vstd::prelude::*;

use crate::audio::capture::{bucket_index, bucket_of, in_use, ChannelPlan};
use crate::audio::routing::{
    compose_routes,
    composed_routes,
    fed_count,
    feeds,
    slot_table,
    slots_fed,
    PeerSendRouting,
    RouteEntry,
};
use crate::names::{in_name_order, lemma_name_stands_once, name_at, NameMap};

verus! {

/// The only rate the daemon runs at, in Hz.
pub const SAMPLE_RATE: u32 = 48_000;

/// Both device buffers are capped at 10 ms.
pub const IO_BUF_CAP_FRAMES: usize = 480;

/// Ceiling for the outgoing source channels; it sizes arrays and is not what is sent.
pub const OUTGOING_CHANNELS_MAX: usize = 128;

/// The longest frame, 20 ms.
pub const LONGEST_FRAME: usize = 960;

/// What a remote is sent: speech or full-band audio.
#[derive(Clone, Copy, Debug, PartialEq, Eq, Structural)]
pub enum AudioMode {
    Voice,
    Audio,
}

/// The codec's application.
#[derive(Clone, Copy, Debug, PartialEq, Eq, Structural)]
pub enum Application {
    Voip,
    Audio,
}

/// The codec's target rate.
#[derive(Clone, Copy, Debug, PartialEq, Eq, Structural)]
pub enum Bitrate {
    Auto,
    Bits(i32),
}

/// Everything an encoder is set to beyond what all of them share: mono, full band,
/// constrained variable rate.
#[derive(Clone, Copy, Debug, PartialEq, Eq, Structural)]
pub struct EncoderConfig {
    pub application: Application,
    /// The rate to set; the codec's own default where there is none.
    pub bitrate: Option<i32>,
    /// In-band error correction, and the loss percentage assumed with it.
    pub inband_fec: bool,
    pub packet_loss_perc: u8,
}

/// The settings of a stream's encoder. Below 20 ms the application is forced to audio;
/// error correction needs both the 20 ms frame and the voice application.
pub open spec fn encoder_config_of(kbps: u32, mode: AudioMode, frame: int) -> EncoderConfig {
    let voip = frame >= LONGEST_FRAME && mode == AudioMode::Voice;
    let fec = frame == LONGEST_FRAME && mode == AudioMode::Voice;
    EncoderConfig {
        application: if voip {
            Application::Voip
        } else {
            Application::Audio
        },
        bitrate: if kbps > 0 {
            Some((kbps * 1000) as i32)
        } else {
            None
        },
        inband_fec: fec,
        packet_loss_perc: if fec {
            1
        } else {
            0
        },
    }
}

pub fn encoder_config(bitrate_kbps: u32, mode: AudioMode, frame_samples: usize) -> (c:
    EncoderConfig)
    requires
        bitrate_kbps * 1000 <= u32::MAX,
    ensures
        c == encoder_config_of(bitrate_kbps, mode, frame_samples as int),
        c.bitrate is None <==> bitrate_kbps == 0,
{
    let application: Application = if frame_samples < LONGEST_FRAME {
        Application::Audio
    } else {
        match mode {
            AudioMode::Voice => Application::Voip,
            AudioMode::Audio => Application::Audio,
        }
    };
    let fec: bool = frame_samples == LONGEST_FRAME && application == Application::Voip;
    let bits: u32 = bitrate_kbps * 1000;
    EncoderConfig {
        application,
        bitrate: if bitrate_kbps > 0 {
            Some(#[verifier::truncate] (bits as i32))
        } else {
            None
        },
        inband_fec: fec,
        packet_loss_perc: if fec {
            1
        } else {
            0
        },
    }
}

/// The codec's rate follows the bitrate setting alone, whatever the mode and frame size: none
/// is set exactly where the setting is 0, and else it is a thousand bits for each kilobit.
pub proof fn law_bitrate_follows_its_setting(
    kbps: u32,
    mode: AudioMode,
    frame: int,
    other_mode: AudioMode,
    other_frame: int,
)
    ensures
        encoder_config_of(kbps, mode, frame).bitrate is None <==> kbps == 0,
        0 < kbps * 1000 <= i32::MAX ==> encoder_config_of(kbps, mode, frame).bitrate == Some(
            (1000 * kbps) as i32,
        ),
        encoder_config_of(kbps, mode, frame).bitrate == encoder_config_of(
            kbps,
            other_mode,
            other_frame,
        ).bitrate,
{
}

/// The voice application is for voice in frames of 20 ms at least, and error correction for
/// voice at 20 ms alone; everything sent in shorter frames, and everything in audio mode, is
/// encoded as audio without it. Error correction comes with an assumed loss of one percent.
pub proof fn law_voice_needs_the_longest_frame(kbps: u32, mode: AudioMode, frame: int)
    ensures
        ({
            let c = encoder_config_of(kbps, mode, frame);
            &&& c.application == Application::Voip <==> mode == AudioMode::Voice && frame >= 960
            &&& c.inband_fec <==> mode == AudioMode::Voice && frame == 960
            &&& c.packet_loss_perc == (if c.inband_fec {
                1int
            } else {
                0int
            })
        }),
{
}

/// Per-stream encoding state: its packet sequence, its frame size, and the result of the
/// frame being sent.
#[derive(Clone, Copy, Debug)]
pub struct ChannelEncoder {
    pub seq: u16,
    pub frame_samples: usize,
    /// Sequence number and byte count of this frame's packet; none where it was not encoded.
    pub pending: Option<(u16, usize)>,
}

/// An encode's outcome recorded: a packet takes the next sequence number, a failure none.
pub open spec fn encoded(e: ChannelEncoder, bytes: Option<usize>) -> ChannelEncoder {
    match bytes {
        Some(n) => ChannelEncoder {
            seq: e.seq.wrapping_add(1),
            pending: Some((e.seq, n)),
            ..e
        },
        None => ChannelEncoder { pending: None, ..e },
    }
}

impl ChannelEncoder {
    /// A stream that has sent nothing yet.
    pub fn new(frame_samples: usize) -> (e: Self)
        ensures
            e == (ChannelEncoder { seq: 0, frame_samples, pending: None }),
    {
        ChannelEncoder { seq: 0, frame_samples, pending: None }
    }

    /// Is this frame the encoder's size? One that is not is skipped and clears the result.
    pub fn accepts(&mut self, pcm_len: usize) -> (ok: bool)
        ensures
            ok == (pcm_len == old(self).frame_samples),
            *final(self) == (if ok {
                *old(self)
            } else {
                ChannelEncoder { pending: None, ..*old(self) }
            }),
    {
        if pcm_len != self.frame_samples {
            self.pending = None;
            false
        } else {
            true
        }
    }

    /// Record the outcome of encoding a frame: the packet's byte count, or none.
    pub fn record(&mut self, bytes: Option<usize>)
        ensures
            *final(self) == encoded(*old(self), bytes),
    {
        match bytes {
            Some(n) => {
                self.pending = Some((self.seq, n));
                self.seq = self.seq.wrapping_add(1);
            },
            None => {
                self.pending = None;
            },
        }
    }

    /// Take this frame's result for the send pass.
    pub fn take_pending(&mut self) -> (result: Option<(u16, usize)>)
        ensures
            result == old(self).pending,
            *final(self) == (ChannelEncoder { pending: None, ..*old(self) }),
    {
        let result: Option<(u16, usize)> = self.pending;
        self.pending = None;
        result
    }
}

/// Template for a destination without a preference of its own.
#[derive(Clone, Copy, Debug, PartialEq, Eq, Structural)]
pub struct EncoderParams {
    pub bitrate_kbps: u32,
    pub mode: AudioMode,
    pub frame_samples: usize,
}

/// A send stream's identity: source channel, frame size, mode.
#[derive(Clone, Copy, Debug, PartialEq, Eq, Structural)]
pub struct StreamKey {
    pub ch: usize,
    pub frame: usize,
    pub mode: AudioMode,
}

/// Streams are ordered by channel, then frame size, then voice before audio.
pub open spec fn key_before(a: StreamKey, b: StreamKey) -> bool {
    a.ch < b.ch || (a.ch == b.ch && (a.frame < b.frame || (a.frame == b.frame && a.mode
        == AudioMode::Voice && b.mode == AudioMode::Audio)))
}

pub fn key_less(a: StreamKey, b: StreamKey) -> (less: bool)
    ensures
        less == key_before(a, b),
{
    if a.ch != b.ch {
        a.ch < b.ch
    } else if a.frame != b.frame {
        a.frame < b.frame
    } else {
        a.mode == AudioMode::Voice && b.mode == AudioMode::Audio
    }
}

pub open spec fn keys_ascend(keys: Seq<StreamKey>) -> bool {
    forall|i: int, j: int|
        0 <= i < j < keys.len() ==> key_before(#[trigger] keys[i], #[trigger] keys[j])
}

/// Put a key in its place, once.
fn insert_key(keys: &mut Vec<StreamKey>, k: StreamKey)
    requires
        keys_ascend(old(keys)@),
    ensures
        keys_ascend(final(keys)@),
        forall|x: StreamKey| #[trigger]
            final(keys)@.contains(x) <==> old(keys)@.contains(x) || x == k,
{
    let ghost before = keys@;
    let mut i: usize = 0;
    while i < keys.len() && key_less(keys[i], k)
        invariant
            i <= keys@.len(),
            keys@ == before,
            forall|j: int| 0 <= j < i ==> key_before(#[trigger] before[j], k),
        decreases keys@.len() - i,
    {
        i = i + 1;
    }
    if i < keys.len() && keys[i] == k {
        assert(before[i as int] == k);
        return;
    }
    keys.insert(i, k);
    proof {
        let all = keys@;
        assert forall|a: int, b: int| 0 <= a < b < all.len() implies key_before(
            #[trigger] all[a],
            #[trigger] all[b],
        ) by {
            let x = if a < i {
                a
            } else {
                a - 1
            };
            let y = if b < i {
                b
            } else {
                b - 1
            };
            if a != i {
                assert(all[a] == before[x]);
            }
            if b != i {
                assert(all[b] == before[y]);
            }
            if a == i {
                assert(!key_before(before[i as int], k));
                if y > i {
                    assert(key_before(before[i as int], before[y]));
                }
            }
        }
        assert forall|x: StreamKey| #[trigger] all.contains(x) <==> before.contains(x) || x
            == k by {
            if all.contains(x) {
                let a = choose|a: int| 0 <= a < all.len() && all[a] == x;
                if a < i {
                    assert(before[a] == x);
                } else if a > i {
                    assert(before[a - 1] == x);
                }
            }
            if before.contains(x) {
                let a = choose|a: int| 0 <= a < before.len() && before[a] == x;
                let b = if a < i {
                    a
                } else {
                    a + 1
                };
                assert(all[b] == x);
            }
            assert(all[i as int] == k);
        }
    }
}

/// Is the key among them?
fn key_listed(keys: &Vec<StreamKey>, k: StreamKey) -> (found: bool)
    ensures
        found == keys@.contains(k),
{
    let mut i: usize = 0;
    while i < keys.len()
        invariant
            i <= keys@.len(),
            forall|j: int| 0 <= j < i ==> #[trigger] keys@[j] != k,
        decreases keys@.len() - i,
    {
        if keys[i] == k {
            assert(keys@[i as int] == k);
            return true;
        }
        i = i + 1;
    }
    false
}

/// The frame size and mode a remote is sent at: its own preference, or the template's, never
/// below the shortest frame the devices can run.
pub open spec fn params_of(
    prefs: Map<Seq<char>, (usize, AudioMode)>,
    p: EncoderParams,
    peer: Seq<char>,
    shortest: usize,
) -> (usize, AudioMode) {
    let (f, m) = if prefs.dom().contains(peer) {
        prefs[peer]
    } else {
        (p.frame_samples, p.mode)
    };
    (
        if f < shortest {
            shortest
        } else {
            f
        },
        m,
    )
}

pub fn stream_params(
    prefs: &NameMap<(usize, AudioMode)>,
    p: &EncoderParams,
    peer: &str,
    shortest: usize,
) -> (r: (usize, AudioMode))
    requires
        prefs.well_formed(),
    ensures
        r == params_of(prefs.map(), *p, peer@, shortest),
{
    let (f, m): (usize, AudioMode) = match prefs.get(peer) {
        Some(v) => *v,
        None => (p.frame_samples, p.mode),
    };
    (
        if f < shortest {
            shortest
        } else {
            f
        },
        m,
    )
}

/// A live stream and the handle of its encoder.
#[derive(Clone, Copy, Debug, PartialEq, Eq, Structural)]
pub struct LiveStream {
    pub key: StreamKey,
    pub encoder: u64,
}

/// One destination of a stream: a remote, the slot written on the wire, and the handle of
/// the remote's address.
pub struct SendDest {
    pub peer: String,
    pub slot: u8,
    pub addr: u64,
}

pub struct DestView {
    pub peer: Seq<char>,
    pub slot: u8,
    pub addr: u64,
}

impl View for SendDest {
    type V = DestView;

    open spec fn view(&self) -> DestView {
        DestView { peer: self.peer@, slot: self.slot, addr: self.addr }
    }
}

/// A live stream with every destination it feeds.
pub struct SendStream {
    pub frame: usize,
    pub mode: AudioMode,
    pub encoder: u64,
    pub dests: Vec<SendDest>,
}

#[verifier::ext_equal]
pub struct StreamView {
    pub frame: usize,
    pub mode: AudioMode,
    pub encoder: u64,
    pub dests: Seq<DestView>,
}

pub open spec fn dest_views(dests: Seq<SendDest>) -> Seq<DestView> {
    Seq::new(dests.len(), |i: int| dests[i]@)
}

impl View for SendStream {
    type V = StreamView;

    open spec fn view(&self) -> StreamView {
        StreamView {
            frame: self.frame,
            mode: self.mode,
            encoder: self.encoder,
            dests: dest_views(self.dests@),
        }
    }
}

/// What a reconcile asks of its caller.
pub struct Reconciled {
    /// Encoders no longer needed, to be dropped.
    pub released: Vec<u64>,
    /// Streams that need a fresh encoder.
    pub wanted: Vec<StreamKey>,
    /// The frame sizes each channel is to be buffered at.
    pub plan: ChannelPlan,
}

/// The send side's tables: what each remote is routed, how each is sent, and which streams
/// have an encoder.
pub struct CaptureEngine {
    pub num_out_ch: usize,
    /// Hardware channels and tone legs.
    pub total_ch: usize,
    /// Signal routes by remote, as they were given.
    pub signal_routes: NameMap<Vec<RouteEntry>>,
    /// Tone leg of each slot by remote; 0 is off.
    pub tone_dests: NameMap<Vec<u8>>,
    /// The composed send tables by remote.
    pub send_routing: NameMap<PeerSendRouting>,
    pub peer_enc_prefs: NameMap<(usize, AudioMode)>,
    pub enc_params: EncoderParams,
    /// Streams with an encoder, in order.
    pub live: Vec<LiveStream>,
    /// (source, slot) pairs over all remotes.
    pub active_streams: usize,
    /// Callback period requested for the input stream.
    pub input_request: usize,
}

/// The signal routes of a remote; none where it has no entry.
pub open spec fn signal_of(m: Map<Seq<char>, Vec<RouteEntry>>, peer: Seq<char>) -> Seq<RouteEntry> {
    if m.dom().contains(peer) {
        m[peer]@
    } else {
        Seq::empty()
    }
}

/// The tone slots of a remote; none where it has no entry.
pub open spec fn tone_of(m: Map<Seq<char>, Vec<u8>>, peer: Seq<char>) -> Seq<u8> {
    if m.dom().contains(peer) {
        m[peer]@
    } else {
        Seq::empty()
    }
}

impl CaptureEngine {
    /// The routes a remote is sent: its signal routes with its tone on top.
    pub open spec fn routes_of(&self, peer: Seq<char>) -> Seq<RouteEntry> {
        composed_routes(
            signal_of(self.signal_routes.map(), peer),
            tone_of(self.tone_dests.map(), peer),
            self.num_out_ch as int,
        )
    }

    /// The send table of a remote is the composition of its signal and tone, and it has one
    /// exactly while there is something to send.
    pub open spec fn composed_for(&self, peer: Seq<char>) -> bool {
        &&& self.send_routing.map().dom().contains(peer) == (self.routes_of(peer).len() > 0)
        &&& self.send_routing.map().dom().contains(peer) ==> self.send_routing.map()[peer]@
            == slot_table(self.routes_of(peer))
    }

    /// Every table is in order, every send table is the composition of the remote's signal
    /// and tone, and the live streams ascend, each within the channels there are.
    pub open spec fn well_formed(&self) -> bool {
        &&& self.tables_ordered()
        &&& forall|peer: Seq<char>| #[trigger] self.composed_for(peer)
    }

    pub open spec fn tables_ordered(&self) -> bool {
        &&& self.total_ch == self.num_out_ch + 2
        &&& self.total_ch <= 256
        &&& self.signal_routes.well_formed()
        &&& self.tone_dests.well_formed()
        &&& self.send_routing.well_formed()
        &&& self.peer_enc_prefs.well_formed()
        &&& forall|i: int, j: int|
            0 <= i < j < self.live@.len() ==> key_before(
                (#[trigger] self.live@[i]).key,
                (#[trigger] self.live@[j]).key,
            )
        &&& forall|i: int| 0 <= i < self.live@.len() ==> (#[trigger] self.live@[i]).key.ch
            < self.total_ch
    }

    /// All but the routing tables stay as they were.
    pub open spec fn same_streams(&self, other: &CaptureEngine) -> bool {
        &&& self.num_out_ch == other.num_out_ch
        &&& self.total_ch == other.total_ch
        &&& self.enc_params == other.enc_params
        &&& self.live@ == other.live@
        &&& self.active_streams == other.active_streams
        &&& self.input_request == other.input_request
    }

    /// A send side with nothing routed. The input is first asked for the template's frame,
    /// never for less than the shortest period the devices can run.
    pub fn new(outgoing_channels: usize, params: EncoderParams, shortest: usize) -> (e: Self)
        requires
            outgoing_channels <= 254,
        ensures
            e.well_formed(),
            e.num_out_ch == (if outgoing_channels == 0 {
                1int
            } else {
                outgoing_channels as int
            }),
            e.enc_params == params,
            e.signal_routes.map() == Map::<Seq<char>, Vec<RouteEntry>>::empty(),
            e.tone_dests.map() == Map::<Seq<char>, Vec<u8>>::empty(),
            e.peer_enc_prefs.map() == Map::<Seq<char>, (usize, AudioMode)>::empty(),
            e.live@.len() == 0,
            e.active_streams == 0,
            e.input_request == (if params.frame_samples < shortest {
                shortest
            } else {
                params.frame_samples
            }),
    {
        let n: usize = if outgoing_channels == 0 {
            1
        } else {
            outgoing_channels
        };
        CaptureEngine {
            num_out_ch: n,
            total_ch: n + 2,
            signal_routes: NameMap::new(),
            tone_dests: NameMap::new(),
            send_routing: NameMap::new(),
            peer_enc_prefs: NameMap::new(),
            enc_params: params,
            live: Vec::new(),
            active_streams: 0,
            input_request: if params.frame_samples < shortest {
                shortest
            } else {
                params.frame_samples
            },
        }
    }

    /// Compose this remote's signal and tone routes into its send table.
    pub fn rebuild_send_routing(&mut self, peer: &str)
        requires
            old(self).tables_ordered(),
            forall|p: Seq<char>| p != peer@ ==> #[trigger] old(self).composed_for(p),
        ensures
            final(self).well_formed(),
            final(self).signal_routes == old(self).signal_routes,
            final(self).tone_dests == old(self).tone_dests,
            final(self).peer_enc_prefs == old(self).peer_enc_prefs,
            final(self).same_streams(old(self)),
    {
        let none: Vec<RouteEntry> = Vec::new();
        let off: Vec<u8> = Vec::new();
        let routes: Vec<RouteEntry> = compose_routes(
            match self.signal_routes.get(peer) {
                Some(r) => r,
                None => &none,
            },
            match self.tone_dests.get(peer) {
                Some(t) => t,
                None => &off,
            },
            self.num_out_ch,
        );
        assert(none@ =~= Seq::<RouteEntry>::empty());
        assert(off@ =~= Seq::<u8>::empty());
        assert(routes@ == self.routes_of(peer@));
        let ghost before = *self;
        if routes.len() == 0 {
            self.send_routing.remove(peer);
        } else {
            self.send_routing.insert(peer, PeerSendRouting::new(&routes));
        }
        assert forall|p: Seq<char>| #[trigger] self.composed_for(p) by {
            assert(self.routes_of(p) == before.routes_of(p));
            if p != peer@ {
                assert(before.composed_for(p));
            }
        }
    }

    /// Set a remote's signal routes, as given; tone is composed on top.
    pub fn set_send_routing(&mut self, peer: &str, routes: Vec<RouteEntry>)
        requires
            old(self).well_formed(),
        ensures
            final(self).well_formed(),
            final(self).signal_routes.map() == old(self).signal_routes.map().insert(peer@, routes),
            final(self).tone_dests == old(self).tone_dests,
            final(self).peer_enc_prefs == old(self).peer_enc_prefs,
            final(self).same_streams(old(self)),
    {
        let ghost before = *self;
        self.signal_routes.insert(peer, routes);
        assert forall|p: Seq<char>| p != peer@ implies #[trigger] self.composed_for(p) by {
            assert(before.composed_for(p));
            assert(self.routes_of(p) == before.routes_of(p));
        }
        self.rebuild_send_routing(peer);
    }

    /// Set a remote's tone: one leg number per slot, 0 being off. All off forgets it.
    pub fn set_tone_routing(&mut self, peer: &str, slots: Vec<u8>)
        requires
            old(self).well_formed(),
        ensures
            final(self).well_formed(),
            final(self).tone_dests.map() == (if forall|i: int|
                0 <= i < slots@.len() ==> slots@[i] == 0 {
                old(self).tone_dests.map().remove(peer@)
            } else {
                old(self).tone_dests.map().insert(peer@, slots)
            }),
            final(self).signal_routes == old(self).signal_routes,
            final(self).peer_enc_prefs == old(self).peer_enc_prefs,
            final(self).same_streams(old(self)),
    {
        let ghost before = *self;
        let mut any: bool = false;
        let mut i: usize = 0;
        while i < slots.len()
            invariant
                i <= slots@.len(),
                any == exists|j: int| 0 <= j < i && slots@[j] != 0,
            decreases slots@.len() - i,
        {
            if slots[i] != 0 {
                assert(slots@[i as int] != 0);
                any = true;
            }
            i = i + 1;
        }
        if any {
            self.tone_dests.insert(peer, slots);
        } else {
            self.tone_dests.remove(peer);
        }
        assert forall|p: Seq<char>| p != peer@ implies #[trigger] self.composed_for(p) by {
            assert(before.composed_for(p));
            assert(self.routes_of(p) == before.routes_of(p));
        }
        self.rebuild_send_routing(peer);
    }

    /// Forget all tone, on every remote. What remains of each is its signal routes.
    pub fn clear_tone(&mut self)
        requires
            old(self).well_formed(),
        ensures
            final(self).well_formed(),
            final(self).tone_dests.map() == Map::<Seq<char>, Vec<u8>>::empty(),
            final(self).signal_routes == old(self).signal_routes,
            final(self).peer_enc_prefs == old(self).peer_enc_prefs,
            final(self).same_streams(old(self)),
    {
        while self.tone_dests.len() > 0
            invariant
                self.well_formed(),
                self.signal_routes == old(self).signal_routes,
                self.peer_enc_prefs == old(self).peer_enc_prefs,
                self.same_streams(old(self)),
            decreases self.tone_dests.seq().len(),
        {
            let ghost before = *self;
            let peer: String = self.tone_dests.entry(0).0.to_owned();
            proof {
                lemma_name_stands_once(before.tone_dests.seq(), peer@, 0);
            }
            self.tone_dests.remove(peer.as_str());
            proof {
                crate::names::lemma_remove_shrinks(
                    before.tone_dests.seq(),
                    self.tone_dests.seq(),
                    peer@,
                );
            }
            assert forall|p: Seq<char>| p != peer@ implies #[trigger] self.composed_for(p) by {
                assert(before.composed_for(p));
                assert(self.routes_of(p) == before.routes_of(p));
            }
            self.rebuild_send_routing(peer.as_str());
        }
        assert(self.tone_dests.map() =~= Map::<Seq<char>, Vec<u8>>::empty());
    }

    /// Forget everything kept for a remote.
    pub fn remove_peer(&mut self, peer: &str)
        requires
            old(self).well_formed(),
        ensures
            final(self).well_formed(),
            final(self).signal_routes.map() == old(self).signal_routes.map().remove(peer@),
            final(self).tone_dests.map() == old(self).tone_dests.map().remove(peer@),
            final(self).peer_enc_prefs.map() == old(self).peer_enc_prefs.map().remove(peer@),
            final(self).same_streams(old(self)),
    {
        let ghost before = *self;
        self.tone_dests.remove(peer);
        self.signal_routes.remove(peer);
        self.peer_enc_prefs.remove(peer);
        assert forall|p: Seq<char>| p != peer@ implies #[trigger] self.composed_for(p) by {
            assert(before.composed_for(p));
            assert(self.routes_of(p) == before.routes_of(p));
        }
        self.rebuild_send_routing(peer);
    }

    /// Set a remote's frame size and mode.
    pub fn set_peer_enc_prefs(&mut self, peer: &str, frame_samples: usize, mode: AudioMode)
        requires
            old(self).well_formed(),
        ensures
            final(self).well_formed(),
            final(self).peer_enc_prefs.map() == old(self).peer_enc_prefs.map().insert(
                peer@,
                (frame_samples, mode),
            ),
            final(self).signal_routes == old(self).signal_routes,
            final(self).tone_dests == old(self).tone_dests,
            final(self).send_routing == old(self).send_routing,
            final(self).same_streams(old(self)),
    {
        let ghost before = *self;
        self.peer_enc_prefs.insert(peer, (frame_samples, mode));
        assert forall|p: Seq<char>| #[trigger] self.composed_for(p) by {
            assert(before.composed_for(p));
        }
    }
}

/// The stream is called for: some remote routes the channel and is sent at this frame size
/// and mode.
pub open spec fn desired(
    routing: Seq<(Seq<char>, PeerSendRouting)>,
    prefs: Map<Seq<char>, (usize, AudioMode)>,
    p: EncoderParams,
    shortest: usize,
    total_ch: int,
    k: StreamKey,
) -> bool {
    k.ch < total_ch && exists|i: int|
        0 <= i < routing.len() && calls_for(#[trigger] routing[i], prefs, p, shortest, k)
}

/// This remote routes the stream's channel and is sent at its frame size and mode.
pub open spec fn calls_for(
    entry: (Seq<char>, PeerSendRouting),
    prefs: Map<Seq<char>, (usize, AudioMode)>,
    p: EncoderParams,
    shortest: usize,
    k: StreamKey,
) -> bool {
    &&& k.ch < 256
    &&& feeds(entry.1@, k.ch as u8)
    &&& params_of(prefs, p, entry.0, shortest) == (k.frame, k.mode)
}

/// Some stream in the list is buffered for channel `ch` in bucket `b`.
pub open spec fn bucket_wanted(keys: Seq<StreamKey>, ch: int, b: int) -> bool {
    exists|i: int| 0 <= i < keys.len() && #[trigger] keys[i].ch == ch && bucket_of(
        keys[i].frame as int,
    ) == b
}

/// The (source, slot) pairs of the first `n` remotes.
pub open spec fn stream_total(routing: Seq<(Seq<char>, PeerSendRouting)>, n: int) -> nat
    decreases n,
{
    if n <= 0 {
        0
    } else {
        stream_total(routing, n - 1) + fed_count(routing[n - 1].1@, 256)
    }
}

/// The (source, slot) pairs of those of the first `n` remotes that are connected.
pub open spec fn connected_total<T>(
    routing: Seq<(Seq<char>, PeerSendRouting)>,
    connected: Map<Seq<char>, T>,
    n: int,
) -> nat
    decreases n,
{
    if n <= 0 {
        0
    } else {
        connected_total(routing, connected, n - 1) + (if connected.dom().contains(
            routing[n - 1].0,
        ) {
            fed_count(routing[n - 1].1@, 256)
        } else {
            0
        })
    }
}

/// The live streams among the first `n` that the list still names, in order.
pub open spec fn retained(live: Seq<LiveStream>, keys: Seq<StreamKey>, n: int) -> Seq<LiveStream>
    decreases n,
{
    if n <= 0 {
        Seq::empty()
    } else if keys.contains(live[n - 1].key) {
        retained(live, keys, n - 1).push(live[n - 1])
    } else {
        retained(live, keys, n - 1)
    }
}

/// The encoders among the first `n` live streams that the list no longer names.
pub open spec fn dropped(live: Seq<LiveStream>, keys: Seq<StreamKey>, n: int) -> Seq<u64>
    decreases n,
{
    if n <= 0 {
        Seq::empty()
    } else if keys.contains(live[n - 1].key) {
        dropped(live, keys, n - 1)
    } else {
        dropped(live, keys, n - 1).push(live[n - 1].encoder)
    }
}

/// The stream has an encoder.
pub open spec fn is_live(live: Seq<LiveStream>, k: StreamKey) -> bool {
    exists|i: int| 0 <= i < live.len() && (#[trigger] live[i]).key == k
}

/// The listed streams among the first `n` that have no encoder yet, in order.
pub open spec fn missing(live: Seq<LiveStream>, keys: Seq<StreamKey>, n: int) -> Seq<StreamKey>
    decreases n,
{
    if n <= 0 {
        Seq::empty()
    } else if is_live(live, keys[n - 1]) {
        missing(live, keys, n - 1)
    } else {
        missing(live, keys, n - 1).push(keys[n - 1])
    }
}

/// The live stream comes of one of the first `n` streams asked for and the encoder built for
/// it.
pub open spec fn built_for(
    wanted: Seq<StreamKey>,
    built: Seq<Option<u64>>,
    n: int,
    l: LiveStream,
) -> bool {
    exists|i: int|
        0 <= i < n && #[trigger] wanted[i] == l.key && built[i] == Some(l.encoder)
}

/// A remote's slots below `n` that a channel feeds, as destinations.
pub open spec fn peer_dests(
    peer: Seq<char>,
    addr: u64,
    table: Seq<Option<u8>>,
    ch: u8,
    n: int,
) -> Seq<DestView>
    decreases n,
{
    if n <= 0 {
        Seq::empty()
    } else if table[n - 1] == Some(ch) {
        peer_dests(peer, addr, table, ch, n - 1).push(
            DestView { peer, slot: (n - 1) as u8, addr },
        )
    } else {
        peer_dests(peer, addr, table, ch, n - 1)
    }
}

/// The destinations of a stream over the first `n` remotes, in name order: every remote with
/// a known address that is sent at the stream's frame size and mode, once per slot that the
/// channel feeds and the wire can address.
pub open spec fn stream_dests(
    routing: Seq<(Seq<char>, PeerSendRouting)>,
    addrs: Map<Seq<char>, u64>,
    prefs: Map<Seq<char>, (usize, AudioMode)>,
    p: EncoderParams,
    shortest: usize,
    k: StreamKey,
    n: int,
) -> Seq<DestView>
    decreases n,
{
    if n <= 0 {
        Seq::empty()
    } else {
        let (peer, table) = routing[n - 1];
        let rest = stream_dests(routing, addrs, prefs, p, shortest, k, n - 1);
        if addrs.dom().contains(peer) && params_of(prefs, p, peer, shortest) == (k.frame, k.mode) {
            rest + peer_dests(peer, addrs[peer], table@, k.ch as u8, 128)
        } else {
            rest
        }
    }
}

/// The streams of channel `ch` among the first `n` live ones, in order of frame size and
/// mode.
pub open spec fn channel_streams(
    e: &CaptureEngine,
    addrs: Map<Seq<char>, u64>,
    shortest: usize,
    ch: int,
    n: int,
) -> Seq<StreamView>
    decreases n,
{
    if n <= 0 {
        Seq::empty()
    } else {
        let l = e.live@[n - 1];
        let rest = channel_streams(e, addrs, shortest, ch, n - 1);
        if l.key.ch == ch {
            rest.push(
                StreamView {
                    frame: l.key.frame,
                    mode: l.key.mode,
                    encoder: l.encoder,
                    dests: stream_dests(
                        e.send_routing.seq(),
                        addrs,
                        e.peer_enc_prefs.map(),
                        e.enc_params,
                        shortest,
                        l.key,
                        e.send_routing.seq().len() as int,
                    ),
                },
            )
        } else {
            rest
        }
    }
}

pub open spec fn stream_views(streams: Seq<SendStream>) -> Seq<StreamView> {
    Seq::new(streams.len(), |i: int| streams[i]@)
}

impl CaptureEngine {
    /// Every send table has its 256 slots.
    proof fn lemma_tables_whole(&self)
        requires
            self.well_formed(),
        ensures
            forall|i: int|
                0 <= i < self.send_routing.seq().len() ==> (
                #[trigger] self.send_routing.seq()[i]).1.well_formed(),
    {
        let s = self.send_routing.seq();
        assert forall|i: int| 0 <= i < s.len() implies (#[trigger] s[i]).1.well_formed() by {
            lemma_name_stands_once(s, s[i].0, i);
            assert(self.composed_for(s[i].0));
        }
    }

    /// The streams that routing and preferences call for: for every remote, one per channel
    /// it routes, at that remote's own frame size and mode. Remotes that agree share one.
    pub fn desired_streams(&self, shortest: usize) -> (keys: Vec<StreamKey>)
        requires
            self.well_formed(),
        ensures
            keys_ascend(keys@),
            forall|k: StreamKey| #[trigger]
                keys@.contains(k) <==> desired(
                    self.send_routing.seq(),
                    self.peer_enc_prefs.map(),
                    self.enc_params,
                    shortest,
                    self.total_ch as int,
                    k,
                ),
    {
        proof {
            self.lemma_tables_whole();
        }
        let ghost routing = self.send_routing.seq();
        let ghost prefs = self.peer_enc_prefs.map();
        let ghost p = self.enc_params;
        let mut keys: Vec<StreamKey> = Vec::new();
        let n: usize = self.send_routing.len();
        let mut i: usize = 0;
        while i < n
            invariant
                i <= n,
                n == routing.len(),
                routing == self.send_routing.seq(),
                prefs == self.peer_enc_prefs.map(),
                p == self.enc_params,
                self.well_formed(),
                forall|j: int| 0 <= j < routing.len() ==> (#[trigger] routing[j]).1.well_formed(),
                keys_ascend(keys@),
                forall|k: StreamKey| #[trigger]
                    keys@.contains(k) <==> k.ch < self.total_ch && exists|j: int|
                        0 <= j < i && calls_for(#[trigger] routing[j], prefs, p, shortest, k),
            decreases n - i,
        {
            let (peer, table): (&str, &PeerSendRouting) = self.send_routing.entry(i);
            let (f, m): (usize, AudioMode) = stream_params(
                &self.peer_enc_prefs,
                &self.enc_params,
                peer,
                shortest,
            );
            let ghost before = keys@;
            let ghost entry = routing[i as int];
            let mut ch: usize = 0;
            while ch < self.total_ch
                invariant
                    ch <= self.total_ch <= 256,
                    self.well_formed(),
                    table.well_formed(),
                    entry.1 == *table,
                    params_of(prefs, p, entry.0, shortest) == (f, m),
                    keys_ascend(keys@),
                    forall|k: StreamKey| #[trigger]
                        keys@.contains(k) <==> before.contains(k) || (k.ch < ch && calls_for(
                            entry,
                            prefs,
                            p,
                            shortest,
                            k,
                        )),
                decreases self.total_ch - ch,
            {
                let ghost prev = keys@;
                if table.carries(ch as u8) {
                    let key = StreamKey { ch, frame: f, mode: m };
                    insert_key(&mut keys, key);
                    assert(calls_for(entry, prefs, p, shortest, key));
                    assert forall|k: StreamKey| #[trigger] keys@.contains(k) <==> before.contains(k)
                        || (k.ch < ch + 1 && calls_for(entry, prefs, p, shortest, k)) by {
                        assert(keys@.contains(k) <==> prev.contains(k) || k == key);
                    }
                } else {
                    assert forall|k: StreamKey| #[trigger] keys@.contains(k) <==> before.contains(k)
                        || (k.ch < ch + 1 && calls_for(entry, prefs, p, shortest, k)) by {
                        if k.ch == ch {
                            assert(!calls_for(entry, prefs, p, shortest, k));
                        }
                    }
                }
                ch = ch + 1;
            }
            assert forall|k: StreamKey| #[trigger] keys@.contains(k) <==> k.ch < self.total_ch
                && exists|j: int|
                0 <= j < i + 1 && calls_for(#[trigger] routing[j], prefs, p, shortest, k) by {
                if keys@.contains(k) {
                    if before.contains(k) {
                        let j = choose|j: int|
                            0 <= j < i && calls_for(#[trigger] routing[j], prefs, p, shortest, k);
                        assert(calls_for(routing[j], prefs, p, shortest, k));
                    } else {
                        assert(calls_for(routing[i as int], prefs, p, shortest, k));
                    }
                }
                if k.ch < self.total_ch && exists|j: int|
                    0 <= j < i + 1 && calls_for(#[trigger] routing[j], prefs, p, shortest, k) {
                    let j = choose|j: int|
                        0 <= j < i + 1 && calls_for(#[trigger] routing[j], prefs, p, shortest, k);
                    if j < i {
                        assert(before.contains(k));
                    }
                }
            }
            i = i + 1;
        }
        keys
    }

    /// Bring the live streams to what routing and preferences call for. A stream still needed
    /// keeps its encoder, one no longer needed gives it up, and the caller builds the ones
    /// that are missing and hands them to `adopt_built`.
    pub fn reconcile_encoders(&mut self, shortest: usize) -> (r: Reconciled)
        requires
            old(self).well_formed(),
            stream_total(
                old(self).send_routing.seq(),
                old(self).send_routing.seq().len() as int,
            ) <= usize::MAX,
        ensures
            final(self).well_formed(),
            final(self).num_out_ch == old(self).num_out_ch,
            final(self).total_ch == old(self).total_ch,
            final(self).signal_routes == old(self).signal_routes,
            final(self).tone_dests == old(self).tone_dests,
            final(self).send_routing == old(self).send_routing,
            final(self).peer_enc_prefs == old(self).peer_enc_prefs,
            final(self).enc_params == old(self).enc_params,
            final(self).input_request == old(self).input_request,
            final(self).active_streams == stream_total(
                old(self).send_routing.seq(),
                old(self).send_routing.seq().len() as int,
            ),
            keys_ascend(r.wanted@),
            forall|i: int|
                0 <= i < r.wanted@.len() ==> (#[trigger] r.wanted@[i]).ch < final(self).total_ch
                    && !is_live(final(self).live@, r.wanted@[i]),
            exists|keys: Seq<StreamKey>|
                {
                    &&& #[trigger] keys_ascend(keys)
                    &&& forall|k: StreamKey| #[trigger]
                        keys.contains(k) <==> desired(
                            old(self).send_routing.seq(),
                            old(self).peer_enc_prefs.map(),
                            old(self).enc_params,
                            shortest,
                            old(self).total_ch as int,
                            k,
                        )
                    &&& final(self).live@ == retained(
                        old(self).live@,
                        keys,
                        old(self).live@.len() as int,
                    )
                    &&& r.released@ == dropped(old(self).live@, keys, old(self).live@.len() as int)
                    &&& r.wanted@ == missing(final(self).live@, keys, keys.len() as int)
                    &&& r.plan.per_ch_buckets@.len() == old(self).total_ch
                    &&& forall|ch: int, b: int|
                        0 <= ch < old(self).total_ch && 0 <= b < 4 ==> (#[trigger] in_use(
                            r.plan.per_ch_buckets@,
                            ch,
                            b,
                        ) == bucket_wanted(keys, ch, b))
                },
    {
        let keys: Vec<StreamKey> = self.desired_streams(shortest);
        let ghost before = *self;
        let ghost live = self.live@;
        let mut kept: Vec<LiveStream> = Vec::new();
        let mut released: Vec<u64> = Vec::new();
        let n: usize = self.live.len();
        let mut i: usize = 0;
        while i < n
            invariant
                i <= n,
                n == live.len(),
                self.live@ == live,
                before.tables_ordered(),
                before.live@ == live,
                kept@ == retained(live, keys@, i as int),
                released@ == dropped(live, keys@, i as int),
                forall|a: int, b: int|
                    0 <= a < b < kept@.len() ==> key_before(
                        (#[trigger] kept@[a]).key,
                        (#[trigger] kept@[b]).key,
                    ),
                forall|a: int|
                    0 <= a < kept@.len() ==> i > 0 && (#[trigger] kept@[a]).key.ch < before.total_ch
                        && (kept@[a].key == live[i - 1].key || key_before(
                        kept@[a].key,
                        live[i - 1].key,
                    )),
            decreases n - i,
        {
            let l: LiveStream = self.live[i];
            if i > 0 {
                assert(key_before(live[i - 1].key, live[i as int].key));
            }
            if key_listed(&keys, l.key) {
                kept.push(l);
            } else {
                released.push(l.encoder);
            }
            i = i + 1;
        }
        self.live = kept;
        let mut wanted: Vec<StreamKey> = Vec::new();
        let mut w: usize = 0;
        while w < keys.len()
            invariant
                w <= keys@.len(),
                wanted@ == missing(self.live@, keys@, w as int),
            decreases keys@.len() - w,
        {
            if !self.has_encoder(keys[w]) {
                wanted.push(keys[w]);
            }
            w = w + 1;
        }
        let plan: ChannelPlan = plan_for(&keys, self.total_ch);
        assert forall|p: Seq<char>| #[trigger] self.composed_for(p) by {
            assert(before.composed_for(p));
        }
        assert(self.well_formed());
        self.active_streams = self.stream_sum();
        assert forall|p: Seq<char>| #[trigger] self.composed_for(p) by {
            assert(before.composed_for(p));
        }
        assert(keys_ascend(keys@));
        proof {
            lemma_missing_are_new(self.live@, keys@, keys@.len() as int);
            assert forall|i: int| 0 <= i < wanted@.len() implies (#[trigger] wanted@[i]).ch
                < self.total_ch && !is_live(self.live@, wanted@[i]) by {
                assert(keys@.contains(wanted@[i]));
            }
        }
        Reconciled { released, wanted, plan }
    }

    fn stream_sum(&self) -> (n: usize)
        requires
            self.well_formed(),
            stream_total(self.send_routing.seq(), self.send_routing.seq().len() as int)
                <= usize::MAX,
        ensures
            n == stream_total(self.send_routing.seq(), self.send_routing.seq().len() as int),
    {
        proof {
            self.lemma_tables_whole();
        }
        let ghost routing = self.send_routing.seq();
        let mut sum: usize = 0;
        let mut i: usize = 0;
        while i < self.send_routing.len()
            invariant
                i <= routing.len(),
                routing == self.send_routing.seq(),
                forall|j: int| 0 <= j < routing.len() ==> (#[trigger] routing[j]).1.well_formed(),
                sum == stream_total(routing, i as int),
                stream_total(routing, routing.len() as int) <= usize::MAX,
            decreases routing.len() - i,
        {
            proof {
                lemma_stream_total_grows(routing, i + 1, routing.len() as int);
            }
            let (_, table): (&str, &PeerSendRouting) = self.send_routing.entry(i);
            sum = sum + table.stream_count();
            i = i + 1;
        }
        sum
    }

    /// Does the stream have an encoder?
    pub fn has_encoder(&self, k: StreamKey) -> (has: bool)
        ensures
            has == is_live(self.live@, k),
    {
        let mut i: usize = 0;
        while i < self.live.len()
            invariant
                i <= self.live@.len(),
                forall|j: int| 0 <= j < i ==> (#[trigger] self.live@[j]).key != k,
            decreases self.live@.len() - i,
        {
            if self.live[i].key == k {
                assert(self.live@[i as int].key == k);
                return true;
            }
            i = i + 1;
        }
        false
    }

    /// Take over a fresh encoder for a stream that has none.
    pub fn adopt_encoder(&mut self, key: StreamKey, encoder: u64)
        requires
            old(self).well_formed(),
            key.ch < old(self).total_ch,
            !is_live(old(self).live@, key),
        ensures
            final(self).well_formed(),
            final(self).num_out_ch == old(self).num_out_ch,
            final(self).total_ch == old(self).total_ch,
            final(self).signal_routes == old(self).signal_routes,
            final(self).tone_dests == old(self).tone_dests,
            final(self).send_routing == old(self).send_routing,
            final(self).peer_enc_prefs == old(self).peer_enc_prefs,
            final(self).enc_params == old(self).enc_params,
            final(self).active_streams == old(self).active_streams,
            final(self).input_request == old(self).input_request,
            exists|i: int|
                0 <= i <= old(self).live@.len() && final(self).live@ == #[trigger] old(
                    self,
                ).live@.insert(i, LiveStream { key, encoder }),
    {
        let ghost before = self.live@;
        let ghost engine = *self;
        let mut i: usize = 0;
        while i < self.live.len() && key_less(self.live[i].key, key)
            invariant
                i <= self.live@.len(),
                self.live@ == before,
                forall|j: int| 0 <= j < i ==> key_before((#[trigger] before[j]).key, key),
            decreases self.live@.len() - i,
        {
            i = i + 1;
        }
        let l = LiveStream { key, encoder };
        self.live.insert(i, l);
        proof {
            let all = self.live@;
            assert(all == before.insert(i as int, l));
            assert forall|a: int, b: int| 0 <= a < b < all.len() implies key_before(
                (#[trigger] all[a]).key,
                (#[trigger] all[b]).key,
            ) by {
                let x = if a < i {
                    a
                } else {
                    a - 1
                };
                let y = if b < i {
                    b
                } else {
                    b - 1
                };
                if a != i {
                    assert(all[a] == before[x]);
                }
                if b != i {
                    assert(all[b] == before[y]);
                }
                if a == i {
                    assert(!key_before(before[i as int].key, key));
                    assert(before[i as int].key != key);
                    if y > i {
                        assert(key_before(before[i as int].key, before[y].key));
                    }
                }
            }
            assert forall|a: int| 0 <= a < all.len() implies (#[trigger] all[a]).key.ch
                < self.total_ch by {
                let x = if a < i {
                    a
                } else {
                    a - 1
                };
                if a != i {
                    assert(all[a] == before[x]);
                }
            }
            assert forall|p: Seq<char>| #[trigger] self.composed_for(p) by {
                assert(engine.composed_for(p));
            }
        }
    }

    /// Take over the encoders built for the streams a reconcile asked for; one that could not
    /// be built leaves its stream without.
    pub fn adopt_built(&mut self, wanted: &Vec<StreamKey>, built: &Vec<Option<u64>>)
        requires
            old(self).well_formed(),
            wanted@.len() == built@.len(),
            keys_ascend(wanted@),
            forall|i: int|
                0 <= i < wanted@.len() ==> (#[trigger] wanted@[i]).ch < old(self).total_ch
                    && !is_live(old(self).live@, wanted@[i]),
        ensures
            final(self).well_formed(),
            final(self).num_out_ch == old(self).num_out_ch,
            final(self).total_ch == old(self).total_ch,
            final(self).signal_routes == old(self).signal_routes,
            final(self).tone_dests == old(self).tone_dests,
            final(self).send_routing == old(self).send_routing,
            final(self).peer_enc_prefs == old(self).peer_enc_prefs,
            final(self).enc_params == old(self).enc_params,
            final(self).active_streams == old(self).active_streams,
            final(self).input_request == old(self).input_request,
            forall|l: LiveStream| #[trigger]
                final(self).live@.contains(l) <==> old(self).live@.contains(l) || built_for(
                    wanted@,
                    built@,
                    wanted@.len() as int,
                    l,
                ),
    {
        let ghost start = self.live@;
        let mut i: usize = 0;
        while i < wanted.len()
            invariant
                i <= wanted@.len(),
                wanted@.len() == built@.len(),
                keys_ascend(wanted@),
                start == old(self).live@,
                forall|j: int|
                    0 <= j < wanted@.len() ==> (#[trigger] wanted@[j]).ch < old(self).total_ch
                        && !is_live(start, wanted@[j]),
                self.well_formed(),
                self.num_out_ch == old(self).num_out_ch,
                self.total_ch == old(self).total_ch,
                self.signal_routes == old(self).signal_routes,
                self.tone_dests == old(self).tone_dests,
                self.send_routing == old(self).send_routing,
                self.peer_enc_prefs == old(self).peer_enc_prefs,
                self.enc_params == old(self).enc_params,
                self.active_streams == old(self).active_streams,
                self.input_request == old(self).input_request,
                forall|l: LiveStream| #[trigger]
                    self.live@.contains(l) <==> start.contains(l) || built_for(
                        wanted@,
                        built@,
                        i as int,
                        l,
                    ),
            decreases wanted@.len() - i,
        {
            let ghost before = self.live@;
            let key: StreamKey = wanted[i];
            if let Some(encoder) = built[i] {
                proof {
                    if is_live(before, key) {
                        let a = choose|a: int| 0 <= a < before.len() && (#[trigger] before[a]).key
                            == key;
                        assert(before.contains(before[a]));
                        if start.contains(before[a]) {
                            let b = choose|b: int| 0 <= b < start.len() && start[b] == before[a];
                            assert(start[b].key == key);
                        } else {
                            let b = choose|b: int|
                                0 <= b < i && #[trigger] wanted@[b] == before[a].key && built@[b]
                                    == Some(before[a].encoder);
                            assert(key_before(wanted@[b], wanted@[i as int]));
                        }
                        assert(false);
                    }
                }
                self.adopt_encoder(key, encoder);
                proof {
                    let l = LiveStream { key, encoder };
                    let at = choose|at: int|
                        0 <= at <= before.len() && self.live@ == #[trigger] before.insert(at, l);
                    lemma_insert_contains(before, at, l);
                }
            }
            proof {
                assert forall|l: LiveStream| #[trigger] self.live@.contains(l) implies (
                start.contains(l) || built_for(wanted@, built@, i + 1, l)) by {
                    if before.contains(l) && !start.contains(l) {
                        let b = choose|b: int|
                            0 <= b < i && #[trigger] wanted@[b] == l.key && built@[b] == Some(
                                l.encoder,
                            );
                        assert(wanted@[b] == l.key);
                    } else if !before.contains(l) {
                        assert(wanted@[i as int] == l.key);
                    }
                }
                assert forall|l: LiveStream|
                    start.contains(l) || built_for(wanted@, built@, i + 1, l) implies
                    #[trigger] self.live@.contains(l) by {
                    if start.contains(l) {
                        assert(before.contains(l));
                    } else {
                        let b = choose|b: int|
                            0 <= b < i + 1 && #[trigger] wanted@[b] == l.key && built@[b] == Some(
                                l.encoder,
                            );
                        if b < i {
                            assert(built_for(wanted@, built@, i as int, l));
                            assert(before.contains(l));
                        }
                    }
                }
            }
            i = i + 1;
        }
    }

    /// Each channel's live streams with their destinations. Nothing routed means nothing is
    /// sent: there is no fallback to a known address.
    pub fn build_streams(&self, addrs: &NameMap<u64>, shortest: usize) -> (out: Vec<
        Vec<SendStream>,
    >)
        requires
            self.well_formed(),
            addrs.well_formed(),
        ensures
            out@.len() == self.total_ch,
            forall|ch: int|
                0 <= ch < out@.len() ==> stream_views((#[trigger] out@[ch])@) == channel_streams(
                    self,
                    addrs.map(),
                    shortest,
                    ch,
                    self.live@.len() as int,
                ),
    {
        let mut out: Vec<Vec<SendStream>> = Vec::new();
        let mut ch: usize = 0;
        while ch < self.total_ch
            invariant
                ch <= self.total_ch,
                self.well_formed(),
                addrs.well_formed(),
                out@.len() == ch,
                forall|c: int|
                    0 <= c < ch ==> stream_views((#[trigger] out@[c])@) == channel_streams(
                        self,
                        addrs.map(),
                        shortest,
                        c,
                        self.live@.len() as int,
                    ),
            decreases self.total_ch - ch,
        {
            let mut list: Vec<SendStream> = Vec::new();
            let mut i: usize = 0;
            assert(stream_views(list@) =~= Seq::<StreamView>::empty());
            while i < self.live.len()
                invariant
                    i <= self.live@.len(),
                    self.well_formed(),
                    addrs.well_formed(),
                    stream_views(list@) == channel_streams(
                        self,
                        addrs.map(),
                        shortest,
                        ch as int,
                        i as int,
                    ),
                decreases self.live@.len() - i,
            {
                let l: LiveStream = self.live[i];
                if l.key.ch == ch {
                    let ghost before = list@;
                    let dests: Vec<SendDest> = self.dests_for(addrs, shortest, l.key);
                    let s = SendStream {
                        frame: l.key.frame,
                        mode: l.key.mode,
                        encoder: l.encoder,
                        dests,
                    };
                    let ghost v = s@;
                    list.push(s);
                    assert(stream_views(list@) =~= stream_views(before).push(v));
                }
                i = i + 1;
            }
            out.push(list);
            ch = ch + 1;
        }
        out
    }

    fn dests_for(&self, addrs: &NameMap<u64>, shortest: usize, key: StreamKey) -> (dests: Vec<
        SendDest,
    >)
        requires
            self.well_formed(),
            addrs.well_formed(),
            key.ch < 256,
        ensures
            dest_views(dests@) == stream_dests(
                self.send_routing.seq(),
                addrs.map(),
                self.peer_enc_prefs.map(),
                self.enc_params,
                shortest,
                key,
                self.send_routing.seq().len() as int,
            ),
    {
        proof {
            self.lemma_tables_whole();
        }
        let ghost routing = self.send_routing.seq();
        let mut dests: Vec<SendDest> = Vec::new();
        let mut i: usize = 0;
        assert(dest_views(dests@) =~= Seq::<DestView>::empty());
        while i < self.send_routing.len()
            invariant
                i <= routing.len(),
                routing == self.send_routing.seq(),
                self.well_formed(),
                addrs.well_formed(),
                key.ch < 256,
                forall|j: int| 0 <= j < routing.len() ==> (#[trigger] routing[j]).1.well_formed(),
                dest_views(dests@) == stream_dests(
                    routing,
                    addrs.map(),
                    self.peer_enc_prefs.map(),
                    self.enc_params,
                    shortest,
                    key,
                    i as int,
                ),
            decreases routing.len() - i,
        {
            let (peer, table): (&str, &PeerSendRouting) = self.send_routing.entry(i);
            let (f, m): (usize, AudioMode) = stream_params(
                &self.peer_enc_prefs,
                &self.enc_params,
                peer,
                shortest,
            );
            let ghost before = dest_views(dests@);
            if let Some(a) = addrs.get(peer) {
                let addr: u64 = *a;
                if f == key.frame && m == key.mode {
                    let slots: Vec<u8> = table.resolve(key.ch as u8);
                    push_dests(&mut dests, peer, addr, &slots);
                    proof {
                        lemma_wire_dests(peer@, addr, table@, key.ch as u8, 256);
                        lemma_wire_dests_end(peer@, addr, table@, key.ch as u8, 256);
                        assert(dest_views(dests@) =~= before + peer_dests(
                            peer@,
                            addr,
                            table@,
                            key.ch as u8,
                            128,
                        ));
                    }
                }
            }
            i = i + 1;
        }
        dests
    }

    /// The smallest frame size anything is sent at, or none while nothing is routed.
    pub fn min_resolved_send_frame(&self, shortest: usize) -> (min: Option<usize>)
        requires
            self.well_formed(),
        ensures
            min is Some <==> self.send_routing.seq().len() > 0,
            min matches Some(f) ==> {
                &&& exists|i: int|
                    0 <= i < self.send_routing.seq().len() && params_of(
                        self.peer_enc_prefs.map(),
                        self.enc_params,
                        (#[trigger] self.send_routing.seq()[i]).0,
                        shortest,
                    ).0 == f
                &&& forall|i: int|
                    0 <= i < self.send_routing.seq().len() ==> params_of(
                        self.peer_enc_prefs.map(),
                        self.enc_params,
                        (#[trigger] self.send_routing.seq()[i]).0,
                        shortest,
                    ).0 >= f
            },
    {
        let ghost routing = self.send_routing.seq();
        let mut min: Option<usize> = None;
        let mut i: usize = 0;
        while i < self.send_routing.len()
            invariant
                i <= routing.len(),
                routing == self.send_routing.seq(),
                self.well_formed(),
                min is Some <==> i > 0,
                min matches Some(f) ==> {
                    &&& exists|j: int|
                        0 <= j < i && params_of(
                            self.peer_enc_prefs.map(),
                            self.enc_params,
                            (#[trigger] routing[j]).0,
                            shortest,
                        ).0 == f
                    &&& forall|j: int|
                        0 <= j < i ==> params_of(
                            self.peer_enc_prefs.map(),
                            self.enc_params,
                            (#[trigger] routing[j]).0,
                            shortest,
                        ).0 >= f
                },
            decreases routing.len() - i,
        {
            let (peer, _): (&str, &PeerSendRouting) = self.send_routing.entry(i);
            let (f, _): (usize, AudioMode) = stream_params(
                &self.peer_enc_prefs,
                &self.enc_params,
                peer,
                shortest,
            );
            assert(params_of(
                self.peer_enc_prefs.map(),
                self.enc_params,
                routing[i as int].0,
                shortest,
            ).0 == f);
            min = match min {
                Some(g) => if f < g {
                    Some(f)
                } else {
                    Some(g)
                },
                None => Some(f),
            };
            i = i + 1;
        }
        min
    }

    /// (source, slot) pairs of the connected remotes: what is actually leaving.
    pub fn live_send_streams(&self, connected: &NameMap<()>) -> (n: usize)
        requires
            self.well_formed(),
            connected.well_formed(),
            stream_total(self.send_routing.seq(), self.send_routing.seq().len() as int)
                <= usize::MAX,
        ensures
            n == connected_total(
                self.send_routing.seq(),
                connected.map(),
                self.send_routing.seq().len() as int,
            ),
    {
        proof {
            self.lemma_tables_whole();
        }
        let ghost routing = self.send_routing.seq();
        let mut sum: usize = 0;
        let mut i: usize = 0;
        while i < self.send_routing.len()
            invariant
                i <= routing.len(),
                routing == self.send_routing.seq(),
                connected.well_formed(),
                forall|j: int| 0 <= j < routing.len() ==> (#[trigger] routing[j]).1.well_formed(),
                sum == connected_total(routing, connected.map(), i as int),
                sum <= stream_total(routing, i as int),
                stream_total(routing, routing.len() as int) <= usize::MAX,
            decreases routing.len() - i,
        {
            proof {
                lemma_stream_total_grows(routing, i + 1, routing.len() as int);
            }
            let (peer, table): (&str, &PeerSendRouting) = self.send_routing.entry(i);
            if connected.contains(peer) {
                sum = sum + table.stream_count();
            }
            i = i + 1;
        }
        sum
    }
}

proof fn lemma_stream_total_grows(routing: Seq<(Seq<char>, PeerSendRouting)>, a: int, b: int)
    requires
        a <= b,
    ensures
        stream_total(routing, a) <= stream_total(routing, b),
    decreases b - a,
{
    if a < b {
        lemma_stream_total_grows(routing, a, b - 1);
    }
}

/// The slots of a list that the wire can address, as destinations.
spec fn wire_dests(peer: Seq<char>, addr: u64, slots: Seq<u8>, n: int) -> Seq<DestView>
    decreases n,
{
    if n <= 0 {
        Seq::empty()
    } else if slots[n - 1] > 127 {
        wire_dests(peer, addr, slots, n - 1)
    } else {
        wire_dests(peer, addr, slots, n - 1).push(DestView { peer, slot: slots[n - 1], addr })
    }
}

fn push_dests(dests: &mut Vec<SendDest>, peer: &str, addr: u64, slots: &Vec<u8>)
    ensures
        dest_views(final(dests)@) == dest_views(old(dests)@) + wire_dests(
            peer@,
            addr,
            slots@,
            slots@.len() as int,
        ),
{
    let ghost before = dest_views(dests@);
    let mut j: usize = 0;
    assert(before + wire_dests(peer@, addr, slots@, 0) =~= before);
    while j < slots.len()
        invariant
            j <= slots@.len(),
            dest_views(dests@) == before + wire_dests(peer@, addr, slots@, j as int),
        decreases slots@.len() - j,
    {
        let slot: u8 = slots[j];
        if slot <= 127 {
            let ghost prev = dests@;
            let ghost sofar = wire_dests(peer@, addr, slots@, j as int);
            dests.push(SendDest { peer: peer.to_owned(), slot, addr });
            assert(dest_views(dests@) =~= dest_views(prev).push(
                DestView { peer: peer@, slot, addr },
            ));
            assert((before + sofar).push(DestView { peer: peer@, slot, addr }) =~= before
                + sofar.push(DestView { peer: peer@, slot, addr }));
        }
        j = j + 1;
    }
}

proof fn lemma_wire_dests_prefix(peer: Seq<char>, addr: u64, a: Seq<u8>, b: Seq<u8>, n: int)
    requires
        0 <= n <= a.len(),
        n <= b.len(),
        forall|i: int| 0 <= i < n ==> a[i] == b[i],
    ensures
        wire_dests(peer, addr, a, n) == wire_dests(peer, addr, b, n),
    decreases n,
{
    if n > 0 {
        lemma_wire_dests_prefix(peer, addr, a, b, n - 1);
    }
}

/// The destinations a source's slots give are those of its table up to the wire's reach.
proof fn lemma_wire_dests(peer: Seq<char>, addr: u64, table: Seq<Option<u8>>, ch: u8, n: int)
    requires
        0 <= n <= 256,
        table.len() == 256,
    ensures
        wire_dests(
            peer,
            addr,
            slots_fed(table, ch, n),
            slots_fed(table, ch, n).len() as int,
        ) == peer_dests(
            peer,
            addr,
            table,
            ch,
            if n < 128 {
                n
            } else {
                128
            },
        ),
    decreases n,
{
    if n > 0 {
        lemma_wire_dests(peer, addr, table, ch, n - 1);
        let rest = slots_fed(table, ch, n - 1);
        let all = slots_fed(table, ch, n);
        lemma_wire_dests_prefix(peer, addr, rest, all, rest.len() as int);
    }
}

proof fn lemma_wire_dests_end(peer: Seq<char>, addr: u64, table: Seq<Option<u8>>, ch: u8, n: int)
    requires
        n >= 128,
        n <= 256,
        table.len() == 256,
    ensures
        wire_dests(
            peer,
            addr,
            slots_fed(table, ch, n),
            slots_fed(table, ch, n).len() as int,
        ) == peer_dests(peer, addr, table, ch, 128),
{
    lemma_wire_dests(peer, addr, table, ch, n);
}

proof fn lemma_bucket_bit(bits: u8, set: u8, b: u8)
    requires
        set < 4,
        b < 4,
    ensures
        ((bits | (1u8 << set)) >> b) & 1 == 1 <==> (bits >> b) & 1 == 1 || b == set,
{
    assert(((bits | (1u8 << set)) >> b) & 1 == 1 <==> (bits >> b) & 1 == 1 || b == set)
        by (bit_vector)
        requires
            set < 4,
            b < 4,
    ;
}

/// The frame sizes each of `total_ch` channels is buffered at for these streams.
fn plan_for(keys: &Vec<StreamKey>, total_ch: usize) -> (plan: ChannelPlan)
    ensures
        plan.per_ch_buckets@.len() == total_ch,
        forall|ch: int, b: int|
            0 <= ch < total_ch && 0 <= b < 4 ==> (#[trigger] in_use(plan.per_ch_buckets@, ch, b)
                == bucket_wanted(keys@, ch, b)),
{
    let mut buckets: Vec<u8> = Vec::new();
    let mut c: usize = 0;
    while c < total_ch
        invariant
            c <= total_ch,
            buckets@.len() == c,
            forall|j: int| 0 <= j < c ==> #[trigger] buckets@[j] == 0,
        decreases total_ch - c,
    {
        buckets.push(0);
        c = c + 1;
    }
    assert forall|ch: int, b: int| 0 <= ch < total_ch && 0 <= b < 4 implies !#[trigger] in_use(
        buckets@,
        ch,
        b,
    ) by {
        let s = b as u8;
        assert((0u8 >> s) & 1 != 1) by (bit_vector);
    }
    let mut i: usize = 0;
    while i < keys.len()
        invariant
            i <= keys@.len(),
            buckets@.len() == total_ch,
            forall|ch: int, b: int|
                0 <= ch < total_ch && 0 <= b < 4 ==> (#[trigger] in_use(buckets@, ch, b)
                    == bucket_wanted(keys@.subrange(0, i as int), ch, b)),
        decreases keys@.len() - i,
    {
        let k: StreamKey = keys[i];
        let b: usize = bucket_index(k.frame);
        let ghost before = buckets@;
        if k.ch < total_ch {
            let bits: u8 = buckets[k.ch];
            buckets.set(k.ch, bits | (1u8 << (b as u8)));
        }
        proof {
            let was = keys@.subrange(0, i as int);
            let now = keys@.subrange(0, i + 1);
            assert forall|ch: int, bb: int| 0 <= ch < total_ch && 0 <= bb < 4 implies (
            #[trigger] in_use(buckets@, ch, bb) == bucket_wanted(now, ch, bb)) by {
                assert(in_use(before, ch, bb) == bucket_wanted(was, ch, bb));
                if ch == k.ch {
                    lemma_bucket_bit(before[ch], b as u8, bb as u8);
                }
                assert(now[i as int] == k);
                if bucket_wanted(was, ch, bb) {
                    let j = choose|j: int|
                        0 <= j < was.len() && #[trigger] was[j].ch == ch && bucket_of(
                            was[j].frame as int,
                        ) == bb;
                    assert(now[j].ch == ch);
                }
                if bucket_wanted(now, ch, bb) {
                    let j = choose|j: int|
                        0 <= j < now.len() && #[trigger] now[j].ch == ch && bucket_of(
                            now[j].frame as int,
                        ) == bb;
                    if j < i {
                        assert(was[j].ch == ch);
                    }
                }
            }
        }
        i = i + 1;
    }
    assert(keys@.subrange(0, keys@.len() as int) =~= keys@);
    ChannelPlan { per_ch_buckets: buckets }
}

/// A preference with what a change of all of them names put in place.
pub open spec fn changed_pref(
    v: (usize, AudioMode),
    frame: Option<usize>,
    mode: Option<AudioMode>,
) -> (usize, AudioMode) {
    (
        match frame {
            Some(f) => f,
            None => v.0,
        },
        match mode {
            Some(m) => m,
            None => v.1,
        },
    )
}

/// The mode a setting names: anything but "voice" is audio.
pub fn mode_named(name: &str) -> (mode: AudioMode)
    ensures
        mode == (if name@ == "voice"@ {
            AudioMode::Voice
        } else {
            AudioMode::Audio
        }),
{
    if crate::names::name_same(name, "voice") {
        AudioMode::Voice
    } else {
        AudioMode::Audio
    }
}

/// What a change of bitrate did over the live encoders.
#[derive(Clone, Copy, Debug, PartialEq, Eq, Structural)]
pub struct BitrateOutcome {
    pub applied: usize,
    pub refused: usize,
    /// The first encoder that refused; none means that every one took the value.
    pub first_refused: Option<usize>,
}

/// How many of the first `n` took the value.
pub open spec fn taken_count(took: Seq<bool>, n: int) -> nat
    decreases n,
{
    if n <= 0 {
        0
    } else {
        taken_count(took, n - 1) + (if took[n - 1] {
            1nat
        } else {
            0nat
        })
    }
}

/// Sum up a change of bitrate from what each encoder answered. Every encoder is asked: one
/// that refuses does not keep the rest from taking the value.
pub fn bitrate_outcome(took: &Vec<bool>) -> (o: BitrateOutcome)
    ensures
        o.applied == taken_count(took@, took@.len() as int),
        o.applied + o.refused == took@.len(),
        o.first_refused matches Some(i) ==> i < took@.len() && !took@[i as int] && forall|j: int|
            0 <= j < i ==> #[trigger] took@[j],
        o.first_refused is None ==> forall|j: int| 0 <= j < took@.len() ==> #[trigger] took@[j],
{
    let mut o = BitrateOutcome { applied: 0, refused: 0, first_refused: None };
    let mut i: usize = 0;
    while i < took.len()
        invariant
            i <= took@.len(),
            o.applied == taken_count(took@, i as int),
            o.applied + o.refused == i,
            o.first_refused matches Some(k) ==> k < i && !took@[k as int] && forall|j: int|
                0 <= j < k ==> #[trigger] took@[j],
            o.first_refused is None ==> forall|j: int| 0 <= j < i ==> #[trigger] took@[j],
        decreases took@.len() - i,
    {
        if took[i] {
            o.applied = o.applied + 1;
        } else {
            o.refused = o.refused + 1;
            if o.first_refused.is_none() {
                o.first_refused = Some(i);
            }
        }
        i = i + 1;
    }
    o
}

impl CaptureEngine {
    /// Change the bitrate: future encoders take it from the template, and the answer is what
    /// to set on the live ones. 0 means the codec's own choice.
    pub fn set_bitrate_hot(&mut self, bitrate_kbps: u32) -> (b: Bitrate)
        requires
            old(self).well_formed(),
            bitrate_kbps * 1000 <= u32::MAX,
        ensures
            final(self).well_formed(),
            final(self).enc_params == (EncoderParams { bitrate_kbps, ..old(self).enc_params }),
            final(self).num_out_ch == old(self).num_out_ch,
            final(self).total_ch == old(self).total_ch,
            final(self).signal_routes == old(self).signal_routes,
            final(self).tone_dests == old(self).tone_dests,
            final(self).send_routing == old(self).send_routing,
            final(self).peer_enc_prefs == old(self).peer_enc_prefs,
            final(self).live == old(self).live,
            final(self).active_streams == old(self).active_streams,
            final(self).input_request == old(self).input_request,
            b == (if bitrate_kbps == 0 {
                Bitrate::Auto
            } else {
                Bitrate::Bits((bitrate_kbps * 1000) as i32)
            }),
    {
        let ghost before = *self;
        self.enc_params.bitrate_kbps = bitrate_kbps;
        assert forall|p: Seq<char>| #[trigger] self.composed_for(p) by {
            assert(before.composed_for(p));
        }
        if bitrate_kbps == 0 {
            Bitrate::Auto
        } else {
            let bits: u32 = bitrate_kbps * 1000;
            Bitrate::Bits(#[verifier::truncate] (bits as i32))
        }
    }

    /// Change the frame size, the mode, or both, on the template and on every remote's own
    /// preference. What is not named is kept.
    pub fn reinit_encoders(&mut self, frame: Option<usize>, mode: Option<AudioMode>)
        requires
            old(self).well_formed(),
        ensures
            final(self).well_formed(),
            final(self).enc_params == (EncoderParams {
                frame_samples: changed_pref(
                    (old(self).enc_params.frame_samples, old(self).enc_params.mode),
                    frame,
                    mode,
                ).0,
                mode: changed_pref(
                    (old(self).enc_params.frame_samples, old(self).enc_params.mode),
                    frame,
                    mode,
                ).1,
                ..old(self).enc_params
            }),
            final(self).peer_enc_prefs.map() == Map::new(
                |p: Seq<char>| old(self).peer_enc_prefs.map().dom().contains(p),
                |p: Seq<char>| changed_pref(old(self).peer_enc_prefs.map()[p], frame, mode),
            ),
            final(self).num_out_ch == old(self).num_out_ch,
            final(self).total_ch == old(self).total_ch,
            final(self).signal_routes == old(self).signal_routes,
            final(self).tone_dests == old(self).tone_dests,
            final(self).send_routing == old(self).send_routing,
            final(self).live == old(self).live,
            final(self).active_streams == old(self).active_streams,
            final(self).input_request == old(self).input_request,
    {
        let ghost before = *self;
        let ghost old_prefs = self.peer_enc_prefs.seq();
        if let Some(f) = frame {
            self.enc_params.frame_samples = f;
        }
        if let Some(m) = mode {
            self.enc_params.mode = m;
        }
        let mut prefs: NameMap<(usize, AudioMode)> = NameMap::new();
        let mut i: usize = 0;
        while i < self.peer_enc_prefs.len()
            invariant
                i <= old_prefs.len(),
                old_prefs == self.peer_enc_prefs.seq(),
                self.peer_enc_prefs == before.peer_enc_prefs,
                in_name_order(old_prefs),
                prefs.well_formed(),
                forall|p: Seq<char>| #[trigger]
                    prefs.map().dom().contains(p) <==> exists|j: int|
                        0 <= j < i && #[trigger] old_prefs[j].0 == p,
                forall|j: int|
                    0 <= j < i ==> prefs.map()[(#[trigger] old_prefs[j]).0] == changed_pref(
                        old_prefs[j].1,
                        frame,
                        mode,
                    ),
                self.enc_params == (EncoderParams {
                    frame_samples: changed_pref(
                        (before.enc_params.frame_samples, before.enc_params.mode),
                        frame,
                        mode,
                    ).0,
                    mode: changed_pref(
                        (before.enc_params.frame_samples, before.enc_params.mode),
                        frame,
                        mode,
                    ).1,
                    ..before.enc_params
                }),
                self.num_out_ch == before.num_out_ch,
                self.total_ch == before.total_ch,
                self.signal_routes == before.signal_routes,
                self.tone_dests == before.tone_dests,
                self.send_routing == before.send_routing,
                self.live == before.live,
                self.active_streams == before.active_streams,
                self.input_request == before.input_request,
            decreases old_prefs.len() - i,
        {
            let ghost was = prefs.map();
            let (peer, v): (&str, &(usize, AudioMode)) = self.peer_enc_prefs.entry(i);
            let f: usize = match frame {
                Some(f) => f,
                None => v.0,
            };
            let m: AudioMode = match mode {
                Some(m) => m,
                None => v.1,
            };
            prefs.insert(peer, (f, m));
            proof {
                assert(old_prefs[i as int].0 == peer@);
                assert forall|p: Seq<char>| #[trigger] prefs.map().dom().contains(p) <==> exists|
                    j: int,
                |
                    0 <= j < i + 1 && #[trigger] old_prefs[j].0 == p by {
                    if was.dom().contains(p) {
                        let j = choose|j: int| 0 <= j < i && #[trigger] old_prefs[j].0 == p;
                        assert(old_prefs[j].0 == p);
                    }
                    if exists|j: int| 0 <= j < i + 1 && #[trigger] old_prefs[j].0 == p {
                        let j = choose|j: int| 0 <= j < i + 1 && #[trigger] old_prefs[j].0 == p;
                        if j < i {
                            assert(was.dom().contains(p));
                        }
                    }
                }
                assert forall|j: int| 0 <= j < i + 1 implies prefs.map()[(
                #[trigger] old_prefs[j]).0] == changed_pref(old_prefs[j].1, frame, mode) by {
                    if j < i {
                        lemma_name_stands_once(old_prefs, old_prefs[j].0, j);
                        lemma_name_stands_once(old_prefs, old_prefs[i as int].0, i as int);
                    }
                }
            }
            i = i + 1;
        }
        proof {
            let want = Map::new(
                |p: Seq<char>| before.peer_enc_prefs.map().dom().contains(p),
                |p: Seq<char>| changed_pref(before.peer_enc_prefs.map()[p], frame, mode),
            );
            assert forall|p: Seq<char>| prefs.map().dom().contains(p) == want.dom().contains(p) by {
                if want.dom().contains(p) {
                    let j = name_at(old_prefs, p);
                    assert(old_prefs[j].0 == p);
                }
            }
            assert forall|p: Seq<char>| prefs.map().dom().contains(p) implies prefs.map()[p]
                == want[p] by {
                let j = choose|j: int| 0 <= j < old_prefs.len() && #[trigger] old_prefs[j].0 == p;
                lemma_name_stands_once(old_prefs, p, j);
            }
            assert(prefs.map() =~= want);
        }
        self.peer_enc_prefs = prefs;
        assert forall|p: Seq<char>| #[trigger] self.composed_for(p) by {
            assert(before.composed_for(p));
        }
    }

    /// Take over a callback request for the input stream: the one asked for, or the current
    /// one, never below what the devices can run.
    pub fn request_input_frames(&mut self, asked: Option<usize>, shortest: usize) -> (request:
        usize)
        requires
            old(self).well_formed(),
        ensures
            final(self).well_formed(),
            ({
                let base = match asked {
                    Some(f) => f,
                    None => old(self).input_request,
                };
                request == (if base < shortest {
                    shortest
                } else {
                    base
                })
            }),
            final(self).input_request == request,
            final(self).num_out_ch == old(self).num_out_ch,
            final(self).total_ch == old(self).total_ch,
            final(self).signal_routes == old(self).signal_routes,
            final(self).tone_dests == old(self).tone_dests,
            final(self).send_routing == old(self).send_routing,
            final(self).peer_enc_prefs == old(self).peer_enc_prefs,
            final(self).enc_params == old(self).enc_params,
            final(self).live == old(self).live,
            final(self).active_streams == old(self).active_streams,
    {
        let ghost before = *self;
        let base: usize = match asked {
            Some(f) => f,
            None => self.input_request,
        };
        self.input_request = if base < shortest {
            shortest
        } else {
            base
        };
        assert forall|p: Seq<char>| #[trigger] self.composed_for(p) by {
            assert(before.composed_for(p));
        }
        self.input_request
    }

    /// The live input period: the request, capped at 10 ms.
    pub fn current_input_frames(&self) -> (frames: usize)
        ensures
            frames == (if self.input_request < IO_BUF_CAP_FRAMES {
                self.input_request
            } else {
                IO_BUF_CAP_FRAMES
            }),
    {
        if self.input_request < IO_BUF_CAP_FRAMES {
            self.input_request
        } else {
            IO_BUF_CAP_FRAMES
        }
    }
}

/// A failed open is tried once more exactly where the device reported busy and the stream
/// just closed was our own.
pub fn retry_open(busy: bool, had_stream: bool) -> (retry: bool)
    ensures
        retry == (busy && had_stream),
{
    busy && had_stream
}

/// One encode of a job: an entry, and the stream that encodes it.
#[derive(Clone, Copy, Debug, PartialEq, Eq, Structural)]
pub struct EncodeTask {
    pub entry: usize,
    pub ch: usize,
    /// The stream's position in its channel's list.
    pub stream: usize,
    pub encoder: u64,
}

/// The encodes of entry `entry` over the first `n` streams of its channel: every stream at
/// the entry's frame size.
pub open spec fn entry_tasks(
    entry: int,
    ch: int,
    frame: int,
    list: Seq<SendStream>,
    n: int,
) -> Seq<EncodeTask>
    decreases n,
{
    if n <= 0 {
        Seq::empty()
    } else {
        let rest = entry_tasks(entry, ch, frame, list, n - 1);
        if list[n - 1].frame == frame {
            rest.push(
                EncodeTask {
                    entry: entry as usize,
                    ch: ch as usize,
                    stream: (n - 1) as usize,
                    encoder: list[n - 1].encoder,
                },
            )
        } else {
            rest
        }
    }
}

/// The encodes of a job's first `n` entries, each given as channel and frame size. An entry
/// of a channel without a list has none.
pub open spec fn job_tasks(
    entries: Seq<(usize, usize)>,
    streams: Seq<Vec<SendStream>>,
    n: int,
) -> Seq<EncodeTask>
    decreases n,
{
    if n <= 0 {
        Seq::empty()
    } else {
        let (ch, frame) = entries[n - 1];
        let rest = job_tasks(entries, streams, n - 1);
        if ch < streams.len() {
            rest + entry_tasks(
                n - 1,
                ch as int,
                frame as int,
                streams[ch as int]@,
                streams[ch as int]@.len() as int,
            )
        } else {
            rest
        }
    }
}

/// Every encode a job calls for, in emission order: each entry once by every stream on its
/// channel at its frame size.
pub fn encode_tasks(entries: &Vec<(usize, usize)>, streams: &Vec<Vec<SendStream>>) -> (tasks: Vec<
    EncodeTask,
>)
    ensures
        tasks@ == job_tasks(entries@, streams@, entries@.len() as int),
{
    let mut tasks: Vec<EncodeTask> = Vec::new();
    let mut e: usize = 0;
    while e < entries.len()
        invariant
            e <= entries@.len(),
            tasks@ == job_tasks(entries@, streams@, e as int),
        decreases entries@.len() - e,
    {
        let (ch, frame): (usize, usize) = entries[e];
        let ghost before = tasks@;
        if ch < streams.len() {
            let list: &Vec<SendStream> = &streams[ch];
            let mut i: usize = 0;
            assert(before + entry_tasks(e as int, ch as int, frame as int, list@, 0) =~= before);
            while i < list.len()
                invariant
                    i <= list@.len(),
                    tasks@ == before + entry_tasks(
                        e as int,
                        ch as int,
                        frame as int,
                        list@,
                        i as int,
                    ),
                decreases list@.len() - i,
            {
                if list[i].frame == frame {
                    let t = EncodeTask { entry: e, ch, stream: i, encoder: list[i].encoder };
                    let ghost sofar = entry_tasks(
                        e as int,
                        ch as int,
                        frame as int,
                        list@,
                        i as int,
                    );
                    tasks.push(t);
                    assert((before + sofar).push(t) =~= before + sofar.push(t));
                }
                i = i + 1;
            }
        }
        e = e + 1;
    }
    tasks
}

/// One packet to transmit: the task it came from, the destination's position in its stream's
/// list, the stream's sequence number and the payload's byte count.
#[derive(Clone, Copy, Debug, PartialEq, Eq, Structural)]
pub struct Emission {
    pub task: usize,
    pub dest: usize,
    pub seq: u16,
    pub bytes: usize,
}

/// A destination is down: it has no status, or one of zero.
pub open spec fn is_down(status: Map<Seq<char>, u8>, peer: Seq<char>) -> bool {
    !status.dom().contains(peer) || status[peer] == 0
}

/// The packets of one encoded frame over the first `n` destinations: every one that is up.
pub open spec fn task_emissions(
    task: int,
    result: (u16, usize),
    dests: Seq<SendDest>,
    status: Map<Seq<char>, u8>,
    n: int,
) -> Seq<Emission>
    decreases n,
{
    if n <= 0 {
        Seq::empty()
    } else {
        let rest = task_emissions(task, result, dests, status, n - 1);
        if is_down(status, dests[n - 1].peer@) {
            rest
        } else {
            rest.push(
                Emission {
                    task: task as usize,
                    dest: (n - 1) as usize,
                    seq: result.0,
                    bytes: result.1,
                },
            )
        }
    }
}

/// The packets of a job's first `n` tasks, in order. A task that gave no packet sends none.
pub open spec fn job_emissions(
    tasks: Seq<EncodeTask>,
    results: Seq<Option<(u16, usize)>>,
    streams: Seq<Vec<SendStream>>,
    status: Map<Seq<char>, u8>,
    n: int,
) -> Seq<Emission>
    decreases n,
{
    if n <= 0 {
        Seq::empty()
    } else {
        let rest = job_emissions(tasks, results, streams, status, n - 1);
        let t = tasks[n - 1];
        match results[n - 1] {
            Some(r) => rest + task_emissions(
                n - 1,
                r,
                streams[t.ch as int]@[t.stream as int].dests@,
                status,
                streams[t.ch as int]@[t.stream as int].dests@.len() as int,
            ),
            None => rest,
        }
    }
}

/// The serial send pass over a job's encoded frames. Each goes to every destination of its
/// stream that is up, with one sequence number for all of them; a destination that is down is
/// passed over and stays in place for when it comes back.
pub fn send_pass(
    tasks: &Vec<EncodeTask>,
    results: &Vec<Option<(u16, usize)>>,
    streams: &Vec<Vec<SendStream>>,
    status: &NameMap<u8>,
) -> (out: Vec<Emission>)
    requires
        status.well_formed(),
        results@.len() == tasks@.len(),
        forall|i: int|
            0 <= i < tasks@.len() ==> (#[trigger] tasks@[i]).ch < streams@.len() && tasks@[i].stream
                < streams@[tasks@[i].ch as int]@.len(),
    ensures
        out@ == job_emissions(tasks@, results@, streams@, status.map(), tasks@.len() as int),
{
    let mut out: Vec<Emission> = Vec::new();
    let mut i: usize = 0;
    while i < tasks.len()
        invariant
            i <= tasks@.len(),
            status.well_formed(),
            results@.len() == tasks@.len(),
            forall|k: int|
                0 <= k < tasks@.len() ==> (#[trigger] tasks@[k]).ch < streams@.len()
                    && tasks@[k].stream < streams@[tasks@[k].ch as int]@.len(),
            out@ == job_emissions(tasks@, results@, streams@, status.map(), i as int),
        decreases tasks@.len() - i,
    {
        let t: EncodeTask = tasks[i];
        let ghost before = out@;
        if let Some((seq, bytes)) = results[i] {
            let dests: &Vec<SendDest> = &streams[t.ch][t.stream].dests;
            let mut d: usize = 0;
            assert(before + task_emissions(i as int, (seq, bytes), dests@, status.map(), 0)
                =~= before);
            while d < dests.len()
                invariant
                    d <= dests@.len(),
                    status.well_formed(),
                    out@ == before + task_emissions(
                        i as int,
                        (seq, bytes),
                        dests@,
                        status.map(),
                        d as int,
                    ),
                decreases dests@.len() - d,
            {
                let up: bool = match status.get(dests[d].peer.as_str()) {
                    Some(s) => *s != 0,
                    None => false,
                };
                if up {
                    let em = Emission { task: i, dest: d, seq, bytes };
                    let ghost sofar = task_emissions(
                        i as int,
                        (seq, bytes),
                        dests@,
                        status.map(),
                        d as int,
                    );
                    out.push(em);
                    assert((before + sofar).push(em) =~= before + sofar.push(em));
                }
                d = d + 1;
            }
        }
        i = i + 1;
    }
    out
}

/// What encryption says of a packet.
pub enum Seal {
    /// The remote takes plain packets.
    Plaintext,
    /// Encryption is asked for and not yet agreed: nothing may leave in the clear.
    Drop,
    /// The sealed payload.
    Sealed(Vec<u8>),
}

/// The header byte and bit that mark an encrypted packet.
pub const FLAGS_AT: usize = 8;

pub const FLAG_ENCRYPTED: u8 = 0x80;

/// Where the payload length stands in the header, low byte first.
pub const LENGTH_AT: usize = 0x13;

/// Bytes of network headers counted with every packet.
pub const WIRE_OVERHEAD: u64 = 28;

/// A packet's header marked encrypted, with the sealed payload's length, and the payload.
pub open spec fn sealed_packet(header: Seq<u8>, blob: Seq<u8>) -> Seq<u8> {
    header.update(FLAGS_AT as int, header[FLAGS_AT as int] | FLAG_ENCRYPTED).update(
        LENGTH_AT as int,
        (blob.len() % 256) as u8,
    ).update(LENGTH_AT + 1, ((blob.len() / 256) % 256) as u8) + blob
}

/// Prepare one packet for transmission: `pkt` holds a header of `header_len` bytes and a
/// payload of `n`. Gives the bytes to send and the count to account for, or none where the
/// packet must not be sent.
pub fn transmit_audio(pkt: &Vec<u8>, header_len: usize, n: usize, seal: Seal) -> (sent: Option<
    (Vec<u8>, u64),
>)
    requires
        LENGTH_AT + 2 <= header_len,
        header_len + n <= pkt@.len(),
        seal matches Seal::Sealed(blob) ==> header_len + blob@.len() <= usize::MAX,
        header_len + n + WIRE_OVERHEAD <= u64::MAX,
        seal matches Seal::Sealed(blob) ==> header_len + blob@.len() + WIRE_OVERHEAD <= u64::MAX,
    ensures
        sent is None <==> seal is Drop,
        seal is Plaintext ==> (sent matches Some(s) && s.0@ == pkt@.subrange(0, header_len + n)
            && s.1 == header_len + n + WIRE_OVERHEAD),
        seal matches Seal::Sealed(blob) ==> (sent matches Some(s) && s.0@ == sealed_packet(
            pkt@.subrange(0, header_len as int),
            blob@,
        ) && s.1 == header_len + blob@.len() + WIRE_OVERHEAD),
{
    match seal {
        Seal::Drop => None,
        Seal::Plaintext => {
            assert(pkt.len() == pkt@.len());
            let mut out: Vec<u8> = Vec::new();
            append_front(&mut out, pkt, header_len + n);
            assert(out@ =~= pkt@.subrange(0, header_len + n));
            Some((out, (header_len + n) as u64 + WIRE_OVERHEAD))
        },
        Seal::Sealed(blob) => {
            let mut out: Vec<u8> = Vec::new();
            append_front(&mut out, pkt, header_len);
            let ghost header = pkt@.subrange(0, header_len as int);
            assert(out@ =~= header);
            let flags: u8 = out[FLAGS_AT];
            out.set(FLAGS_AT, flags | FLAG_ENCRYPTED);
            let len: usize = blob.len();
            out.set(LENGTH_AT, (len % 256) as u8);
            out.set(LENGTH_AT + 1, ((len / 256) % 256) as u8);
            append_front(&mut out, &blob, len);
            assert(blob@.subrange(0, len as int) =~= blob@);
            assert(out@ =~= sealed_packet(header, blob@));
            Some((out, (header_len + len) as u64 + WIRE_OVERHEAD))
        },
    }
}

fn append_front(out: &mut Vec<u8>, from: &Vec<u8>, n: usize)
    requires
        n <= from@.len(),
    ensures
        final(out)@ == old(out)@ + from@.subrange(0, n as int),
{
    let ghost before = out@;
    let mut i: usize = 0;
    while i < n
        invariant
            i <= n <= from@.len(),
            out@ =~= before + from@.subrange(0, i as int),
        decreases n - i,
    {
        let v: u8 = from[i];
        out.push(v);
        i = i + 1;
    }
}

/// Nothing routed means nothing sent: no stream is called for and none has a destination,
/// whatever addresses are known.
pub proof fn law_nothing_routed_sends_nothing(
    prefs: Map<Seq<char>, (usize, AudioMode)>,
    p: EncoderParams,
    shortest: usize,
    total_ch: int,
    addrs: Map<Seq<char>, u64>,
    k: StreamKey,
)
    ensures
        !desired(Seq::empty(), prefs, p, shortest, total_ch, k),
        stream_dests(Seq::empty(), addrs, prefs, p, shortest, k, 0).len() == 0,
{
}

/// A stream that stays called for keeps the very encoder it has.
pub proof fn law_needed_stream_keeps_its_encoder(
    live: Seq<LiveStream>,
    keys: Seq<StreamKey>,
    n: int,
    i: int,
)
    requires
        0 <= i < n <= live.len(),
    ensures
        keys.contains(live[i].key) ==> retained(live, keys, n).contains(live[i]),
        !keys.contains(live[i].key) ==> dropped(live, keys, n).contains(live[i].encoder),
    decreases n,
{
    let kept = retained(live, keys, n);
    let gone = dropped(live, keys, n);
    if i == n - 1 {
        if keys.contains(live[i].key) {
            assert(kept[kept.len() - 1] == live[i]);
        } else {
            assert(gone[gone.len() - 1] == live[i].encoder);
        }
    } else {
        law_needed_stream_keeps_its_encoder(live, keys, n - 1, i);
        let k0 = retained(live, keys, n - 1);
        let g0 = dropped(live, keys, n - 1);
        if keys.contains(live[i].key) {
            let j = choose|j: int| 0 <= j < k0.len() && k0[j] == live[i];
            assert(kept[j] == live[i]);
        } else {
            let j = choose|j: int| 0 <= j < g0.len() && g0[j] == live[i].encoder;
            assert(gone[j] == live[i].encoder);
        }
    }
}

/// After a reconcile every stream called for has its encoder or is handed out to be built,
/// and no other stream is live.
pub proof fn law_reconcile_leaves_live_or_wanted(
    live: Seq<LiveStream>,
    keys: Seq<StreamKey>,
    k: StreamKey,
)
    ensures
        ({
            let kept = retained(live, keys, live.len() as int);
            &&& keys.contains(k) ==> is_live(kept, k) || missing(
                kept,
                keys,
                keys.len() as int,
            ).contains(k)
            &&& is_live(kept, k) ==> keys.contains(k)
        }),
{
    let kept = retained(live, keys, live.len() as int);
    if keys.contains(k) && !is_live(kept, k) {
        lemma_missing(kept, keys, keys.len() as int, k);
    }
    lemma_retained_named(live, keys, live.len() as int);
}

/// Once every stream that a reconcile asked for has its encoder, the live streams are exactly
/// those called for: `after` is what `adopt_built` leaves. One that was live and is still
/// called for has the encoder it had, and each new one the encoder built for it.
pub proof fn law_live_streams_are_those_called_for(
    live: Seq<LiveStream>,
    keys: Seq<StreamKey>,
    built: Seq<Option<u64>>,
    after: Seq<LiveStream>,
)
    requires
        ({
            let kept = retained(live, keys, live.len() as int);
            let wanted = missing(kept, keys, keys.len() as int);
            &&& built.len() == wanted.len()
            &&& forall|i: int| 0 <= i < built.len() ==> (#[trigger] built[i]) is Some
            &&& forall|l: LiveStream| #[trigger]
                after.contains(l) <==> kept.contains(l) || built_for(
                    wanted,
                    built,
                    wanted.len() as int,
                    l,
                )
        }),
    ensures
        forall|k: StreamKey| #[trigger] is_live(after, k) <==> keys.contains(k),
        forall|i: int|
            0 <= i < live.len() && keys.contains((#[trigger] live[i]).key) ==> after.contains(
                live[i],
            ),
        ({
            let kept = retained(live, keys, live.len() as int);
            let wanted = missing(kept, keys, keys.len() as int);
            forall|i: int|
                0 <= i < wanted.len() ==> after.contains(
                    LiveStream { key: #[trigger] wanted[i], encoder: built[i]->Some_0 },
                )
        }),
{
    let kept = retained(live, keys, live.len() as int);
    let wanted = missing(kept, keys, keys.len() as int);
    assert forall|i: int| 0 <= i < wanted.len() implies after.contains(
        LiveStream { key: #[trigger] wanted[i], encoder: built[i]->Some_0 },
    ) by {
        let l = LiveStream { key: wanted[i], encoder: built[i]->Some_0 };
        assert(built[i] is Some);
        assert(built_for(wanted, built, wanted.len() as int, l));
    }
    assert forall|k: StreamKey| #[trigger] is_live(after, k) implies keys.contains(k) by {
        let a = choose|a: int| 0 <= a < after.len() && (#[trigger] after[a]).key == k;
        assert(after.contains(after[a]));
        lemma_retained_named(live, keys, live.len() as int);
        lemma_missing_named(kept, keys, keys.len() as int);
        if kept.contains(after[a]) {
            let b = choose|b: int| 0 <= b < kept.len() && kept[b] == after[a];
            assert(keys.contains(kept[b].key));
        } else {
            let b = choose|b: int|
                0 <= b < wanted.len() && #[trigger] wanted[b] == k && built[b] == Some(
                    after[a].encoder,
                );
            assert(keys.contains(wanted[b]));
        }
    }
    assert forall|k: StreamKey| keys.contains(k) implies #[trigger] is_live(after, k) by {
        law_reconcile_leaves_live_or_wanted(live, keys, k);
        if is_live(kept, k) {
            let b = choose|b: int| 0 <= b < kept.len() && (#[trigger] kept[b]).key == k;
            assert(kept.contains(kept[b]));
            assert(after.contains(kept[b]));
            let a = choose|a: int| 0 <= a < after.len() && after[a] == kept[b];
            assert(after[a].key == k);
        } else {
            let b = choose|b: int| 0 <= b < wanted.len() && wanted[b] == k;
            let l = LiveStream { key: wanted[b], encoder: built[b]->Some_0 };
            assert(after.contains(l));
            let a = choose|a: int| 0 <= a < after.len() && after[a] == l;
            assert(after[a].key == k);
        }
    }
    assert forall|i: int| 0 <= i < live.len() && keys.contains((#[trigger] live[i]).key) implies
        after.contains(live[i]) by {
        law_needed_stream_keeps_its_encoder(live, keys, live.len() as int, i);
    }
}

proof fn lemma_insert_contains(s: Seq<LiveStream>, at: int, l: LiveStream)
    requires
        0 <= at <= s.len(),
    ensures
        forall|x: LiveStream| #[trigger] s.insert(at, l).contains(x) <==> s.contains(x) || x == l,
{
    let all = s.insert(at, l);
    assert(all[at] == l);
    assert forall|x: LiveStream| s.contains(x) implies #[trigger] all.contains(x) by {
        let i = choose|i: int| 0 <= i < s.len() && s[i] == x;
        assert(all[if i < at { i } else { i + 1 }] == x);
    }
    assert forall|x: LiveStream| #[trigger] all.contains(x) implies (s.contains(x) || x == l) by {
        let i = choose|i: int| 0 <= i < all.len() && all[i] == x;
        if i < at {
            assert(s[i] == x);
        } else if i > at {
            assert(s[i - 1] == x);
        }
    }
}

proof fn lemma_missing_named(live: Seq<LiveStream>, keys: Seq<StreamKey>, n: int)
    requires
        0 <= n <= keys.len(),
    ensures
        forall|i: int|
            0 <= i < missing(live, keys, n).len() ==> {
                let k = #[trigger] missing(live, keys, n)[i];
                !is_live(live, k) && exists|j: int| 0 <= j < n && #[trigger] keys[j] == k
            },
    decreases n,
{
    if n > 0 {
        lemma_missing_named(live, keys, n - 1);
        let rest = missing(live, keys, n - 1);
        let all = missing(live, keys, n);
        assert forall|i: int| 0 <= i < all.len() implies {
            let k = #[trigger] all[i];
            !is_live(live, k) && exists|j: int| 0 <= j < n && #[trigger] keys[j] == k
        } by {
            if i < rest.len() {
                assert(all[i] == rest[i]);
                let j = choose|j: int| 0 <= j < n - 1 && #[trigger] keys[j] == rest[i];
                assert(keys[j] == all[i]);
            } else {
                assert(keys[n - 1] == all[i]);
            }
        }
    }
}

proof fn lemma_missing_are_new(live: Seq<LiveStream>, keys: Seq<StreamKey>, n: int)
    requires
        0 <= n <= keys.len(),
        keys_ascend(keys),
    ensures
        keys_ascend(missing(live, keys, n)),
        forall|i: int|
            0 <= i < missing(live, keys, n).len() ==> keys.contains(
                #[trigger] missing(live, keys, n)[i],
            ) && !is_live(live, missing(live, keys, n)[i]),
    decreases n,
{
    lemma_missing_named(live, keys, n);
    if n > 0 {
        lemma_missing_are_new(live, keys, n - 1);
        lemma_missing_named(live, keys, n - 1);
        let rest = missing(live, keys, n - 1);
        let all = missing(live, keys, n);
        assert forall|a: int, b: int| 0 <= a < b < all.len() implies key_before(
            #[trigger] all[a],
            #[trigger] all[b],
        ) by {
            assert(all[a] == rest[a]);
            if b < rest.len() {
                assert(all[b] == rest[b]);
            } else {
                let j = choose|j: int| 0 <= j < n - 1 && #[trigger] keys[j] == rest[a];
                assert(key_before(keys[j], keys[n - 1]));
            }
        }
    }
}

proof fn lemma_missing(live: Seq<LiveStream>, keys: Seq<StreamKey>, n: int, k: StreamKey)
    requires
        0 <= n <= keys.len(),
        !is_live(live, k),
        exists|i: int| 0 <= i < n && keys[i] == k,
    ensures
        missing(live, keys, n).contains(k),
    decreases n,
{
    let i = choose|i: int| 0 <= i < n && keys[i] == k;
    let all = missing(live, keys, n);
    if i == n - 1 {
        assert(all[all.len() - 1] == k);
    } else {
        lemma_missing(live, keys, n - 1, k);
        let rest = missing(live, keys, n - 1);
        let j = choose|j: int| 0 <= j < rest.len() && rest[j] == k;
        assert(all[j] == k);
    }
}

proof fn lemma_retained_named(live: Seq<LiveStream>, keys: Seq<StreamKey>, n: int)
    requires
        0 <= n <= live.len(),
    ensures
        forall|i: int|
            0 <= i < retained(live, keys, n).len() ==> keys.contains(
                (#[trigger] retained(live, keys, n)[i]).key,
            ),
    decreases n,
{
    if n > 0 {
        lemma_retained_named(live, keys, n - 1);
        let rest = retained(live, keys, n - 1);
        let all = retained(live, keys, n);
        assert forall|i: int| 0 <= i < all.len() implies keys.contains((#[trigger] all[i]).key) by {
            if i < rest.len() {
                assert(all[i] == rest[i]);
            }
        }
    }
}

/// A remote without a known address, and one sent at another frame size or mode, is no
/// destination of a stream.
pub proof fn law_destinations_are_addressed_and_agree(
    routing: Seq<(Seq<char>, PeerSendRouting)>,
    addrs: Map<Seq<char>, u64>,
    prefs: Map<Seq<char>, (usize, AudioMode)>,
    p: EncoderParams,
    shortest: usize,
    k: StreamKey,
    n: int,
    i: int,
)
    requires
        0 <= n <= routing.len(),
        0 <= i < stream_dests(routing, addrs, prefs, p, shortest, k, n).len(),
    ensures
        ({
            let d = stream_dests(routing, addrs, prefs, p, shortest, k, n)[i];
            &&& addrs.dom().contains(d.peer)
            &&& d.addr == addrs[d.peer]
            &&& params_of(prefs, p, d.peer, shortest) == (k.frame, k.mode)
            &&& d.slot < 128
        }),
    decreases n,
{
    if n > 0 {
        let rest = stream_dests(routing, addrs, prefs, p, shortest, k, n - 1);
        let (peer, table) = routing[n - 1];
        if i < rest.len() {
            law_destinations_are_addressed_and_agree(
                routing,
                addrs,
                prefs,
                p,
                shortest,
                k,
                n - 1,
                i,
            );
        } else {
            lemma_peer_dests(peer, addrs[peer], table@, k.ch as u8, 128, i - rest.len());
        }
    }
}

proof fn lemma_peer_dests(
    peer: Seq<char>,
    addr: u64,
    table: Seq<Option<u8>>,
    ch: u8,
    n: int,
    i: int,
)
    requires
        0 <= n <= 128,
        0 <= i < peer_dests(peer, addr, table, ch, n).len(),
    ensures
        peer_dests(peer, addr, table, ch, n)[i].peer == peer,
        peer_dests(peer, addr, table, ch, n)[i].addr == addr,
        peer_dests(peer, addr, table, ch, n)[i].slot < 128,
    decreases n,
{
    if n > 0 {
        let rest = peer_dests(peer, addr, table, ch, n - 1);
        if i < rest.len() {
            lemma_peer_dests(peer, addr, table, ch, n - 1, i);
        }
    }
}

/// A job's packets are exactly these, each once: for every task that gave a packet, one to
/// every destination of its stream whose status is there and not 0, with the packet's own
/// sequence number and length. None goes to a destination with no status or one of 0.
pub proof fn law_every_connected_destination_is_sent_every_frame(
    tasks: Seq<EncodeTask>,
    results: Seq<Option<(u16, usize)>>,
    streams: Seq<Vec<SendStream>>,
    status: Map<Seq<char>, u8>,
)
    requires
        results.len() == tasks.len(),
        tasks.len() <= usize::MAX,
    ensures
        forall|e: Emission| #[trigger]
            job_emissions(tasks, results, streams, status, tasks.len() as int).contains(e) <==> {
                &&& e.task < tasks.len()
                &&& results[e.task as int] == Some((e.seq, e.bytes))
                &&& ({
                    let t = tasks[e.task as int];
                    let dests = streams[t.ch as int]@[t.stream as int].dests@;
                    &&& e.dest < dests.len()
                    &&& status.dom().contains(dests[e.dest as int].peer@)
                    &&& status[dests[e.dest as int].peer@] != 0
                })
            },
        job_emissions(tasks, results, streams, status, tasks.len() as int).no_duplicates(),
{
    lemma_job_emissions(tasks, results, streams, status, tasks.len() as int);
}

proof fn lemma_job_emissions(
    tasks: Seq<EncodeTask>,
    results: Seq<Option<(u16, usize)>>,
    streams: Seq<Vec<SendStream>>,
    status: Map<Seq<char>, u8>,
    n: int,
)
    requires
        results.len() == tasks.len(),
        0 <= n <= tasks.len() <= usize::MAX,
    ensures
        forall|e: Emission| #[trigger]
            job_emissions(tasks, results, streams, status, n).contains(e) <==> {
                &&& e.task < n
                &&& results[e.task as int] == Some((e.seq, e.bytes))
                &&& ({
                    let t = tasks[e.task as int];
                    let dests = streams[t.ch as int]@[t.stream as int].dests@;
                    &&& e.dest < dests.len()
                    &&& status.dom().contains(dests[e.dest as int].peer@)
                    &&& status[dests[e.dest as int].peer@] != 0
                })
            },
        job_emissions(tasks, results, streams, status, n).no_duplicates(),
    decreases n,
{
    if n > 0 {
        lemma_job_emissions(tasks, results, streams, status, n - 1);
        let rest = job_emissions(tasks, results, streams, status, n - 1);
        let all = job_emissions(tasks, results, streams, status, n);
        let t = tasks[n - 1];
        let dests = streams[t.ch as int]@[t.stream as int].dests@;
        if let Some(r) = results[n - 1] {
            let last = task_emissions(n - 1, r, dests, status, dests.len() as int);
            assert(streams[t.ch as int]@[t.stream as int].dests.len() == dests.len());
            lemma_task_emissions(n - 1, r, dests, status, dests.len() as int);
            assert(all == rest + last);
            assert forall|e: Emission| #[trigger] all.contains(e) <==> rest.contains(e)
                || last.contains(e) by {
                if all.contains(e) {
                    let i = choose|i: int| 0 <= i < all.len() && all[i] == e;
                    if i < rest.len() {
                        assert(rest[i] == e);
                    } else {
                        assert(last[i - rest.len()] == e);
                    }
                }
                if rest.contains(e) {
                    let i = choose|i: int| 0 <= i < rest.len() && rest[i] == e;
                    assert(all[i] == e);
                }
                if last.contains(e) {
                    let i = choose|i: int| 0 <= i < last.len() && last[i] == e;
                    assert(all[rest.len() + i] == e);
                }
            }
            assert forall|i: int, j: int| 0 <= i < all.len() && 0 <= j < all.len() && i
                != j implies all[i] != all[j] by {
                let a = if i < rest.len() {
                    rest[i]
                } else {
                    last[i - rest.len()]
                };
                let b = if j < rest.len() {
                    rest[j]
                } else {
                    last[j - rest.len()]
                };
                assert(all[i] == a && all[j] == b);
                if i < rest.len() {
                    assert(rest.contains(a));
                } else {
                    assert(last.contains(a));
                }
                if j < rest.len() {
                    assert(rest.contains(b));
                } else {
                    assert(last.contains(b));
                }
            }
        }
    }
}

proof fn lemma_task_emissions(
    task: int,
    result: (u16, usize),
    dests: Seq<SendDest>,
    status: Map<Seq<char>, u8>,
    n: int,
)
    requires
        0 <= task <= usize::MAX,
        0 <= n <= dests.len() <= usize::MAX,
    ensures
        forall|e: Emission| #[trigger]
            task_emissions(task, result, dests, status, n).contains(e) <==> {
                &&& e.task == task
                &&& (e.seq, e.bytes) == result
                &&& e.dest < n
                &&& status.dom().contains(dests[e.dest as int].peer@)
                &&& status[dests[e.dest as int].peer@] != 0
            },
        task_emissions(task, result, dests, status, n).no_duplicates(),
    decreases n,
{
    if n > 0 {
        lemma_task_emissions(task, result, dests, status, n - 1);
        let rest = task_emissions(task, result, dests, status, n - 1);
        let all = task_emissions(task, result, dests, status, n);
        let new = Emission {
            task: task as usize,
            dest: (n - 1) as usize,
            seq: result.0,
            bytes: result.1,
        };
        assert forall|e: Emission| #[trigger] all.contains(e) <==> {
            &&& e.task == task
            &&& (e.seq, e.bytes) == result
            &&& e.dest < n
            &&& status.dom().contains(dests[e.dest as int].peer@)
            &&& status[dests[e.dest as int].peer@] != 0
        } by {
            if all.contains(e) {
                let i = choose|i: int| 0 <= i < all.len() && all[i] == e;
                if i < rest.len() {
                    assert(rest[i] == e);
                    assert(rest.contains(e));
                }
            }
            if rest.contains(e) {
                let i = choose|i: int| 0 <= i < rest.len() && rest[i] == e;
                assert(all[i] == e);
            }
            if e == new && all.len() > rest.len() {
                assert(all[rest.len() as int] == e);
            }
            if e.dest == n - 1 && e.task == task && (e.seq, e.bytes) == result {
                assert(e == new);
            }
        }
        if all.len() > rest.len() {
            assert(!rest.contains(new));
            assert forall|i: int, j: int| 0 <= i < all.len() && 0 <= j < all.len() && i
                != j implies all[i] != all[j] by {
                if i < rest.len() {
                    assert(rest.contains(all[i]));
                }
                if j < rest.len() {
                    assert(rest.contains(all[j]));
                }
            }
        }
    }
}

/// Every destination of one encoded frame is sent the same sequence number, and none that is
/// down is sent anything.
pub proof fn law_one_sequence_number_per_frame(
    task: int,
    result: (u16, usize),
    dests: Seq<SendDest>,
    status: Map<Seq<char>, u8>,
    n: int,
    i: int,
)
    requires
        0 <= n <= dests.len(),
        n <= usize::MAX,
        0 <= i < task_emissions(task, result, dests, status, n).len(),
    ensures
        ({
            let e = task_emissions(task, result, dests, status, n)[i];
            e.seq == result.0 && e.dest < n && !is_down(status, dests[e.dest as int].peer@)
        }),
    decreases n,
{
    if n > 0 {
        let rest = task_emissions(task, result, dests, status, n - 1);
        if i < rest.len() {
            law_one_sequence_number_per_frame(task, result, dests, status, n - 1, i);
        }
    }
}

/// A reconcile keeps exactly the live streams that are called for, each with its encoder, and
/// hands out exactly those called for that have none.
pub proof fn law_a_reconcile_keeps_and_wants_exactly(
    live: Seq<LiveStream>,
    keys: Seq<StreamKey>,
    l: LiveStream,
    k: StreamKey,
)
    ensures
        retained(live, keys, live.len() as int).contains(l) <==> live.contains(l) && keys.contains(
            l.key,
        ),
        missing(live, keys, keys.len() as int).contains(k) <==> keys.contains(k) && forall|i: int|
            0 <= i < live.len() ==> (#[trigger] live[i]).key != k,
{
    let kept = retained(live, keys, live.len() as int);
    let wanted = missing(live, keys, keys.len() as int);
    lemma_retained_exactly(live, keys, live.len() as int, l);
    assert(live.subrange(0, live.len() as int) =~= live);
    lemma_missing_exactly(live, keys, keys.len() as int);
    if wanted.contains(k) {
        let i = choose|i: int| 0 <= i < wanted.len() && wanted[i] == k;
        assert(keys.contains(wanted[i]) && !is_live(live, wanted[i]));
    }
    if keys.contains(k) && (forall|i: int| 0 <= i < live.len() ==> (#[trigger] live[i]).key != k) {
        lemma_missing(live, keys, keys.len() as int, k);
    }
}

proof fn lemma_missing_exactly(live: Seq<LiveStream>, keys: Seq<StreamKey>, n: int)
    requires
        0 <= n <= keys.len(),
    ensures
        forall|i: int|
            0 <= i < missing(live, keys, n).len() ==> keys.contains(
                #[trigger] missing(live, keys, n)[i],
            ) && !is_live(live, missing(live, keys, n)[i]),
    decreases n,
{
    if n > 0 {
        lemma_missing_exactly(live, keys, n - 1);
        let rest = missing(live, keys, n - 1);
        let all = missing(live, keys, n);
        assert forall|i: int| 0 <= i < all.len() implies keys.contains(#[trigger] all[i])
            && !is_live(live, all[i]) by {
            if i < rest.len() {
                assert(all[i] == rest[i]);
            } else {
                assert(keys[n - 1] == all[i]);
            }
        }
    }
}

proof fn lemma_retained_exactly(live: Seq<LiveStream>, keys: Seq<StreamKey>, n: int, l: LiveStream)
    requires
        0 <= n <= live.len(),
    ensures
        retained(live, keys, n).contains(l) <==> live.subrange(0, n).contains(l) && keys.contains(
            l.key,
        ),
    decreases n,
{
    if n > 0 {
        lemma_retained_exactly(live, keys, n - 1, l);
        let rest = retained(live, keys, n - 1);
        let all = retained(live, keys, n);
        let head = live.subrange(0, n - 1);
        let more = live.subrange(0, n);
        assert(more =~= head.push(live[n - 1]));
        if more.contains(l) && keys.contains(l.key) {
            if l == live[n - 1] {
                assert(all[rest.len() as int] == l);
            } else {
                let i = choose|i: int| 0 <= i < more.len() && more[i] == l;
                assert(head[i] == l);
                let j = choose|j: int| 0 <= j < rest.len() && rest[j] == l;
                assert(all[j] == l);
            }
        }
        if all.contains(l) {
            let j = choose|j: int| 0 <= j < all.len() && all[j] == l;
            if j < rest.len() {
                assert(rest[j] == l);
                let i = choose|i: int| 0 <= i < head.len() && head[i] == l;
                assert(more[i] == l);
            } else {
                assert(more[n - 1] == l);
            }
        }
    } else {
        assert(live.subrange(0, n) =~= Seq::empty());
    }
}

/// An encoder is set to the bitrate of its setting in every mode and at every frame size.
pub proof fn law_an_encoder_has_its_bitrate(
    kbps: u32,
    mode: AudioMode,
    frame: usize,
    c: EncoderConfig,
)
    requires
        call_ensures(encoder_config, (kbps, mode, frame), c),
    ensures
        c.bitrate is None <==> kbps == 0,
        0 < kbps * 1000 <= i32::MAX ==> c.bitrate == Some((kbps * 1000) as i32),
        c.application == Application::Voip <==> mode == AudioMode::Voice && frame >= 960,
        c.inband_fec <==> mode == AudioMode::Voice && frame == 960,
{
}

/// Packets leave in the order of the tasks, and each task's in the order of its destinations.
pub proof fn law_packets_leave_in_order(
    tasks: Seq<EncodeTask>,
    results: Seq<Option<(u16, usize)>>,
    streams: Seq<Vec<SendStream>>,
    status: Map<Seq<char>, u8>,
    n: int,
)
    requires
        0 <= n <= tasks.len() <= usize::MAX,
    ensures
        ({
            let out = job_emissions(tasks, results, streams, status, n);
            &&& forall|a: int| 0 <= a < out.len() ==> (#[trigger] out[a]).task < n
            &&& forall|a: int, b: int|
                0 <= a < b < out.len() ==> (#[trigger] out[a]).task < (#[trigger] out[b]).task || (
                out[a].task == out[b].task && out[a].dest < out[b].dest)
        }),
    decreases n,
{
    if n > 0 {
        law_packets_leave_in_order(tasks, results, streams, status, n - 1);
        let rest = job_emissions(tasks, results, streams, status, n - 1);
        let out = job_emissions(tasks, results, streams, status, n);
        if let Some(r) = results[n - 1] {
            let t = tasks[n - 1];
            let dests = streams[t.ch as int]@[t.stream as int].dests@;
            let more = task_emissions(n - 1, r, dests, status, dests.len() as int);
            assert(streams[t.ch as int]@[t.stream as int].dests.len() == dests.len());
            lemma_task_in_order(n - 1, r, dests, status, dests.len() as int);
            assert forall|a: int, b: int| 0 <= a < b < out.len() implies (
            #[trigger] out[a]).task < (#[trigger] out[b]).task || (out[a].task == out[b].task
                && out[a].dest < out[b].dest) by {
                if b < rest.len() {
                    assert(out[a] == rest[a] && out[b] == rest[b]);
                } else {
                    assert(out[b] == more[b - rest.len()]);
                    if a < rest.len() {
                        assert(out[a] == rest[a]);
                    } else {
                        assert(out[a] == more[a - rest.len()]);
                    }
                }
            }
            assert forall|a: int| 0 <= a < out.len() implies (#[trigger] out[a]).task < n by {
                if a < rest.len() {
                    assert(out[a] == rest[a]);
                } else {
                    assert(out[a] == more[a - rest.len()]);
                }
            }
        }
    }
}

proof fn lemma_task_in_order(
    task: int,
    result: (u16, usize),
    dests: Seq<SendDest>,
    status: Map<Seq<char>, u8>,
    n: int,
)
    requires
        0 <= task <= usize::MAX,
        0 <= n <= dests.len(),
        dests.len() <= usize::MAX,
    ensures
        ({
            let out = task_emissions(task, result, dests, status, n);
            &&& forall|a: int|
                0 <= a < out.len() ==> (#[trigger] out[a]).task == task && out[a].dest < n
            &&& forall|a: int, b: int|
                0 <= a < b < out.len() ==> (#[trigger] out[a]).dest < (#[trigger] out[b]).dest
        }),
    decreases n,
{
    if n > 0 {
        lemma_task_in_order(task, result, dests, status, n - 1);
        let rest = task_emissions(task, result, dests, status, n - 1);
        let out = task_emissions(task, result, dests, status, n);
        assert forall|a: int, b: int| 0 <= a < b < out.len() implies (#[trigger] out[a]).dest < (
        #[trigger] out[b]).dest by {
            assert(out[a] == rest[a]);
            if b < rest.len() {
                assert(out[b] == rest[b]);
            }
        }
        assert forall|a: int| 0 <= a < out.len() implies (#[trigger] out[a]).task == task
            && out[a].dest < n by {
            if a < rest.len() {
                assert(out[a] == rest[a]);
            }
        }
    }
}

} // verus!
