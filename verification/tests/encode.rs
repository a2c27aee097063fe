//! The send side: encoder settings, routing, streams, jobs and packets.

use cascade::audio::encode::{
    bitrate_outcome, encode_tasks, encoder_config, key_less, mode_named, retry_open, send_pass,
    stream_params, transmit_audio, Application, AudioMode, Bitrate, CaptureEngine, ChannelEncoder,
    EncoderParams, Seal, StreamKey, FLAGS_AT, FLAG_ENCRYPTED, LENGTH_AT,
};
use cascade::audio::live_input::{on_input_fault, FaultNote, InputFault, LiveInput};
use cascade::audio::routing::{compose_routes, PeerSendRouting, RouteEntry};
use cascade::names::{name_less, name_same, NameMap};
use cascade::text::{push_decimal, push_signed};

fn params() -> EncoderParams {
    EncoderParams { bitrate_kbps: 128, mode: AudioMode::Audio, frame_samples: 960 }
}

fn route(src: u8, dst: u8) -> RouteEntry {
    RouteEntry { src, dst }
}

fn pairs(routes: &[RouteEntry]) -> Vec<(u8, u8)> {
    routes.iter().map(|r| (r.src, r.dst)).collect()
}

fn key(ch: usize, frame: usize, mode: AudioMode) -> StreamKey {
    StreamKey { ch, frame, mode }
}

#[test]
fn voice_needs_the_longest_frame() {
    let c = encoder_config(64, AudioMode::Voice, 960);
    assert_eq!(c.application, Application::Voip);
    assert_eq!(c.bitrate, Some(64_000));
    assert!(c.inband_fec);
    assert_eq!(c.packet_loss_perc, 1);
    let c = encoder_config(0, AudioMode::Voice, 480);
    assert_eq!(c.application, Application::Audio);
    assert_eq!(c.bitrate, None);
    assert!(!c.inband_fec && c.packet_loss_perc == 0);
    let c = encoder_config(128, AudioMode::Audio, 960);
    assert_eq!(c.application, Application::Audio);
    assert_eq!(mode_named("voice"), AudioMode::Voice);
    assert_eq!(mode_named("Voice"), AudioMode::Audio);
}

#[test]
fn an_encoder_numbers_its_packets() {
    let mut e = ChannelEncoder::new(480);
    assert!(e.accepts(480));
    e.record(Some(100));
    assert_eq!(e.take_pending(), Some((0, 100)));
    assert_eq!(e.take_pending(), None);
    e.record(None);
    assert_eq!(e.take_pending(), None, "a failed encode takes no number");
    e.record(Some(90));
    assert_eq!(e.pending, Some((1, 90)));
    assert!(!e.accepts(960), "another frame size is skipped");
    assert_eq!(e.pending, None, "and clears the result");
    e.seq = u16::MAX;
    e.record(Some(1));
    assert_eq!(e.seq, 0);
}

#[test]
fn tone_displaces_the_signal_on_its_slot_alone() {
    let signal = vec![route(0, 0), route(1, 1), route(2, 1)];
    let routes = compose_routes(&signal, &vec![1, 0, 2], 8);
    let table = PeerSendRouting::new(&routes);
    assert_eq!(table.resolve(8), vec![0], "the left leg on slot 0");
    assert_eq!(table.resolve(9), vec![2], "the right leg on slot 2");
    assert!(table.resolve(0).is_empty(), "the signal there is displaced");
    assert!(!table.carries(0));
    assert_eq!(table.stream_count(), 3);
    let plain = compose_routes(&signal, &vec![0, 0], 8);
    assert_eq!(pairs(&plain), pairs(&signal), "no tone leaves the signal as it is");
}

#[test]
fn routing_calls_for_streams_and_shares_them() {
    let mut e = CaptureEngine::new(4, params(), 480);
    assert_eq!(e.total_ch, 6);
    e.set_send_routing("A", vec![route(0, 3)]);
    e.set_send_routing("B", vec![route(0, 5)]);
    e.set_send_routing("C", vec![route(0, 7)]);
    e.set_peer_enc_prefs("C", 120, AudioMode::Audio);
    let r = e.reconcile_encoders(0);
    assert_eq!(r.wanted, vec![key(0, 120, AudioMode::Audio), key(0, 960, AudioMode::Audio)],
               "remotes that agree share a stream");
    assert!(r.released.is_empty());
    assert!(r.plan.uses(0, 0) && r.plan.uses(0, 3) && !r.plan.uses(1, 3));
    for (i, k) in r.wanted.iter().enumerate() {
        e.adopt_encoder(*k, 100 + i as u64);
    }
    assert_eq!(e.active_streams, 3);
    assert!(e.has_encoder(key(0, 960, AudioMode::Audio)));
    assert_eq!(e.min_resolved_send_frame(0), Some(120));
    assert_eq!(e.min_resolved_send_frame(240), Some(240), "never below what the devices run");

    let mut addrs: NameMap<u64> = NameMap::new();
    addrs.insert("A", 1);
    addrs.insert("C", 3);
    let streams = e.build_streams(&addrs, 0);
    assert_eq!(streams.len(), 6);
    assert_eq!(streams[0].len(), 2);
    let long = &streams[0][1];
    assert_eq!((long.frame, long.encoder), (960, 101));
    let dests: Vec<(&str, u8, u64)> =
        long.dests.iter().map(|d| (d.peer.as_str(), d.slot, d.addr)).collect();
    assert_eq!(dests, vec![("A", 3, 1)], "B has no address and is sent nothing");

    let mut connected: NameMap<()> = NameMap::new();
    connected.insert("A", ());
    assert_eq!(e.live_send_streams(&connected), 1);

    e.remove_peer("C");
    let r = e.reconcile_encoders(0);
    assert_eq!(r.released, vec![100], "its stream gives up its encoder");
    assert!(r.wanted.is_empty(), "the other keeps its own");
}

#[test]
fn adopting_what_was_built_leaves_exactly_the_streams_called_for() {
    let mut e = CaptureEngine::new(4, params(), 480);
    e.set_send_routing("A", vec![route(0, 0), route(2, 1)]);
    let r = e.reconcile_encoders(0);
    assert_eq!(r.wanted, vec![key(0, 960, AudioMode::Audio), key(2, 960, AudioMode::Audio)]);
    e.adopt_built(&r.wanted, &vec![Some(10), None]);
    assert!(e.has_encoder(key(0, 960, AudioMode::Audio)));
    assert!(!e.has_encoder(key(2, 960, AudioMode::Audio)), "it could not be built");

    e.set_send_routing("B", vec![route(1, 3)]);
    let r = e.reconcile_encoders(0);
    assert_eq!(r.wanted, vec![key(1, 960, AudioMode::Audio), key(2, 960, AudioMode::Audio)],
               "what is missing is asked for again");
    e.adopt_built(&r.wanted, &vec![Some(11), Some(12)]);
    let live: Vec<(usize, u64)> = e.live.iter().map(|l| (l.key.ch, l.encoder)).collect();
    assert_eq!(live, vec![(0, 10), (1, 11), (2, 12)], "the first keeps its encoder");
    let r = e.reconcile_encoders(0);
    assert!(r.wanted.is_empty() && r.released.is_empty());
}

#[test]
fn tone_is_set_and_cleared_per_remote() {
    let mut e = CaptureEngine::new(2, params(), 480);
    e.set_send_routing("A", vec![route(0, 0)]);
    e.set_tone_routing("A", vec![1]);
    e.set_tone_routing("B", vec![0, 2]);
    assert_eq!(e.send_routing.get("A").expect("routed").resolve(2), vec![0]);
    assert_eq!(e.send_routing.get("B").expect("routed").resolve(3), vec![1]);
    e.set_tone_routing("B", vec![0, 0]);
    assert!(e.send_routing.get("B").is_none(), "all off and no signal: nothing is sent");
    e.clear_tone();
    assert_eq!(e.tone_dests.len(), 0);
    assert_eq!(e.send_routing.get("A").expect("routed").resolve(0), vec![0]);
}

#[test]
fn settings_reach_the_template_and_every_preference() {
    let mut e = CaptureEngine::new(2, params(), 480);
    e.set_peer_enc_prefs("A", 480, AudioMode::Voice);
    assert_eq!(stream_params(&e.peer_enc_prefs, &e.enc_params, "A", 0), (480, AudioMode::Voice));
    assert_eq!(stream_params(&e.peer_enc_prefs, &e.enc_params, "B", 0), (960, AudioMode::Audio));
    e.reinit_encoders(Some(240), None);
    assert_eq!(e.enc_params.frame_samples, 240);
    assert_eq!(stream_params(&e.peer_enc_prefs, &e.enc_params, "A", 0), (240, AudioMode::Voice));
    assert_eq!(e.set_bitrate_hot(0), Bitrate::Auto);
    assert_eq!(e.set_bitrate_hot(96), Bitrate::Bits(96_000));
    let o = bitrate_outcome(&vec![true, false, true, false]);
    assert_eq!((o.applied, o.refused, o.first_refused), (2, 2, Some(1)));
    assert_eq!(e.request_input_frames(Some(120), 240), 240);
    assert_eq!(e.request_input_frames(None, 0), 240);
    assert_eq!(e.current_input_frames(), 240);
    e.request_input_frames(Some(960), 0);
    assert_eq!(e.current_input_frames(), 480, "capped at 10 ms");
    assert!(retry_open(true, true) && !retry_open(true, false) && !retry_open(false, true));
    assert!(key_less(key(0, 960, AudioMode::Voice), key(0, 960, AudioMode::Audio)));
    assert!(key_less(key(0, 960, AudioMode::Audio), key(1, 120, AudioMode::Voice)));
}

#[test]
fn one_sequence_number_serves_every_destination_that_is_up() {
    let mut e = CaptureEngine::new(2, params(), 480);
    e.set_send_routing("A", vec![route(0, 0)]);
    e.set_send_routing("B", vec![route(0, 1), route(1, 2)]);
    for (i, k) in e.reconcile_encoders(0).wanted.iter().enumerate() {
        e.adopt_encoder(*k, i as u64);
    }
    let mut addrs: NameMap<u64> = NameMap::new();
    addrs.insert("A", 1);
    addrs.insert("B", 2);
    let streams = e.build_streams(&addrs, 0);
    let tasks = encode_tasks(&vec![(0, 960), (1, 480), (1, 960), (9, 960)], &streams);
    let ids: Vec<(usize, usize, u64)> = tasks.iter().map(|t| (t.entry, t.ch, t.encoder)).collect();
    assert_eq!(ids, vec![(0, 0, 0), (2, 1, 1)], "each entry by every stream at its frame size");
    let mut status: NameMap<u8> = NameMap::new();
    status.insert("A", 1);
    status.insert("B", 0);
    let results = vec![Some((7, 50)), Some((8, 60))];
    let sent = send_pass(&tasks, &results, &streams, &status);
    let seen: Vec<(usize, usize, u16, usize)> =
        sent.iter().map(|m| (m.task, m.dest, m.seq, m.bytes)).collect();
    assert_eq!(seen, vec![(0, 0, 7, 50)], "B is down and passed over");
    status.insert("B", 1);
    let sent = send_pass(&tasks, &results, &streams, &status);
    let seen: Vec<(usize, usize, u16)> = sent.iter().map(|m| (m.task, m.dest, m.seq)).collect();
    assert_eq!(seen, vec![(0, 0, 7), (0, 1, 7), (1, 0, 8)]);
    let none = send_pass(&tasks, &vec![None, None], &streams, &status);
    assert!(none.is_empty());
}

#[test]
fn packets_are_sealed_marked_and_counted() {
    let pkt: Vec<u8> = (0..40).collect();
    let (bytes, count) = transmit_audio(&pkt, 24, 10, Seal::Plaintext).expect("sent");
    assert_eq!(bytes, pkt[..34].to_vec());
    assert_eq!(count, 34 + 28);
    let blob = vec![0xaa; 300];
    let (bytes, count) = transmit_audio(&pkt, 24, 10, Seal::Sealed(blob.clone())).expect("sent");
    assert_eq!(bytes.len(), 324);
    assert_eq!(count, 324 + 28);
    assert_eq!(bytes[FLAGS_AT], 8 | FLAG_ENCRYPTED);
    assert_eq!(&bytes[LENGTH_AT..LENGTH_AT + 2], &300u16.to_le_bytes());
    assert_eq!(&bytes[24..], blob.as_slice());
    assert!(transmit_audio(&pkt, 24, 10, Seal::Drop).is_none(), "nothing leaves in the clear");
}

#[test]
fn a_stopped_input_shows_nothing() {
    let mut live = LiveInput {
        device: "Mic".to_string(),
        rate: 48_000,
        channels: 2,
        peaks: vec![1, 2, 3],
    };
    live.stop_input();
    assert_eq!((live.device.as_str(), live.rate, live.channels), ("", 0, 0));
    assert_eq!(live.peaks, vec![0, 0, 0]);
}

#[test]
fn names_are_ordered_by_their_bytes() {
    let mut names = vec!["b", "a", "", "ä", "aa", "B", "a b"];
    let mut m: NameMap<usize> = NameMap::new();
    for (i, n) in names.iter().enumerate() {
        m.insert(n, i);
    }
    m.insert("a", 99);
    names.sort();
    let order: Vec<&str> = (0..m.len()).map(|i| m.entry(i).0).collect();
    assert_eq!(order, names);
    assert_eq!(m.get("a"), Some(&99));
    m.remove("a");
    assert!(!m.contains("a") && m.contains("aa"));
    m.clear();
    assert_eq!(m.len(), 0);
    assert!(name_less("a", "b") && !name_less("b", "a") && name_same("ä", "ä"));
}

#[test]
fn numbers_as_text() {
    let mut s = String::new();
    push_decimal(&mut s, 0);
    push_decimal(&mut s, u64::MAX);
    push_signed(&mut s, -120);
    push_signed(&mut s, 7);
    assert_eq!(s, format!("0{}-1207", u64::MAX));
}

#[test]
fn an_engine_first_asks_for_its_frame_or_the_shortest_period() {
    assert_eq!(CaptureEngine::new(2, params(), 480).input_request, 960);
    assert_eq!(CaptureEngine::new(2, params(), 2048).input_request, 2048);
    assert_eq!(CaptureEngine::new(0, params(), 480).num_out_ch, 1);
}

#[test]
fn input_faults_are_answered_by_what_they_mean() {
    let lost = on_input_fault(InputFault::DeviceLost, false);
    assert!(lost.lost && !lost.invalid);
    assert_eq!(lost.note, FaultNote::Disconnected);
    let moved = on_input_fault(InputFault::Invalidated, false);
    assert!(!moved.lost && moved.invalid);
    assert_eq!(moved.note, FaultNote::Reconfiguring);
    let echo = on_input_fault(InputFault::Invalidated, true);
    assert!(echo.invalid, "an echo is quiet, and still marks the stream");
    assert_eq!(echo.note, FaultNote::RebuildEcho);
    let glitch = on_input_fault(InputFault::Transient, false);
    assert!(!glitch.lost && !glitch.invalid);
    assert_eq!(glitch.note, FaultNote::Retained);
}
