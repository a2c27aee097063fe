//! WASAPI: negotiation, period search, the stream thread, its rhythm and sample layout.

use cascade::audio::backend::command::Cmd;
use cascade::audio::backend::wasapi_backend::{
    classify, decode, desired_hns, device_name, device_uid, dis, encode, is_device_busy,
    open_error, short_read, whole_period, Answer, Device, Dir, Fmt, Negotiation, OpenSearch,
    Rhythm, RunAction, Runner, ShortReads, StreamFault, Timing, Why,
    AUDCLNT_E_DEVICE_INVALIDATED, AUDCLNT_E_DEVICE_IN_USE, AUDCLNT_E_EXCLUSIVE_MODE_NOT_ALLOWED,
    FINE_HNS,
};

const FS_24: f32 = 8_388_608.0;
const FS_32: f32 = 2_147_483_648.0;

fn scaled(src: &[f32], full: f32) -> Vec<i32> {
    src.iter().map(|s| (s.clamp(-1.0, 1.0) * (full - 1.0)) as i32).collect()
}

#[test]
fn packed_24_bit_round_trips_and_sign_extends() {
    let src = [0.0f32, 0.5, -0.5, -1.0, 0.999];
    let bytes = encode(Fmt::S24In3, &scaled(&src, FS_24));
    assert_eq!(bytes.len(), src.len() * 3);
    let back = decode(Fmt::S24In3, &bytes, src.len());
    for (a, b) in src.iter().zip(back.iter()) {
        let b = *b as f32 / FS_24;
        assert!((a - b).abs() < 2.0 / FS_24, "{a} vs {b}");
    }
    assert!((back[3] as f32 / FS_24) < -0.99, "expected near -1.0, got {}", back[3]);
}

#[test]
fn s24_in_32_uses_the_32_bit_scaling() {
    let src = [0.5f32, -0.5];
    assert_eq!(Fmt::S24In4.full_scale(), Fmt::S32.full_scale());
    let a = encode(Fmt::S24In4, &scaled(&src, Fmt::S24In4.full_scale() as f32));
    let b = encode(Fmt::S32, &scaled(&src, FS_32));
    assert_eq!(a, b);
}

#[test]
fn container_width_drives_the_byte_count() {
    assert_eq!(Fmt::F32.bytes_per_sample(), 4);
    assert_eq!(Fmt::S32.bytes_per_sample(), 4);
    assert_eq!(Fmt::S24In4.bytes_per_sample(), 4);
    assert_eq!(Fmt::S24In3.bytes_per_sample(), 3);
    assert_eq!(Fmt::S16.bytes_per_sample(), 2);
}

#[test]
fn float_samples_keep_their_patterns() {
    let bits = vec![1.5f32.to_bits() as i32, (-0.25f32).to_bits() as i32];
    let bytes = encode(Fmt::F32, &bits);
    assert_eq!(&bytes[..4], &1.5f32.to_le_bytes());
    assert_eq!(&bytes[4..], &(-0.25f32).to_le_bytes());
    assert_eq!(decode(Fmt::F32, &bytes, 2), bits);
}

#[test]
fn sixteen_bit_samples_are_low_byte_first() {
    let bytes = encode(Fmt::S16, &vec![0x1234, -2]);
    assert_eq!(bytes, vec![0x34, 0x12, 0xfe, 0xff]);
    assert_eq!(decode(Fmt::S16, &bytes, 9), vec![0x1234, -2]);
    assert_eq!(decode(Fmt::S16, &bytes, 1), vec![0x1234]);
}

#[test]
fn wasapi_negotiation_needs_the_exact_topology() {
    let mut n = Negotiation::new(2);
    assert_eq!(n.next_format(), Some(Fmt::F32));
    assert!(!n.on_answer(Answer::Refused("unsupported".to_string())));
    assert_eq!(n.last.as_deref(), Some("F32: unsupported"));
    assert!(!n.on_answer(Answer::Offered { rate: 48_000, channels: 8 }));
    assert_eq!(n.last.as_deref(),
               Some("S32: device offered 48000 Hz / 8 ch instead of 48000 Hz / 2 ch"));
    assert_eq!(n.next_format(), Some(Fmt::S24In4));
    assert!(n.on_answer(Answer::Offered { rate: 48_000, channels: 2 }));
    assert_eq!(desired_hns(480), 100_000);
    let cfg = n.config(Fmt::S24In4, 25_000);
    assert_eq!((cfg.channels(), cfg.sample_rate(), cfg.period), (2, 48_000, 120));
    assert!(n.failure(Dir::Input, "Line").starts_with(
        "input device 'Line' does not support 48 kHz in exclusive mode"));
    assert!(n.failure(Dir::Input, "Line").ends_with(
        ". Last refusal — S32: device offered 48000 Hz / 8 ch instead of 48000 Hz / 2 ch"));
}

#[test]
fn wasapi_periods_are_tried_with_events_and_then_polled() {
    let mut s = OpenSearch::new(25_000);
    let mut tried = Vec::new();
    while let Some((a, t)) = s.next_try() {
        tried.push((a.period_hns, a.why, t));
        s.on_refused(Some(30_000), Some((100_000, 25_000)));
    }
    assert_eq!(tried, vec![
        (25_000, Why::Requested, Timing::Events),
        (30_000, Why::ByteAligned, Timing::Events),
        (100_000, Why::Default, Timing::Events),
        (25_000, Why::Requested, Timing::Polling),
        (30_000, Why::ByteAligned, Timing::Polling),
        (100_000, Why::Default, Timing::Polling),
    ]);
}

#[test]
fn wasapi_disconnects_say_what_they_mean() {
    assert!(dis::fault(dis::NONE).is_none());
    let removal = dis::code(&dis::DisconnectReason::DeviceRemoval);
    assert!(matches!(dis::fault(removal), Some(StreamFault::DeviceLost)));
    assert!(matches!(dis::fault(dis::FORMAT_CHANGED), Some(StreamFault::Invalidated)));
    assert!(matches!(dis::fault(200), Some(StreamFault::Invalidated)));
    match dis::fault(dis::EXCLUSIVE_OVERRIDE) {
        Some(StreamFault::Transient(m)) => {
            assert_eq!(m, "another application took exclusive control of this device")
        }
        _ => panic!("a stolen endpoint is said and lived with"),
    }
    // A recorded reason wins over the code of the error it causes.
    let f = classify(removal, Some(AUDCLNT_E_DEVICE_INVALIDATED), String::new());
    assert!(matches!(f, StreamFault::DeviceLost));
    let f = classify(dis::NONE, Some(AUDCLNT_E_DEVICE_INVALIDATED), String::new());
    assert!(matches!(f, StreamFault::Invalidated));
    assert_eq!(AUDCLNT_E_DEVICE_IN_USE, 0x8889_000A_u32 as i32);
    assert_eq!(AUDCLNT_E_DEVICE_INVALIDATED, 0x8889_0004_u32 as i32);
    assert_eq!(AUDCLNT_E_EXCLUSIVE_MODE_NOT_ALLOWED, 0x8889_0014_u32 as i32);

    let mut r = Runner::new();
    assert!(r.on_disconnect(dis::NONE).is_none());
    assert!(r.on_disconnect(removal).is_some());
    assert!(r.on_disconnect(removal).is_none(), "once per run");
}

#[test]
fn a_wasapi_thread_starts_halts_and_leaves() {
    let mut r = Runner::new();
    assert_eq!(r.on_command(Cmd::Prepared), RunAction::Wait);
    assert_eq!(r.on_command(Cmd::Running), RunAction::Start);
    assert_eq!(r.on_started(false), Cmd::Stopped);
    assert_eq!(r.on_command(Cmd::Running), RunAction::Start);
    assert_eq!(r.on_started(true), Cmd::Running);
    assert_eq!(r.on_command(Cmd::Running), RunAction::Cycle);
    assert_eq!(r.on_command(Cmd::Stopped), RunAction::Halt);
    assert_eq!(r.on_command(Cmd::Dead), RunAction::Exit { stop: false });
}

#[test]
fn a_polled_device_s_rhythm_is_learned_and_forgotten() {
    let mut r = Rhythm::new(100_000);
    assert_eq!(r.step(), 25_000, "a quarter of the period while nothing is known");
    assert_eq!(r.nap(0), None);
    r.on_ready(10_000_000);
    r.on_ready(20_000_000);
    assert_eq!(r.interval, Some(10_000_000));
    assert_eq!(r.step(), FINE_HNS);
    // Due at 30 ms, so from 21 ms the nap is 8.5 ms.
    assert_eq!(r.nap(21_000_000), Some(85_000));
    assert_eq!(r.nap(29_600_000), None, "imminent");
    r.on_ready(34_000_000);
    assert_eq!(r.interval, Some(11_000_000), "three parts old, one part new");
    r.on_ready(200_000_000);
    assert_eq!(r.interval, None, "a stall is not the rhythm");
    r.on_missed();
    assert_eq!(r.last_ready, None);
    assert!(whole_period(Some(480), 480) && !whole_period(Some(479), 480));
    assert!(!whole_period(None, 0));
    assert!(short_read(Dir::Input, Some(1)) && !short_read(Dir::Output, Some(1)));
    assert!(!short_read(Dir::Input, Some(0)) && !short_read(Dir::Input, None));
}

#[test]
fn short_reads_are_counted_and_reported_now_and_then() {
    let mut s = ShortReads::new(0);
    assert_eq!(s.on_short(1_000_000_000), None);
    assert_eq!(s.on_short(10_000_000_000), Some(2));
    assert_eq!(s.on_short(10_500_000_000), None);
    assert_eq!(s.count, 1);
}

#[test]
fn wasapi_open_errors() {
    let dev = Device { id: "{0.0.1}".to_string(), name: "Line".to_string() };
    assert_eq!(device_name(&dev), "Line");
    assert_eq!(device_uid(&dev).as_deref(), Some("{0.0.1}"));
    let held = open_error(&dev, Dir::Output, Some(AUDCLNT_E_DEVICE_IN_USE), "x");
    assert!(is_device_busy(&held));
    assert!(held.message.starts_with("cannot open output device 'Line' exclusively: it is already held"));
    let off = open_error(&dev, Dir::Input, Some(AUDCLNT_E_EXCLUSIVE_MODE_NOT_ALLOWED), "x");
    assert!(!is_device_busy(&off));
    assert!(off.message.starts_with("input device 'Line': exclusive mode is disabled"));
    let other = open_error(&dev, Dir::Input, None, "no answer");
    assert_eq!(other.message, "cannot open input device 'Line': no answer");
}
