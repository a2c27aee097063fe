//! ALSA: names, negotiation, the period ring, faults and packed samples.

use cascade::audio::backend::alsa_backend::{
    classify, device_name, device_uid, is_device_busy, open_error, period_available, periods_for, prefill_periods, s24_3_from_ints,
    s24_3_to_ints, sw_params, AfterPump, Device, Dir, Fmt, FormatSearch, Granted, LoopAction,
    PumpOutcome, StreamFault, StreamLoop, EBADFD, EBUSY, ENODEV, EPIPE, MIN_PERIODS,
};
use cascade::audio::backend::command::Cmd;

const FS_24: f32 = 8_388_608.0;

fn scaled(src: &[f32], full: f32) -> Vec<i32> {
    src.iter().map(|s| (s.clamp(-1.0, 1.0) * (full - 1.0)) as i32).collect()
}

#[test]
fn period_count_holds_a_fixed_time_margin() {
    assert_eq!(periods_for(480, 48_000), 2); //  10 ms period → 20 ms ring
    assert_eq!(periods_for(240, 48_000), 4); //   5 ms period → 20 ms ring
    assert_eq!(periods_for(120, 48_000), 8); // 2.5 ms period → 20 ms ring
}

#[test]
fn period_count_never_drops_below_two() {
    assert_eq!(periods_for(4800, 48_000), 2); // 100 ms period, already over the margin
    assert_eq!(periods_for(0, 48_000), MIN_PERIODS);
}

#[test]
fn packed_24_bit_round_trips_through_zero_and_the_extremes() {
    let src = [0.0f32, 0.5, -0.5, 0.999, -0.999];
    let bytes = s24_3_from_ints(&scaled(&src, FS_24));
    assert_eq!(bytes.len(), src.len() * 3);
    let back = s24_3_to_ints(&bytes, src.len());
    assert_eq!(back.len(), src.len());
    for (a, b) in src.iter().zip(back.iter()) {
        let b = *b as f32 / FS_24;
        assert!((a - b).abs() < 1.0 / 8_388_608.0 * 2.0, "{a} vs {b}");
    }
}

#[test]
fn packed_24_bit_sign_extends() {
    let bytes = s24_3_from_ints(&scaled(&[-1.0], FS_24));
    let back = s24_3_to_ints(&bytes, 1);
    let back = back[0] as f32 / FS_24;
    assert!(back < -0.99, "expected near -1.0, got {back}");
}

#[test]
fn alsa_names_and_identifiers() {
    let mut dev = Device {
        card: 1,
        dev: 0,
        card_id: "USB".to_string(),
        card_name: "USB Audio".to_string(),
        pcm_name: "USB Audio".to_string(),
    };
    assert_eq!(dev.pcm_id(), "hw:1,0");
    assert_eq!(device_name(&dev), "USB Audio (hw:1,0)");
    assert_eq!(device_uid(&dev).as_deref(), Some("hw:USB,0"));
    dev.pcm_name = "Line".to_string();
    assert_eq!(device_name(&dev), "USB Audio: Line (hw:1,0)");
    dev.card_id = String::new();
    assert_eq!(device_uid(&dev), None);

    let busy = open_error(&dev, Dir::Input, EBUSY, "Busy");
    assert!(is_device_busy(&busy));
    assert!(busy.message.starts_with("cannot open input device 'USB Audio: Line (hw:1,0)': Busy — "));
    let gone = open_error(&dev, Dir::Output, ENODEV, "Gone");
    assert!(!is_device_busy(&gone));
    assert_eq!(gone.message, "cannot open output device 'USB Audio: Line (hw:1,0)': Gone");
}

#[test]
fn alsa_formats_are_tried_in_order_until_one_runs_at_48_khz() {
    let mut search = FormatSearch::new();
    assert_eq!(search.next_format(), Some(Fmt::F32));
    assert_eq!(search.outcome(Err("Invalid argument".to_string())), None);
    assert!(search.failure(Dir::Output, "Card").ends_with(": Invalid argument"));
    let off = Granted { rate: 44_100, channels: 2, period: 480, periods: 2 };
    assert_eq!(search.outcome(Ok(off)), None, "another rate is not taken");
    assert!(search.failure(Dir::Output, "Card").ends_with(
        "Cascade does not do: device would run at 44100 Hz, not 48000 Hz — Cascade does not resample"));
    assert_eq!(search.next_format(), Some(Fmt::S24In4));
    let ok = Granted { rate: 48_000, channels: 2, period: 256, periods: 4 };
    let cfg = search.outcome(Ok(ok)).expect("taken");
    assert_eq!((cfg.channels(), cfg.sample_rate(), cfg.period), (2, 48_000, 256));
    assert_eq!(cfg.fmt, Fmt::S24In4);
    assert_eq!(cfg.fmt.carrier(), Fmt::S32.carrier());
    assert_ne!(cfg.fmt.full_scale(), Fmt::S32.full_scale());
    let sw = sw_params(256, 4);
    assert_eq!((sw.avail_min, sw.start_threshold, sw.stop_threshold), (256, 1024, 1024));
    assert_eq!(prefill_periods(Dir::Output, 4), 4);
    assert_eq!(prefill_periods(Dir::Input, 4), 0);
    assert!(period_available(true, 256, 256) && !period_available(true, 255, 256));
    assert!(!period_available(false, 256, 256));
}

#[test]
fn alsa_faults_by_error_number() {
    assert!(matches!(classify(ENODEV, String::new()), StreamFault::DeviceLost));
    assert!(matches!(classify(EBADFD, String::new()), StreamFault::Invalidated));
    match classify(5, "I/O".to_string()) {
        StreamFault::Transient(m) => assert_eq!(m, "I/O"),
        _ => panic!("an unknown error is transient"),
    }
}

#[test]
fn an_alsa_fault_is_reported_once_until_a_period_moves() {
    let mut l = StreamLoop::new();
    assert_eq!(l.on_command(Cmd::Prepared), LoopAction::Wait);
    assert_eq!(l.on_command(Cmd::Running), LoopAction::Begin);
    assert_eq!(l.on_command(Cmd::Running), LoopAction::Pump);
    let failed = PumpOutcome::Failed { errno: 5 };
    assert_eq!(l.on_pump(failed), AfterPump::Pause { report: true });
    assert_eq!(l.on_pump(failed), AfterPump::Pause { report: false });
    assert_eq!(l.on_pump(PumpOutcome::Failed { errno: EPIPE }), AfterPump::Recover);
    assert_eq!(l.on_pump(PumpOutcome::Done { moved: true }), AfterPump::Continue);
    assert_eq!(l.on_pump(failed), AfterPump::Pause { report: true });
    assert_eq!(l.on_command(Cmd::Stopped), LoopAction::Halt);
    assert_eq!(l.on_command(Cmd::Dead), LoopAction::Exit);
}

#[test]
fn a_detached_alsa_stream_reports_nothing() {
    let mut l = StreamLoop::new();
    assert_eq!(l.on_command(Cmd::Running), LoopAction::Begin);
    assert_eq!(l.begin_failed(), (Cmd::Stopped, true), "a start that fails is reported");
    assert!(!l.running);
    l.detached = true;
    assert_eq!(l.on_command(Cmd::Running), LoopAction::Begin);
    assert_eq!(l.begin_failed(), (Cmd::Stopped, false));
    assert_eq!(l.on_pump(PumpOutcome::Failed { errno: ENODEV }), AfterPump::Pause { report: false });
}
