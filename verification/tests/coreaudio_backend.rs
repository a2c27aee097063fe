//! CoreAudio: slices, callback bounds, configurations and faults.

use cascade::audio::backend::coreaudio_backend::{
    channel_count, check, configured_slice, find_config, is_device_busy, probe_period,
    property_fault, render_len, unit_settings, CaptureBounds, Dir, OpenError, PropertyReading,
    Pull, StreamFault,
};

#[test]
fn coreaudio_slices_follow_the_grant_upward() {
    assert_eq!(configured_slice(120, None), (120, false));
    assert_eq!(configured_slice(120, Some(64)), (120, false));
    assert_eq!(configured_slice(120, Some(512)), (512, true));
    let mut b = CaptureBounds::new(512, 2);
    assert!(matches!(b.on_callback(512), Pull::Samples(1024)));
    match b.on_callback(513) {
        Pull::Oversize(Some(m)) => assert_eq!(
            m,
            "capture callback carried 513 frames, more than the 512 the unit was built for — \
             this input is silent until it is rebuilt"
        ),
        _ => panic!("more than the slice is refused, and said"),
    }
    b.on_reported(true);
    assert!(matches!(b.on_callback(513), Pull::Oversize(None)), "said once");
    assert_eq!(CaptureBounds::delivered(400, 1024), 100);
    assert_eq!(CaptureBounds::delivered(40_000, 1024), 1024);
    assert_eq!(render_len(480, 2, 3840), 960);
    assert_eq!(render_len(480, 2, 400), 100);
}

#[test]
fn coreaudio_configurations_and_faults() {
    assert_eq!(channel_count(&vec![2, 8, 1]), 11);
    assert_eq!(channel_count(&vec![40_000, 40_000]), u16::MAX);
    let cfg = find_config("Mic", Dir::Input, 240, Ok(1), true).expect("usable");
    assert_eq!((cfg.channels(), cfg.sample_rate(), cfg.period), (1, 48_000, 240));
    assert_eq!(find_config("Mic", Dir::Input, 240, Ok(0), true).unwrap_err(),
               "input device 'Mic' has no input channels");
    assert_eq!(find_config("Mic", Dir::Input, 240, Ok(1), false).unwrap_err(),
               "input device 'Mic' does not support 48 kHz");
    assert_eq!(find_config("Mic", Dir::Output, 240, Err("gone".to_string()), true).unwrap_err(),
               "cannot read the channel count of output device 'Mic': gone");
    assert_eq!(check(0, "start"), Ok(()));
    assert_eq!(check(-50, "start"), Err("start failed: OSStatus -50".to_string()));
    assert!(!is_device_busy(&OpenError { message: "hogged".to_string() }));
    assert_eq!(probe_period(0, 512), Some(512));
    assert_eq!(probe_period(0, 0), None);
    assert_eq!(probe_period(-1, 512), None);
    let alive = |status, alive| property_fault(PropertyReading::Alive { status, alive });
    assert!(alive(0, 1).is_none());
    assert!(matches!(alive(0, 0), Some(StreamFault::DeviceLost)));
    assert!(matches!(alive(-1, 1), Some(StreamFault::DeviceLost)));
    let rate = property_fault(PropertyReading::Rate { moved: true });
    assert!(matches!(rate, Some(StreamFault::Invalidated)));
    assert!(property_fault(PropertyReading::Other).is_none());
    let u = unit_settings(Dir::Output);
    assert_eq!((u.input_enabled, u.output_enabled, u.format_elem), (0, 1, 0));
}
