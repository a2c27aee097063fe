//! Stream commands, device events and the line-up tone.

use cascade::audio::backend::command::{set_command, Cmd};
use cascade::audio::device_watcher::{fourcc, is_sound_uevent, WatcherBackend};
use cascade::audio::ebu_tone::{EbuToneGenerator, ToneGain};

#[test]
fn a_dead_stream_stays_dead() {
    assert_eq!(set_command(Cmd::Prepared, Cmd::Running), Cmd::Running);
    assert_eq!(set_command(Cmd::Running, Cmd::Dead), Cmd::Dead);
    assert_eq!(set_command(Cmd::Dead, Cmd::Running), Cmd::Dead);
}

#[test]
fn a_sound_event_names_its_subsystem() {
    assert!(is_sound_uevent(b"add@/devices\0ACTION=add\0SUBSYSTEM=sound\0SEQNUM=1\0"));
    assert!(!is_sound_uevent(b"add@/devices\0SUBSYSTEM=usb\0"));
    assert!(!is_sound_uevent(b"SUBSYSTEM=soundcard\0"));
    assert_eq!(fourcc(*b"dev#"), 0x6465_7623);
    assert_eq!(WatcherBackend::Uevent.backend(), "uevent");
}

#[test]
fn the_line_up_tone_interrupts_its_left_leg() {
    let mut tone = EbuToneGenerator::new();
    let steps = tone.next_lr_frames(48_000 * 3);
    assert_eq!(steps.len(), 144_000);
    assert!(steps.iter().any(|s| s.left != ToneGain::Full), "the left leg is interrupted");
    let again = tone.next_lr_frames(48_000 * 3);
    assert!(steps.iter().zip(again.iter()).all(|(a, b)| a.left == b.left), "every three seconds");
}
