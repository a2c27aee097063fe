//! The control API: messages, settings saves, the listener, the inventory and the meters.

use std::sync::Arc;

use cascade::api::config::{
    find_remote, masked_remotes, restore_server_owned_fields, ApiConfig, AudioConfig, Config,
    GeneralConfig, RemoteConfig, VOICE_FRAME_MS,
};
use cascade::api::inventory::{invalidate_device_cache, DeviceInventory};
use cascade::api::late::{ChannelInfo, LateCells, LateHandle, OutgoingInfo};
use cascade::api::listener::{clear_move_failures, Address, Listener, Refused};
use cascade::api::messages::{
    after_save, build_routing_snapshot, handle_ws_msg, Effect, Handled, HotCommand,
};
use cascade::api::meters::{drain_peaks, select_peaks, MeterAction, MeterGate};
use cascade::api::rest::{bitrate_request, phase_request, routing_request, Answer};
use cascade::api::status::{configured_crosspoints, peer_crosspoints, stream_totals};
use cascade::names::NameMap;
use serde_json::Value;

fn parse(text: &str) -> Value {
    serde_json::from_str(text).expect("JSON")
}

fn text_at(v: &Value, key: &str) -> Option<String> {
    v.get(key).and_then(|x| x.as_str()).map(|s| s.to_string())
}

/// Settings whose remotes are those of the given JSON array.
fn cfg(remotes: &str) -> Config {
    let remotes = parse(remotes);
    Config {
        general: GeneralConfig {
            name: "Studio".to_string(),
            port: 9000,
            network_interface: "any".to_string(),
        },
        audio: AudioConfig { input_device: "Mic".to_string(), output_device: "Out".to_string() },
        api: ApiConfig { bind: "0.0.0.0".to_string(), port: 8080 },
        remotes: remotes
            .as_array()
            .expect("an array")
            .iter()
            .map(|r| RemoteConfig {
                name: text_at(r, "name").unwrap_or_default(),
                host: text_at(r, "host").unwrap_or_default(),
                port: r.get("port").and_then(|p| p.as_u64()).unwrap_or(0) as u16,
                password: text_at(r, "password").unwrap_or_default(),
                enabled: r.get("enabled").and_then(|e| e.as_bool()).unwrap_or(true),
                phase_lock: false,
                voice: r.get("voice").and_then(|e| e.as_bool()).unwrap_or(false),
                frame_ms: 10.0f32.to_bits(),
                send_matrix: text_at(r, "send_matrix"),
                receive_matrix: text_at(r, "receive_matrix"),
            })
            .collect(),
    }
}

fn sent(text: &str) -> (Value, Config) {
    let v = parse(text);
    let remotes = v.get("remotes").expect("remotes").to_string();
    (v, cfg(&remotes))
}

#[test]
fn the_api_view_carries_no_password() {
    let c = cfg(r#"[{"name":"A","host":"h","port":1,"password":"secret"},
                    {"name":"B","host":"h","port":1}]"#);
    let shown = masked_remotes(&c);
    assert_eq!(shown.len(), 2);
    assert!(shown[0].password_set);
    assert!(!shown[1].password_set);
    for r in &shown {
        for text in [&r.name, &r.host] {
            assert!(!text.contains("secret"));
        }
    }
}

#[test]
fn an_untouched_password_is_kept() {
    let old = cfg(r#"[{"name":"A","host":"h","port":1,"password":"secret"}]"#);
    let (sent, mut new) =
        sent(r#"{"remotes":[{"name":"A","host":"h2","port":1,"orig_name":"A"}]}"#);
    restore_server_owned_fields(&mut new, &sent, &old);
    assert_eq!(new.remotes[0].password, "secret");
    assert_eq!(new.remotes[0].host, "h2");
}

#[test]
fn a_typed_password_replaces_it_and_an_empty_one_clears_it() {
    let old = cfg(r#"[{"name":"A","host":"h","port":1,"password":"secret"},
                      {"name":"B","host":"h","port":1,"password":"other"}]"#);
    let (sent, mut new) = sent(
        r#"{"remotes":[
            {"name":"A","host":"h","port":1,"orig_name":"A","password":"new"},
            {"name":"B","host":"h","port":1,"orig_name":"B","password":""}]}"#,
    );
    restore_server_owned_fields(&mut new, &sent, &old);
    assert_eq!(new.remotes[0].password, "new");
    assert_eq!(new.remotes[1].password, "");
}

#[test]
fn a_renamed_remote_keeps_its_password_and_its_routing() {
    let old = cfg(r#"[{"name":"A","host":"h","port":1,"password":"secret",
                       "send_matrix":"0:0:1","receive_matrix":"1:1:1"}]"#);
    let (sent, mut new) =
        sent(r#"{"remotes":[{"name":"Renamed","host":"h","port":1,"orig_name":"A"}]}"#);
    restore_server_owned_fields(&mut new, &sent, &old);
    assert_eq!(new.remotes[0].password, "secret");
    assert_eq!(new.remotes[0].send_matrix.as_deref(), Some("0:0:1"));
    assert_eq!(new.remotes[0].receive_matrix.as_deref(), Some("1:1:1"));
}

#[test]
fn stored_routing_wins_over_the_payload() {
    let old = cfg(r#"[{"name":"A","host":"h","port":1,
                       "send_matrix":"0:0:1","receive_matrix":"1:1:1"}]"#);
    let (sent, mut new) = sent(
        r#"{"remotes":[{"name":"A","host":"h","port":1,"orig_name":"A",
                        "send_matrix":"9:9:1"}]}"#,
    );
    restore_server_owned_fields(&mut new, &sent, &old);
    assert_eq!(new.remotes[0].send_matrix.as_deref(), Some("0:0:1"));
    assert_eq!(new.remotes[0].receive_matrix.as_deref(), Some("1:1:1"));
}

#[test]
fn a_new_remote_is_left_alone() {
    let old = cfg(r#"[{"name":"A","host":"h","port":1,"password":"secret"}]"#);
    let (sent, mut new) = sent(
        r#"{"remotes":[{"name":"A","host":"h","port":1,"orig_name":"A"},
                       {"name":"B","host":"h","port":2,"password":"typed"}]}"#,
    );
    restore_server_owned_fields(&mut new, &sent, &old);
    assert_eq!(new.remotes[1].password, "typed");
    assert_eq!(new.remotes[1].send_matrix, None);
}

fn hot(h: &Handled) -> &HotCommand {
    match h.effects.as_slice() {
        [Effect::Hot(c)] => c,
        _ => panic!("one command expected"),
    }
}

/// A cap that no label reaches.
fn uncut(label: String) -> String {
    label
}

fn handle(text: &str) -> Handled {
    let mut c = cfg(r#"[{"name":"A"}]"#);
    handle_ws_msg(text, None, uncut, &mut c)
}

#[test]
fn what_is_no_known_message_asks_for_nothing() {
    for text in ["", "{", "[]", "7", r#"{"type":7}"#, r#"{"type":"dance"}"#, r#"{"peer":"A"}"#] {
        let h = handle(text);
        assert!(h.effects.is_empty() && h.save.is_none(), "{text}");
    }
}

#[test]
fn hot_controls_become_commands() {
    assert!(matches!(hot(&handle(r#"{"type":"set_bitrate","kbps":64}"#)),
                     HotCommand::SetBitrate(64)));
    assert!(matches!(hot(&handle(r#"{"type":"set_bitrate"}"#)), HotCommand::SetBitrate(128)));
    assert!(matches!(hot(&handle(r#"{"type":"set_bitrate","kbps":4294967297}"#)),
                     HotCommand::SetBitrate(1)));
    match hot(&handle(r#"{"type":"set_frame_size","ms":2.5}"#)) {
        HotCommand::SetFrameSize { frame_ms } => assert_eq!(f64::from_bits(*frame_ms), 2.5),
        _ => panic!("a frame size"),
    }
    match hot(&handle(r#"{"type":"set_frame_size"}"#)) {
        HotCommand::SetFrameSize { frame_ms } => assert_eq!(f64::from_bits(*frame_ms), 20.0),
        _ => panic!("the default frame size"),
    }
    match hot(&handle(r#"{"type":"set_mode"}"#)) {
        HotCommand::SetMode { mode } => assert_eq!(mode, "audio"),
        _ => panic!("a mode"),
    }
    match hot(&handle(r#"{"type":"set_buffer","peer":"A","ms":40}"#)) {
        HotCommand::SetReceiveBuffer { peer, ms } => assert_eq!((peer.as_str(), *ms), ("A", 40)),
        _ => panic!("a buffer"),
    }
    match hot(&handle(r#"{"type":"set_remote_mode","peer":"A","mode":"voice"}"#)) {
        HotCommand::SetRemoteMode { peer, mode } => {
            assert_eq!((peer.as_str(), mode.as_str()), ("A", "voice"))
        }
        _ => panic!("a remote's mode"),
    }
    match hot(&handle(r#"{"type":"set_remote_frame_size","peer":"A","ms":5}"#)) {
        HotCommand::SetRemoteFrameSize { peer, frame_ms } => {
            assert_eq!((peer.as_str(), f64::from_bits(*frame_ms)), ("A", 5.0))
        }
        _ => panic!("a remote's frame size"),
    }
    match hot(&handle(r#"{"type":"set_encryption","peer":"A","on":true}"#)) {
        HotCommand::SetEncryption { peer, on } => assert_eq!((peer.as_str(), *on), ("A", true)),
        _ => panic!("encryption"),
    }
    assert!(matches!(hot(&handle(r#"{"type":"set_exclusive_output","on":true}"#)),
                     HotCommand::SetExclusiveOutput(true)));
    for text in [
        r#"{"type":"set_buffer","ms":40}"#,
        r#"{"type":"set_encryption","peer":""}"#,
        r#"{"type":"set_label","channel":1}"#,
        r#"{"type":"tone_routing","peer":"A"}"#,
        r#"{"type":"phase","peer":"A"}"#,
    ] {
        assert!(handle(text).effects.is_empty(), "{text}");
    }
}

#[test]
fn tone_slots_and_labels_are_bounded() {
    match hot(&handle(r#"{"type":"tone_routing","peer":"A","slots":[0,1,2,9,256,"x"]}"#)) {
        HotCommand::SetTone { peer, slots } => {
            assert_eq!(peer, "A");
            assert_eq!(*slots, vec![0, 1, 2, 2, 0, 0]);
        }
        _ => panic!("tones"),
    }
    match hot(&handle(r#"{"type":"set_label","channel":99999999999,"label":"Vox"}"#)) {
        HotCommand::SetLabel { channel, label } => {
            assert_eq!((*channel, label.as_str()), (127, "Vox"))
        }
        _ => panic!("a label"),
    }
}

#[test]
fn a_label_is_cut_before_it_is_handed_on() {
    let mut c = cfg(r#"[{"name":"A"}]"#);
    let cut = |label: String| label.chars().take(3).collect::<String>();
    let h = handle_ws_msg(r#"{"type":"set_label","channel":2,"label":"Voices"}"#, None, cut, &mut c);
    match hot(&h) {
        HotCommand::SetLabel { channel, label } => {
            assert_eq!((*channel, label.as_str()), (2, "Voi"))
        }
        _ => panic!("a label"),
    }
    // Nothing else is a label's business.
    let h = handle_ws_msg(r#"{"type":"set_mode","mode":"voice","label":"Voices"}"#, None,
                          |_| panic!("no label is set"), &mut c);
    assert!(matches!(hot(&h), HotCommand::SetMode { mode } if mode == "voice"));
}

#[test]
fn going_on_air_is_passed_on() {
    let h = handle(r#"{"type":"on_air","enabled":false}"#);
    assert!(matches!(h.effects.as_slice(), [
        Effect::OnAir(false),
        Effect::OnAirState(false),
        Effect::Hot(HotCommand::SetOnAir(false)),
    ]));
    let h = handle(r#"{"type":"on_air"}"#);
    assert!(matches!(h.effects[2], Effect::Hot(HotCommand::SetOnAir(true))));
}

#[test]
fn phase_lock_is_applied_and_stored() {
    let mut c = cfg(r#"[{"name":"A"},{"name":"B"}]"#);
    let h = handle_ws_msg(r#"{"type":"phase","peer":"B","enabled":true}"#, None, uncut, &mut c);
    assert!(!c.remotes[0].phase_lock && c.remotes[1].phase_lock);
    match h.effects.as_slice() {
        [Effect::Phase { peer, enabled: true }, Effect::RequestSave,
         Effect::PhaseState { peer: told, enabled: true }] => {
            assert_eq!((peer.as_str(), told.as_str()), ("B", "B"))
        }
        _ => panic!("a switch, a save and the echo"),
    }
}

#[test]
fn routing_edits_are_stored_and_told_and_survive_a_save() {
    let mut c = cfg(r#"[{"name":"A"},{"name":"B"}]"#);
    let h = handle_ws_msg(
        r#"{"type":"routing_tx","peer":"A","matrix":"0:0:1"}"#, None, uncut, &mut c);
    assert_eq!(c.remotes[0].send_matrix.as_deref(), Some("0:0:1"));
    match h.effects.as_slice() {
        [Effect::Hot(HotCommand::SetSendRouting { peer, matrix }), Effect::RequestSave,
         Effect::Routing(rows)] => {
            assert_eq!((peer.as_str(), matrix.as_str()), ("A", "0:0:1"));
            assert_eq!(rows.len(), 2);
            assert_eq!(rows[0].send_matrix.as_deref(), Some("0:0:1"));
        }
        _ => panic!("a command, a save and the routing"),
    }
    handle_ws_msg(r#"{"type":"routing_rx","peer":"B","matrix":"2:2:1"}"#, None, uncut, &mut c);
    assert_eq!(c.remotes[1].receive_matrix.as_deref(), Some("2:2:1"));
    handle_ws_msg(r#"{"type":"routing_rx","peer":"B","matrix":""}"#, None, uncut, &mut c);
    assert_eq!(c.remotes[1].receive_matrix, None, "an empty matrix is none");

    let text = r#"{"type":"save_config","config":{"remotes":[
        {"name":"A2","orig_name":"A","send_matrix":"9:9:1"},{"name":"B","orig_name":"B"}]}}"#;
    let typed = cfg(r#"[{"name":"A2","send_matrix":"9:9:1"},{"name":"B"}]"#);
    handle_ws_msg(text, Some(typed), uncut, &mut c);
    assert_eq!(c.remotes[0].name, "A2");
    assert_eq!(c.remotes[0].send_matrix.as_deref(), Some("0:0:1"));
    let rows = build_routing_snapshot(&c.remotes);
    assert_eq!(rows[0].name, "A2");
}

fn save(old: &mut Config, payload: &str, new: Config) -> Handled {
    let text = format!(r#"{{"type":"save_config","config":{{"remotes":{payload}}}}}"#);
    handle_ws_msg(&text, Some(new), uncut, old)
}

#[test]
fn saving_the_settings_as_they_are_asks_for_nothing() {
    let remotes = r#"[{"name":"A","host":"h","port":1},{"name":"B","enabled":false}]"#;
    let mut c = cfg(remotes);
    let h = save(&mut c, remotes, cfg(remotes));
    assert!(h.effects.is_empty());
    let effects = after_save(h.save.expect("to be written"), true);
    assert!(matches!(effects.as_slice(), [Effect::ConfigSaved(true), Effect::Routing(_)]));
}

#[test]
fn a_save_adds_removes_and_disables_remotes() {
    let mut c = cfg(
        r#"[{"name":"Gone"},{"name":"Off"},{"name":"Moved","host":"h"},{"name":"On","enabled":false},
            {"name":"Same"}]"#,
    );
    let remotes = r#"[{"name":"New"},{"name":"Sleeping","enabled":false},
                      {"name":"Off","enabled":false},{"name":"Moved","host":"h2"},
                      {"name":"On"},{"name":"Same","voice":true}]"#;
    let h = save(&mut c, remotes, cfg(remotes));
    let said: Vec<String> = h
        .effects
        .iter()
        .map(|e| match e {
            Effect::Hot(HotCommand::RemoveRemote(n)) => format!("remove {n}"),
            Effect::Hot(HotCommand::DisableRemote(n)) => format!("disable {n}"),
            Effect::Hot(HotCommand::AddRemote(r)) => format!("add {}", r.name),
            _ => "other".to_string(),
        })
        .collect();
    assert_eq!(said, vec!["remove Gone", "add New", "disable Off", "add Moved", "add On"]);
    assert_eq!(find_remote(&c.remotes, "Same"), Some(5));
    assert_eq!(c.remotes[5].frame_ms, VOICE_FRAME_MS, "voice exists at 20 ms only");
    assert_eq!(f32::from_bits(VOICE_FRAME_MS), 20.0);
    assert_eq!(c.remotes[0].frame_ms, 10.0f32.to_bits());
}

#[test]
fn a_save_moves_addresses_devices_and_the_name() {
    let remotes = r#"[{"name":"A"},{"name":"B","enabled":false}]"#;
    let mut c = cfg(remotes);
    let mut new = cfg(remotes);
    new.api.port = 8081;
    new.general.port = 9001;
    new.general.name = "Van".to_string();
    new.audio.input_device = String::new();
    let h = save(&mut c, remotes, new);
    assert!(matches!(h.effects.as_slice(), [Effect::Rebind]));
    assert_eq!(c.general.name, "Van");
    let plan = h.save.expect("to be written");
    let effects = after_save(plan, true);
    match &effects[2..] {
        [Effect::Hot(HotCommand::SetBindAddress { iface, port: 9001 }),
         Effect::Hot(HotCommand::AddRemote(r)), Effect::Hot(HotCommand::SetInputDevice(d))] => {
            assert_eq!((iface.as_str(), r.name.as_str(), d.as_str()), ("any", "A", ""))
        }
        _ => panic!("the address, the enabled remote, the device"),
    }
    let mut c = cfg(remotes);
    let h = save(&mut c, remotes, cfg(r#"[{"name":"A"},{"name":"B","enabled":false}]"#));
    let refused = after_save(h.save.expect("to be written"), false);
    assert!(matches!(refused.as_slice(), [Effect::ConfigSaved(false)]));
}

#[test]
fn a_save_that_does_not_read_as_settings_changes_nothing() {
    let mut c = cfg(r#"[{"name":"A"}]"#);
    let h = handle_ws_msg(r#"{"type":"save_config","config":{"remotes":7}}"#, None, uncut, &mut c);
    assert!(h.effects.is_empty() && h.save.is_none());
    let h = handle_ws_msg(r#"{"type":"save_config"}"#, Some(cfg("[]")), uncut, &mut c);
    assert!(h.effects.is_empty() && h.save.is_none());
    assert_eq!(c.remotes.len(), 1);
}

#[test]
fn requests_over_http() {
    assert!(phase_request(&parse(r#"{"enabled":true}"#)));
    assert!(!phase_request(&parse("{}")));
    let (c, a) = bitrate_request(&parse(r#"{"kbps":96}"#), true);
    assert!(matches!(c, Some(HotCommand::SetBitrate(96))));
    assert_eq!(a, Answer::DoneBitrate(96));
    assert_eq!(bitrate_request(&parse("{}"), false).1, Answer::Unavailable);
    let (c, a) = routing_request("A".to_string(), &parse(r#"{"matrix":"0:0:1"}"#), true, true);
    assert!(matches!(c, Some(HotCommand::SetSendRouting { .. })));
    assert_eq!(a, Answer::Done);
    let (c, _) = routing_request("A".to_string(), &parse(r#"{"matrix":"0:0:1"}"#), false, true);
    assert!(matches!(c, Some(HotCommand::SetReceiveRouting { .. })));
    assert_eq!(routing_request("A".to_string(), &parse("{}"), true, true).1,
               Answer::MissingMatrix);
}

#[test]
fn a_failed_move_goes_back_and_is_told_until_one_succeeds() {
    let mut l = Listener::new();
    assert!(matches!(l.on_refused(), Refused::End));
    let old = Address { bind: "0.0.0.0".to_string(), port: 8080 };
    let wanted = Address { bind: "0.0.0.0".to_string(), port: 80 };
    l.on_bound(&old);
    match l.on_refused() {
        Refused::GoBack(a) => assert_eq!(a.text(), "0.0.0.0:8080"),
        Refused::End => panic!("there is an address to go back to"),
    }
    let mut api = ApiConfig { bind: "0.0.0.0".to_string(), port: 80 };
    let told = l.on_went_back(&wanted, "in use", &mut api).expect("told");
    assert_eq!(told, "Web UI could not move to 0.0.0.0:80 (in use) — still on 0.0.0.0:8080.");
    assert_eq!(api.port, 8080);
    let mut newer = ApiConfig { bind: "127.0.0.1".to_string(), port: 81 };
    l.on_went_back(&wanted, "in use", &mut newer);
    assert_eq!((newer.bind.as_str(), newer.port), ("127.0.0.1", 81), "a newer change stands");
    let warnings = vec!["Web".to_string(), told, "No device".to_string()];
    assert_eq!(clear_move_failures(&warnings), vec!["Web", "No device"]);
}

#[test]
fn the_inventory_is_listed_at_start_on_a_nudge_and_once_a_minute() {
    let names = |n: &[&str]| -> Vec<String> { n.iter().map(|s| s.to_string()).collect() };
    let mut inv = DeviceInventory::new();
    assert!(inv.tick(), "nothing is listed yet");
    assert!(inv.found(names(&["Mic"]), names(&["Out"])));
    assert!(!inv.tick());
    invalidate_device_cache(&mut inv);
    assert!(inv.tick());
    assert!(!inv.found(names(&["Mic"]), names(&["Out"])), "an unchanged list is no news");
    let quiet = (0..119).filter(|_| inv.tick()).count();
    assert_eq!(quiet, 0);
    assert!(inv.tick(), "the sweep");
    assert!(inv.found(names(&["Mic", "Line"]), names(&["Out"])));
    inv.seed(names(&[]), names(&[]));
    assert_eq!(inv.inputs, names(&["Mic", "Line"]), "a listing stands over a seed");
}

fn channel(channel: u8, routed: bool) -> ChannelInfo {
    ChannelInfo { channel, label: String::new(), active: true, routed }
}

#[test]
fn routing_selects_which_peak_a_channel_shows() {
    let shown = select_peaks(vec![10, 11], &vec![20, 21, 22],
                             &vec![channel(0, true), channel(1, false), channel(4, false),
                                   channel(2, false)]);
    assert_eq!(shown, vec![10, 21, 22, 0, 0]);

    let mut post: NameMap<Vec<u32>> = NameMap::new();
    post.insert("A", vec![1]);
    post.insert("Old", vec![7]);
    let mut pre: NameMap<Vec<u32>> = NameMap::new();
    pre.insert("B", vec![0, 5]);
    let mut channels: NameMap<Vec<ChannelInfo>> = NameMap::new();
    channels.insert("B", vec![channel(1, false)]);
    channels.insert("A", vec![channel(0, true)]);
    let all = drain_peaks(&post, &pre, &channels);
    assert_eq!(all.len(), 3);
    assert_eq!(all.get("A"), Some(&vec![1]));
    assert_eq!(all.get("B"), Some(&vec![0, 5]));
    assert_eq!(all.get("Old"), Some(&vec![7]));
}

#[test]
fn the_first_watched_tick_publishes_nothing() {
    let mut g = MeterGate::new();
    assert_eq!(g.tick(false), MeterAction::Idle);
    assert_eq!(g.tick(true), MeterAction::Drain);
    assert_eq!(g.tick(true), MeterAction::Publish);
    assert_eq!(g.tick(false), MeterAction::Idle);
    assert_eq!(g.tick(true), MeterAction::Drain);
}

#[test]
fn crosspoints_and_totals() {
    assert_eq!(configured_crosspoints(Some(3), Some(&vec![0, 1, 2, 0]), Some(4)), (5, 4));
    assert_eq!(configured_crosspoints(None, None, None), (0, 0));
    assert_eq!(stream_totals(&vec![(Some(3), None), (None, Some(2)), (Some(1), Some(1))]), (4, 3));
}

#[test]
fn a_peer_shows_the_crosspoints_of_its_remote() {
    let c = cfg(r#"[{"name": "A"}, {"name": "B"}]"#);
    let routes = vec![(Some(3), None), (Some(1), Some(2))];
    let mut tones: NameMap<Vec<u8>> = NameMap::new();
    tones.insert("B", vec![0, 1, 2]);
    let (a, b) = (
        peer_crosspoints(&c.remotes, &routes, &tones, "A"),
        peer_crosspoints(&c.remotes, &routes, &tones, "B"),
    );
    assert_eq!((a, b), ((3, 0), (3, 2)));
    assert_eq!(peer_crosspoints(&c.remotes, &routes, &tones, "gone"), (0, 0));
    assert_eq!(a.0 + b.0, stream_totals(&routes).0 + 2, "the total and the two tones");
}

#[test]
fn a_late_handle_is_seen_once_published() {
    let mut cells: LateCells<u32> = LateCells::new();
    let h = LateHandle::empty(&mut cells);
    assert!(h.get(&cells).is_none());
    h.publish(&mut cells, Arc::new(7));
    assert_eq!(h.get(&cells), Some(Arc::new(7)));
    let info = OutgoingInfo { channel: 1, label: "Vox".to_string(), active: true };
    let mut infos = LateCells::new();
    let h = LateHandle::with(&mut infos, Arc::new(info));
    assert_eq!(h.get(&infos).map(|i| i.label.clone()), Some("Vox".to_string()));
}

#[test]
fn every_clone_of_a_late_handle_sees_a_publish() {
    let mut cells: LateCells<u32> = LateCells::new();
    let h = LateHandle::empty(&mut cells);
    let other = LateHandle::with(&mut cells, Arc::new(1));
    let before = h.clone();
    let (first, second) = (Arc::new(7), Arc::new(8));
    h.publish(&mut cells, Arc::clone(&first));
    let after = before.clone();
    other.publish(&mut cells, Arc::new(2));
    for c in [&h, &before, &after] {
        assert!(Arc::ptr_eq(&c.get(&cells).expect("published"), &first));
    }
    after.publish(&mut cells, Arc::clone(&second));
    for c in [&h, &before, &after] {
        assert!(Arc::ptr_eq(&c.get(&cells).expect("replaced"), &second));
    }
    assert_eq!(other.get(&cells), Some(Arc::new(2)), "another handle has its own cell");
}
