//! The device manager's phases and decisions.

use cascade::audio::device_manager::{
    resolve_blocking, step, Decision, Dir, Listed, Manager, ManagerAction, Phase, ProbeAction, ProbeResult,
    OPEN_RETRY_MAX, REACQUIRE_INTERVAL, WATCHED_INTERVAL,
};

const MS: u64 = 1_000_000;
const START: u64 = 1_000_000 * MS;

// Tests use the default REACQUIRE_INTERVAL; a thin wrapper keeps call sites short.
fn step_t(phase: &Phase, loss: bool, live_empty: bool, cfg: &str, now: u64)
    -> (Phase, Decision) {
    step(phase, loss, live_empty, cfg, now, REACQUIRE_INTERVAL)
}

#[test]
fn loss_commits_stop_immediately_and_parks_when_configured() {
    let now = START;
    let (phase, dec) = step_t(&Phase::Live, true, false, "Dev X", now);
    // No debounce — stop now, and park so we re-acquire when it returns.
    assert_eq!(dec, Decision::CommitStop);
    assert!(matches!(phase, Phase::Parked { .. }));
}

#[test]
fn loss_goes_idle_when_no_config() {
    let now = START;
    let (phase, dec) = step_t(&Phase::Live, true, false, "", now);
    assert_eq!(dec, Decision::CommitStop);
    assert!(matches!(phase, Phase::Idle));
}

#[test]
fn parked_after_loss_tries_acquire_promptly() {
    // After a loss commits to Parked, last_check is set in the past so the very first
    // parked tick probes (prompt reconnection) rather than waiting a full interval.
    let now = START;
    let (phase, _) = step_t(&Phase::Live, true, false, "Dev X", now);
    // Next tick, shortly after: should already be due to try acquiring.
    let (phase, dec) = step_t(&phase, false, true, "Dev X", now + 10 * MS);
    assert_eq!(dec, Decision::TryAcquire);
    assert!(matches!(phase, Phase::Parked { .. }));
}

#[test]
fn parked_tries_acquire_on_interval() {
    let t0 = START;
    let phase = Phase::Parked { last_check: i128::from(t0) };
    // Before interval: nothing.
    let (_, dec) = step_t(&phase, false, true, "Dev X", t0 + 100 * MS);
    assert_eq!(dec, Decision::Nothing);
    // After interval: try acquire.
    let (phase, dec) = step_t(&phase, false, true, "Dev X", t0 + REACQUIRE_INTERVAL);
    assert_eq!(dec, Decision::TryAcquire);
    assert!(matches!(phase, Phase::Parked { .. }));
}

#[test]
fn parked_returns_to_live_when_device_back() {
    let t0 = START;
    let phase = Phase::Parked { last_check: i128::from(t0) };
    // Rebuild applied elsewhere → live_empty=false.
    let (phase, dec) = step_t(&phase, false, false, "Dev X", t0 + 100 * MS);
    assert!(matches!(phase, Phase::Live));
    assert_eq!(dec, Decision::Nothing);
}

#[test]
fn parked_goes_idle_if_user_clears_config() {
    let t0 = START;
    let phase = Phase::Parked { last_check: i128::from(t0) };
    let (phase, dec) = step_t(&phase, false, true, "", t0 + 100 * MS);
    assert!(matches!(phase, Phase::Idle));
    assert_eq!(dec, Decision::Nothing);
}

#[test]
fn idle_parks_when_config_appears() {
    let t0 = START;
    let (phase, _) = step_t(&Phase::Idle, false, true, "Dev X", t0);
    assert!(matches!(phase, Phase::Parked { .. }));
}

#[test]
fn the_first_probe_is_prompt_from_the_clocks_zero_on() {
    for now in [0, MS, REACQUIRE_INTERVAL - 1, REACQUIRE_INTERVAL] {
        // A loss, a stop elsewhere, and a selection while idle.
        for (phase, loss) in [(Phase::Live, true), (Phase::Live, false), (Phase::Idle, false)] {
            let (phase, _) = step_t(&phase, loss, true, "Dev X", now);
            let later = now + 10 * MS;
            let (phase, dec) = step_t(&phase, false, true, "Dev X", later);
            assert_eq!(dec, Decision::TryAcquire);
            assert_eq!(phase, Phase::Parked { last_check: i128::from(later) });
            // From there on it goes by the interval.
            let (phase, dec) = step_t(&phase, false, true, "Dev X", later + REACQUIRE_INTERVAL - 1);
            assert_eq!(dec, Decision::Nothing);
            let (_, dec) = step_t(&phase, false, true, "Dev X", later + REACQUIRE_INTERVAL);
            assert_eq!(dec, Decision::TryAcquire);
        }
    }
    let (phase, _) = step_t(&Phase::Live, true, false, "Dev X", 0);
    assert_eq!(phase, Phase::Parked { last_check: -i128::from(REACQUIRE_INTERVAL) });
}

#[test]
fn a_watched_direction_probes_promptly_on_a_young_clock() {
    let lost_at = 10_000 * MS;
    let mut m = Manager::new(Dir::Input, true, 0);
    assert_eq!(m.tick(true, false, "Mic", lost_at, 0), ManagerAction::Stop);
    assert_eq!(m.tick(false, true, "Mic", lost_at + 500 * MS, 0), ManagerAction::Probe);
    assert_eq!(m.probed(ProbeResult::Absent, lost_at + 500 * MS), ProbeAction::Nothing);
    assert_eq!(m.tick(false, true, "Mic", lost_at + WATCHED_INTERVAL, 0), ManagerAction::Nothing);
    assert_eq!(
        m.tick(false, true, "Mic", lost_at + 500 * MS + WATCHED_INTERVAL, 0),
        ManagerAction::Probe
    );
}

#[test]
fn a_lost_device_is_stopped_probed_and_rebuilt() {
    let mut m = Manager::new(Dir::Output, false, 7);
    assert_eq!(m.interval, REACQUIRE_INTERVAL);
    assert_eq!(m.tick(false, false, "Out", START, 7), ManagerAction::Nothing);
    assert_eq!(m.tick(true, false, "Out", START, 7), ManagerAction::Stop);
    assert_eq!(m.tick(false, true, "Out", START + MS, 7), ManagerAction::Probe);
    assert_eq!(m.probed(ProbeResult::Absent, START + MS), ProbeAction::Nothing);
    assert_eq!(m.tick(false, true, "Out", START + 2 * MS, 7), ManagerAction::Nothing);
    // A change of the device set is looked into at once.
    assert_eq!(m.tick(false, true, "Out", START + 3 * MS, 8), ManagerAction::Probe);
    assert_eq!(m.probed(ProbeResult::Opened, START + 3 * MS), ProbeAction::Rebuild);
}

#[test]
fn a_refused_device_is_said_once_and_tried_ever_more_rarely() {
    let mut m = Manager::new(Dir::Input, true, 0);
    assert_eq!(m.interval, WATCHED_INTERVAL);
    m.tick(true, false, "Mic", START, 0);
    let mut now = START;
    let mut warned = 0;
    for _ in 0..20 {
        now += OPEN_RETRY_MAX;
        if m.tick(false, true, "Mic", now, 0) == ManagerAction::Probe {
            if m.probed(ProbeResult::Refused, now) == ProbeAction::Warn {
                warned += 1;
            }
        }
    }
    assert_eq!(warned, 1);
    assert_eq!(m.open_backoff, OPEN_RETRY_MAX, "the wait doubles up to its limit");
    m.probed(ProbeResult::Opened, now);
    assert_eq!(m.open_backoff, WATCHED_INTERVAL, "and starts over");
}

fn listed(uid: Option<&str>, name: &str) -> Listed {
    Listed { uid: uid.map(str::to_string), name: name.to_string() }
}

#[test]
fn a_device_goes_by_its_identifier_before_its_name() {
    let found = vec![
        listed(None, "Desk"),
        listed(Some("hw:USB,0"), "Renamed"),
        listed(Some("hw:PCH,0"), "Desk"),
    ];
    assert_eq!(resolve_blocking(&found, "hw:USB,0", "Desk"), Some(1), "the name is another's now");
    assert_eq!(resolve_blocking(&found, "hw:GONE,0", "Desk"), Some(0), "the name is the fallback");
    assert_eq!(resolve_blocking(&found, "", "Renamed"), Some(1));
    assert_eq!(resolve_blocking(&found, "hw:GONE,0", "Elsewhere"), None);
    assert_eq!(resolve_blocking(&found, "hw:GONE,0", ""), None);
    assert_eq!(resolve_blocking(&found, "", ""), None, "nothing configured, nothing found");
}
