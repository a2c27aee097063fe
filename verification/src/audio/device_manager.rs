//! One direction's device lifecycle: when to stop, when to look for the configured device
//! again, and how long to wait between trial opens. Times are nanoseconds on one steady
//! clock; a check can be put before the clock's zero.

use vstd::prelude::*;

use crate::names::name_same;

verus! {

/// Pace of the search for a missing device where nothing reports device changes: 5 s.
pub const REACQUIRE_INTERVAL: u64 = 5_000_000_000;

/// Pace of that search where a watcher reports device changes: 30 s.
pub const WATCHED_INTERVAL: u64 = 30_000_000_000;

/// The longest an input device that is present but refuses to open waits between trial
/// opens: 300 s.
pub const OPEN_RETRY_MAX: u64 = 300_000_000_000;

/// An I/O direction.
#[derive(Clone, Copy, Debug, PartialEq, Eq, Structural)]
pub enum Dir {
    Input,
    Output,
}

/// Lifecycle phase of one direction.
#[derive(Clone, Copy, Debug, PartialEq, Eq, Structural)]
pub enum Phase {
    /// A stream runs.
    Live,
    /// No stream; the configured device is missing and is looked for at intervals.
    Parked { last_check: i128 },
    /// No device is configured.
    Idle,
}

/// What one tick decided for one direction.
#[derive(Clone, Copy, Debug, PartialEq, Eq, Structural)]
pub enum Decision {
    Nothing,
    /// The stream is to be stopped now.
    CommitStop,
    /// The configured device is to be looked for and tried.
    TryAcquire,
}

/// A check time far enough back that the next parked tick is due at once.
pub open spec fn due_at(now: u64, interval: u64) -> i128 {
    (now - interval) as i128
}

/// At least the interval has passed since the last check.
pub open spec fn is_due(last_check: i128, now: u64, interval: u64) -> bool {
    (if now >= last_check {
        now - last_check
    } else {
        0
    }) >= interval
}

/// The decision step.
pub open spec fn stepped(
    phase: Phase,
    loss: bool,
    live_empty: bool,
    has_config: bool,
    now: u64,
    interval: u64,
) -> (Phase, Decision) {
    let parked = Phase::Parked { last_check: due_at(now, interval) };
    if loss {
        (
            if has_config {
                parked
            } else {
                Phase::Idle
            },
            Decision::CommitStop,
        )
    } else {
        match phase {
            Phase::Live => if !live_empty {
                (Phase::Live, Decision::Nothing)
            } else if has_config {
                (parked, Decision::Nothing)
            } else {
                (Phase::Idle, Decision::Nothing)
            },
            Phase::Parked { last_check } => if !has_config {
                (Phase::Idle, Decision::Nothing)
            } else if !live_empty {
                (Phase::Live, Decision::Nothing)
            } else if is_due(last_check, now, interval) {
                (Phase::Parked { last_check: now as i128 }, Decision::TryAcquire)
            } else {
                (phase, Decision::Nothing)
            },
            Phase::Idle => if has_config && live_empty {
                (parked, Decision::Nothing)
            } else if !live_empty {
                (Phase::Live, Decision::Nothing)
            } else {
                (Phase::Idle, Decision::Nothing)
            },
        }
    }
}

/// One decision step for one direction. A loss commits the stop at once; a device that is
/// configured and missing is looked for at intervals, first without delay.
pub fn step(
    phase: &Phase,
    loss_signalled: bool,
    live_empty: bool,
    configured: &str,
    now: u64,
    reacquire_interval: u64,
) -> (r: (Phase, Decision))
    ensures
        r == stepped(
            *phase,
            loss_signalled,
            live_empty,
            configured@.len() > 0,
            now,
            reacquire_interval,
        ),
{
    let has_config: bool = !configured.is_empty();
    let due_now: i128 = now as i128 - reacquire_interval as i128;
    if loss_signalled {
        if has_config {
            return (Phase::Parked { last_check: due_now }, Decision::CommitStop);
        } else {
            return (Phase::Idle, Decision::CommitStop);
        }
    }
    match *phase {
        Phase::Live => {
            if live_empty && has_config {
                (Phase::Parked { last_check: due_now }, Decision::Nothing)
            } else if live_empty {
                (Phase::Idle, Decision::Nothing)
            } else {
                (Phase::Live, Decision::Nothing)
            }
        },
        Phase::Parked { last_check } => {
            if !has_config {
                (Phase::Idle, Decision::Nothing)
            } else if !live_empty {
                (Phase::Live, Decision::Nothing)
            } else if last_check <= due_now || reacquire_interval == 0 {
                (Phase::Parked { last_check: now as i128 }, Decision::TryAcquire)
            } else {
                (Phase::Parked { last_check }, Decision::Nothing)
            }
        },
        Phase::Idle => {
            if has_config && live_empty {
                (Phase::Parked { last_check: due_now }, Decision::Nothing)
            } else if !live_empty {
                (Phase::Live, Decision::Nothing)
            } else {
                (Phase::Idle, Decision::Nothing)
            }
        },
    }
}

/// A device as the host lists it: its persistent identifier, where it has one, and its name.
pub struct Listed {
    pub uid: Option<String>,
    pub name: String,
}

impl View for Listed {
    type V = (Option<Seq<char>>, Seq<char>);

    open spec fn view(&self) -> (Option<Seq<char>>, Seq<char>) {
        (
            match self.uid {
                Some(u) => Some(u@),
                None => None,
            },
            self.name@,
        )
    }
}

pub open spec fn listed_views(found: Seq<Listed>) -> Seq<(Option<Seq<char>>, Seq<char>)> {
    Seq::new(found.len(), |i: int| found[i]@)
}

/// The first device from `at` on with this identifier.
pub open spec fn first_with_uid(
    found: Seq<(Option<Seq<char>>, Seq<char>)>,
    uid: Seq<char>,
    at: int,
) -> Option<int>
    decreases found.len() - at,
{
    if at >= found.len() {
        None
    } else if found[at].0 == Some(uid) {
        Some(at)
    } else {
        first_with_uid(found, uid, at + 1)
    }
}

/// The first device from `at` on with this name.
pub open spec fn first_with_name(
    found: Seq<(Option<Seq<char>>, Seq<char>)>,
    name: Seq<char>,
    at: int,
) -> Option<int>
    decreases found.len() - at,
{
    if at >= found.len() {
        None
    } else if found[at].1 == name {
        Some(at)
    } else {
        first_with_name(found, name, at + 1)
    }
}

/// The device a configuration means: the one with its identifier, or else the one with its
/// name. An empty identifier or name means none.
pub open spec fn resolved(
    found: Seq<(Option<Seq<char>>, Seq<char>)>,
    uid: Seq<char>,
    name: Seq<char>,
) -> Option<int> {
    if uid.len() > 0 && first_with_uid(found, uid, 0) is Some {
        first_with_uid(found, uid, 0)
    } else if name.len() > 0 {
        first_with_name(found, name, 0)
    } else {
        None
    }
}

/// Resolve a configured device among those the host lists; none where it is not present.
pub fn resolve_blocking(found: &Vec<Listed>, uid: &str, name: &str) -> (at: Option<usize>)
    ensures
        match at {
            Some(i) => i < found@.len() && resolved(listed_views(found@), uid@, name@) == Some(
                i as int,
            ),
            None => resolved(listed_views(found@), uid@, name@) is None,
        },
{
    let ghost all = listed_views(found@);
    if !uid.is_empty() {
        let mut i: usize = 0;
        while i < found.len()
            invariant
                i <= found@.len(),
                all == listed_views(found@),
                uid@.len() > 0,
                first_with_uid(all, uid@, 0) == first_with_uid(all, uid@, i as int),
            decreases found@.len() - i,
        {
            assert(all[i as int] == found@[i as int]@);
            if let Some(u) = &found[i].uid {
                if name_same(u.as_str(), uid) {
                    return Some(i);
                }
            }
            i = i + 1;
        }
    }
    if name.is_empty() {
        return None;
    }
    let mut i: usize = 0;
    while i < found.len()
        invariant
            i <= found@.len(),
            all == listed_views(found@),
            name@.len() > 0,
            uid@.len() > 0 ==> first_with_uid(all, uid@, 0) is None,
            first_with_name(all, name@, 0) == first_with_name(all, name@, i as int),
        decreases found@.len() - i,
    {
        assert(all[i as int] == found@[i as int]@);
        if name_same(found[i].name.as_str(), name) {
            return Some(i);
        }
        i = i + 1;
    }
    None
}

/// What a tick asks of its caller.
#[derive(Clone, Copy, Debug, PartialEq, Eq, Structural)]
pub enum ManagerAction {
    Nothing,
    /// Stop this direction's stream.
    Stop,
    /// Look for the configured device and, where it is present, try to open it.
    Probe,
}

/// What looking for the configured device found.
#[derive(Clone, Copy, Debug, PartialEq, Eq, Structural)]
pub enum ProbeResult {
    Absent,
    /// Present, and a trial open succeeded.
    Opened,
    /// Present, and it would not open.
    Refused,
}

/// What the caller does with that.
#[derive(Clone, Copy, Debug, PartialEq, Eq, Structural)]
pub enum ProbeAction {
    Nothing,
    /// Build the stream on the device found.
    Rebuild,
    /// Say, once, that the device is present and will not open.
    Warn,
}

/// The lifecycle of one direction from tick to tick.
#[derive(Clone, Copy, Debug, PartialEq, Eq, Structural)]
pub struct Manager {
    pub dir: Dir,
    pub interval: u64,
    pub phase: Phase,
    /// The device-change generation last seen.
    pub seen_gen: u64,
    /// The configured device is present and refuses to open.
    pub open_failing: bool,
    pub open_backoff: u64,
    /// No trial open of an input before this time, unless the device set changes.
    pub next_open_try: Option<u64>,
}

/// The state a tick leaves, and what it asks for.
pub open spec fn ticked(
    m: Manager,
    loss: bool,
    live_empty: bool,
    has_config: bool,
    now: u64,
    gen: u64,
) -> (Manager, ManagerAction) {
    let (phase, decision) = stepped(m.phase, loss, live_empty, has_config, now, m.interval);
    let nudged = gen != m.seen_gen;
    let next = Manager { phase, seen_gen: gen, ..m };
    let waiting = m.dir == Dir::Input && !nudged && (m.next_open_try matches Some(t) && now < t);
    (
        next,
        match decision {
            Decision::CommitStop => ManagerAction::Stop,
            Decision::TryAcquire => if waiting {
                ManagerAction::Nothing
            } else {
                ManagerAction::Probe
            },
            Decision::Nothing => if nudged && phase is Parked {
                ManagerAction::Probe
            } else {
                ManagerAction::Nothing
            },
        },
    )
}

/// The state a probe's result leaves, and what is done with it.
pub open spec fn probed_state(m: Manager, result: ProbeResult, now: u64) -> (Manager, ProbeAction) {
    match result {
        ProbeResult::Opened => (
            Manager {
                open_failing: false,
                open_backoff: m.interval,
                next_open_try: None,
                ..m
            },
            ProbeAction::Rebuild,
        ),
        ProbeResult::Absent => (
            Manager {
                open_failing: false,
                open_backoff: m.interval,
                next_open_try: None,
                ..m
            },
            ProbeAction::Nothing,
        ),
        ProbeResult::Refused => (
            if m.dir == Dir::Input {
                Manager {
                    open_failing: true,
                    next_open_try: Some((now + m.open_backoff) as u64),
                    open_backoff: if m.open_backoff * 2 < OPEN_RETRY_MAX {
                        (m.open_backoff * 2) as u64
                    } else {
                        OPEN_RETRY_MAX
                    },
                    ..m
                }
            } else {
                Manager { open_failing: true, ..m }
            },
            if m.open_failing {
                ProbeAction::Nothing
            } else {
                ProbeAction::Warn
            },
        ),
    }
}

impl Manager {
    /// The interval is one of the two, and the backoff never passes its ceiling.
    pub open spec fn well_formed(&self) -> bool {
        &&& self.interval == REACQUIRE_INTERVAL || self.interval == WATCHED_INTERVAL
        &&& self.interval <= self.open_backoff <= OPEN_RETRY_MAX
    }

    /// A direction taken to be running. With a watcher the search is slow, since the
    /// watcher's nudges do the work.
    pub fn new(dir: Dir, watcher_active: bool, gen: u64) -> (m: Self)
        ensures
            m.well_formed(),
            m == (Manager {
                dir,
                interval: if watcher_active {
                    WATCHED_INTERVAL
                } else {
                    REACQUIRE_INTERVAL
                },
                phase: Phase::Live,
                seen_gen: gen,
                open_failing: false,
                open_backoff: if watcher_active {
                    WATCHED_INTERVAL
                } else {
                    REACQUIRE_INTERVAL
                },
                next_open_try: None,
            }),
    {
        let interval: u64 = if watcher_active {
            WATCHED_INTERVAL
        } else {
            REACQUIRE_INTERVAL
        };
        Manager {
            dir,
            interval,
            phase: Phase::Live,
            seen_gen: gen,
            open_failing: false,
            open_backoff: interval,
            next_open_try: None,
        }
    }

    /// One service tick. A change in the device set, seen as a new generation, makes a parked
    /// direction probe at once; a refused input otherwise waits out its backoff.
    pub fn tick(&mut self, loss: bool, live_empty: bool, configured: &str, now: u64, gen: u64) -> (
    action: ManagerAction)
        requires
            old(self).well_formed(),
        ensures
            final(self).well_formed(),
            (*final(self), action) == ticked(
                *old(self),
                loss,
                live_empty,
                configured@.len() > 0,
                now,
                gen,
            ),
    {
        let nudged: bool = gen != self.seen_gen;
        self.seen_gen = gen;
        let (phase, decision): (Phase, Decision) = step(
            &self.phase,
            loss,
            live_empty,
            configured,
            now,
            self.interval,
        );
        self.phase = phase;
        let parked: bool = match phase {
            Phase::Parked { .. } => true,
            _ => false,
        };
        match decision {
            Decision::CommitStop => ManagerAction::Stop,
            Decision::Nothing => {
                if nudged && parked {
                    ManagerAction::Probe
                } else {
                    ManagerAction::Nothing
                }
            },
            Decision::TryAcquire => {
                let early: bool = match self.next_open_try {
                    Some(t) => now < t,
                    None => false,
                };
                if self.dir == Dir::Input && !nudged && early {
                    ManagerAction::Nothing
                } else {
                    ManagerAction::Probe
                }
            },
        }
    }

    /// Take in what a probe found.
    pub fn probed(&mut self, result: ProbeResult, now: u64) -> (action: ProbeAction)
        requires
            old(self).well_formed(),
            now + OPEN_RETRY_MAX <= u64::MAX,
        ensures
            final(self).well_formed(),
            (*final(self), action) == probed_state(*old(self), result, now),
    {
        match result {
            ProbeResult::Opened => {
                self.open_failing = false;
                self.open_backoff = self.interval;
                self.next_open_try = None;
                ProbeAction::Rebuild
            },
            ProbeResult::Absent => {
                self.open_failing = false;
                self.open_backoff = self.interval;
                self.next_open_try = None;
                ProbeAction::Nothing
            },
            ProbeResult::Refused => {
                if self.dir == Dir::Input {
                    self.next_open_try = Some(now + self.open_backoff);
                    let doubled: u64 = self.open_backoff * 2;
                    self.open_backoff = if doubled < OPEN_RETRY_MAX {
                        doubled
                    } else {
                        OPEN_RETRY_MAX
                    };
                }
                if self.open_failing {
                    ProbeAction::Nothing
                } else {
                    self.open_failing = true;
                    ProbeAction::Warn
                }
            },
        }
    }
}

/// A loss stops the stream at once, in every phase, and leaves nothing live.
pub proof fn law_loss_commits_the_stop(
    phase: Phase,
    live_empty: bool,
    has_config: bool,
    now: u64,
    interval: u64,
)
    ensures
        stepped(phase, true, live_empty, has_config, now, interval).1 == Decision::CommitStop,
        stepped(phase, true, live_empty, has_config, now, interval).0 != Phase::Live,
{
}

/// After a loss with a device configured, the very next tick without a stream probes.
pub proof fn law_first_probe_after_a_loss_is_prompt(
    phase: Phase,
    live_empty: bool,
    now: u64,
    later: u64,
    interval: u64,
)
    requires
        now <= later,
    ensures
        ({
            let parked = stepped(phase, true, live_empty, true, now, interval).0;
            stepped(parked, false, true, true, later, interval) == (
                Phase::Parked { last_check: later as i128 },
                Decision::TryAcquire,
            )
        }),
{
}

/// A device that is selected while none runs is probed on the very next tick.
pub proof fn law_first_probe_of_a_selection_is_prompt(
    phase: Phase,
    now: u64,
    later: u64,
    interval: u64,
)
    requires
        phase is Live || phase is Idle,
        now <= later,
    ensures
        ({
            let parked = stepped(phase, false, true, true, now, interval).0;
            stepped(parked, false, true, true, later, interval) == (
                Phase::Parked { last_check: later as i128 },
                Decision::TryAcquire,
            )
        }),
{
}

/// A direction that has just lost its device, or has just had one selected, asks for a probe
/// on its next tick, at either pace. An input that was refused before still waits out its
/// backoff, unless the device set changes.
pub proof fn law_next_tick_probes(
    m: Manager,
    loss: bool,
    live_empty: bool,
    now: u64,
    gen: u64,
    later: u64,
    later_gen: u64,
)
    requires
        loss || (live_empty && !(m.phase is Parked)),
        now <= later,
        m.dir == Dir::Input && later_gen == gen ==> !(m.next_open_try matches Some(t) && later
            < t),
    ensures
        ({
            let parked = ticked(m, loss, live_empty, true, now, gen).0;
            ticked(parked, false, true, true, later, later_gen).1 == ManagerAction::Probe
        }),
{
}

/// Without a device configured nothing is ever looked for.
pub proof fn law_nothing_configured_is_never_probed(
    m: Manager,
    loss: bool,
    live_empty: bool,
    now: u64,
    gen: u64,
)
    ensures
        ticked(m, loss, live_empty, false, now, gen).1 != ManagerAction::Probe,
        !(ticked(m, loss, live_empty, false, now, gen).0.phase is Parked),
{
}

/// A running direction that loses nothing is left alone.
pub proof fn law_running_direction_is_left_alone(m: Manager, has_config: bool, now: u64, gen: u64)
    requires
        m.phase == Phase::Live,
    ensures
        ticked(m, false, false, has_config, now, gen).0.phase == Phase::Live,
        ticked(m, false, false, has_config, now, gen).1 == ManagerAction::Nothing,
{
}

/// A refused input is not opened again before its backoff has passed, unless the device set
/// changes; a change of the set probes a parked direction at once.
pub proof fn law_refused_input_waits(m: Manager, now: u64, later: u64)
    requires
        m.well_formed(),
        m.dir == Dir::Input,
        m.phase is Parked,
        now + OPEN_RETRY_MAX <= u64::MAX,
        now <= later < now + m.open_backoff,
    ensures
        ({
            let refused = probed_state(m, ProbeResult::Refused, now).0;
            &&& ticked(refused, false, true, true, later, refused.seen_gen).1
                == ManagerAction::Nothing
            &&& forall|gen: u64|
                gen != refused.seen_gen ==> #[trigger] ticked(
                    refused,
                    false,
                    true,
                    true,
                    later,
                    gen,
                ).1 == ManagerAction::Probe
        }),
{
}

/// Each refusal doubles the wait of an input up to the ceiling; success or absence brings it
/// back to the interval.
pub proof fn law_backoff_doubles_and_resets(m: Manager, now: u64)
    requires
        m.well_formed(),
        m.dir == Dir::Input,
        now + OPEN_RETRY_MAX <= u64::MAX,
    ensures
        ({
            let b = probed_state(m, ProbeResult::Refused, now).0.open_backoff;
            b == 2 * m.open_backoff || (b == OPEN_RETRY_MAX && 2 * m.open_backoff >= b)
        }),
        probed_state(m, ProbeResult::Opened, now).0.open_backoff == m.interval,
        probed_state(m, ProbeResult::Absent, now).0.open_backoff == m.interval,
{
}

/// A configured identifier finds the device that carries it whatever its name has become, and
/// never another one that happens to have the configured name.
pub proof fn law_an_identifier_outlives_a_rename(
    found: Seq<(Option<Seq<char>>, Seq<char>)>,
    uid: Seq<char>,
    name: Seq<char>,
    at: int,
)
    requires
        uid.len() > 0,
        0 <= at < found.len(),
        found[at].0 == Some(uid),
    ensures
        resolved(found, uid, name) matches Some(i) && 0 <= i <= at && found[i].0 == Some(uid),
{
    lemma_uid_found(found, uid, 0, at);
}

proof fn lemma_uid_found(
    found: Seq<(Option<Seq<char>>, Seq<char>)>,
    uid: Seq<char>,
    from: int,
    at: int,
)
    requires
        0 <= from <= at < found.len(),
        found[at].0 == Some(uid),
    ensures
        first_with_uid(found, uid, from) matches Some(i) && from <= i <= at && found[i].0 == Some(
            uid,
        ),
    decreases at - from,
{
    if found[from].0 != Some(uid) {
        lemma_uid_found(found, uid, from + 1, at);
    }
}

/// The phase that follows depends on three things alone: a stream that runs is live, unless
/// its configuration went while it was missing; a configured device without a stream is
/// looked for; and anything else is idle.
pub proof fn law_the_phase_follows_the_stream(
    phase: Phase,
    loss: bool,
    live_empty: bool,
    has_config: bool,
    now: u64,
    interval: u64,
)
    ensures
        ({
            let next = stepped(phase, loss, live_empty, has_config, now, interval).0;
            &&& next is Parked <==> has_config && (loss || live_empty)
            &&& next == Phase::Live <==> !loss && !live_empty && !(phase is Parked && !has_config)
        }),
{
}

/// A search starts exactly where a configured device is missing, was being looked for, and
/// the interval has passed since it last was; the search that starts counts as the last, and
/// a tick that starts none leaves the last as it was.
pub proof fn law_the_search_keeps_its_pace(
    phase: Phase,
    live_empty: bool,
    has_config: bool,
    now: u64,
    interval: u64,
)
    requires
        interval > 0,
    ensures
        ({
            let (next, decision) = stepped(phase, false, live_empty, has_config, now, interval);
            &&& decision == Decision::TryAcquire <==> {
                &&& live_empty && has_config
                &&& phase matches Phase::Parked { last_check } && last_check + interval <= now
            }
            &&& decision != Decision::CommitStop
            &&& decision == Decision::TryAcquire ==> next == (Phase::Parked {
                last_check: now as i128,
            })
            &&& phase is Parked && next is Parked && decision == Decision::Nothing ==> next == phase
        }),
{
}

/// The device is looked for every five seconds, or every thirty where something reports
/// changes, and a refused input is tried again after five minutes at the latest.
pub proof fn law_the_paces(m: Manager, watched: bool, dir: Dir, gen: u64, now: u64, fresh: Manager)
    requires
        m.well_formed(),
        call_ensures(Manager::new, (dir, watched, gen), fresh),
        now + 300_000_000_000 <= u64::MAX,
    ensures
        fresh.interval == (if watched {
            30_000_000_000u64
        } else {
            5_000_000_000
        }),
        fresh.open_backoff == fresh.interval,
        fresh.phase == Phase::Live && fresh.dir == dir && fresh.seen_gen == gen,
        !fresh.open_failing && fresh.next_open_try is None,
        m.interval == 5_000_000_000 || m.interval == 30_000_000_000,
        probed_state(m, ProbeResult::Refused, now).0.next_open_try matches Some(t) ==> m.dir
            == Dir::Input ==> now + m.interval <= t <= now + 300_000_000_000,
{
}

/// What a tick asks for: a stop exactly where the device was lost, and a probe exactly where a
/// configured device is missing and either the device set changed or the search is due and no
/// refused input is waiting. A tick changes nothing but the phase and the generation seen.
pub proof fn law_what_a_tick_asks_for(
    m: Manager,
    loss: bool,
    live_empty: bool,
    has_config: bool,
    now: u64,
    gen: u64,
)
    requires
        m.interval > 0,
    ensures
        ({
            let (next, action) = ticked(m, loss, live_empty, has_config, now, gen);
            &&& action == ManagerAction::Stop <==> loss
            &&& action == ManagerAction::Probe <==> {
                &&& !loss && live_empty && has_config
                &&& gen != m.seen_gen || {
                    &&& m.phase matches Phase::Parked { last_check } && last_check + m.interval
                        <= now
                    &&& m.dir == Dir::Output || m.next_open_try is None
                        || m.next_open_try->Some_0 <= now
                }
            }
            &&& next.seen_gen == gen
            &&& next.dir == m.dir && next.interval == m.interval
            &&& next.open_failing == m.open_failing && next.open_backoff == m.open_backoff
            &&& next.next_open_try == m.next_open_try
        }),
{
}

/// What a probe leads to: the stream is built where the device opened, a refusal is said once
/// and then not again before the device opens or goes, and only an input waits after one.
pub proof fn law_what_a_probe_leads_to(m: Manager, result: ProbeResult, now: u64, later: u64)
    requires
        m.well_formed(),
        now + 300_000_000_000 <= u64::MAX,
    ensures
        ({
            let (next, action) = probed_state(m, result, now);
            &&& action == ProbeAction::Rebuild <==> result == ProbeResult::Opened
            &&& action == ProbeAction::Warn <==> result == ProbeResult::Refused && !m.open_failing
            &&& next.open_failing <==> result == ProbeResult::Refused
            &&& result == ProbeResult::Refused ==> probed_state(
                next,
                ProbeResult::Refused,
                later,
            ).1 == ProbeAction::Nothing
            &&& result != ProbeResult::Refused ==> next.next_open_try is None
                && next.open_backoff == m.interval
            &&& result == ProbeResult::Refused && m.dir == Dir::Input ==> next.next_open_try
                == Some((now + m.open_backoff) as u64)
            &&& result == ProbeResult::Refused && m.dir == Dir::Output ==> next.next_open_try
                == m.next_open_try && next.open_backoff == m.open_backoff
            &&& next.dir == m.dir && next.interval == m.interval
            &&& next.phase == m.phase && next.seen_gen == m.seen_gen
        }),
{
}

/// A configuration means the first device with its identifier; where no device has it, or it
/// has none, the first with its name; and where none has that either, or it is empty, none.
pub proof fn law_a_configuration_means_its_first_match(
    found: Seq<(Option<Seq<char>>, Seq<char>)>,
    uid: Seq<char>,
    name: Seq<char>,
    k: int,
)
    requires
        0 <= k < found.len(),
    ensures
        ({
            let by_uid = uid.len() > 0 && exists|j: int|
                0 <= j < found.len() && (#[trigger] found[j]).0 == Some(uid);
            match resolved(found, uid, name) {
                Some(i) => {
                    &&& 0 <= i < found.len()
                    &&& by_uid ==> found[i].0 == Some(uid) && (k < i ==> found[k].0 != Some(uid))
                    &&& !by_uid ==> name.len() > 0 && found[i].1 == name && (k < i ==> found[k].1
                        != name)
                },
                None => !by_uid && (name.len() > 0 ==> found[k].1 != name),
            }
        }),
{
    lemma_first_uid(found, uid, 0);
    lemma_first_name(found, name, 0);
}

proof fn lemma_first_uid(found: Seq<(Option<Seq<char>>, Seq<char>)>, uid: Seq<char>, at: int)
    requires
        0 <= at <= found.len(),
    ensures
        match first_with_uid(found, uid, at) {
            Some(i) => at <= i < found.len() && found[i].0 == Some(uid) && forall|j: int|
                at <= j < i ==> (#[trigger] found[j]).0 != Some(uid),
            None => forall|j: int| at <= j < found.len() ==> (#[trigger] found[j]).0 != Some(uid),
        },
    decreases found.len() - at,
{
    if at < found.len() && found[at].0 != Some(uid) {
        lemma_first_uid(found, uid, at + 1);
    }
}

proof fn lemma_first_name(found: Seq<(Option<Seq<char>>, Seq<char>)>, name: Seq<char>, at: int)
    requires
        0 <= at <= found.len(),
    ensures
        match first_with_name(found, name, at) {
            Some(i) => at <= i < found.len() && found[i].1 == name && forall|j: int|
                at <= j < i ==> (#[trigger] found[j]).1 != name,
            None => forall|j: int| at <= j < found.len() ==> (#[trigger] found[j]).1 != name,
        },
    decreases found.len() - at,
{
    if at < found.len() && found[at].1 != name {
        lemma_first_name(found, name, at + 1);
    }
}

} // verus!
