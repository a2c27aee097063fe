//! The buffer-depth average of one channel and its relay: a boxcar moving average, a
//! reference latched when the window fills, and a hysteresis comparator about it. Beside
//! it, the buffer readout folded over a display interval.

use vstd::prelude::*;

use crate::audio::geometry::boxcar_window_for_setpoint;

verus! {

/// Deadband base while phase lock is on: 12 ms.
pub const DEADBAND_SYNC_ON: i64 = 576;

/// Deadband base while phase lock is off: 4 ms.
pub const DEADBAND_SYNC_OFF: i64 = 192;

/// The window length of a new window, in packets.
pub const COMMON_WINDOW_DEFAULT: usize = 150;

/// What a window remembers: the recorded depths from the oldest to the newest, the length
/// at which it is full, the direction held, and the reference.
#[verifier::ext_equal]
pub struct DriftModel {
    pub history: Seq<int>,
    pub n: int,
    pub dir: int,
    pub reference: int,
}

impl DriftModel {
    /// The window has as many entries as it averages over.
    pub open spec fn filled(self) -> bool {
        self.history.len() == self.n
    }

    /// The truncated average of the recorded depths; 0 while there are none.
    pub open spec fn average(self) -> int {
        if self.history.len() == 0 {
            0
        } else {
            total(self.history) / (self.history.len() as int)
        }
    }

    /// Cold: nothing recorded, nothing held. The reference keeps its value.
    pub open spec fn cold(self, n: int) -> DriftModel {
        DriftModel { history: Seq::empty(), n, dir: 0, reference: self.reference }
    }
}

/// The sum of a sequence.
pub open spec fn total(s: Seq<int>) -> int
    decreases s.len(),
{
    if s.len() == 0 {
        0
    } else {
        total(s.drop_last()) + s.last()
    }
}

/// The deadband: the base, but no more than half the setpoint.
pub open spec fn deadband(base: int, setpoint: int) -> int {
    if base <= setpoint / 2 {
        base
    } else {
        setpoint / 2
    }
}

/// The relay. Each half is entered at its own edge of the band or by being in that state
/// already, and both release when the average crosses back past the reference.
pub open spec fn relay(dir: int, average: int, reference: int, band: int) -> int {
    if average >= reference + band || dir == -1 {
        if average >= reference {
            -1
        } else {
            0
        }
    } else if average <= reference - band || dir == 1 {
        if average > reference {
            0
        } else {
            1
        }
    } else {
        dir
    }
}

/// One packet's depth recorded: the oldest entry leaves a full window, the reference
/// latches when the window fills, and the relay runs once it has.
pub open spec fn after_update(m: DriftModel, depth: int, setpoint: int, base: int) -> DriftModel {
    let history = if m.filled() {
        m.history.drop_first().push(depth)
    } else {
        m.history.push(depth)
    };
    let average = total(history) / (history.len() as int);
    let reference = if !m.filled() && history.len() == m.n {
        average
    } else {
        m.reference
    };
    let dir = if history.len() < m.n {
        0
    } else {
        relay(m.dir, average, reference, deadband(base, setpoint))
    };
    DriftModel { history, n: m.n, dir, reference }
}

/// One recorded depth after a splice of `delta` samples: a fill raises it, a drain lowers
/// it unless that would take it below zero.
pub open spec fn spliced_entry(entry: int, delta: int, dir: int) -> int {
    if dir > 0 {
        entry + delta
    } else if entry - delta >= 0 {
        entry - delta
    } else {
        entry
    }
}

/// A splice folded into the whole history.
pub open spec fn after_splice(m: DriftModel, delta: int, dir: int) -> DriftModel {
    DriftModel {
        history: Seq::new(m.history.len(), |i: int| spliced_entry(m.history[i], delta, dir)),
        n: m.n,
        dir: m.dir,
        reference: m.reference,
    }
}

spec fn ints(s: Seq<i64>) -> Seq<int> {
    Seq::new(s.len(), |i: int| s[i] as int)
}

/// Per-channel depth average and drift direction, kept by the side that writes packets.
pub struct DriftWindow {
    /// Circular buffer of depths.
    window: Vec<i64>,
    /// Running sum of `window`, wide enough for any depths.
    accum: i128,
    /// The entry the next update replaces, once the window is full.
    widx: usize,
    filled: bool,
    dir: i8,
    n: usize,
    /// The reference the relay works about. The skew servo moves the same value.
    skew_ref: i64,
}

impl View for DriftWindow {
    type V = DriftModel;

    closed spec fn view(&self) -> DriftModel {
        let w = ints(self.window@);
        DriftModel {
            history: w.subrange(self.widx as int, w.len() as int) + w.subrange(
                0,
                self.widx as int,
            ),
            n: self.n as int,
            dir: self.dir as int,
            reference: self.skew_ref as int,
        }
    }
}

impl DriftWindow {
    /// The running sum is the sum of the entries, every entry is a depth, the index stays
    /// inside the window, and no direction is held before the window has filled.
    pub closed spec fn well_formed(&self) -> bool {
        &&& 1 <= self.n <= 1200
        &&& self.window@.len() <= self.n
        &&& self.filled == (self.window@.len() == self.n)
        &&& (if self.filled {
            self.widx < self.n
        } else {
            self.widx == 0 && self.dir == 0
        })
        &&& forall|i: int|
            0 <= i < self.window@.len() ==> 0 <= #[trigger] self.window@[i]
        &&& self.accum == total(ints(self.window@))
        &&& -1 <= self.dir <= 1
    }

    /// A window holds at most its length, each entry a depth; it leans one way or neither,
    /// and only once it has filled.
    pub proof fn law_a_window_is_bounded(&self)
        requires
            self.well_formed(),
        ensures
            1 <= self@.n <= 1200,
            self@.history.len() <= self@.n,
            -1 <= self@.dir <= 1,
            !self@.filled() ==> self@.dir == 0,
            forall|i: int|
                0 <= i < self@.history.len() ==> 0 <= #[trigger] self@.history[i] <= i64::MAX,
            i64::MIN <= self@.reference <= i64::MAX,
    {
    }

    /// An empty window of the default length about the reference handed in.
    pub fn new(skew_ref: i64) -> (w: Self)
        ensures
            w.well_formed(),
            w@ == (DriftModel {
                history: Seq::empty(),
                n: COMMON_WINDOW_DEFAULT as int,
                dir: 0,
                reference: skew_ref as int,
            }),
    {
        let w = DriftWindow {
            window: Vec::with_capacity(COMMON_WINDOW_DEFAULT),
            accum: 0,
            widx: 0,
            filled: false,
            dir: 0,
            n: COMMON_WINDOW_DEFAULT,
            skew_ref,
        };
        assert(w@.history =~= Seq::<int>::empty());
        w
    }

    /// Set the window length from the setpoint. A new length resets the window cold, the
    /// held direction with it; the same length changes nothing. True when it was reset.
    pub fn set_window(&mut self, setpoint_samples: usize) -> (rekeyed: bool)
        requires
            old(self).well_formed(),
        ensures
            final(self).well_formed(),
            rekeyed == (crate::audio::geometry::boxcar_window(setpoint_samples as int) != old(
                self,
            )@.n),
            final(self)@ == (if rekeyed {
                old(self)@.cold(crate::audio::geometry::boxcar_window(setpoint_samples as int))
            } else {
                old(self)@
            }),
    {
        let new_n: usize = boxcar_window_for_setpoint(setpoint_samples);
        if new_n != self.n {
            self.window.clear();
            self.accum = 0;
            self.widx = 0;
            self.filled = false;
            self.dir = 0;
            self.n = new_n;
            assert(self@.history =~= Seq::<int>::empty());
            return true;
        }
        false
    }

    /// Back to the cold state. The latch is armed again; the reference keeps its value
    /// until the window next fills.
    pub fn reset(&mut self)
        requires
            old(self).well_formed(),
        ensures
            final(self).well_formed(),
            final(self)@ == old(self)@.cold(old(self)@.n),
    {
        self.window.clear();
        self.accum = 0;
        self.widx = 0;
        self.filled = false;
        self.dir = 0;
        assert(self@.history =~= Seq::<int>::empty());
    }

    /// Fold a completed splice of `delta` samples into the history: a positive `dir` is a
    /// fill, any other a drain.
    pub fn note_splice(&mut self, delta: usize, dir: i8)
        requires
            old(self).well_formed(),
            delta <= i64::MAX,
            dir > 0 ==> forall|i: int|
                0 <= i < old(self)@.history.len() ==> #[trigger] old(self)@.history[i] + delta
                    <= i64::MAX,
        ensures
            final(self).well_formed(),
            final(self)@ == after_splice(old(self)@, delta as int, dir as int),
    {
        let d: i64 = delta as i64;
        let ghost before = self.window@;
        let ghost m = self@;
        proof {
            assert forall|i: int| 0 <= i < before.len() && dir > 0 implies #[trigger] before[i] + d
                <= i64::MAX by {
                let k = if i >= self.widx {
                    i - self.widx
                } else {
                    i + before.len() - self.widx
                };
                assert(m.history[k] == before[i]);
            }
        }
        let len: usize = self.window.len();
        let mut i: usize = 0;
        while i < len
            invariant
                i <= len,
                len == before.len(),
                len == self.window@.len(),
                len <= 1200,
                d == delta,
                0 <= d,
                forall|j: int| 0 <= j < len ==> 0 <= #[trigger] before[j],
                dir > 0 ==> forall|j: int|
                    0 <= j < len ==> #[trigger] before[j] + d <= i64::MAX,
                forall|j: int|
                    0 <= j < i ==> #[trigger] self.window@[j] == spliced_entry(
                        before[j] as int,
                        d as int,
                        dir as int,
                    ),
                forall|j: int| i <= j < len ==> #[trigger] self.window@[j] == before[j],
                self.accum == total(ints(self.window@)),
                self.widx == old(self).widx,
                self.filled == old(self).filled,
                self.dir == old(self).dir,
                self.n == old(self).n,
                self.skew_ref == old(self).skew_ref,
            decreases len - i,
        {
            let ghost w0 = self.window@;
            let v: i64 = self.window[i];
            assert(v == before[i as int]);
            proof {
                lemma_total_update(ints(w0), i as int, spliced_entry(v as int, d as int, dir as int));
                lemma_total_bound(
                    ints(w0).update(i as int, spliced_entry(v as int, d as int, dir as int)),
                    i64::MAX as int,
                );
            }
            if dir > 0 {
                self.window.set(i, v + d);
                assert(ints(self.window@) =~= ints(w0).update(i as int, v + d));
                self.accum = self.accum + d as i128;
            } else if v - d >= 0 {
                self.window.set(i, v - d);
                assert(ints(self.window@) =~= ints(w0).update(i as int, v - d));
                self.accum = self.accum - d as i128;
            } else {
                assert(ints(self.window@) =~= ints(w0).update(i as int, v as int));
            }
            i = i + 1;
        }
        assert(self@.history =~= after_splice(m, delta as int, dir as int).history);
    }

    /// Record one packet's depth and return the direction now held.
    pub fn update(&mut self, depth: usize, setpoint: usize, deadband_base: i64) -> (dir: i8)
        requires
            old(self).well_formed(),
            depth <= i64::MAX,
            setpoint <= i64::MAX,
        ensures
            final(self).well_formed(),
            final(self)@ == after_update(
                old(self)@,
                depth as int,
                setpoint as int,
                deadband_base as int,
            ),
            dir == final(self)@.dir,
    {
        let ghost m = self@;
        let ghost w0 = self.window@;
        let inst: i64 = depth as i64;
        let mut just_filled: bool = false;
        let sum_avg: i128;
        proof {
            lemma_total_bound(ints(w0), i64::MAX as int);
        }
        if !self.filled {
            self.window.push(inst);
            assert(ints(self.window@) =~= ints(w0).push(inst as int));
            assert(ints(w0).push(inst as int).drop_last() =~= ints(w0));
            proof {
                lemma_total_bound(ints(self.window@), i64::MAX as int);
            }
            self.accum = self.accum + inst as i128;
            if self.window.len() >= self.n {
                self.filled = true;
                just_filled = true;
            }
            sum_avg = self.accum / self.window.len() as i128;
        } else {
            let out: i64 = self.window[self.widx];
            proof {
                lemma_total_update(ints(w0), self.widx as int, inst as int);
                lemma_total_bound(ints(w0).update(self.widx as int, 0), i64::MAX as int);
                lemma_total_update(ints(w0), self.widx as int, 0);
            }
            self.accum = self.accum - out as i128;
            self.window.set(self.widx, inst);
            assert(ints(self.window@) =~= ints(w0).update(self.widx as int, inst as int));
            proof {
                lemma_total_bound(ints(self.window@), i64::MAX as int);
            }
            self.accum = self.accum + inst as i128;
            if self.widx + 1 == self.n {
                self.widx = 0;
            } else {
                self.widx = self.widx + 1;
            }
            sum_avg = self.accum / self.n as i128;
        }
        let ghost after = after_update(m, depth as int, setpoint as int, deadband_base as int);
        assert(self@.history =~= after.history);
        proof {
            lemma_total_rotated(ints(self.window@), self.widx as int);
            lemma_average_bound(self.accum as int, self.window@.len() as int);
            assert(sum_avg == total(after.history) / (after.history.len() as int));
        }
        let avg: i64 = sum_avg as i64;
        if just_filled {
            self.skew_ref = avg;
        }
        let half: i64 = setpoint as i64 / 2;
        let band: i64 = if deadband_base <= half {
            deadband_base
        } else {
            half
        };
        let reference: i64 = self.skew_ref;
        let above: i128 = reference as i128 + band as i128;
        let below: i128 = reference as i128 - band as i128;
        if !self.filled {
            self.dir = 0;
            return 0;
        }
        self.dir = if avg as i128 >= above || self.dir == -1 {
            if avg >= reference {
                -1
            } else {
                0
            }
        } else if avg as i128 <= below || self.dir == 1 {
            if avg > reference {
                0
            } else {
                1
            }
        } else {
            self.dir
        };
        self.dir
    }

    /// Current average, the same truncated value the relay works on; 0 with no entries.
    pub fn avg(&self) -> (average: i64)
        requires
            self.well_formed(),
        ensures
            average == self@.average(),
    {
        proof {
            lemma_total_rotated(ints(self.window@), self.widx as int);
            lemma_total_bound(ints(self.window@), i64::MAX as int);
            if self.window@.len() > 0 {
                lemma_average_bound(self.accum as int, self.window@.len() as int);
            }
        }
        if self.window.len() == 0 {
            0
        } else {
            (self.accum / self.window.len() as i128) as i64
        }
    }

    pub fn dir(&self) -> (dir: i8)
        requires
            self.well_formed(),
        ensures
            dir == self@.dir,
    {
        self.dir
    }

    /// The latched reference, or `None` while the window has not filled.
    pub fn calref(&self) -> (reference: Option<i64>)
        requires
            self.well_formed(),
        ensures
            reference is Some <==> self@.filled(),
            reference matches Some(r) ==> r == self@.reference,
    {
        if self.filled {
            Some(self.skew_ref)
        } else {
            None
        }
    }

    /// Has the window filled?
    pub fn filled(&self) -> (filled: bool)
        requires
            self.well_formed(),
        ensures
            filled == self@.filled(),
    {
        self.filled
    }

    /// How many packets the window averages over.
    pub fn window_len(&self) -> (n: usize)
        requires
            self.well_formed(),
        ensures
            n == self@.n,
    {
        self.n
    }

    /// The reference as it stands, latched or not.
    pub fn reference(&self) -> (reference: i64)
        requires
            self.well_formed(),
        ensures
            reference == self@.reference,
    {
        self.skew_ref
    }

    /// Take over the reference as the skew servo has moved it.
    pub fn set_reference(&mut self, reference: i64)
        requires
            old(self).well_formed(),
        ensures
            final(self).well_formed(),
            final(self)@ == (DriftModel { reference: reference as int, ..old(self)@ }),
    {
        self.skew_ref = reference;
    }
}

proof fn lemma_total_update(s: Seq<int>, i: int, v: int)
    requires
        0 <= i < s.len(),
    ensures
        total(s.update(i, v)) == total(s) - s[i] + v,
    decreases s.len(),
{
    if i == s.len() - 1 {
        assert(s.update(i, v).drop_last() =~= s.drop_last());
    } else {
        assert(s.update(i, v).drop_last() =~= s.drop_last().update(i, v));
        lemma_total_update(s.drop_last(), i, v);
    }
}

proof fn lemma_total_bound(s: Seq<int>, limit: int)
    requires
        limit >= 0,
        forall|i: int| 0 <= i < s.len() ==> 0 <= #[trigger] s[i] <= limit,
    ensures
        0 <= total(s) <= s.len() * limit,
    decreases s.len(),
{
    if s.len() > 0 {
        let t = s.drop_last();
        assert forall|i: int| 0 <= i < t.len() implies 0 <= #[trigger] t[i] <= limit by {
            assert(t[i] == s[i]);
        }
        lemma_total_bound(t, limit);
        assert(s.len() * limit == t.len() * limit + limit) by (nonlinear_arith)
            requires
                s.len() == t.len() + 1,
        ;
    }
}

proof fn lemma_total_concat(a: Seq<int>, b: Seq<int>)
    ensures
        total(a + b) == total(a) + total(b),
    decreases b.len(),
{
    if b.len() == 0 {
        assert(a + b =~= a);
    } else {
        assert((a + b).drop_last() =~= a + b.drop_last());
        lemma_total_concat(a, b.drop_last());
    }
}

proof fn lemma_total_rotated(s: Seq<int>, k: int)
    requires
        0 <= k <= s.len(),
    ensures
        total(s.subrange(k, s.len() as int) + s.subrange(0, k)) == total(s),
{
    let head = s.subrange(0, k);
    let tail = s.subrange(k, s.len() as int);
    assert(s =~= head + tail);
    lemma_total_concat(head, tail);
    lemma_total_concat(tail, head);
}

proof fn lemma_average_bound(sum: int, len: int)
    requires
        0 < len,
        0 <= sum <= len * i64::MAX,
    ensures
        0 <= sum / len <= i64::MAX,
{
    assert(0 <= sum / len <= i64::MAX) by (nonlinear_arith)
        requires
            0 < len,
            0 <= sum <= len * i64::MAX,
    ;
}

/// A run of packets recorded one after another.
pub open spec fn after_updates(m: DriftModel, depths: Seq<int>, setpoint: int, base: int) -> DriftModel
    decreases depths.len(),
{
    if depths.len() == 0 {
        m
    } else {
        after_update(after_updates(m, depths.drop_last(), setpoint, base), depths.last(), setpoint, base)
    }
}

/// Until a cold window has filled it holds no direction, keeps its reference, and records
/// every depth.
pub proof fn law_nothing_is_decided_before_the_window_fills(
    m: DriftModel,
    depths: Seq<int>,
    setpoint: int,
    base: int,
)
    requires
        depths.len() < m.n,
    ensures
        after_updates(m.cold(m.n), depths, setpoint, base) == (DriftModel {
            history: depths,
            n: m.n,
            dir: 0,
            reference: m.reference,
        }),
    decreases depths.len(),
{
    let end = after_updates(m.cold(m.n), depths, setpoint, base);
    if depths.len() == 0 {
        assert(end.history =~= depths);
    } else {
        law_nothing_is_decided_before_the_window_fills(m, depths.drop_last(), setpoint, base);
        assert(depths.drop_last().push(depths.last()) =~= depths);
    }
}

/// Every reset arms the latch again: once a cold window has filled, its reference is the
/// average it filled with, whatever the reference was before, and with a deadband wider
/// than nothing the channel is not armed at the depth it settled to.
pub proof fn law_reset_re_arms_the_latch(
    m: DriftModel,
    depths: Seq<int>,
    setpoint: int,
    base: int,
)
    requires
        m.n >= 1,
        depths.len() == m.n,
        deadband(base, setpoint) > 0,
    ensures
        ({
            let end = after_updates(m.cold(m.n), depths, setpoint, base);
            &&& end.filled()
            &&& end.history == depths
            &&& end.reference == total(depths) / m.n
            &&& end.dir == 0
        }),
{
    law_nothing_is_decided_before_the_window_fills(m, depths.drop_last(), setpoint, base);
    assert(depths.drop_last().push(depths.last()) =~= depths);
}

/// A full window stays full and keeps its reference for as long as it is only updated: the
/// latch is armed again by a reset or a new length alone.
pub proof fn law_a_latched_reference_stays(
    m: DriftModel,
    depths: Seq<int>,
    setpoint: int,
    base: int,
)
    requires
        m.n >= 1,
        m.filled(),
    ensures
        after_updates(m, depths, setpoint, base).filled(),
        after_updates(m, depths, setpoint, base).n == m.n,
        after_updates(m, depths, setpoint, base).reference == m.reference,
    decreases depths.len(),
{
    if depths.len() > 0 {
        law_a_latched_reference_stays(m, depths.drop_last(), setpoint, base);
    }
}

/// What an update of a full window decides, in full: it drains from the upper edge of the
/// band on, and on down to the reference once it does; it fills from the lower edge on, and
/// on up to the reference once it does, unless it was draining; else it holds nothing. The
/// setpoint counts through the deadband alone.
pub proof fn law_a_full_window_decides(m: DriftModel, depth: int, setpoint: int, base: int)
    requires
        m.n >= 1,
        m.filled(),
        -1 <= m.dir <= 1,
        deadband(base, setpoint) >= 1,
    ensures
        ({
            let next = after_update(m, depth, setpoint, base);
            let a = next.average();
            let r = next.reference;
            let band = deadband(base, setpoint);
            &&& r == m.reference
            &&& next.dir == -1 <==> a >= r + band || (m.dir == -1 && a >= r)
            &&& next.dir == 1 <==> m.dir != -1 && (a <= r - band || (m.dir == 1 && a <= r))
            &&& -1 <= next.dir <= 1
        }),
{
}

/// A channel resting at its reference is left alone for as long as it rests there.
pub proof fn law_rest_is_never_armed(m: DriftModel, depth: int, setpoint: int, base: int)
    requires
        m.n >= 1,
        m.filled(),
        m.reference == depth,
        m.dir == 0,
        forall|i: int| 0 <= i < m.history.len() ==> m.history[i] == depth,
        deadband(base, setpoint) > 0,
    ensures
        after_update(m, depth, setpoint, base) == m,
{
    let next = after_update(m, depth, setpoint, base);
    assert(next.history =~= m.history);
    lemma_total_constant(m.history, depth);
    let len = m.history.len() as int;
    assert((len * depth) / len == depth) by (nonlinear_arith)
        requires
            len > 0,
    ;
}

/// An armed direction holds until the average crosses back past the reference.
pub proof fn law_armed_direction_holds_to_the_reference(average: int, reference: int, band: int)
    requires
        band > 0,
    ensures
        average >= reference ==> relay(-1, average, reference, band) == -1,
        average < reference ==> relay(-1, average, reference, band) == 0,
        average <= reference ==> relay(1, average, reference, band) == 1,
        reference < average < reference + band ==> relay(1, average, reference, band) == 0,
{
}

/// From rest the relay arms exactly at the edges of the band, both inclusive.
pub proof fn law_band_edges_arm(average: int, reference: int, band: int)
    requires
        band > 0,
    ensures
        relay(0, average, reference, band) == -1 <==> average >= reference + band,
        relay(0, average, reference, band) == 1 <==> average <= reference - band,
{
}

/// The relay is symmetric about its reference, for an average that has not swung in one
/// packet from an armed side clean across to the opposite edge.
pub proof fn law_relay_is_symmetric(dir: int, offset: int, reference: int, band: int)
    requires
        band > 0,
        -1 <= dir <= 1,
        !(dir == -1 && offset <= -band),
        !(dir == 1 && offset >= band),
    ensures
        relay(dir, reference + offset, reference, band) == -relay(
            -dir,
            reference - offset,
            reference,
            band,
        ),
{
}

/// A fill splice raises the average by its own length at once.
pub proof fn law_fill_splice_raises_the_average(m: DriftModel, delta: int)
    requires
        m.history.len() > 0,
    ensures
        after_splice(m, delta, 1).average() == m.average() + delta,
{
    let next = after_splice(m, delta, 1).history;
    lemma_total_shifted(m.history, next, delta);
    lemma_shifted_quotient(total(m.history), m.history.len() as int, delta);
}

/// A drain splice no longer than any recorded depth lowers the average by its own length
/// at once.
pub proof fn law_drain_splice_lowers_the_average(m: DriftModel, delta: int)
    requires
        m.history.len() > 0,
        forall|i: int| 0 <= i < m.history.len() ==> #[trigger] m.history[i] >= delta,
    ensures
        after_splice(m, delta, -1).average() == m.average() - delta,
{
    let next = after_splice(m, delta, -1).history;
    lemma_total_shifted(m.history, next, -delta);
    lemma_shifted_quotient(total(m.history), m.history.len() as int, -delta);
}

/// No splice drives a recorded depth below zero.
pub proof fn law_history_never_goes_negative(m: DriftModel, delta: int, dir: int)
    requires
        delta >= 0,
        forall|i: int| 0 <= i < m.history.len() ==> #[trigger] m.history[i] >= 0,
    ensures
        forall|i: int|
            0 <= i < m.history.len() ==> #[trigger] after_splice(m, delta, dir).history[i] >= 0,
{
}

/// At 40 ms and above, switching between frame sizes keeps the window's length, so it
/// neither resets the window nor arms the latch.
pub proof fn law_frame_switch_keeps_the_window(ms: int, f1: int, f2: int)
    requires
        ms >= 40,
        crate::audio::geometry::is_frame_size(f1),
        crate::audio::geometry::is_frame_size(f2),
    ensures
        crate::audio::geometry::boxcar_window(
            crate::audio::geometry::floored_setpoint(ms, f1, 0),
        ) == crate::audio::geometry::boxcar_window(
            crate::audio::geometry::floored_setpoint(ms, f2, 0),
        ),
{
    crate::audio::geometry::law_no_shrink_at_forty_ms(ms, f1);
    crate::audio::geometry::law_no_shrink_at_forty_ms(ms, f2);
}

proof fn lemma_total_constant(s: Seq<int>, v: int)
    requires
        forall|i: int| 0 <= i < s.len() ==> s[i] == v,
    ensures
        total(s) == s.len() * v,
    decreases s.len(),
{
    if s.len() > 0 {
        lemma_total_constant(s.drop_last(), v);
        assert(s.len() * v == (s.len() - 1) * v + v) by (nonlinear_arith);
    }
}

proof fn lemma_total_shifted(a: Seq<int>, b: Seq<int>, delta: int)
    requires
        a.len() == b.len(),
        forall|i: int| 0 <= i < a.len() ==> #[trigger] b[i] == a[i] + delta,
    ensures
        total(b) == total(a) + a.len() * delta,
    decreases a.len(),
{
    if a.len() > 0 {
        assert forall|i: int| 0 <= i < a.len() - 1 implies #[trigger] b.drop_last()[i]
            == a.drop_last()[i] + delta by {
            assert(b[i] == a[i] + delta);
        }
        lemma_total_shifted(a.drop_last(), b.drop_last(), delta);
        assert(a.len() * delta == (a.len() - 1) * delta + delta) by (nonlinear_arith);
    }
}

proof fn lemma_shifted_quotient(sum: int, len: int, delta: int)
    requires
        len > 0,
    ensures
        (sum + len * delta) / len == sum / len + delta,
{
    assert((sum + len * delta) / len == sum / len + delta) by (nonlinear_arith)
        requires
            len > 0,
    ;
}

/// Buffer readout for the display, folded over its interval: the mean, the spread and the
/// setpoint the depths were measured against.
#[derive(Clone, Copy)]
pub struct BufferSnap {
    /// Total of the depths seen since the last read.
    pub sum: u64,
    /// How many depths went into `sum`; 0 is an interval in which nothing was seen.
    pub count: u32,
    /// Lowest depth seen since the last read.
    pub min: u32,
    /// Highest depth seen since the last read.
    pub max: u32,
    /// The setpoint those depths were measured against.
    pub target: u32,
    /// How many of the peer's channels are still filling their prebuffer.
    pub holding: u32,
}

/// The fold of one more reading. The counters wrap and the depth is kept to 32 bits, as the
/// readout's cells do.
pub open spec fn snap_observed(s: BufferSnap, depth: usize, target: usize) -> BufferSnap {
    let d = depth as u32;
    BufferSnap {
        sum: s.sum.wrapping_add(depth as u64),
        count: s.count.wrapping_add(1),
        min: if d < s.min {
            d
        } else {
            s.min
        },
        max: if d > s.max {
            d
        } else {
            s.max
        },
        target: target as u32,
        holding: s.holding,
    }
}

/// The reading of an interval: mean, lowest, highest, setpoint.
pub open spec fn snap_reading(s: BufferSnap) -> Option<(u32, u32, u32, u32)> {
    if s.count == 0 {
        None
    } else {
        let mean = (s.sum / (s.count as u64)) as u32;
        Some(
            (
                mean,
                if s.min < mean {
                    s.min
                } else {
                    mean
                },
                if s.max > mean {
                    s.max
                } else {
                    mean
                },
                s.target,
            ),
        )
    }
}

/// `s` is the fold of exactly these depths.
pub open spec fn snap_of(s: BufferSnap, depths: Seq<int>) -> bool {
    &&& s.sum == total(depths)
    &&& s.count == depths.len()
    &&& forall|i: int| 0 <= i < depths.len() ==> s.min <= #[trigger] depths[i] <= s.max
    &&& depths.len() > 0 ==> depths.contains(s.min as int) && depths.contains(s.max as int)
}

impl BufferSnap {
    /// An interval in which nothing has been seen.
    pub fn new() -> (s: Self)
        ensures
            s == (BufferSnap { sum: 0, count: 0, min: u32::MAX, max: 0, target: 0, holding: 0 }),
    {
        BufferSnap { sum: 0, count: 0, min: u32::MAX, max: 0, target: 0, holding: 0 }
    }

    /// Fold one render's reading in.
    pub fn observe(&mut self, depth: usize, target: usize)
        ensures
            *final(self) == snap_observed(*old(self), depth, target),
    {
        let d: u32 = #[verifier::truncate] (depth as u32);
        self.sum = self.sum.wrapping_add(depth as u64);
        self.count = self.count.wrapping_add(1);
        if d < self.min {
            self.min = d;
        }
        if d > self.max {
            self.max = d;
        }
        self.target = #[verifier::truncate] (target as u32);
    }

    /// Take the interval's `(mean, min, max, target)` and arm the next interval. `None`
    /// when nothing was observed.
    pub fn take(&mut self) -> (reading: Option<(u32, u32, u32, u32)>)
        ensures
            reading == snap_reading(*old(self)),
            *final(self) == (BufferSnap {
                sum: 0,
                count: 0,
                min: u32::MAX,
                max: 0,
                target: old(self).target,
                holding: old(self).holding,
            }),
    {
        let count: u32 = self.count;
        let sum: u64 = self.sum;
        let min: u32 = self.min;
        let max: u32 = self.max;
        self.count = 0;
        self.sum = 0;
        self.min = u32::MAX;
        self.max = 0;
        if count == 0 {
            return None;
        }
        let mean: u32 = #[verifier::truncate] ((sum / count as u64) as u32);
        Some(
            (
                mean,
                if min < mean {
                    min
                } else {
                    mean
                },
                if max > mean {
                    max
                } else {
                    mean
                },
                self.target,
            ),
        )
    }
}

impl Default for BufferSnap {
    fn default() -> (s: Self)
        ensures
            s == (BufferSnap { sum: 0, count: 0, min: u32::MAX, max: 0, target: 0, holding: 0 }),
    {
        BufferSnap::new()
    }
}

/// Observing a depth extends the fold by it, as long as the cells have room.
pub proof fn law_observe_extends_the_fold(
    s: BufferSnap,
    depths: Seq<int>,
    depth: usize,
    target: usize,
)
    requires
        snap_of(s, depths),
        depths.len() == 0 ==> s.min == u32::MAX && s.max == 0,
        depth <= u32::MAX,
        s.sum + depth <= u64::MAX,
        s.count < u32::MAX,
    ensures
        snap_of(snap_observed(s, depth, target), depths.push(depth as int)),
{
    let next = snap_observed(s, depth, target);
    let all = depths.push(depth as int);
    assert(all.drop_last() =~= depths);
    assert(all[depths.len() as int] == depth);
    assert(next.min == depth || depths.len() > 0);
    if depths.len() > 0 {
        let i = choose|i: int| 0 <= i < depths.len() && depths[i] == s.min;
        let j = choose|j: int| 0 <= j < depths.len() && depths[j] == s.max;
        assert(all[i] == s.min && all[j] == s.max);
    }
}

/// The reading of a fold is the mean of its depths, between its lowest and its highest.
pub proof fn law_reading_is_the_mean(s: BufferSnap, depths: Seq<int>)
    requires
        snap_of(s, depths),
        depths.len() > 0,
    ensures
        snap_reading(s) matches Some(r) && r.0 == total(depths) / (depths.len() as int) && r.1
            == s.min && r.2 == s.max && r.3 == s.target,
{
    lemma_mean_between(depths, s.min as int, s.max as int);
}

/// An interval with nothing in it reads as absent.
pub proof fn law_empty_interval_is_absent(s: BufferSnap)
    requires
        snap_of(s, Seq::empty()),
    ensures
        snap_reading(s) is None,
{
}

proof fn lemma_mean_between(s: Seq<int>, lo: int, hi: int)
    requires
        s.len() > 0,
        forall|i: int| 0 <= i < s.len() ==> lo <= #[trigger] s[i] <= hi,
    ensures
        lo <= total(s) / (s.len() as int) <= hi,
{
    lemma_total_between(s, lo, hi);
    let len = s.len() as int;
    let sum = total(s);
    assert(lo <= sum / len <= hi) by (nonlinear_arith)
        requires
            len > 0,
            len * lo <= sum <= len * hi,
    ;
}

proof fn lemma_total_between(s: Seq<int>, lo: int, hi: int)
    requires
        forall|i: int| 0 <= i < s.len() ==> lo <= #[trigger] s[i] <= hi,
    ensures
        s.len() * lo <= total(s) <= s.len() * hi,
    decreases s.len(),
{
    if s.len() > 0 {
        let t = s.drop_last();
        assert forall|i: int| 0 <= i < t.len() implies lo <= #[trigger] t[i] <= hi by {
            assert(t[i] == s[i]);
        }
        lemma_total_between(t, lo, hi);
        assert(s.len() * lo == t.len() * lo + lo && s.len() * hi == t.len() * hi + hi)
            by (nonlinear_arith)
            requires
                s.len() == t.len() + 1,
        ;
    }
}

/// The deadband is its base, or half the setpoint where that is less.
pub proof fn law_the_deadband_is_the_lesser(base: int, setpoint: int)
    ensures
        deadband(base, setpoint) <= base,
        deadband(base, setpoint) <= setpoint / 2,
        deadband(base, setpoint) == base || deadband(base, setpoint) == setpoint / 2,
{
}

/// A window records every depth: before it is full the new one joins the others, and once it
/// is full the oldest makes room. Its length stays as it is.
pub proof fn law_a_window_holds_the_newest_depths(
    m: DriftModel,
    depth: int,
    setpoint: int,
    base: int,
)
    requires
        m.n >= 1,
        m.history.len() <= m.n,
    ensures
        ({
            let next = after_update(m, depth, setpoint, base);
            &&& next.n == m.n
            &&& next.history.last() == depth
            &&& m.history.len() < m.n ==> next.history.drop_last() == m.history
            &&& m.history.len() == m.n ==> next.history.drop_last() == m.history.drop_first()
        }),
{
    let next = after_update(m, depth, setpoint, base);
    if m.history.len() < m.n {
        assert(next.history.drop_last() =~= m.history);
    } else {
        assert(next.history.drop_last() =~= m.history.drop_first());
    }
}

/// The average is the sum of the recorded depths over their number, rounded down; with none
/// recorded it is 0.
pub proof fn law_the_average_is_the_rounded_mean(m: DriftModel)
    ensures
        m.history.len() == 0 ==> m.average() == 0,
        m.history.len() > 0 ==> m.average() * m.history.len() <= total(m.history) < (m.average()
            + 1) * m.history.len(),
{
    let len = m.history.len() as int;
    let t = total(m.history);
    if len > 0 {
        assert((t / len) * len <= t < (t / len + 1) * len) by (nonlinear_arith)
            requires
                len > 0,
        ;
    }
}

/// A sum is made of its parts: nothing sums to nothing, one more element adds itself, and a
/// joined list sums to the sum of both.
pub proof fn law_a_sum_is_made_of_its_parts(a: Seq<int>, b: Seq<int>, x: int)
    ensures
        total(Seq::empty()) == 0,
        total(a.push(x)) == total(a) + x,
        total(a + b) == total(a) + total(b),
{
    assert(a.push(x).drop_last() =~= a);
    lemma_total_concat(a, b);
}

/// A splice moves every recorded depth by its own length, up for a fill and down for a drain,
/// but for those a drain would take below zero; nothing else of the window changes.
pub proof fn law_a_splice_moves_every_recorded_depth(m: DriftModel, delta: int, dir: int, i: int)
    requires
        0 <= i < m.history.len(),
    ensures
        ({
            let next = after_splice(m, delta, dir);
            &&& next.history.len() == m.history.len()
            &&& dir > 0 ==> next.history[i] == m.history[i] + delta
            &&& dir <= 0 && m.history[i] >= delta ==> next.history[i] == m.history[i] - delta
            &&& dir <= 0 && m.history[i] < delta ==> next.history[i] == m.history[i]
            &&& next.n == m.n && next.dir == m.dir && next.reference == m.reference
        }),
{
}

/// A reset forgets every depth and the direction, and keeps the reference.
pub proof fn law_a_reset_keeps_only_the_reference(m: DriftModel, n: int)
    ensures
        m.cold(n).history.len() == 0,
        m.cold(n).n == n,
        m.cold(n).dir == 0,
        m.cold(n).reference == m.reference,
{
}

/// The display's setpoint is the latest observed, and observing does not change how many
/// channels are filling. The reading never shows a lowest above or a highest below its mean.
pub proof fn law_a_reading_is_consistent(s: BufferSnap, depth: usize, target: usize)
    ensures
        target <= u32::MAX ==> snap_observed(s, depth, target).target == target,
        snap_observed(s, depth, target).holding == s.holding,
        snap_reading(s) is None <==> s.count == 0,
        snap_reading(s) matches Some(r) ==> r.1 <= r.0 <= r.2 && r.1 <= s.min && s.max <= r.2
            && r.3 == s.target,
{
}

/// A new window averages over 150 depths. A new setpoint starts it over exactly where it asks
/// for another length, and a reset always does; neither moves the reference.
pub proof fn law_a_window_starts_over(
    reference: i64,
    fresh: DriftWindow,
    w: &mut DriftWindow,
    setpoint: usize,
    rekeyed: bool,
    r: &mut DriftWindow,
    done: (),
)
    requires
        call_ensures(DriftWindow::new, (reference,), fresh),
        call_ensures(DriftWindow::set_window, (w, setpoint), rekeyed),
        call_ensures(DriftWindow::reset, (r,), done),
    ensures
        fresh@.history.len() == 0 && fresh@.n == 150 && fresh@.dir == 0,
        fresh@.reference == reference,
        ({
            let n = if setpoint == 120 {
                1200int
            } else if setpoint == 240 {
                600
            } else if setpoint == 480 {
                300
            } else {
                150
            };
            &&& rekeyed <==> n != old(w)@.n
            &&& rekeyed ==> final(w)@.history.len() == 0 && final(w)@.dir == 0 && final(w)@.n == n
            &&& !rekeyed ==> final(w)@ == old(w)@
        }),
        final(w)@.reference == old(w)@.reference,
        final(r)@.history.len() == 0 && final(r)@.dir == 0,
        final(r)@.n == old(r)@.n && final(r)@.reference == old(r)@.reference,
{
}

/// A reference is told once the window is full and not before; setting one moves nothing else.
pub proof fn law_a_reference_is_told_once_full(
    w: DriftWindow,
    told: Option<i64>,
    s: &mut DriftWindow,
    reference: i64,
    done: (),
)
    requires
        call_ensures(DriftWindow::calref, (&w,), told),
        call_ensures(DriftWindow::set_reference, (s, reference), done),
    ensures
        told is Some <==> w@.history.len() == w@.n,
        told matches Some(r) ==> r == w@.reference,
        final(s)@.reference == reference,
        final(s)@.history == old(s)@.history && final(s)@.dir == old(s)@.dir,
        final(s)@.n == old(s)@.n,
{
}

/// At a setpoint wide enough the deadband is 12 ms under phase lock and 4 ms without.
pub proof fn law_deadbands_in_milliseconds(setpoint: int)
    ensures
        setpoint >= 2 * 576 ==> deadband(DEADBAND_SYNC_ON as int, setpoint) == 12 * 48,
        setpoint >= 2 * 192 ==> deadband(DEADBAND_SYNC_OFF as int, setpoint) == 4 * 48,
{
}

} // verus!
