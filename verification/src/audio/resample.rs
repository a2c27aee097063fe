//! One channel's resample jobs: the staged input window, topped up from the ring once per
//! cycle, and the result the next cycle mixes. The resampler itself is the caller's.

use vstd::prelude::*;

use crate::audio::peer_group::{Cells, READ_AHEAD};
use crate::audio::sample::SILENCE;
use crate::audio::sync::{
    merge_ts_at_copy,
    skew_decision,
    skew_flag,
    stamp_modulus,
    SKEW_BAND_SAMPLES,
};

verus! {

/// Silence of a given length.
pub open spec fn silence(len: int) -> Seq<u32> {
    Seq::new(len as nat, |i: int| SILENCE)
}

/// The samples lengthened with silence to at least `len`.
pub open spec fn padded(s: Seq<u32>, len: int) -> Seq<u32> {
    if s.len() >= len {
        s
    } else {
        s + silence(len - s.len())
    }
}

/// The staged window once `got` has been copied behind the carried samples and the rest of
/// the window silenced.
pub open spec fn topped_up(stage: Seq<u32>, have: int, need: int, got: Seq<u32>) -> Seq<u32> {
    stage.subrange(0, have) + got + silence(need - have - got.len()) + stage.subrange(
        need,
        stage.len() as int,
    )
}

/// What a top-up leaves in the shared cells: nothing where it recovered nothing; else the
/// stamp of the window's front and, once a reference has latched, the skew relay.
pub open spec fn cells_after_top_up(
    cells: Cells,
    reference: int,
    have: int,
    got: int,
    cursor_ts: Option<u32>,
    target: int,
) -> Cells {
    if got == 0 {
        cells
    } else {
        Cells {
            merge_ts: match cursor_ts {
                Some(t) => ((t - have) % stamp_modulus()) as u32,
                None => cells.merge_ts,
            },
            skew_flag: if reference >= 1 {
                skew_decision(reference, target) as i8
            } else {
                cells.skew_flag
            },
            ..cells
        }
    }
}

/// The input window and the result of a channel's jobs.
pub struct ResampleSlot {
    /// `in_fill` carried samples at the front, topped up to the render quantum and the
    /// read-ahead by each job.
    pub stage: Vec<u32>,
    pub in_fill: usize,
    /// The last job's output, and how much of it the resampler produced.
    pub out: Vec<u32>,
    pub produced: usize,
    /// Jobs whose top-up recovered input, and jobs whose carried input covered the window.
    pub skew_checked: u64,
    pub skew_skipped: u64,
}

impl ResampleSlot {
    pub open spec fn well_formed(&self) -> bool {
        self.in_fill <= self.stage@.len() && self.produced <= self.out@.len()
    }

    /// Empty windows of a given length.
    pub fn new(window_len: usize) -> (s: Self)
        ensures
            s.well_formed(),
            s.stage@ == silence(window_len as int),
            s.out@ == silence(window_len as int),
            s.in_fill == 0 && s.produced == 0 && s.skew_checked == 0 && s.skew_skipped == 0,
    {
        let mut stage: Vec<u32> = Vec::new();
        let mut out: Vec<u32> = Vec::new();
        grow(&mut stage, window_len);
        grow(&mut out, window_len);
        assert(stage@ =~= silence(window_len as int));
        assert(out@ =~= silence(window_len as int));
        ResampleSlot { stage, in_fill: 0, out, produced: 0, skew_checked: 0, skew_skipped: 0 }
    }

    /// Grow the windows to hold a callback of `frames`.
    pub fn reserve_for_period(&mut self, frames: usize)
        requires
            old(self).well_formed(),
            frames + READ_AHEAD <= usize::MAX,
        ensures
            final(self).well_formed(),
            final(self).stage@ == padded(old(self).stage@, frames + READ_AHEAD),
            final(self).out@ == padded(old(self).out@, frames as int),
            final(self).in_fill == old(self).in_fill,
            final(self).produced == old(self).produced,
            final(self).skew_checked == old(self).skew_checked,
            final(self).skew_skipped == old(self).skew_skipped,
    {
        grow(&mut self.stage, frames + READ_AHEAD);
        grow(&mut self.out, frames);
    }

    /// A ring swap: any finished result and the carried input belong to the old ring.
    pub fn ring_swapped(&mut self)
        ensures
            final(self).in_fill == 0,
            final(self).produced == 0,
            final(self).stage == old(self).stage,
            final(self).out == old(self).out,
            final(self).skew_checked == old(self).skew_checked,
            final(self).skew_skipped == old(self).skew_skipped,
    {
        self.produced = 0;
        self.in_fill = 0;
    }

    /// Begin a job: the windows hold this cycle's quantum, and the answer is how many
    /// samples the ring has to supply. 0 means that the carried input covers the window.
    pub fn begin_job(&mut self, frames: usize) -> (want: usize)
        requires
            old(self).well_formed(),
            frames + READ_AHEAD <= usize::MAX,
        ensures
            final(self).well_formed(),
            final(self).stage@ == padded(old(self).stage@, frames + READ_AHEAD),
            final(self).out@ == padded(old(self).out@, frames as int),
            final(self).in_fill == old(self).in_fill,
            final(self).produced == old(self).produced,
            final(self).skew_checked == old(self).skew_checked,
            want == (if frames + READ_AHEAD > old(self).in_fill {
                frames + READ_AHEAD - old(self).in_fill
            } else {
                0
            }),
            final(self).skew_skipped == (if want == 0 {
                old(self).skew_skipped.wrapping_add(1)
            } else {
                old(self).skew_skipped
            }),
    {
        let need: usize = frames + READ_AHEAD;
        grow(&mut self.stage, need);
        grow(&mut self.out, frames);
        if need > self.in_fill {
            need - self.in_fill
        } else {
            self.skew_skipped = self.skew_skipped.wrapping_add(1);
            0
        }
    }

    /// Copy what the ring supplied behind the carried samples, and silence the rest of the
    /// window. `reference` is the channel's reference as it stood before the copy, and
    /// `cursor_ts` the stamp of the first sample copied. True when the top-up recovered
    /// input, which is what makes this job's result fit to be mixed.
    pub fn top_up(
        &mut self,
        frames: usize,
        got: &Vec<u32>,
        cursor_ts: Option<u32>,
        reference: i64,
        target: usize,
        cells: &mut Cells,
    ) -> (recovered: bool)
        requires
            old(self).well_formed(),
            old(self).in_fill < frames + READ_AHEAD <= old(self).stage@.len(),
            got@.len() <= frames + READ_AHEAD - old(self).in_fill,
            old(cells).hold ==> got@.len() == 0,
            target + SKEW_BAND_SAMPLES <= i64::MAX,
        ensures
            final(self).well_formed(),
            final(self).stage@ == topped_up(
                old(self).stage@,
                old(self).in_fill as int,
                frames + READ_AHEAD,
                got@,
            ),
            final(self).in_fill == old(self).in_fill,
            final(self).out == old(self).out,
            final(self).produced == old(self).produced,
            final(self).skew_skipped == old(self).skew_skipped,
            recovered == (got@.len() > 0),
            final(self).skew_checked == (if recovered {
                old(self).skew_checked.wrapping_add(1)
            } else {
                old(self).skew_checked
            }),
            *final(cells) == cells_after_top_up(
                *old(cells),
                reference as int,
                old(self).in_fill as int,
                got@.len() as int,
                cursor_ts,
                target as int,
            ),
    {
        assert(self.stage.len() == self.stage@.len());
        let need: usize = frames + READ_AHEAD;
        let have: usize = self.in_fill;
        let n: usize = got.len();
        let ghost before = self.stage@;
        let mut i: usize = 0;
        while i < need - have
            invariant
                i <= need - have,
                have < need <= before.len(),
                n == got@.len(),
                n <= need - have,
                self.stage@.len() == before.len(),
                self.in_fill == have,
                forall|j: int|
                    0 <= j < i ==> #[trigger] self.stage@[have + j] == (if j < n {
                        got@[j]
                    } else {
                        SILENCE
                    }),
                forall|j: int|
                    0 <= j < before.len() && !(have <= j < have + i) ==> #[trigger] self.stage@[j]
                        == before[j],
                self.out == old(self).out,
                self.produced == old(self).produced,
                self.skew_skipped == old(self).skew_skipped,
                self.skew_checked == old(self).skew_checked,
            decreases need - have - i,
        {
            let v: u32 = if i < n {
                got[i]
            } else {
                SILENCE
            };
            let ghost prev = self.stage@;
            self.stage.set(have + i, v);
            assert forall|j: int| 0 <= j < i + 1 implies #[trigger] self.stage@[have + j] == (if j
                < n {
                got@[j]
            } else {
                SILENCE
            }) by {
                if j < i {
                    assert(prev[have + j] == self.stage@[have + j]);
                }
            }
            i = i + 1;
        }
        proof {
            let want = topped_up(before, have as int, need as int, got@);
            assert forall|j: int| 0 <= j < want.len() implies self.stage@[j] == want[j] by {
                if have <= j < need {
                    assert(self.stage@[have + (j - have)] == want[j]);
                }
            }
            assert(self.stage@ =~= want);
        }
        if n > 0 {
            if let Some(t) = cursor_ts {
                cells.merge_ts = merge_ts_at_copy(t, have);
            }
            self.skew_checked = self.skew_checked.wrapping_add(1);
            if reference >= 1 {
                cells.skew_flag = skew_flag(reference, target);
            }
            true
        } else {
            false
        }
    }

    /// End a job with what the resampler produced and how much of the window it left
    /// unconsumed. That tail moves to the front for the next job; anything staged past the
    /// window is dropped. The result can be mixed exactly where the top-up recovered input.
    pub fn finish_job(
        &mut self,
        frames: usize,
        output: &Vec<u32>,
        leftover: usize,
        recovered: bool,
        cells: &mut Cells,
    )
        requires
            old(self).well_formed(),
            frames + READ_AHEAD <= old(self).stage@.len(),
            frames <= old(self).out@.len(),
            output@.len() <= frames,
            leftover <= frames + READ_AHEAD,
        ensures
            final(self).well_formed(),
            final(self).in_fill == leftover,
            final(self).produced == output@.len(),
            final(self).stage@.len() == old(self).stage@.len(),
            final(self).stage@.subrange(0, leftover as int) == old(self).stage@.subrange(
                frames + READ_AHEAD - leftover,
                frames + READ_AHEAD as int,
            ),
            final(self).out@.len() == old(self).out@.len(),
            final(self).out@.subrange(0, frames as int) == output@ + silence(
                frames - output@.len(),
            ),
            final(self).skew_checked == old(self).skew_checked,
            final(self).skew_skipped == old(self).skew_skipped,
            *final(cells) == (Cells { ready: recovered, ..*old(cells) }),
    {
        cells.ready = recovered;
        assert(self.stage.len() == self.stage@.len());
        let need: usize = frames + READ_AHEAD;
        let n: usize = output.len();
        let mut i: usize = 0;
        while i < frames
            invariant
                i <= frames,
                n == output@.len(),
                frames <= self.out@.len(),
                self.out@.len() == old(self).out@.len(),
                forall|j: int|
                    0 <= j < i ==> #[trigger] self.out@[j] == (if j < n {
                        output@[j]
                    } else {
                        SILENCE
                    }),
                self.stage == old(self).stage,
                self.in_fill == old(self).in_fill,
                self.produced == old(self).produced,
                self.skew_checked == old(self).skew_checked,
                self.skew_skipped == old(self).skew_skipped,
            decreases frames - i,
        {
            let v: u32 = if i < n {
                output[i]
            } else {
                SILENCE
            };
            self.out.set(i, v);
            i = i + 1;
        }
        assert(self.out@.subrange(0, frames as int) =~= output@ + silence(frames - n));
        let from: usize = need - leftover;
        let ghost before = self.stage@;
        let mut k: usize = 0;
        while k < leftover
            invariant
                k <= leftover <= need <= before.len(),
                from == need - leftover,
                self.stage@.len() == before.len(),
                forall|j: int| 0 <= j < k ==> #[trigger] self.stage@[j] == before[from + j],
                forall|j: int| k <= j < before.len() ==> #[trigger] self.stage@[j] == before[j],
                self.out@.subrange(0, frames as int) == output@ + silence(frames - n),
                self.out@.len() == old(self).out@.len(),
                self.in_fill == old(self).in_fill,
                self.produced == old(self).produced,
                self.skew_checked == old(self).skew_checked,
                self.skew_skipped == old(self).skew_skipped,
            decreases leftover - k,
        {
            let v: u32 = self.stage[from + k];
            assert(v == before[from + k]);
            self.stage.set(k, v);
            k = k + 1;
        }
        assert(self.stage@.subrange(0, leftover as int) =~= before.subrange(
            from as int,
            need as int,
        ));
        self.in_fill = leftover;
        self.produced = n;
    }

    /// The result to mix: what the last job produced, up to this cycle's quantum, and
    /// silence where it fell short.
    pub fn result(&self, frames: usize) -> (pcm: Vec<u32>)
        requires
            self.well_formed(),
        ensures
            pcm@.len() == frames,
            forall|i: int|
                0 <= i < frames ==> #[trigger] pcm@[i] == (if i < self.produced {
                    self.out@[i]
                } else {
                    SILENCE
                }),
    {
        let mut pcm: Vec<u32> = Vec::new();
        let mut i: usize = 0;
        while i < frames
            invariant
                i <= frames,
                self.well_formed(),
                pcm@.len() == i,
                forall|j: int|
                    0 <= j < i ==> #[trigger] pcm@[j] == (if j < self.produced {
                        self.out@[j]
                    } else {
                        SILENCE
                    }),
            decreases frames - i,
        {
            if i < self.produced {
                pcm.push(self.out[i]);
            } else {
                pcm.push(SILENCE);
            }
            i = i + 1;
        }
        pcm
    }
}

fn grow(v: &mut Vec<u32>, len: usize)
    ensures
        final(v)@ == padded(old(v)@, len as int),
{
    let ghost before = v@;
    while v.len() < len
        invariant
            v@.len() >= before.len(),
            v@.len() <= len || v@.len() == before.len(),
            v@ =~= before + silence(v@.len() - before.len()),
        decreases len - v@.len(),
    {
        v.push(SILENCE);
    }
}

/// The window a job resamples is always the carried samples followed by what the ring gave
/// and then silence: nothing carried is lost, and nothing is invented but silence.
pub proof fn law_window_is_carried_then_new_then_silence(
    stage: Seq<u32>,
    have: int,
    need: int,
    got: Seq<u32>,
)
    requires
        0 <= have <= need <= stage.len(),
        got.len() <= need - have,
    ensures
        topped_up(stage, have, need, got).len() == stage.len(),
        topped_up(stage, have, need, got).subrange(0, need) == stage.subrange(0, have) + got
            + silence(need - have - got.len()),
{
    assert(topped_up(stage, have, need, got).subrange(0, need) =~= stage.subrange(0, have) + got
        + silence(need - have - got.len()));
}

/// Sample by sample, a topped-up window is what was carried, then what the ring gave, then
/// silence to the end of what the job needs, then whatever lay behind it.
pub proof fn law_every_sample_of_the_window_has_its_source(
    stage: Seq<u32>,
    have: int,
    need: int,
    got: Seq<u32>,
    i: int,
)
    requires
        0 <= have <= need <= stage.len(),
        got.len() <= need - have,
        0 <= i < stage.len(),
    ensures
        ({
            let w = topped_up(stage, have, need, got);
            &&& w.len() == stage.len()
            &&& i < have ==> w[i] == stage[i]
            &&& have <= i < have + got.len() ==> w[i] == got[i - have]
            &&& have + got.len() <= i < need ==> w[i] == 0
            &&& need <= i ==> w[i] == stage[i]
        }),
{
}

/// A window grows with silence at its end, and never shrinks or changes what it holds.
pub proof fn law_windows_grow_with_silence(s: Seq<u32>, len: int, i: int)
    requires
        0 <= i < padded(s, len).len(),
    ensures
        padded(s, len).len() >= s.len(),
        padded(s, len).len() >= len,
        s.len() >= len ==> padded(s, len) == s,
        s.len() < len ==> padded(s, len).len() == len,
        i < s.len() ==> padded(s, len)[i] == s[i],
        i >= s.len() ==> padded(s, len)[i] == 0,
{
}

/// A top-up that recovered nothing leaves the shared cells alone. One that did puts the stamp
/// of the window's front there, the ring's less what was carried ahead of it, and, once a
/// reference has latched, which way that reference lies off the setpoint: up at or below the
/// lower edge of the band, down at or above the upper, where the band is half the setpoint and
/// 1728 samples at most.
pub proof fn law_what_a_top_up_tells(
    cells: Cells,
    reference: int,
    have: int,
    got: int,
    cursor_ts: Option<u32>,
    target: int,
)
    requires
        got >= 0,
        have >= 0,
        target >= 0,
    ensures
        ({
            let after = cells_after_top_up(cells, reference, have, got, cursor_ts, target);
            let band = if target / 2 < 1728 {
                target / 2
            } else {
                1728
            };
            &&& got == 0 ==> after == cells
            &&& got > 0 && cursor_ts is None ==> after.merge_ts == cells.merge_ts
            &&& got > 0 && cursor_ts is Some && have <= cursor_ts->Some_0 ==> after.merge_ts
                == cursor_ts->Some_0 - have
            &&& got > 0 && cursor_ts is Some ==> (after.merge_ts + have - cursor_ts->Some_0)
                % 0x1_0000_0000 == 0
            &&& got > 0 && reference < 1 ==> after.skew_flag == cells.skew_flag
            &&& got > 0 && reference >= 1 && reference <= target - band ==> after.skew_flag == 1
            &&& got > 0 && reference >= 1 && target - band < reference < target + band
                ==> after.skew_flag == 0
            &&& got > 0 && reference >= 1 && reference > target - band && reference >= target + band
                ==> after.skew_flag == -1
            &&& after.hold == cells.hold && after.ready == cells.ready && after.cm_dir
                == cells.cm_dir
            &&& after.skew_ref == cells.skew_ref && after.boxcar_reset == cells.boxcar_reset
        }),
{
}

/// A job asks the ring for what the window still lacks: the render quantum and six samples,
/// less what is carried. A job that lacks nothing is counted.
pub proof fn law_a_job_asks_for_what_it_lacks(s: &mut ResampleSlot, frames: usize, want: usize)
    requires
        frames + 6 <= usize::MAX,
        call_ensures(ResampleSlot::begin_job, (s, frames), want),
    ensures
        old(s).in_fill <= frames + 6 ==> want == frames + 6 - old(s).in_fill,
        old(s).in_fill >= frames + 6 ==> want == 0,
        want > 0 ==> final(s).skew_skipped == old(s).skew_skipped,
        want == 0 && old(s).skew_skipped < u64::MAX ==> final(s).skew_skipped
            == old(s).skew_skipped + 1,
        final(s).stage@.len() >= frames + 6 && final(s).out@.len() >= frames,
        final(s).in_fill == old(s).in_fill && final(s).produced == old(s).produced,
{
}

/// A finished job carries the end of the window over to the next one's start, keeps what came
/// out with silence behind it, and is fit to mix exactly where it recovered input.
pub proof fn law_a_job_carries_the_end_over(
    s: &mut ResampleSlot,
    frames: usize,
    output: Vec<u32>,
    leftover: usize,
    recovered: bool,
    cells: &mut Cells,
    done: (),
    i: int,
)
    requires
        old(s).well_formed(),
        frames + 6 <= old(s).stage@.len(),
        frames <= old(s).out@.len(),
        output@.len() <= frames,
        leftover <= frames + 6,
        call_ensures(ResampleSlot::finish_job, (s, frames, &output, leftover, recovered, cells), done),
    ensures
        0 <= i < leftover ==> final(s).stage@[i] == old(s).stage@[frames + 6 - leftover + i],
        0 <= i < output@.len() ==> final(s).out@[i] == output@[i],
        output@.len() <= i < frames ==> final(s).out@[i] == 0,
        final(s).in_fill == leftover,
        final(s).produced == output@.len(),
        final(cells).ready == recovered,
        final(cells).merge_ts == old(cells).merge_ts && final(cells).hold == old(cells).hold,
        final(cells).skew_flag == old(cells).skew_flag
            && final(cells).skew_ref == old(cells).skew_ref,
{
    if 0 <= i < leftover {
        assert(final(s).stage@.subrange(0, leftover as int)[i] == final(s).stage@[i]);
    }
    if 0 <= i < frames {
        assert(final(s).out@.subrange(0, frames as int)[i] == final(s).out@[i]);
    }
}

/// What is mixed is what the last job produced, and silence behind it.
pub proof fn law_a_result_is_what_was_produced(
    s: ResampleSlot,
    frames: usize,
    pcm: Vec<u32>,
    i: int,
)
    requires
        call_ensures(ResampleSlot::result, (&s, frames), pcm),
        0 <= i < frames,
    ensures
        pcm@.len() == frames,
        i < s.produced ==> pcm@[i] == s.out@[i],
        i >= s.produced ==> pcm@[i] == 0,
{
}

} // verus!
