//! The line-up tone's clock: where in the sine period each sample falls and how the left
//! leg's ident pattern shapes it. Amplitudes are the caller's.

use vstd::prelude::*;

verus! {

/// Samples in one period of the tone: 1 kHz at 48 kHz, exactly.
pub const TABLE_SIZE: u64 = 48;

/// The ident pattern repeats every 3 s.
pub const SILENCE_INTERVAL: u64 = 144_000;

/// and starts with 250 ms of silence.
pub const SILENCE_BURST: u64 = 12_000;

/// Length of the fades into and out of the tone: 2 ms.
pub const FADE_SAMPLES: u64 = 96;

/// How the left leg is shaped at one sample. A fade carries how far into it the sample is,
/// out of `FADE_SAMPLES`.
#[derive(Clone, Copy, Debug, PartialEq, Eq, Structural)]
pub enum ToneGain {
    Silent,
    FadeIn { at: u64 },
    Full,
    FadeOut { at: u64 },
}

/// The left leg's shape at a position in the pattern: silence, a fade in, the tone, a fade
/// out.
pub open spec fn gain_at(cycle_pos: int) -> ToneGain {
    if cycle_pos < SILENCE_BURST {
        ToneGain::Silent
    } else if cycle_pos < SILENCE_BURST + FADE_SAMPLES {
        ToneGain::FadeIn { at: (cycle_pos - SILENCE_BURST) as u64 }
    } else if cycle_pos < SILENCE_INTERVAL - FADE_SAMPLES {
        ToneGain::Full
    } else {
        ToneGain::FadeOut { at: (cycle_pos - (SILENCE_INTERVAL - FADE_SAMPLES)) as u64 }
    }
}

pub fn left_gain(cycle_pos: u64) -> (g: ToneGain)
    requires
        cycle_pos < SILENCE_INTERVAL,
    ensures
        g == gain_at(cycle_pos as int),
        g is Silent <==> cycle_pos < 12_000,
        g is Full <==> 12_096 <= cycle_pos < 143_904,
        g matches ToneGain::FadeIn { at } ==> cycle_pos == 12_000 + at,
        g matches ToneGain::FadeOut { at } ==> cycle_pos == 143_904 + at,
{
    if cycle_pos < SILENCE_BURST {
        ToneGain::Silent
    } else {
        let pos: u64 = cycle_pos - SILENCE_BURST;
        let duration: u64 = SILENCE_INTERVAL - SILENCE_BURST;
        if pos < FADE_SAMPLES {
            ToneGain::FadeIn { at: pos }
        } else if pos >= duration - FADE_SAMPLES {
            ToneGain::FadeOut { at: pos - (duration - FADE_SAMPLES) }
        } else {
            ToneGain::Full
        }
    }
}

/// One sample of the tone: its place in the sine table, which the right leg plays as it is,
/// and the shape of the left leg.
#[derive(Clone, Copy, Debug, PartialEq, Eq, Structural)]
pub struct ToneStep {
    pub index: usize,
    pub left: ToneGain,
}

/// The tone at an absolute sample position.
pub open spec fn tone_at(pos: int) -> ToneStep {
    ToneStep { index: (pos % TABLE_SIZE as int) as usize, left: gain_at(pos % SILENCE_INTERVAL as int) }
}

/// The tone generator's clock. One clock serves both legs.
#[derive(Clone, Copy, Debug, PartialEq, Eq, Structural)]
pub struct EbuToneGenerator {
    pub sample_pos: u64,
}

impl EbuToneGenerator {
    pub fn new() -> (g: Self)
        ensures
            g.sample_pos == 0,
    {
        EbuToneGenerator { sample_pos: 0 }
    }

    /// The next `n` samples of both legs, from one advance of the shared clock.
    pub fn next_lr_frames(&mut self, n: usize) -> (steps: Vec<ToneStep>)
        requires
            old(self).sample_pos + n <= u64::MAX,
        ensures
            final(self).sample_pos == old(self).sample_pos + n,
            steps@.len() == n,
            forall|i: int|
                0 <= i < n ==> #[trigger] steps@[i] == tone_at(old(self).sample_pos + i),
    {
        let mut steps: Vec<ToneStep> = Vec::new();
        let mut i: usize = 0;
        while i < n
            invariant
                i <= n,
                old(self).sample_pos + n <= u64::MAX,
                self.sample_pos == old(self).sample_pos + i,
                steps@.len() == i,
                forall|j: int|
                    0 <= j < i ==> #[trigger] steps@[j] == tone_at(old(self).sample_pos + j),
            decreases n - i,
        {
            let index: usize = (self.sample_pos % TABLE_SIZE) as usize;
            let left: ToneGain = left_gain(self.sample_pos % SILENCE_INTERVAL);
            steps.push(ToneStep { index, left });
            self.sample_pos = self.sample_pos + 1;
            i = i + 1;
        }
        steps
    }
}

/// The ident pattern of every three seconds: silence for the first quarter second, the tone
/// at full level up to 2 ms before the next silence, and 2 ms of fade on either side of it.
pub proof fn law_silence_then_tone(pos: int)
    requires
        pos >= 0,
    ensures
        tone_at(pos).left is Silent <==> pos % 144_000 < 12_000,
        tone_at(pos).left is FadeIn <==> 12_000 <= pos % 144_000 < 12_096,
        tone_at(pos).left is Full <==> 12_096 <= pos % 144_000 < 143_904,
        tone_at(pos).left is FadeOut <==> 143_904 <= pos % 144_000,
{
}

/// A fade starts at its first sample and goes one sample at a time to its last; the tone is
/// full right after a fade in, and silent right after a fade out.
pub proof fn law_fades_run_through(pos: int)
    requires
        pos >= 0,
    ensures
        tone_at(pos).left is Silent && !(tone_at(pos + 1).left is Silent) ==> tone_at(pos + 1).left
            == (ToneGain::FadeIn { at: 0 }),
        tone_at(pos).left is Full && !(tone_at(pos + 1).left is Full) ==> tone_at(pos + 1).left == (
        ToneGain::FadeOut { at: 0 }),
        tone_at(pos).left matches ToneGain::FadeIn { at } ==> at < 96 && tone_at(pos + 1).left == (
        if at == 95 {
            ToneGain::Full
        } else {
            ToneGain::FadeIn { at: (at + 1) as u64 }
        }),
        tone_at(pos).left matches ToneGain::FadeOut { at } ==> at < 96 && tone_at(pos + 1).left
            == (if at == 95 {
            ToneGain::Silent
        } else {
            ToneGain::FadeOut { at: (at + 1) as u64 }
        }),
{
    let c = pos % 144_000;
    let q = pos / 144_000;
    assert(pos == 144_000 * q + c);
    if c == 143_999 {
        assert(pos + 1 == 144_000 * (q + 1));
        assert((pos + 1) % 144_000 == 0);
    } else {
        assert((pos + 1) % 144_000 == c + 1);
    }
}

/// The sine runs through its 48 samples in order, from its first at the start, over and over.
pub proof fn law_the_sine_advances_one_sample_at_a_time(pos: int)
    requires
        pos >= 0,
    ensures
        tone_at(0).index == 0,
        tone_at(pos).index < 48,
        tone_at(pos + 1).index == (if tone_at(pos).index == 47 {
            0
        } else {
            tone_at(pos).index + 1
        }),
{
}

/// The shape changes only where the sine starts a period, so every edge of the pattern lies
/// on a zero crossing, however long the tone has run.
pub proof fn law_edges_lie_on_zero_crossings(pos: int)
    requires
        pos >= 0,
        ({
            let a = tone_at(pos).left;
            let b = tone_at(pos + 1).left;
            ||| (a is Silent) != (b is Silent)
            ||| (a is FadeIn) != (b is FadeIn)
            ||| (a is Full) != (b is Full)
            ||| (a is FadeOut) != (b is FadeOut)
        }),
    ensures
        tone_at(pos + 1).index == 0,
{
    let c = pos % 144_000;
    let q = pos / 144_000;
    assert(pos == 144_000 * q + c);
    if c == 143_999 {
        assert(pos + 1 == 144_000 * (q + 1));
        assert((pos + 1) % 144_000 == 0);
        assert((pos + 1) % 48 == 0);
    } else {
        assert((pos + 1) % 144_000 == c + 1);
        assert(c + 1 == 12_000 || c + 1 == 12_096 || c + 1 == 143_904);
        assert((pos + 1) % 48 == 0);
    }
}

/// The tone repeats exactly, with no drift: three seconds on, every sample is the same.
pub proof fn law_tone_repeats_every_three_seconds(pos: int)
    requires
        pos >= 0,
    ensures
        tone_at(pos + SILENCE_INTERVAL) == tone_at(pos),
{
    assert((pos + 144_000) % 144_000 == pos % 144_000);
    assert((pos + 144_000) % 48 == pos % 48);
}

/// The left leg's shape at every place of the cycle, as it is played: silent for a quarter of a
/// second, in at full strength after a fade of 2 ms, and out again over the last 2 ms.
pub proof fn law_the_left_leg_as_played(
    g: &mut EbuToneGenerator,
    n: usize,
    steps: Vec<ToneStep>,
    i: int,
)
    requires
        old(g).sample_pos + n <= u64::MAX,
        call_ensures(EbuToneGenerator::next_lr_frames, (g, n), steps),
        0 <= i < n,
    ensures
        ({
            let at = (old(g).sample_pos + i) % 144_000;
            let s = steps@[i];
            &&& steps@.len() == n
            &&& s.index == (old(g).sample_pos + i) % 48
            &&& s.left is Silent <==> at < 12_000
            &&& s.left matches ToneGain::FadeIn { at: k } ==> k == at - 12_000 && k < 96
            &&& s.left is Full <==> 12_096 <= at < 143_904
            &&& s.left matches ToneGain::FadeOut { at: k } ==> k == at - 143_904
        }),
        final(g).sample_pos == old(g).sample_pos + n,
{
}

} // verus!
