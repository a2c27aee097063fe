//! The discrete zero-crossing splice: a frame shortened or lengthened by the quietest
//! segment between two consecutive positive-to-negative crossings.
//!
//! The search and the splice work on sample patterns. The mean energy of each candidate
//! segment is computed by the caller and handed in as a pattern too.

use vstd::prelude::*;

use crate::audio::sample::{
    at_least_zero,
    below_zero,
    less_than,
    sample_at_least_zero,
    sample_less_than,
    SILENCE,
};

verus! {

/// Shortest segment a splice acts on: 2.5 ms.
pub const SEGMENT_MIN: usize = 120;

/// The length every segment stays below: 5 ms.
pub const SEGMENT_END: usize = 240;

/// The score every candidate has to stay below: the pattern of 2 to the 63rd.
pub const SCORE_CEILING: u32 = 0x5f00_0000;

/// Sample `k` is the first below zero after one that is not.
pub open spec fn is_crossing(pcm: Seq<u32>, k: int) -> bool {
    1 <= k < pcm.len() && at_least_zero(pcm[k - 1]) && below_zero(pcm[k])
}

/// The crossings before `n`, in order.
pub open spec fn crossings(pcm: Seq<u32>, n: int) -> Seq<int>
    decreases n,
{
    if n <= 1 {
        Seq::empty()
    } else if is_crossing(pcm, n - 1) {
        crossings(pcm, n - 1).push(n - 1)
    } else {
        crossings(pcm, n - 1)
    }
}

/// The segments between the first `n` of these consecutive crossings whose length lies in
/// the search window, in order: each starts on one crossing and ends on the next.
pub open spec fn segments(at: Seq<int>, n: int) -> Seq<(int, int)>
    decreases n,
{
    if n <= 1 {
        Seq::empty()
    } else {
        let gap = at[n - 1] - at[n - 2];
        if SEGMENT_MIN <= gap < SEGMENT_END {
            segments(at, n - 1).push((at[n - 2], at[n - 1]))
        } else {
            segments(at, n - 1)
        }
    }
}

/// The candidate segments of a frame of `len` samples.
pub open spec fn candidates(pcm: Seq<u32>, len: int) -> Seq<(int, int)> {
    let at = crossings(pcm, len);
    segments(at, at.len() as int)
}

/// Candidate `i` wins: its score is below the ceiling, no candidate scores below it, and
/// every earlier one scores above it or not below the ceiling at all.
pub open spec fn wins(scores: Seq<u32>, i: int) -> bool {
    &&& 0 <= i < scores.len()
    &&& less_than(scores[i], SCORE_CEILING)
    &&& forall|j: int| 0 <= j < scores.len() ==> !less_than(#[trigger] scores[j], scores[i])
    &&& forall|j: int|
        0 <= j < i ==> less_than(scores[i], #[trigger] scores[j]) || !less_than(
            scores[j],
            SCORE_CEILING,
        )
}

/// No candidate's score is below the ceiling.
pub open spec fn nothing_wins(scores: Seq<u32>) -> bool {
    forall|j: int| 0 <= j < scores.len() ==> !less_than(#[trigger] scores[j], SCORE_CEILING)
}

/// The frame with the segment played twice: `[0, end)` and then `[start, len)` again.
pub open spec fn filled_frame(pcm: Seq<u32>, len: int, start: int, end: int) -> Seq<u32> {
    pcm.subrange(0, end) + pcm.subrange(start, len) + pcm.subrange(
        len + end - start,
        pcm.len() as int,
    )
}

/// The frame with the segment left out: `[0, start)` and then `[end, len)`. What lies past
/// the shortened frame is as it was.
pub open spec fn drained_frame(pcm: Seq<u32>, len: int, start: int, end: int) -> Seq<u32> {
    pcm.subrange(0, start) + pcm.subrange(end, len) + pcm.subrange(
        len - (end - start),
        pcm.len() as int,
    )
}

/// The frame and its length after splicing the winning segment in the direction asked for.
/// A fill that does not fit its buffer leaves the frame alone.
pub open spec fn spliced(pcm: Seq<u32>, len: int, dir: int, start: int, end: int) -> (
    Seq<u32>,
    int,
) {
    let gap = end - start;
    if dir > 0 {
        if len + gap > pcm.len() {
            (pcm, len)
        } else {
            (filled_frame(pcm, len, start, end), len + gap)
        }
    } else {
        (drained_frame(pcm, len, start, end), len - gap)
    }
}

/// The candidate segments of a frame, as start and end positions, in order. The caller
/// scores each by the mean energy of the samples from its start up to its end.
pub fn splice_candidates(pcm: &Vec<u32>, len: usize) -> (found: Vec<(usize, usize)>)
    requires
        len <= pcm@.len(),
    ensures
        found@.len() == candidates(pcm@, len as int).len(),
        forall|i: int|
            0 <= i < found@.len() ==> (#[trigger] found@[i]).0 == candidates(
                pcm@,
                len as int,
            )[i].0 && found@[i].1 == candidates(pcm@, len as int)[i].1,
{
    let mut found: Vec<(usize, usize)> = Vec::new();
    let mut last: Option<usize> = None;
    let mut k: usize = 1;
    while k < len
        invariant
            1 <= k,
            k <= len || k == 1,
            len <= pcm@.len(),
            ({
                let at = crossings(pcm@, k as int);
                let segs = segments(at, at.len() as int);
                &&& forall|i: int| 0 <= i < at.len() ==> 1 <= #[trigger] at[i] < k
                &&& (last is Some <==> at.len() > 0)
                &&& (at.len() > 0 ==> last->Some_0 == at.last())
                &&& found@.len() == segs.len()
                &&& forall|i: int|
                    0 <= i < found@.len() ==> (#[trigger] found@[i]).0 == segs[i].0 && found@[i].1
                        == segs[i].1
            }),
        decreases len - k,
    {
        let ghost at = crossings(pcm@, k as int);
        let ghost next = crossings(pcm@, k + 1);
        if sample_at_least_zero(pcm[k - 1]) && sample_less_than(pcm[k], SILENCE) {
            assert(is_crossing(pcm@, k as int));
            assert(next == at.push(k as int));
            proof {
                lemma_segments_prefix(at, next, at.len() as int);
            }
            if let Some(start) = last {
                let gap: usize = k - start;
                if SEGMENT_MIN <= gap && gap < SEGMENT_END {
                    found.push((start, k));
                }
            }
            last = Some(k);
        } else {
            assert(next == at);
        }
        k = k + 1;
    }
    proof {
        if len <= 1 {
            assert(k == 1);
            assert(crossings(pcm@, len as int) =~= crossings(pcm@, 1));
        } else {
            assert(k == len);
        }
    }
    found
}

proof fn lemma_segments_prefix(a: Seq<int>, b: Seq<int>, n: int)
    requires
        n <= a.len() <= b.len(),
        forall|i: int| 0 <= i < n ==> a[i] == b[i],
    ensures
        segments(a, n) == segments(b, n),
    decreases n,
{
    if n > 1 {
        lemma_segments_prefix(a, b, n - 1);
    }
}

/// Crossings lie in order inside the frame, and consecutive ones have none between them.
proof fn lemma_crossings_in_order(pcm: Seq<u32>, n: int)
    requires
        n <= pcm.len(),
    ensures
        forall|i: int|
            0 <= i < crossings(pcm, n).len() ==> 1 <= #[trigger] crossings(pcm, n)[i] < n
                && is_crossing(pcm, crossings(pcm, n)[i]),
        forall|i: int, j: int|
            0 <= i < j < crossings(pcm, n).len() ==> #[trigger] crossings(pcm, n)[i]
                < #[trigger] crossings(pcm, n)[j],
    decreases n,
{
    if n > 1 {
        lemma_crossings_in_order(pcm, n - 1);
        let prev = crossings(pcm, n - 1);
        let at = crossings(pcm, n);
        assert forall|i: int| 0 <= i < at.len() implies 1 <= #[trigger] at[i] < n && is_crossing(
            pcm,
            at[i],
        ) by {
            if i < prev.len() {
                assert(at[i] == prev[i]);
            }
        }
        assert forall|i: int, j: int| 0 <= i < j < at.len() implies #[trigger] at[i]
            < #[trigger] at[j] by {
            assert(at[i] == prev[i]);
            if j < prev.len() {
                assert(at[j] == prev[j]);
            }
        }
    }
}

proof fn lemma_segment_bounds(pcm: Seq<u32>, at: Seq<int>, n: int, len: int)
    requires
        n <= at.len(),
        forall|i: int|
            0 <= i < at.len() ==> 1 <= #[trigger] at[i] < len && is_crossing(pcm, at[i]),
    ensures
        forall|i: int|
            0 <= i < segments(at, n).len() ==> {
                let seg = #[trigger] segments(at, n)[i];
                1 <= seg.0 < seg.1 < len && SEGMENT_MIN <= seg.1 - seg.0 < SEGMENT_END
                    && is_crossing(pcm, seg.0) && is_crossing(pcm, seg.1)
            },
    decreases n,
{
    if n > 1 {
        lemma_segment_bounds(pcm, at, n - 1, len);
        let prev = segments(at, n - 1);
        let segs = segments(at, n);
        assert forall|i: int| 0 <= i < segs.len() implies {
            let seg = #[trigger] segs[i];
            1 <= seg.0 < seg.1 < len && SEGMENT_MIN <= seg.1 - seg.0 < SEGMENT_END && is_crossing(
                pcm,
                seg.0,
            ) && is_crossing(pcm, seg.1)
        } by {
            if i < prev.len() {
                assert(segs[i] == prev[i]);
            } else {
                assert(segs[i] == (at[n - 2], at[n - 1]));
            }
        }
    }
}

/// Both ends of every candidate sit on a crossing inside the frame, and its length lies in
/// the search window.
pub proof fn law_candidates_lie_between_crossings(pcm: Seq<u32>, len: int, i: int)
    requires
        0 <= len <= pcm.len(),
        0 <= i < candidates(pcm, len).len(),
    ensures
        ({
            let seg = candidates(pcm, len)[i];
            1 <= seg.0 < seg.1 < len && SEGMENT_MIN <= seg.1 - seg.0 < SEGMENT_END && is_crossing(
                pcm,
                seg.0,
            ) && is_crossing(pcm, seg.1)
        }),
{
    lemma_crossings_in_order(pcm, len);
    let at = crossings(pcm, len);
    lemma_segment_bounds(pcm, at, at.len() as int, len);
}

/// The winning candidate's index, if any candidate wins.
pub fn quietest(scores: &Vec<u32>) -> (winner: Option<usize>)
    ensures
        match winner {
            Some(i) => wins(scores@, i as int),
            None => nothing_wins(scores@),
        },
{
    let mut winner: Option<usize> = None;
    let mut best: u32 = SCORE_CEILING;
    let mut i: usize = 0;
    while i < scores.len()
        invariant
            i <= scores@.len(),
            match winner {
                Some(w) => w < i && best == scores@[w as int] && wins(
                    scores@.subrange(0, i as int),
                    w as int,
                ),
                None => best == SCORE_CEILING && nothing_wins(scores@.subrange(0, i as int)),
            },
        decreases scores@.len() - i,
    {
        let ghost seen = scores@.subrange(0, i as int);
        let ghost now = scores@.subrange(0, i + 1);
        assert(forall|j: int| 0 <= j < i ==> #[trigger] now[j] == seen[j]);
        assert(now[i as int] == scores@[i as int]);
        if sample_less_than(scores[i], best) {
            proof {
                assert forall|j: int| 0 <= j < now.len() implies !less_than(
                    #[trigger] now[j],
                    scores@[i as int],
                ) by {
                    if j < i {
                        assert(now[j] == seen[j]);
                    }
                }
                assert forall|j: int| 0 <= j < i implies less_than(
                    scores@[i as int],
                    #[trigger] now[j],
                ) || !less_than(now[j], SCORE_CEILING) by {
                    assert(now[j] == seen[j]);
                }
            }
            best = scores[i];
            winner = Some(i);
        }
        i = i + 1;
    }
    assert(scores@.subrange(0, scores@.len() as int) =~= scores@);
    winner
}

/// Splice one frame of `len` samples held at the front of `pcm` and return its new length.
///
/// `scores` holds the mean energy of each of the frame's candidates, in order. The quietest
/// one is repeated (`dir` above zero) or dropped (below); on a tie the earlier one. With no
/// direction, no winner, or no room to grow, the frame is left as it is.
pub fn zero_crossing_splice(pcm: &mut Vec<u32>, len: usize, dir: i8, scores: &Vec<u32>) -> (out:
    usize)
    requires
        len <= old(pcm)@.len(),
        dir != 0 ==> scores@.len() == candidates(old(pcm)@, len as int).len(),
    ensures
        dir == 0 || nothing_wins(scores@) ==> final(pcm)@ == old(pcm)@ && out == len,
        dir != 0 && !nothing_wins(scores@) ==> exists|i: int| #[trigger]
            wins(scores@, i) && (final(pcm)@, out as int) == spliced(
                old(pcm)@,
                len as int,
                dir as int,
                candidates(old(pcm)@, len as int)[i].0,
                candidates(old(pcm)@, len as int)[i].1,
            ),
{
    if dir == 0 {
        return len;
    }
    let found: Vec<(usize, usize)> = splice_candidates(pcm, len);
    let w: usize = match quietest(scores) {
        Some(w) => w,
        None => {
            return len;
        },
    };
    let start: usize = found[w].0;
    let end: usize = found[w].1;
    proof {
        assert(wins(scores@, w as int));
        law_candidates_lie_between_crossings(pcm@, len as int, w as int);
    }
    let gap: usize = end - start;
    let ghost before = pcm@;
    if dir > 0 {
        let room: usize = pcm.len();
        if room - len < gap {
            return len;
        }
        let mut k: usize = len;
        while k > start
            invariant
                start <= k <= len,
                start < end <= len,
                gap == end - start,
                room == before.len(),
                len + gap <= room,
                pcm@.len() == before.len(),
                forall|j: int| k <= j < len ==> #[trigger] pcm@[j + gap] == before[j],
                forall|j: int|
                    0 <= j < before.len() && !(k + gap <= j < len + gap) ==> #[trigger] pcm@[j]
                        == before[j],
            decreases k,
        {
            k = k - 1;
            let v: u32 = pcm[k];
            let ghost prev = pcm@;
            pcm.set(k + gap, v);
            assert forall|j: int| k <= j < len implies #[trigger] pcm@[j + gap] == before[j] by {
                if j > k {
                    assert(prev[j + gap] == before[j]);
                }
            }
        }
        proof {
            let want = filled_frame(before, len as int, start as int, end as int);
            assert forall|j: int| 0 <= j < want.len() implies pcm@[j] == want[j] by {
                if end <= j < len + gap {
                    assert(pcm@[(j - gap) + gap] == before[j - gap]);
                }
            }
            assert(pcm@ =~= want);
        }
        len + gap
    } else {
        let mut k: usize = end;
        while k < len
            invariant
                end <= k <= len,
                start < end <= len,
                gap == end - start,
                len <= before.len(),
                pcm@.len() == before.len(),
                forall|j: int| end <= j < k ==> #[trigger] pcm@[j - gap] == before[j],
                forall|j: int|
                    0 <= j < before.len() && !(start <= j < k - gap) ==> #[trigger] pcm@[j]
                        == before[j],
            decreases len - k,
        {
            let v: u32 = pcm[k];
            let ghost prev = pcm@;
            pcm.set(k - gap, v);
            assert forall|j: int| end <= j < k + 1 implies #[trigger] pcm@[j - gap]
                == before[j] by {
                if j < k {
                    assert(prev[j - gap] == before[j]);
                }
            }
            k = k + 1;
        }
        proof {
            let want = drained_frame(before, len as int, start as int, end as int);
            assert forall|j: int| 0 <= j < want.len() implies pcm@[j] == want[j] by {
                if start <= j < len - gap {
                    assert(pcm@[(j + gap) - gap] == before[j + gap]);
                }
            }
            assert(pcm@ =~= want);
        }
        len - gap
    }
}

/// At most one candidate wins.
pub proof fn law_the_winner_is_unique(scores: Seq<u32>, i: int, j: int)
    requires
        wins(scores, i),
        wins(scores, j),
    ensures
        i == j,
{
    if i < j {
        assert(less_than(scores[j], scores[i]) || !less_than(scores[i], SCORE_CEILING));
    } else if j < i {
        assert(less_than(scores[i], scores[j]) || !less_than(scores[j], SCORE_CEILING));
    }
}

/// A fill lengthens the frame by exactly what a drain of the same segment removes.
pub proof fn law_fill_and_drain_mirror_each_other(pcm: Seq<u32>, len: int, start: int, end: int)
    requires
        1 <= start < end < len,
        len + (end - start) <= pcm.len(),
    ensures
        spliced(pcm, len, 1, start, end).1 - len == len - spliced(pcm, len, -1, start, end).1,
{
}

/// Draining the repeat out of a filled frame gives the frame back.
pub proof fn law_drain_undoes_fill(pcm: Seq<u32>, len: int, start: int, end: int)
    requires
        1 <= start < end < len,
        len + (end - start) <= pcm.len(),
    ensures
        ({
            let gap = end - start;
            let filled = filled_frame(pcm, len, start, end);
            drained_frame(filled, len + gap, start, end).subrange(0, len) == pcm.subrange(0, len)
        }),
{
    let gap = end - start;
    let filled = filled_frame(pcm, len, start, end);
    assert(drained_frame(filled, len + gap, start, end).subrange(0, len) =~= pcm.subrange(0, len));
}

/// Every two consecutive crossings inside the frame that lie between 120 and 239 samples apart
/// are a candidate, and there are no others. A crossing is a sample below zero after one that
/// is not.
pub proof fn law_candidates_are_all_fitting_neighbours(pcm: Seq<u32>, len: int, a: int, b: int)
    requires
        0 <= len <= pcm.len(),
    ensures
        candidates(pcm, len).contains((a, b)) <==> {
            &&& 1 <= a < b < len
            &&& 120 <= b - a < 240
            &&& at_least_zero(pcm[a - 1]) && less_than(pcm[a], 0)
            &&& at_least_zero(pcm[b - 1]) && less_than(pcm[b], 0)
            &&& forall|k: int|
                a < k < b ==> !(at_least_zero(#[trigger] pcm[k - 1]) && less_than(pcm[k], 0))
        },
{
    let at = crossings(pcm, len);
    let n = at.len() as int;
    lemma_crossings_in_order(pcm, len);
    lemma_crossings_complete(pcm, len);
    if candidates(pcm, len).contains((a, b)) {
        lemma_segment_neighbours(at, n, (a, b));
        let i = choose|i: int| 0 <= i < n - 1 && #[trigger] at[i] == a && at[i + 1] == b;
        assert(at[i] < at[i + 1]);
        assert forall|k: int| a < k < b implies !(at_least_zero(#[trigger] pcm[k - 1]) && less_than(
            pcm[k],
            0,
        )) by {
            if is_crossing(pcm, k) {
                assert(at.contains(k));
                let j = choose|j: int| 0 <= j < at.len() && at[j] == k;
                if j <= i {
                    if j < i {
                        assert(at[j] < at[i]);
                    }
                } else {
                    if j > i + 1 {
                        assert(at[i + 1] < at[j]);
                    }
                }
                assert(false);
            }
        }
    }
    if 1 <= a < b < len && 120 <= b - a < 240 && at_least_zero(pcm[a - 1]) && less_than(pcm[a], 0)
        && at_least_zero(pcm[b - 1]) && less_than(pcm[b], 0) && (forall|k: int|
        a < k < b ==> !(at_least_zero(#[trigger] pcm[k - 1]) && less_than(pcm[k], 0))) {
        assert(is_crossing(pcm, a) && is_crossing(pcm, b));
        let i = choose|i: int| 0 <= i < at.len() && at[i] == a;
        let j = choose|j: int| 0 <= j < at.len() && at[j] == b;
        assert(i < j) by {
            if j < i {
                assert(at[j] < at[i]);
            }
        }
        if i + 1 < j {
            assert(at[i] < at[i + 1] && at[i + 1] < at[j]);
            assert(is_crossing(pcm, at[i + 1]));
            let k = at[i + 1];
            assert(!(at_least_zero(pcm[k - 1]) && less_than(pcm[k], 0)));
            assert(false);
        }
        lemma_neighbours_are_segments(at, n, i);
    }
}

proof fn lemma_crossings_complete(pcm: Seq<u32>, n: int)
    requires
        n <= pcm.len(),
    ensures
        forall|k: int| 1 <= k < n && #[trigger] is_crossing(pcm, k) ==> crossings(pcm, n).contains(k),
    decreases n,
{
    if n > 1 {
        lemma_crossings_complete(pcm, n - 1);
        let prev = crossings(pcm, n - 1);
        let at = crossings(pcm, n);
        assert forall|k: int| 1 <= k < n && #[trigger] is_crossing(pcm, k) implies at.contains(k) by {
            if k < n - 1 {
                let i = choose|i: int| 0 <= i < prev.len() && prev[i] == k;
                assert(at[i] == k);
            } else {
                assert(at[prev.len() as int] == k);
            }
        }
    }
}

proof fn lemma_segment_neighbours(at: Seq<int>, n: int, seg: (int, int))
    requires
        n <= at.len(),
        segments(at, n).contains(seg),
    ensures
        exists|i: int| 0 <= i < n - 1 && #[trigger] at[i] == seg.0 && at[i + 1] == seg.1,
        120 <= seg.1 - seg.0 < 240,
    decreases n,
{
    if n > 1 {
        let prev = segments(at, n - 1);
        let all = segments(at, n);
        let k = choose|k: int| 0 <= k < all.len() && all[k] == seg;
        if k < prev.len() {
            assert(prev[k] == seg);
            assert(prev.contains(seg));
            lemma_segment_neighbours(at, n - 1, seg);
        } else {
            assert(at[n - 2] == seg.0 && at[n - 2 + 1] == seg.1);
        }
    }
}

proof fn lemma_neighbours_are_segments(at: Seq<int>, n: int, i: int)
    requires
        0 <= i < n - 1,
        n <= at.len(),
        120 <= at[i + 1] - at[i] < 240,
    ensures
        segments(at, n).contains((at[i], at[i + 1])),
    decreases n,
{
    let all = segments(at, n);
    let prev = segments(at, n - 1);
    if i == n - 2 {
        assert(all[prev.len() as int] == (at[i], at[i + 1]));
    } else {
        lemma_neighbours_are_segments(at, n - 1, i);
        let k = choose|k: int| 0 <= k < prev.len() && prev[k] == (at[i], at[i + 1]);
        assert(all[k] == (at[i], at[i + 1]));
    }
}

/// The winner is below 2 to the 63rd and no candidate is quieter; of several as quiet it is
/// the first. Where no candidate is below that, nothing wins, and else something does.
pub proof fn law_the_quietest_wins(scores: Seq<u32>, i: int, j: int)
    requires
        0 <= j < scores.len(),
    ensures
        wins(scores, i) ==> less_than(scores[i], 0x5f00_0000) && !less_than(scores[j], scores[i]),
        wins(scores, i) && j < i && less_than(scores[j], 0x5f00_0000) ==> less_than(
            scores[i],
            scores[j],
        ),
        less_than(scores[j], 0x5f00_0000) ==> !nothing_wins(scores),
        nothing_wins(scores) ==> !less_than(scores[j], 0x5f00_0000) && !wins(scores, i),
{
}

/// Sample by sample, a fill plays the frame to the end of the segment and then again from its
/// start, and a drain plays it to the start of the segment and then from its end; what lies
/// past the frame stays. A fill without room changes nothing.
pub proof fn law_every_sample_of_a_splice_has_its_source(
    pcm: Seq<u32>,
    len: int,
    dir: int,
    start: int,
    end: int,
    i: int,
)
    requires
        0 <= start < end <= len <= pcm.len(),
        0 <= i < pcm.len(),
    ensures
        ({
            let gap = end - start;
            let (out, n) = spliced(pcm, len, dir, start, end);
            &&& out.len() == pcm.len()
            &&& dir > 0 && len + gap > pcm.len() ==> out == pcm && n == len
            &&& dir > 0 && len + gap <= pcm.len() ==> n == len + gap && out[i] == (if i < end {
                pcm[i]
            } else if i < len + gap {
                pcm[i - gap]
            } else {
                pcm[i]
            })
            &&& dir < 0 ==> n == len - gap && out[i] == (if i < start {
                pcm[i]
            } else if i < len - gap {
                pcm[i + gap]
            } else {
                pcm[i]
            })
        }),
{
}

/// Candidates come in the order they stand in the frame, each once, and none overlaps another.
pub proof fn law_candidates_come_in_order(pcm: Seq<u32>, len: int, i: int, j: int)
    requires
        0 <= len <= pcm.len(),
        0 <= i < j < candidates(pcm, len).len(),
    ensures
        candidates(pcm, len)[i].1 <= candidates(pcm, len)[j].0,
{
    let at = crossings(pcm, len);
    lemma_crossings_in_order(pcm, len);
    lemma_segments_in_order(at, at.len() as int, i, j);
}

proof fn lemma_segments_in_order(at: Seq<int>, n: int, i: int, j: int)
    requires
        n <= at.len(),
        forall|a: int, b: int| 0 <= a < b < at.len() ==> #[trigger] at[a] < #[trigger] at[b],
        0 <= i < j < segments(at, n).len(),
    ensures
        segments(at, n)[i].1 <= segments(at, n)[j].0,
    decreases n,
{
    let rest = segments(at, n - 1);
    let all = segments(at, n);
    if n > 1 {
        assert(all[i] == rest[i]);
        if j < rest.len() {
            lemma_segments_in_order(at, n - 1, i, j);
            assert(all[j] == rest[j]);
        } else {
            assert(rest.contains(rest[i]));
            lemma_segment_neighbours(at, n - 1, rest[i]);
            let k = choose|k: int|
                0 <= k < n - 2 && #[trigger] at[k] == rest[i].0 && at[k + 1] == rest[i].1;
            assert(at[k + 1] <= at[n - 2]);
        }
    }
}

} // verus!
