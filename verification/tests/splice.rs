//! The zero-crossing splice.

use cascade::audio::splice::{quietest, splice_candidates, zero_crossing_splice};

/// Score every candidate by its mean energy, splice, and hand the samples back.
fn splice(pcm: &mut [f32], len: usize, dir: i8) -> usize {
    let mut bits: Vec<u32> = pcm.iter().map(|s| s.to_bits()).collect();
    let scores: Vec<u32> = splice_candidates(&bits, len)
        .iter()
        .map(|&(start, end)| {
            let mut energy = pcm[start] * pcm[start];
            for s in &pcm[start + 1..end] {
                energy += s * s;
            }
            (energy / (end - start) as f32).to_bits()
        })
        .collect();
    let out = zero_crossing_splice(&mut bits, len, dir, &scores);
    for (s, b) in pcm.iter_mut().zip(bits.iter()) {
        *s = f32::from_bits(*b);
    }
    out
}

fn sine(len: usize, period: f32, amp: f32, phase: f32) -> Vec<f32> {
    (0..len).map(|i| amp * ((i as f32 / period + phase) * std::f32::consts::TAU).sin())
        .collect()
}

#[test]
fn drain_removes_the_gap_between_two_crossings() {
    let mut pcm = sine(960, 150.0, 0.5, 0.0);
    let out = splice(&mut pcm, 960, -1);
    assert!(out < 960, "drain must shorten the frame");
    let gap = 960 - out;
    assert!((120..240).contains(&gap), "gap {gap} outside the 120..240 window");
}

#[test]
fn fill_lengthens_the_frame_by_the_same_segment_drain_would_remove() {
    let mut a = sine(1920, 150.0, 0.5, 0.0);
    let mut b = a.clone();
    let drained = splice(&mut a, 960, -1);
    let filled  = splice(&mut b, 960, 1);
    assert!(filled > 960, "fill must lengthen the frame");
    assert_eq!(960 - drained, filled - 960,
               "both directions must move by the winning segment's own length");
}

#[test]
fn fill_is_exactly_the_input_with_one_segment_repeated() {
    let src = sine(1920, 150.0, 0.5, 0.0);
    let mut pcm = src.clone();
    let out = splice(&mut pcm, 960, 1);
    let gap = out - 960;
    assert!(gap > 0, "fill must have spliced something");

    let seam = (0..960).take_while(|&i| pcm[i] == src[i]).count();
    assert!(seam >= gap, "seam {seam} cannot precede the segment it repeats");
    assert_eq!(&pcm[seam..out], &src[seam - gap..960],
               "everything after the seam must be the input replayed from `gap` back");
}

#[test]
fn fill_falls_back_to_a_plain_copy_with_no_room_to_grow() {
    let mut pcm = sine(960, 150.0, 0.5, 0.0);
    assert_eq!(splice(&mut pcm, 960, 1), 960,
               "no spare capacity — the frame must be returned unmodified");
}

#[test]
fn dir_zero_is_a_no_op() {
    let mut pcm = sine(960, 150.0, 0.5, 0.0);
    assert_eq!(splice(&mut pcm, 960, 0), 960);
}

#[test]
fn no_crossing_falls_through_to_plain_copy() {
    // Entirely positive: no positive-to-negative crossing exists anywhere.
    let mut pcm = vec![0.25f32; 960];
    assert_eq!(splice(&mut pcm, 960, -1), 960);
}

#[test]
fn drop_amount_is_the_segment_between_consecutive_crossings() {
    // The candidate is scored on its distance from the PREVIOUS candidate, and DRAIN
    // removes exactly that segment — never the crossing's absolute position. With
    // crossings every 150 samples from 75, every segment is 150 long, so the drop must
    // be 150. An absolute-position reading would remove 225 here (the winning
    // crossing's own offset), which is both a different amount and, at other phases,
    // one that can fall outside the search window entirely.
    let mut pcm = sine(960, 150.0, 0.9, 0.0);
    let out = splice(&mut pcm, 960, -1);
    assert_eq!(960 - out, 150,
               "DRAIN must remove the segment between two consecutive crossings, not \
                the winning crossing's absolute position");
}

#[test]
fn a_quieter_later_segment_wins() {
    // The origin resets at every candidate, so EVERY segment is eligible wherever it
    // sits in the frame — not just those near the start. Crossings at 75, 225, 375,
    // 525… are all 150 apart and all qualify, so quietening the 375..525 span must
    // make that segment win and change which samples are removed.
    //
    // A fixed origin would score these as 150, 300, 450 from the first crossing, so
    // only the 225 candidate could ever qualify and the quieter later span would be
    // unreachable — the output would be identical either way.
    let mut a = sine(960, 150.0, 0.9, 0.0);
    let mut b = a.clone();
    for v in b[375..525].iter_mut() { *v *= 0.01; }
    let out_a = splice(&mut a, 960, -1);
    let out_b = splice(&mut b, 960, -1);
    // Both remove one 150-sample segment; the point is WHICH one.
    assert_eq!(960 - out_a, 150);
    assert_eq!(960 - out_b, 150);
    assert_ne!(a, b, "the quieter later segment must be the one removed, so the \
                      spliced output must differ from the uniform case");
}

#[test]
fn the_first_splice_candidate_counts_its_first_sample() {
    let mut pcm = vec![0.0f32; 400];
    pcm[0]   = 0.1;
    pcm[1]   = -0.9;   // first segment: [1, 150)
    pcm[150] = -0.5;   // second segment: [150, 299)
    pcm[299] = -0.5;
    let out = splice(&mut pcm, 400, -1);
    assert_eq!(out, 400 - 149);
    assert_eq!(pcm[1], -0.9, "the louder first segment is kept");
    assert_eq!(pcm[150], -0.5, "the quieter second one is dropped");
}

#[test]
fn draining_a_filled_frame_gives_it_back() {
    let src = sine(1920, 150.0, 0.5, 0.0);
    let mut pcm: Vec<u32> = src.iter().map(|s| s.to_bits()).collect();
    let before = pcm.clone();
    let n = splice_candidates(&pcm, 960).len();
    assert_eq!(n, 5);
    // Only the third candidate is below the ceiling.
    let mut scores = vec![f32::NAN.to_bits(); n];
    scores[2] = 0.25f32.to_bits();
    assert_eq!(quietest(&scores), Some(2));
    let filled = zero_crossing_splice(&mut pcm, 960, 1, &scores);
    assert_eq!(filled, 960 + 150);
    let again = splice_candidates(&pcm, filled);
    let mut scores = vec![f32::NAN.to_bits(); again.len()];
    scores[2] = 0.25f32.to_bits();
    let drained = zero_crossing_splice(&mut pcm, filled, -1, &scores);
    assert_eq!(drained, 960);
    assert_eq!(&pcm[..960], &before[..960]);
}

#[test]
fn the_earlier_of_two_equal_candidates_wins() {
    let s = |v: f32| v.to_bits();
    assert_eq!(quietest(&vec![s(0.5), s(0.25), s(0.25)]), Some(1));
    assert_eq!(quietest(&vec![s(9.3e18), s(f32::INFINITY)]), None, "none below the ceiling");
    assert_eq!(quietest(&Vec::new()), None);
}
