//! Phase lock: the per-channel ratio ladder, the skew relay, the advancement gate and the
//! group mean, and the destination masks that channels are mixed by.

use vstd::prelude::*;

verus! {

/// Half-width of the band a channel's reference is held inside, measured from its
/// setpoint: 36 ms.
pub const SKEW_BAND_SAMPLES: i64 = 1728;

/// One more than the largest sample stamp.
pub open spec fn stamp_modulus() -> int {
    0x1_0000_0000
}

/// The resampling ratios, from the fastest to the slowest.
#[derive(Clone, Copy, Debug, PartialEq, Eq, Structural)]
pub enum Ratio {
    StrongUp,
    MediumUp,
    GentleUp,
    Unity,
    GentleDown,
    MediumDown,
    StrongDown,
}

/// The ratio in parts per ten thousand.
pub open spec fn ratio_parts(r: Ratio) -> int {
    match r {
        Ratio::StrongUp => 10020,
        Ratio::MediumUp => 10010,
        Ratio::GentleUp => 10005,
        Ratio::Unity => 10000,
        Ratio::GentleDown => 9995,
        Ratio::MediumDown => 9990,
        Ratio::StrongDown => 9980,
    }
}

impl Ratio {
    pub fn parts_per_ten_thousand(&self) -> (parts: u32)
        ensures
            parts == ratio_parts(*self),
    {
        match self {
            Ratio::StrongUp => 10020,
            Ratio::MediumUp => 10010,
            Ratio::GentleUp => 10005,
            Ratio::Unity => 10000,
            Ratio::GentleDown => 9995,
            Ratio::MediumDown => 9990,
            Ratio::StrongDown => 9980,
        }
    }
}

/// The ladder step for a deviation from the group mean.
pub open spec fn ladder_step(dev: int) -> Ratio {
    if dev >= 11 {
        Ratio::StrongUp
    } else if dev >= 2 {
        Ratio::MediumUp
    } else if dev == 1 {
        Ratio::GentleUp
    } else if dev == 0 {
        Ratio::Unity
    } else if dev == -1 {
        Ratio::GentleDown
    } else if dev > -11 {
        Ratio::MediumDown
    } else {
        Ratio::StrongDown
    }
}

/// Map a signed deviation (a channel's stamp less the group mean) to the fine ratio. A
/// channel ahead of the mean speeds up, one behind it slows down.
pub fn fill_ratio(dev: i32) -> (r: Ratio)
    ensures
        r == ladder_step(dev as int),
{
    if dev >= 11 {
        Ratio::StrongUp
    } else if dev >= 2 {
        Ratio::MediumUp
    } else if dev == 1 {
        Ratio::GentleUp
    } else if dev == 0 {
        Ratio::Unity
    } else if dev == -1 {
        Ratio::GentleDown
    } else if dev > -11 {
        Ratio::MediumDown
    } else {
        Ratio::StrongDown
    }
}

/// The ladder ratio of one channel, from its stamp and the group mean taken as the unsigned
/// counters they are: a stamp and a mean on opposite sides of the counter's wrap read as a
/// large deviation.
pub fn ladder_ratio(ts: u32, mean: u32) -> (r: Ratio)
    ensures
        r == ladder_step(ts - mean),
{
    let far: u32 = 0x7fff_ffff;
    if ts >= mean {
        let d: u32 = ts - mean;
        fill_ratio(if d < far { d as i32 } else { far as i32 })
    } else {
        let d: u32 = mean - ts;
        fill_ratio(-(if d < far { d as i32 } else { far as i32 }))
    }
}

/// The front of the staged window on the ring's timeline: the stamp at the read position
/// before the copy moves it, less the carried samples that sit ahead of it.
pub fn merge_ts_at_copy(cursor_ts: u32, leftover: usize) -> (ts: u32)
    ensures
        ts == (cursor_ts - leftover) % stamp_modulus(),
{
    let wide: u64 = leftover as u64;
    let low: u32 = #[verifier::truncate] (wide as u32);
    assert(wide as u32 == wide % 0x1_0000_0000) by (bit_vector);
    let ts: u32 = cursor_ts.wrapping_sub(low);
    proof {
        let q: int = leftover as int / 0x1_0000_0000;
        assert(leftover == q * 0x1_0000_0000 + low);
        assert((cursor_ts - leftover) % 0x1_0000_0000 == (cursor_ts - low) % 0x1_0000_0000)
            by (nonlinear_arith)
            requires
                leftover == q * 0x1_0000_0000 + low,
        ;
    }
    ts
}

/// Has the stamp moved forward since the one latched at the last dispatch? A plain unsigned
/// comparison: a stamp that has just wrapped sits out one cycle.
pub fn ts_advanced(last: u32, cur: u32) -> (advanced: bool)
    ensures
        advanced == (last < cur),
{
    last < cur
}

/// The half-width of the skew band for a setpoint.
pub open spec fn skew_band(setpoint: int) -> int {
    if SKEW_BAND_SAMPLES <= setpoint / 2 {
        SKEW_BAND_SAMPLES as int
    } else {
        setpoint / 2
    }
}

/// The skew decision: +1 at or below the band's lower edge, -1 at or above its upper edge,
/// 0 inside.
pub open spec fn skew_decision(reference: int, setpoint: int) -> int {
    if reference <= setpoint - skew_band(setpoint) {
        1
    } else if reference >= setpoint + skew_band(setpoint) {
        -1
    } else {
        0
    }
}

/// The three-state skew decision for one channel: which way its reference has to move to
/// come back inside the band about its setpoint.
pub fn skew_flag(reference: i64, setpoint: usize) -> (flag: i8)
    requires
        setpoint + SKEW_BAND_SAMPLES <= i64::MAX,
    ensures
        flag == skew_decision(reference as int, setpoint as int),
{
    let sp: i64 = setpoint as i64;
    let half: i64 = sp / 2;
    let band: i64 = if SKEW_BAND_SAMPLES <= half {
        SKEW_BAND_SAMPLES
    } else {
        half
    };
    if reference <= sp - band {
        1
    } else if reference >= sp + band {
        -1
    } else {
        0
    }
}

/// The shape of one phase-locked cycle's second pass.
#[derive(Clone, Copy, Debug, PartialEq, Eq, Structural)]
pub enum CyclePlan {
    /// No channel advanced: every channel at unity, and nothing else runs.
    AllUnity,
    /// Each advanced channel its own ladder ratio; every other channel unity.
    Ladder,
    /// The group decision: one ratio for every channel.
    Group,
}

pub open spec fn plan_of(advanced: int, common_engaged: bool, any_off_mean: bool) -> CyclePlan {
    if advanced == 0 {
        CyclePlan::AllUnity
    } else if !common_engaged && any_off_mean {
        CyclePlan::Ladder
    } else {
        CyclePlan::Group
    }
}

/// Which way the second pass goes. The ladder runs only while the common-mode correction is
/// disengaged and some advanced channel is off the mean.
pub fn cycle_plan(advanced: u64, common_engaged: bool, any_off_mean: bool) -> (plan: CyclePlan)
    ensures
        plan == plan_of(advanced as int, common_engaged, any_off_mean),
{
    if advanced == 0 {
        CyclePlan::AllUnity
    } else if !common_engaged && any_off_mean {
        CyclePlan::Ladder
    } else {
        CyclePlan::Group
    }
}

/// The rounded mean of `count` stamps that sum to `sum`: the floor of the mean and a half.
pub open spec fn rounded_mean(sum: int, count: int) -> int {
    if count == 0 {
        0
    } else {
        (sum + count / 2) / count
    }
}

/// The group mean, rounded, on the raw unsigned stamps; 0 for no channels.
pub fn group_mean(sum: u64, count: u64) -> (mean: u32)
    requires
        sum <= count * u32::MAX,
        sum + count / 2 <= u64::MAX,
    ensures
        mean == rounded_mean(sum as int, count as int),
{
    if count == 0 {
        return 0;
    }
    proof {
        let s = sum as int;
        let c = count as int;
        assert((s + c / 2) / c <= u32::MAX) by (nonlinear_arith)
            requires
                c > 0,
                s <= c * u32::MAX,
        ;
    }
    ((sum + count / 2) / count) as u32
}

/// The mask of a list of outputs: exactly the listed ones below 128.
pub open spec fn masks(outs: Seq<u8>, mask: u128) -> bool {
    forall|o: int| #[trigger]
        mask_has(mask, o) <==> 0 <= o < 128 && exists|i: int|
            0 <= i < outs.len() && #[trigger] outs[i] == o
}

/// Output `o` is in the mask.
pub open spec fn mask_has(mask: u128, o: int) -> bool {
    0 <= o < 128 && (mask >> (o as u128)) & 1 == 1
}

/// Convert a list of output channels into a destination mask. Outputs of 128 and above are
/// ignored.
pub fn outputs_to_mask(outs: &[u8]) -> (mask: u128)
    ensures
        masks(outs@, mask),
{
    let mut m: u128 = 0;
    proof {
        assert forall|o: int| !#[trigger] mask_has(0, o) by {
            let b = o as u128;
            assert((0u128 >> b) & 1 != 1) by (bit_vector);
        }
    }
    let mut k: usize = 0;
    while k < outs.len()
        invariant
            k <= outs@.len(),
            forall|o: int| #[trigger]
                mask_has(m, o) <==> 0 <= o < 128 && exists|i: int|
                    0 <= i < k && #[trigger] outs@[i] == o,
        decreases outs@.len() - k,
    {
        let o: u8 = outs[k];
        let ghost before = m;
        if o < 128 {
            m = m | (1u128 << o);
            proof {
                let b = o as u128;
                assert forall|j: int| #[trigger] mask_has(m, j) <==> mask_has(before, j) || j
                    == o by {
                    if 0 <= j < 128 {
                        lemma_mask_set(before, b, j as u128);
                    }
                }
            }
        }
        proof {
            assert forall|j: int| #[trigger] mask_has(m, j) <==> 0 <= j < 128 && exists|i: int|
                0 <= i < k + 1 && #[trigger] outs@[i] == j by {
                if mask_has(before, j) {
                    let i = choose|i: int| 0 <= i < k && #[trigger] outs@[i] == j;
                    assert(outs@[i] == j);
                }
                if 0 <= j < 128 && exists|i: int| 0 <= i < k + 1 && #[trigger] outs@[i] == j {
                    let i = choose|i: int| 0 <= i < k + 1 && #[trigger] outs@[i] == j;
                    if i < k {
                        assert(mask_has(before, j));
                    }
                }
                assert(outs@[k as int] == o);
            }
        }
        k = k + 1;
    }
    m
}

proof fn lemma_mask_set(m: u128, b: u128, j: u128)
    requires
        b < 128,
        j < 128,
    ensures
        ((m | (1u128 << b)) >> j) & 1 == 1 <==> (m >> j) & 1 == 1 || j == b,
{
    assert(((m | (1u128 << b)) >> j) & 1 == 1 <==> (m >> j) & 1 == 1 || j == b) by (bit_vector)
        requires
            b < 128,
            j < 128,
    ;
}

/// Two masks that have the same outputs agree in their lowest `n` bits.
proof fn lemma_low_bits_agree(x: u128, y: u128, n: u128)
    requires
        n < 128,
        forall|o: int| #[trigger] mask_has(x, o) == mask_has(y, o),
    ensures
        x & (((1u128 << n) - 1) as u128) == y & (((1u128 << n) - 1) as u128),
    decreases n,
{
    if n == 0 {
        assert(x & (((1u128 << 0u128) - 1) as u128) == y & (((1u128 << 0u128) - 1) as u128))
            by (bit_vector);
    } else {
        let m = (n - 1) as u128;
        lemma_low_bits_agree(x, y, m);
        assert(mask_has(x, m as int) == mask_has(y, m as int));
        assert(x & (((1u128 << n) - 1) as u128) == y & (((1u128 << n) - 1) as u128))
            by (bit_vector)
            requires
                n < 128,
                n == m + 1,
                x & (((1u128 << m) - 1) as u128) == y & (((1u128 << m) - 1) as u128),
                ((x >> m) & 1 == 1) == ((y >> m) & 1 == 1),
        ;
    }
}

/// A mask is what it has: two masks with the same outputs are one.
pub proof fn law_a_mask_is_its_outputs(x: u128, y: u128)
    requires
        forall|o: int| #[trigger] mask_has(x, o) == mask_has(y, o),
    ensures
        x == y,
{
    lemma_low_bits_agree(x, y, 127);
    assert(mask_has(x, 127) == mask_has(y, 127));
    assert(x == y) by (bit_vector)
        requires
            x & (((1u128 << 127u128) - 1) as u128) == y & (((1u128 << 127u128) - 1) as u128),
            ((x >> 127u128) & 1 == 1) == ((y >> 127u128) & 1 == 1),
    ;
}

/// The mask of two lists joined is the union of their masks.
pub proof fn law_joined_lists_join_their_masks(a: Seq<u8>, b: Seq<u8>, x: u128, y: u128, z: u128)
    requires
        masks(a, x),
        masks(b, y),
        masks(a + b, z),
    ensures
        z == x | y,
{
    assert forall|o: int| #[trigger] mask_has(z, o) == mask_has(x | y, o) by {
        if 0 <= o < 128 {
            let j = o as u128;
            assert(((x | y) >> j) & 1 == 1 <==> (x >> j) & 1 == 1 || (y >> j) & 1 == 1)
                by (bit_vector);
            assert(mask_has(x | y, o) == (mask_has(x, o) || mask_has(y, o)));
            if mask_has(x, o) {
                let i = choose|i: int| 0 <= i < a.len() && #[trigger] a[i] == o;
                assert((a + b)[i] == o);
            }
            if mask_has(y, o) {
                let i = choose|i: int| 0 <= i < b.len() && #[trigger] b[i] == o;
                assert((a + b)[a.len() + i] == o);
            }
            if mask_has(z, o) {
                let i = choose|i: int| 0 <= i < (a + b).len() && #[trigger] (a + b)[i] == o;
                if i < a.len() {
                    assert(a[i] == o);
                } else {
                    assert(b[i - a.len()] == o);
                }
            }
        }
    }
    law_a_mask_is_its_outputs(z, x | y);
}

/// The outputs of a mask below `n`, in ascending order.
pub open spec fn outputs_below(mask: u128, n: int) -> Seq<int>
    decreases n,
{
    if n <= 0 {
        Seq::empty()
    } else if mask_has(mask, n - 1) {
        outputs_below(mask, n - 1).push(n - 1)
    } else {
        outputs_below(mask, n - 1)
    }
}

/// The outputs a source is mixed into on a device with `nch` channels, in ascending order.
/// A route to an output that the device lacks stays valid and is not mixed.
pub fn mask_outputs(mask: u128, nch: usize) -> (outs: Vec<usize>)
    ensures
        outs@.len() == outputs_below(mask, nch as int).len(),
        forall|i: int|
            0 <= i < outs@.len() ==> #[trigger] outs@[i] == outputs_below(mask, nch as int)[i],
{
    let mut outs: Vec<usize> = Vec::new();
    let end: usize = if nch < 128 {
        nch
    } else {
        128
    };
    let mut o: usize = 0;
    while o < end
        invariant
            o <= end <= 128,
            outs@.len() == outputs_below(mask, o as int).len(),
            forall|i: int|
                0 <= i < outs@.len() ==> #[trigger] outs@[i] == outputs_below(mask, o as int)[i],
        decreases end - o,
    {
        if (mask >> (o as u128)) & 1 == 1 {
            outs.push(o);
        }
        o = o + 1;
    }
    proof {
        if nch > 128 {
            lemma_outputs_end(mask, nch as int);
        }
    }
    outs
}

proof fn lemma_outputs_end(mask: u128, n: int)
    requires
        n >= 128,
    ensures
        outputs_below(mask, n) == outputs_below(mask, 128),
    decreases n,
{
    if n > 128 {
        lemma_outputs_end(mask, n - 1);
    }
}

proof fn lemma_outputs_ascend(mask: u128, n: int)
    ensures
        forall|i: int|
            0 <= i < outputs_below(mask, n).len() ==> 0 <= #[trigger] outputs_below(mask, n)[i] < n
                && mask_has(mask, outputs_below(mask, n)[i]),
        forall|o: int|
            0 <= o < n && #[trigger] mask_has(mask, o) ==> outputs_below(mask, n).contains(o),
    decreases n,
{
    if n > 0 {
        lemma_outputs_ascend(mask, n - 1);
        let prev = outputs_below(mask, n - 1);
        let all = outputs_below(mask, n);
        assert forall|i: int| 0 <= i < all.len() implies 0 <= #[trigger] all[i] < n && mask_has(
            mask,
            all[i],
        ) by {
            if i < prev.len() {
                assert(all[i] == prev[i]);
            }
        }
        assert forall|o: int| 0 <= o < n && #[trigger] mask_has(mask, o) implies all.contains(
            o,
        ) by {
            if o < n - 1 {
                let i = choose|i: int| 0 <= i < prev.len() && prev[i] == o;
                assert(all[i] == o);
            } else {
                assert(all[prev.len() as int] == o);
            }
        }
    }
}

/// A source is mixed into exactly those outputs of the device that its mask names.
pub proof fn law_mixed_outputs_are_the_mask_s(mask: u128, nch: int, o: int)
    ensures
        outputs_below(mask, nch).contains(o) <==> 0 <= o < nch && mask_has(mask, o),
{
    lemma_outputs_ascend(mask, nch);
    if outputs_below(mask, nch).contains(o) {
        let i = choose|i: int|
            0 <= i < outputs_below(mask, nch).len() && outputs_below(mask, nch)[i] == o;
        assert(0 <= outputs_below(mask, nch)[i] < nch);
    }
}

/// The ladder never slows a channel that is further ahead, and pulls each side its own way.
pub proof fn law_ladder_is_monotone(a: int, b: int)
    requires
        a <= b,
    ensures
        ratio_parts(ladder_step(a)) <= ratio_parts(ladder_step(b)),
        b > 0 ==> ratio_parts(ladder_step(b)) > 10000,
        a < 0 ==> ratio_parts(ladder_step(a)) < 10000,
        ratio_parts(ladder_step(a)) == 10000 <==> a == 0,
{
}

/// Equal deviations either side of the mean are corrected by equal and opposite ratios.
pub proof fn law_ladder_is_symmetric(dev: int)
    ensures
        ratio_parts(ladder_step(dev)) - 10000 == 10000 - ratio_parts(ladder_step(-dev)),
{
}

/// A flagged reference is outside the band, and the flag points back toward the setpoint; an
/// unflagged one is strictly inside.
pub proof fn law_skew_flag_points_toward_the_setpoint(reference: int, setpoint: int)
    requires
        setpoint >= 2,
    ensures
        skew_decision(reference, setpoint) == 1 ==> reference < setpoint,
        skew_decision(reference, setpoint) == -1 ==> reference > setpoint,
        skew_decision(reference, setpoint) == 0 <==> setpoint - skew_band(setpoint) < reference
            < setpoint + skew_band(setpoint),
{
}

/// The rounded mean of stamps lies between the lowest and the highest of them.
pub proof fn law_mean_lies_among_the_stamps(sum: int, count: int, lo: int, hi: int)
    requires
        count > 0,
        count * lo <= sum <= count * hi,
    ensures
        lo <= rounded_mean(sum, count) <= hi,
{
    assert(lo <= (sum + count / 2) / count <= hi) by (nonlinear_arith)
        requires
            count > 0,
            count * lo <= sum <= count * hi,
    ;
}

/// The ladder by distance: a channel off its group's mean by one sample is corrected by five
/// parts in ten thousand, by up to ten samples by ten parts, and by more by twenty, faster
/// where it is ahead and slower where it is behind; one on the mean runs at unity.
pub proof fn law_the_ladder_has_three_steps(dev: int)
    ensures
        ({
            let parts = ratio_parts(ladder_step(dev)) - 10000;
            &&& dev == 0 ==> parts == 0
            &&& dev == 1 ==> parts == 5
            &&& dev == -1 ==> parts == -5
            &&& 2 <= dev <= 10 ==> parts == 10
            &&& -10 <= dev <= -2 ==> parts == -10
            &&& dev >= 11 ==> parts == 20
            &&& dev <= -11 ==> parts == -20
        }),
{
}

/// A fill runs at 1.002, a drain at 0.998 and unity at 1.
pub proof fn law_ratios_are_what_they_are_called()
    ensures
        ratio_parts(Ratio::StrongUp) == 10020,
        ratio_parts(Ratio::Unity) == 10000,
        ratio_parts(Ratio::StrongDown) == 9980,
{
}

/// A reference at or below the lower edge of the band is to rise, one at or above the upper
/// edge to fall, and one between them to stay. The band is half the setpoint, and 36 ms at
/// most.
pub proof fn law_the_skew_band(reference: int, setpoint: int)
    requires
        setpoint >= 0,
    ensures
        ({
            let band = if setpoint / 2 < 1728 {
                setpoint / 2
            } else {
                1728
            };
            &&& reference <= setpoint - band ==> skew_decision(reference, setpoint) == 1
            &&& setpoint - band < reference < setpoint + band ==> skew_decision(reference, setpoint)
                == 0
            &&& setpoint - band < reference && setpoint + band <= reference ==> skew_decision(
                reference,
                setpoint,
            ) == -1
        }),
{
}

/// The rounded mean is the whole number nearest to the mean, the upper one where two are as
/// near.
pub proof fn law_the_mean_is_the_nearest(sum: int, count: int)
    requires
        count > 0,
    ensures
        -count <= 2 * (sum - rounded_mean(sum, count) * count) < count,
{
    let h = count / 2;
    let m = (sum + h) / count;
    assert(m * count <= sum + h < m * count + count) by (nonlinear_arith)
        requires
            count > 0,
            m == (sum + h) / count,
    ;
}

/// Where nothing advanced every channel runs at unity; where something did, the ladder runs
/// exactly while the common mode is released and some stamp is off the mean, and else the
/// group decides.
pub proof fn law_which_way_a_cycle_goes(advanced: int, engaged: bool, off: bool)
    ensures
        plan_of(advanced, engaged, off) == CyclePlan::AllUnity <==> advanced == 0,
        plan_of(advanced, engaged, off) == CyclePlan::Ladder <==> advanced != 0 && !engaged && off,
        plan_of(advanced, engaged, off) == CyclePlan::Group <==> advanced != 0 && (engaged || !off),
{
}

/// A mask is binary: its lowest output is its parity, and halving it moves every output down
/// by one.
pub proof fn law_a_mask_is_binary(mask: u128, o: int)
    requires
        0 <= o < 127,
    ensures
        mask_has(mask, 0) <==> mask % 2 == 1,
        mask_has(mask, o + 1) <==> mask_has(mask / 2, o),
        !mask_has(mask, 128),
        !mask_has(0, o),
{
    let k = o as u128;
    let up = (o + 1) as u128;
    assert((mask >> 0u128) & 1 == 1 <==> mask % 2 == 1) by (bit_vector);
    assert((mask >> up) & 1 == ((mask / 2) >> k) & 1) by (bit_vector)
        requires
            up == k + 1,
            k < 127,
    ;
    assert((0u128 >> k) & 1 == 0) by (bit_vector);
}

/// A copied window's stamp lies as far before the cursor as samples are left over, around the
/// 32-bit circle; a stamp has moved on only where it is larger.
pub proof fn law_a_window_s_stamp_lies_before_the_cursor(
    cursor: u32,
    leftover: usize,
    ts: u32,
    last: u32,
    advanced: bool,
)
    requires
        call_ensures(merge_ts_at_copy, (cursor, leftover), ts),
        call_ensures(ts_advanced, (last, ts), advanced),
    ensures
        leftover <= cursor ==> ts == cursor - leftover,
        (ts + leftover - cursor) % 0x1_0000_0000 == 0,
        advanced <==> ts > last,
{
}

/// A list of outputs makes the mask of just those outputs.
pub proof fn law_a_list_makes_its_mask(outs: &[u8], mask: u128, o: int)
    requires
        call_ensures(outputs_to_mask, (outs,), mask),
    ensures
        mask_has(mask, o) <==> 0 <= o < 128 && exists|i: int|
            0 <= i < outs@.len() && #[trigger] outs@[i] == o,
{
}

/// The outputs of a mask are listed in ascending order.
pub proof fn law_outputs_ascend(mask: u128, n: int)
    ensures
        forall|a: int| 0 <= a < outputs_below(mask, n).len()
            ==> #[trigger] outputs_below(mask, n)[a] < n,
        forall|a: int, b: int|
            0 <= a < b < outputs_below(mask, n).len() ==> #[trigger] outputs_below(mask, n)[a]
                < #[trigger] outputs_below(mask, n)[b],
    decreases n,
{
    if n > 0 {
        law_outputs_ascend(mask, n - 1);
        let rest = outputs_below(mask, n - 1);
        let all = outputs_below(mask, n);
        assert forall|a: int| 0 <= a < all.len() implies #[trigger] all[a] < n by {
            if a < rest.len() {
                assert(all[a] == rest[a]);
            }
        }
        assert forall|a: int, b: int| 0 <= a < b < all.len() implies #[trigger] all[a]
            < #[trigger] all[b] by {
            assert(all[a] == rest[a]);
            if b < rest.len() {
                assert(all[b] == rest[b]);
            }
        }
    }
}

} // verus!
