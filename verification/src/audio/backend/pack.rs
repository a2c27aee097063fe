//! Integer samples as bytes, low byte first, in containers of two to four bytes.

use vstd::prelude::*;

verus! {

/// A value in two's complement, low byte first, in `w` bytes. Of a wider value the low bytes
/// count.
pub open spec fn packed(v: int, w: int) -> Seq<u8>
    decreases w,
{
    if w <= 0 {
        Seq::empty()
    } else {
        seq![(v % 256) as u8] + packed(v / 256, w - 1)
    }
}

/// Bytes as an unsigned number, low byte first.
pub open spec fn unsigned(bytes: Seq<u8>, from: int, w: int) -> int
    decreases w,
{
    if w <= 0 {
        0
    } else {
        bytes[from] + 256 * unsigned(bytes, from + 1, w - 1)
    }
}

/// Two hundred and fifty-six to the power of `w`.
pub open spec fn span(w: int) -> int
    decreases w,
{
    if w <= 0 {
        1
    } else {
        256 * span(w - 1)
    }
}

/// Bytes in two's complement, low byte first, as a value.
pub open spec fn unpacked(bytes: Seq<u8>, from: int, w: int) -> int {
    let u = unsigned(bytes, from, w);
    if 2 * u >= span(w) {
        u - span(w)
    } else {
        u
    }
}

/// The first `n` values packed, one after another.
pub open spec fn packed_all(values: Seq<i32>, w: int, n: int) -> Seq<u8>
    decreases n,
{
    if n <= 0 {
        Seq::empty()
    } else {
        packed_all(values, w, n - 1) + packed(values[n - 1] as int, w)
    }
}

/// How many samples of `w` bytes both `len` bytes and `limit` hold.
pub open spec fn fitting(len: int, w: int, limit: int) -> int {
    if len / w < limit {
        len / w
    } else {
        limit
    }
}

/// The first `n` samples of the bytes.
pub open spec fn unpacked_all(bytes: Seq<u8>, w: int, n: int) -> Seq<i32> {
    Seq::new(n as nat, |i: int| unpacked(bytes, w * i, w) as i32)
}

/// A multiple of the container's span does not show in it.
proof fn lemma_packed_wraps(v: int, m: int, w: int)
    requires
        w >= 0,
    ensures
        packed(v + span(w) * m, w) == packed(v, w),
    decreases w,
{
    if w > 0 {
        let k = span(w - 1) * m;
        assert(span(w) * m == 256 * k) by (nonlinear_arith)
            requires
                span(w) == 256 * span(w - 1),
                k == span(w - 1) * m,
        ;
        assert((v + 256 * k) % 256 == v % 256);
        assert((v + 256 * k) / 256 == v / 256 + k);
        lemma_packed_wraps(v / 256, m, w - 1);
    }
}

proof fn lemma_spans()
    ensures
        span(1) == 0x100,
        span(2) == 0x1_0000,
        span(3) == 0x100_0000,
        span(4) == 0x1_0000_0000,
{
    reveal_with_fuel(span, 5);
}

proof fn lemma_unsigned_bound(bytes: Seq<u8>, from: int, w: int)
    requires
        w >= 0,
    ensures
        0 <= unsigned(bytes, from, w) < span(w),
    decreases w,
{
    if w > 0 {
        lemma_unsigned_bound(bytes, from + 1, w - 1);
    }
}

/// Write integer samples into containers of `w` bytes. Of each the low bytes count.
pub fn pack(values: &Vec<i32>, w: usize) -> (bytes: Vec<u8>)
    requires
        2 <= w <= 4,
    ensures
        bytes@ == packed_all(values@, w as int, values@.len() as int),
{
    let mut out: Vec<u8> = Vec::new();
    let mut i: usize = 0;
    while i < values.len()
        invariant
            i <= values@.len(),
            2 <= w <= 4,
            out@ == packed_all(values@, w as int, i as int),
        decreases values@.len() - i,
    {
        let v: i32 = values[i];
        let ghost before = out@;
        // Above zero, and the same in every byte the container has.
        let mut rest: u64 = (v as i64 + 0x1_0000_0000) as u64;
        proof {
            lemma_spans();
            let m: int = if w == 2 {
                0x1_0000
            } else if w == 3 {
                0x100
            } else {
                1
            };
            assert(span(w as int) * m == 0x1_0000_0000) by {
                assert(0x1_0000int * 0x1_0000 == 0x1_0000_0000);
                assert(0x100_0000int * 0x100 == 0x1_0000_0000);
            }
            lemma_packed_wraps(v as int, m, w as int);
        }
        let mut left: usize = w;
        while left > 0
            invariant
                left <= w,
                out@ + packed(rest as int, left as int) == before + packed(v as int, w as int),
            decreases left,
        {
            let ghost rested = rest;
            let ghost held = out@;
            out.push((rest % 256) as u8);
            rest = rest / 256;
            left = left - 1;
            assert(held + packed(rested as int, left + 1) =~= out@ + packed(
                rest as int,
                left as int,
            ));
        }
        assert(out@ =~= out@ + packed(rest as int, 0));
        i = i + 1;
    }
    out
}

/// Read samples out of containers of `w` bytes: as many as both the bytes and `limit` hold.
pub fn unpack(bytes: &Vec<u8>, w: usize, limit: usize) -> (values: Vec<i32>)
    requires
        2 <= w <= 4,
    ensures
        values@ == unpacked_all(
            bytes@,
            w as int,
            fitting(bytes@.len() as int, w as int, limit as int),
        ),
{
    let whole: usize = bytes.len() / w;
    let n: usize = if whole < limit {
        whole
    } else {
        limit
    };
    proof {
        assert(whole * w <= bytes@.len()) by (nonlinear_arith)
            requires
                whole == bytes@.len() as int / w as int,
                w > 0,
        ;
        lemma_spans();
    }
    let mut out: Vec<i32> = Vec::new();
    let mut i: usize = 0;
    while i < n
        invariant
            2 <= w <= 4,
            i <= n <= whole,
            whole * w <= bytes@.len(),
            bytes@.len() == bytes.len(),
            span(2) == 0x1_0000,
            span(3) == 0x100_0000,
            span(4) == 0x1_0000_0000,
            out@ == unpacked_all(bytes@, w as int, i as int),
        decreases n - i,
    {
        assert(w * i + w <= whole * w) by (nonlinear_arith)
            requires
                i < whole,
        ;
        let from: usize = w * i;
        let mut u: u64 = 0;
        let mut left: usize = w;
        while left > 0
            invariant
                2 <= w <= 4,
                left <= w,
                from + w <= bytes@.len(),
                bytes@.len() == bytes.len(),
                u == unsigned(bytes@, from + left, w - left),
                u < span(w - left),
            decreases left,
        {
            left = left - 1;
            proof {
                reveal_with_fuel(span, 5);
            }
            u = bytes[from + left] as u64 + 256 * u;
        }
        proof {
            lemma_unsigned_bound(bytes@, from as int, w as int);
        }
        let full: u64 = if w == 2 {
            0x1_0000
        } else if w == 3 {
            0x100_0000
        } else {
            0x1_0000_0000
        };
        let v: i32 = if 2 * u >= full {
            (u as i64 - full as i64) as i32
        } else {
            u as i32
        };
        out.push(v);
        i = i + 1;
        assert(out@ =~= unpacked_all(bytes@, w as int, i as int));
    }
    out
}

/// Packing a value that the container holds and unpacking it gives it back, sign and all.
pub proof fn law_packing_round_trips(v: int, w: int)
    requires
        2 <= w <= 4,
        -span(w) <= 2 * v < span(w),
    ensures
        packed(v, w).len() == w,
        unpacked(packed(v, w), 0, w) == v,
{
    reveal_with_fuel(packed, 5);
    reveal_with_fuel(unsigned, 5);
    lemma_spans();
    let b = packed(v, w);
    let v1 = v / 256;
    let v2 = v1 / 256;
    let v3 = v2 / 256;
    assert(b[0] == v % 256);
    assert(b[1] == v1 % 256);
    if w == 2 {
        assert(b =~= seq![(v % 256) as u8, (v1 % 256) as u8]);
    } else if w == 3 {
        assert(b =~= seq![(v % 256) as u8, (v1 % 256) as u8, (v2 % 256) as u8]);
    } else {
        assert(b =~= seq![
            (v % 256) as u8,
            (v1 % 256) as u8,
            (v2 % 256) as u8,
            (v3 % 256) as u8,
        ]);
    }
}

/// The packed samples stand one after another, each in its own container: as many bytes as
/// containers, and each sample's own at its place.
pub proof fn law_samples_stand_one_after_another(values: Seq<i32>, w: int, n: int, i: int)
    requires
        0 < w <= 4,
        0 <= i < n <= values.len(),
    ensures
        packed_all(values, w, n).len() == w * n,
        packed_all(values, w, n).subrange(w * i, w * i + w) == packed(values[i] as int, w),
    decreases n,
{
    let all = packed_all(values, w, n);
    let rest = packed_all(values, w, n - 1);
    lemma_packed_len(values[n - 1] as int, w);
    lemma_packed_all_len(values, w, n - 1);
    assert(w * n == w * (n - 1) + w) by (nonlinear_arith);
    if i == n - 1 {
        assert(all.subrange(w * i, w * i + w) =~= packed(values[i] as int, w));
    } else {
        law_samples_stand_one_after_another(values, w, n - 1, i);
        assert(w * i + w <= w * (n - 1) && 0 <= w * i) by (nonlinear_arith)
            requires
                0 <= i < n - 1,
                w > 0,
        ;
        assert(all.subrange(w * i, w * i + w) =~= rest.subrange(w * i, w * i + w));
    }
}

proof fn lemma_packed_len(v: int, w: int)
    requires
        w >= 0,
    ensures
        packed(v, w).len() == w,
    decreases w,
{
    if w > 0 {
        lemma_packed_len(v / 256, w - 1);
    }
}

proof fn lemma_packed_all_len(values: Seq<i32>, w: int, n: int)
    requires
        w >= 0,
        0 <= n,
    ensures
        packed_all(values, w, n).len() == w * n,
    decreases n,
{
    if n > 0 {
        lemma_packed_all_len(values, w, n - 1);
        lemma_packed_len(values[n - 1] as int, w);
        assert(w * n == w * (n - 1) + w) by (nonlinear_arith);
    } else {
        assert(w * n == 0) by (nonlinear_arith)
            requires
                n == 0,
        ;
    }
}

/// The low byte comes first, and a wider value keeps its low bytes.
pub proof fn law_the_low_byte_comes_first(v: int)
    requires
        0 <= v < 0x1_0000_0000,
    ensures
        packed(v, 4) == seq![
            (v % 0x100) as u8,
            (v / 0x100 % 0x100) as u8,
            (v / 0x1_0000 % 0x100) as u8,
            (v / 0x100_0000) as u8,
        ],
        packed(v, 3) == packed(v, 4).subrange(0, 3),
        packed(v, 2) == packed(v, 4).subrange(0, 2),
{
    reveal_with_fuel(packed, 5);
    assert(v / 0x100 / 0x100 == v / 0x1_0000);
    assert(v / 0x100 / 0x100 / 0x100 == v / 0x100_0000);
    assert(packed(v, 4) =~= seq![
        (v % 0x100) as u8,
        (v / 0x100 % 0x100) as u8,
        (v / 0x1_0000 % 0x100) as u8,
        (v / 0x100_0000) as u8,
    ]);
    assert(packed(v, 3) =~= packed(v, 4).subrange(0, 3));
    assert(packed(v, 2) =~= packed(v, 4).subrange(0, 2));
}

/// As many samples are read as the bytes hold whole, and never more than the limit; each is
/// read from its own container.
pub proof fn law_only_whole_samples_are_read(bytes: Seq<u8>, w: int, limit: int, i: int)
    requires
        2 <= w <= 4,
        limit >= 0,
    ensures
        ({
            let n = fitting(bytes.len() as int, w, limit);
            &&& 0 <= n <= limit && n * w <= bytes.len()
            &&& n < limit ==> (n + 1) * w > bytes.len()
            &&& unpacked_all(bytes, w, n).len() == n
            &&& 0 <= i < n ==> {
                let v = unpacked_all(bytes, w, n)[i] as int;
                let u = unsigned(bytes, w * i, w);
                &&& v == u || v == u - span(w)
                &&& -span(w) <= 2 * v < span(w)
            }
        }),
{
    let len = bytes.len() as int;
    let n = fitting(len, w, limit);
    assert(0 <= len / w && (len / w) * w <= len && (len / w + 1) * w > len) by (nonlinear_arith)
        requires
            w > 0,
            len >= 0,
    ;
    assert(n * w <= (len / w) * w) by (nonlinear_arith)
        requires
            n <= len / w,
            w > 0,
    ;
    if 0 <= i < n {
        lemma_spans();
        lemma_unsigned_bound(bytes, w * i, w);
        let x = unpacked(bytes, w * i, w);
        assert(i32::MIN <= x <= i32::MAX);
    }
}

/// A container of two, three or four bytes gives back every value of 16, 24 or 32 bits.
pub proof fn law_a_container_holds_its_bits(v: int)
    ensures
        -0x8000 <= v < 0x8000 ==> unpacked(packed(v, 2), 0, 2) == v,
        -0x80_0000 <= v < 0x80_0000 ==> unpacked(packed(v, 3), 0, 3) == v,
        -0x8000_0000 <= v < 0x8000_0000 ==> unpacked(packed(v, 4), 0, 4) == v,
{
    lemma_spans();
    if -0x8000 <= v < 0x8000 {
        law_packing_round_trips(v, 2);
    }
    if -0x80_0000 <= v < 0x80_0000 {
        law_packing_round_trips(v, 3);
    }
    if -0x8000_0000 <= v < 0x8000_0000 {
        law_packing_round_trips(v, 4);
    }
}

} // verus!
