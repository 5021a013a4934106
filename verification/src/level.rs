//! The response curve: a count, cut at the clipping value, becomes the
//! brightness `max * (count / clip)^(1/4)`, rounded to the nearest integer.
//!
//! The fourth root is never taken. A level `k >= 1` is reached exactly when
//! `max * (count / clip)^(1/4) >= k - 1/2`, which in integers reads
//! `(2 * max)^4 * count >= (2 * k - 1)^4 * clip`.

use vstd::prelude::*;

verus! {

/// The fourth power.
pub open spec fn fourth(n: int) -> int {
    n * n * n * n
}

/// Whether the brightness of `v` out of `c`, on a scale from 0 to `m`, rounds
/// to `k` or more.
pub open spec fn reaches(v: int, c: int, m: int, k: int) -> bool {
    k <= 0 || fourth(2 * m) * v >= fourth(2 * k - 1) * c
}

/// The largest level up to `k` that `v` out of `c` reaches.
pub open spec fn level_from(v: int, c: int, m: int, k: nat) -> nat
    decreases k,
{
    if k == 0 {
        0
    } else if reaches(v, c, m, k as int) {
        k
    } else {
        level_from(v, c, m, (k - 1) as nat)
    }
}

/// The count that is mapped: `count`, but no more than `clip`.
pub open spec fn clamped(count: int, clip: int) -> int {
    if count >= clip {
        clip
    } else {
        count
    }
}

/// The level of a pixel that was visited `count` times, where `clip` maps to
/// the brightest level `max`: `max * (min(count, clip) / clip)^(1/4)`, rounded
/// half up. With a clipping value of zero every pixel is dark.
pub open spec fn level_of(count: int, clip: int, max: int) -> int {
    if clip <= 0 || max <= 0 {
        0
    } else {
        level_from(clamped(count, clip), clip, max, max as nat) as int
    }
}

/// The fourth power grows with its argument.
pub proof fn lemma_fourth_monotonic(a: int, b: int)
    requires
        0 <= a <= b,
    ensures
        0 <= fourth(a) <= fourth(b),
{
    assert(0 <= a * a <= b * b) by (nonlinear_arith)
        requires
            0 <= a <= b,
    ;
    let a2 = a * a;
    let b2 = b * b;
    assert(0 <= a2 * a2 <= b2 * b2) by (nonlinear_arith)
        requires
            0 <= a2 <= b2,
    ;
    assert(fourth(a) == a2 * a2) by (nonlinear_arith)
        requires
            a2 == a * a,
            fourth(a) == a * a * a * a,
    ;
    assert(fourth(b) == b2 * b2) by (nonlinear_arith)
        requires
            b2 == b * b,
            fourth(b) == b * b * b * b,
    ;
}

/// The fourth power grows strictly with its argument.
pub proof fn lemma_fourth_strictly_monotonic(a: int, b: int)
    requires
        0 <= a < b,
    ensures
        fourth(a) < fourth(b),
{
    assert(0 <= a * a < b * b) by (nonlinear_arith)
        requires
            0 <= a < b,
    ;
    let a2 = a * a;
    let b2 = b * b;
    assert(a2 * a2 < b2 * b2) by (nonlinear_arith)
        requires
            0 <= a2 < b2,
    ;
    assert(fourth(a) == a2 * a2) by (nonlinear_arith)
        requires
            a2 == a * a,
            fourth(a) == a * a * a * a,
    ;
    assert(fourth(b) == b2 * b2) by (nonlinear_arith)
        requires
            b2 == b * b,
            fourth(b) == b * b * b * b,
    ;
}

/// A count that reaches a level reaches every level below it.
pub proof fn lemma_reaches_lower(v: int, c: int, m: int, j: int, k: int)
    requires
        0 <= c,
        j <= k,
        reaches(v, c, m, k),
    ensures
        reaches(v, c, m, j),
{
    if j >= 1 {
        lemma_fourth_monotonic(2 * j - 1, 2 * k - 1);
        let fj = fourth(2 * j - 1);
        let fk = fourth(2 * k - 1);
        assert(fj * c <= fk * c) by (nonlinear_arith)
            requires
                0 <= c,
                fj <= fk,
        ;
    }
}

/// A larger count reaches every level that a smaller count reaches.
pub proof fn lemma_reaches_more(v: int, w: int, c: int, m: int, k: int)
    requires
        v <= w,
        0 <= m,
        reaches(v, c, m, k),
    ensures
        reaches(w, c, m, k),
{
    if k >= 1 {
        lemma_fourth_monotonic(0, 2 * m);
        let f = fourth(2 * m);
        assert(f * v <= f * w) by (nonlinear_arith)
            requires
                0 <= f,
                v <= w,
        ;
    }
}

/// No count up to the clipping value reaches a level above the brightest.
pub proof fn lemma_never_above_max(v: int, c: int, m: int)
    requires
        v <= c,
        0 < c,
        0 <= m,
    ensures
        !reaches(v, c, m, m + 1),
{
    lemma_fourth_strictly_monotonic(2 * m, 2 * m + 1);
    lemma_fourth_monotonic(0, 2 * m);
    let f = fourth(2 * m);
    let g = fourth(2 * (m + 1) - 1);
    assert(f * v < g * c) by (nonlinear_arith)
        requires
            0 <= f < g,
            v <= c,
            0 < c,
    ;
}

/// What `level_from` returns is reached, it is at most `k`, and no level
/// above it up to `k` is reached.
pub proof fn lemma_level_from_is_largest(v: int, c: int, m: int, k: nat)
    ensures
        level_from(v, c, m, k) <= k,
        reaches(v, c, m, level_from(v, c, m, k) as int),
        forall|j: int| level_from(v, c, m, k) < j <= k ==> !reaches(v, c, m, j),
    decreases k,
{
    if k > 0 && !reaches(v, c, m, k as int) {
        lemma_level_from_is_largest(v, c, m, (k - 1) as nat);
    }
}

/// A level that is reached while the next one is not is the level that
/// `level_from` returns.
pub proof fn lemma_level_from_unique(v: int, c: int, m: int, k: nat, r: int)
    requires
        0 <= c,
        0 <= r <= k,
        reaches(v, c, m, r),
        !reaches(v, c, m, r + 1),
    ensures
        level_from(v, c, m, k) == r,
    decreases k,
{
    if k as int == r {
    } else {
        if reaches(v, c, m, k as int) {
            lemma_reaches_lower(v, c, m, r + 1, k as int);
        }
        lemma_level_from_unique(v, c, m, (k - 1) as nat, r);
    }
}

/// The level lies on the scale, and it is the rounded brightness: the
/// brightness is at least the level less one half, and below the level plus
/// one half.
pub proof fn lemma_level_brackets(count: int, clip: int, max: int)
    requires
        0 <= count,
        0 < clip,
        0 < max,
    ensures
        0 <= level_of(count, clip, max) <= max,
        reaches(clamped(count, clip), clip, max, level_of(count, clip, max)),
        !reaches(clamped(count, clip), clip, max, level_of(count, clip, max) + 1),
{
    let v = clamped(count, clip);
    lemma_level_from_is_largest(v, clip, max, max as nat);
    let r = level_of(count, clip, max);
    if r == max {
        lemma_never_above_max(v, clip, max);
    }
}

/// A pixel that was visited more often is at least as bright.
pub proof fn lemma_level_monotonic(v1: int, v2: int, clip: int, max: int)
    requires
        0 <= v1 <= v2,
    ensures
        level_of(v1, clip, max) <= level_of(v2, clip, max),
{
    if clip > 0 && max > 0 {
        let r1 = level_of(v1, clip, max);
        let r2 = level_of(v2, clip, max);
        lemma_level_brackets(v1, clip, max);
        lemma_level_brackets(v2, clip, max);
        if r1 > r2 {
            lemma_reaches_lower(clamped(v1, clip), clip, max, r2 + 1, r1);
            lemma_reaches_more(clamped(v1, clip), clamped(v2, clip), clip, max, r2 + 1);
        }
    }
}

/// A count at or above the clipping value maps to the brightest level, and a
/// count of zero to the darkest.
pub proof fn lemma_level_ends(count: int, clip: int, max: int)
    requires
        0 < clip,
        0 < max,
    ensures
        count >= clip ==> level_of(count, clip, max) == max,
        count == 0 ==> level_of(count, clip, max) == 0,
{
    if count >= clip {
        lemma_fourth_monotonic(2 * max - 1, 2 * max);
        let f = fourth(2 * max);
        let g = fourth(2 * max - 1);
        assert(f * clip >= g * clip) by (nonlinear_arith)
            requires
                g <= f,
                0 < clip,
        ;
        assert(reaches(clip, clip, max, max));
    }
    if count == 0 {
        lemma_level_brackets(0, clip, max);
        let r = level_of(0, clip, max);
        if r >= 1 {
            lemma_fourth_monotonic(1, 2 * r - 1);
            assert(fourth(1) == 1) by (nonlinear_arith)
                requires
                    fourth(1) == 1 * 1 * 1 * 1,
            ;
            let g = fourth(2 * r - 1);
            let f = fourth(2 * max);
            assert(g * clip > 0) by (nonlinear_arith)
                requires
                    g >= 1,
                    clip > 0,
            ;
            assert(f * 0 == 0) by (nonlinear_arith);
        }
    }
}

/// On a scale of at least 15 bits every visited pixel is brighter than
/// black, whatever the clipping value.
pub proof fn lemma_level_positive(count: int, clip: int, max: int)
    requires
        1 <= count,
        1 <= clip <= u64::MAX,
        32768 <= max,
    ensures
        level_of(count, clip, max) >= 1,
{
    let v = clamped(count, clip);
    lemma_fourth_monotonic(65536, 2 * max);
    assert(fourth(65536) == 0x1_0000_0000_0000_0000) by (nonlinear_arith)
        requires
            fourth(65536) == 65536 * 65536 * 65536 * 65536int,
    ;
    assert(fourth(2 * 1 - 1) == 1) by (nonlinear_arith)
        requires
            fourth(2 * 1 - 1) == 1 * 1 * 1 * 1int,
    ;
    let f = fourth(2 * max);
    assert(f * v >= 1 * clip) by (nonlinear_arith)
        requires
            f >= 0x1_0000_0000_0000_0000,
            v >= 1,
            clip <= 0xFFFF_FFFF_FFFF_FFFF,
    ;
    assert(reaches(v, clip, max, 1));
    lemma_level_from_is_largest(v, clip, max, max as nat);
}

/// The weight of the upper limb of a product: `2^64`.
const LIMB: u128 = 0x1_0000_0000_0000_0000;

/// The product of `a` and `b` as two limbs: `upper * 2^64 + lower`.
fn wide_mul(a: u128, b: u64) -> (r: (u128, u128))
    requires
        a < 16 * LIMB,
    ensures
        r.1 < LIMB,
        a * b == r.0 * LIMB + r.1,
{
    let a1: u128 = a / LIMB;
    let a0: u128 = a % LIMB;
    let bw: u128 = b as u128;
    assert(a0 * bw <= u128::MAX) by (nonlinear_arith)
        requires
            a0 < 0x1_0000_0000_0000_0000,
            bw < 0x1_0000_0000_0000_0000,
    ;
    assert(a1 * bw < 16 * 0x1_0000_0000_0000_0000) by (nonlinear_arith)
        requires
            a1 < 16,
            bw < 0x1_0000_0000_0000_0000,
    ;
    let low_part: u128 = a0 * bw;
    let high_part: u128 = a1 * bw;
    let upper: u128 = high_part + low_part / LIMB;
    let lower: u128 = low_part % LIMB;
    assert(a * b == upper * LIMB + lower) by (nonlinear_arith)
        requires
            a == a1 * LIMB + a0,
            low_part == a0 * b,
            high_part == a1 * b,
            upper == high_part + low_part / LIMB,
            lower == low_part % LIMB,
            LIMB == 0x1_0000_0000_0000_0000,
    ;
    (upper, lower)
}

/// The fourth power of a number of at most 17 bits.
fn fourth_power(n: u32) -> (r: u128)
    requires
        n <= 131071,
    ensures
        r == fourth(n as int),
        r < 16 * LIMB,
{
    let w: u128 = n as u128;
    assert(w * w <= 131071 * 131071) by (nonlinear_arith)
        requires
            w <= 131071,
    ;
    let w2: u128 = w * w;
    assert(w2 * w2 <= 17179607041 * 17179607041) by (nonlinear_arith)
        requires
            w2 <= 17179607041,
    ;
    let w4: u128 = w2 * w2;
    assert(w4 == fourth(n as int)) by (nonlinear_arith)
        requires
            w4 == w2 * w2,
            w2 == w * w,
            w == n,
            fourth(n as int) == n * n * n * n,
    ;
    w4
}

/// Whether `v` out of `c` reaches level `k` on a scale from 0 to `m`.
fn reaches_level(v: u64, c: u64, m: u16, k: u32) -> (r: bool)
    requires
        1 <= k <= m + 1,
    ensures
        r == reaches(v as int, c as int, m as int, k as int),
{
    let scale: u128 = fourth_power(2 * (m as u32));
    let step: u128 = fourth_power(2 * k - 1);
    let (h1, l1) = wide_mul(scale, v);
    let (h2, l2) = wide_mul(step, c);
    h1 > h2 || (h1 == h2 && l1 >= l2)
}

/// The level of a pixel that was visited `count` times, on a scale from 0
/// to `max`, where `clip` visits or more give `max`.
pub fn tone_level(count: u64, clip: u64, max: u16) -> (r: u16)
    ensures
        r as int == level_of(count as int, clip as int, max as int),
        r <= max,
{
    if clip == 0 || max == 0 {
        return 0;
    }
    let v: u64 = if count >= clip { clip } else { count };
    let mut lo: u32 = 0;
    let mut hi: u32 = max as u32 + 1;
    proof {
        lemma_never_above_max(v as int, clip as int, max as int);
    }
    while hi - lo > 1
        invariant
            0 <= lo < hi <= max + 1,
            reaches(v as int, clip as int, max as int, lo as int),
            !reaches(v as int, clip as int, max as int, hi as int),
        decreases hi - lo,
    {
        let mid: u32 = lo + (hi - lo) / 2;
        if reaches_level(v, clip, max, mid) {
            lo = mid;
        } else {
            hi = mid;
        }
    }
    proof {
        lemma_level_from_unique(v as int, clip as int, max as int, max as nat, lo as int);
    }
    lo as u16
}

} // verus!
