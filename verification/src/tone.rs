//! From visit counts to a raster: the clipping value and the image.

use vstd::prelude::*;
use crate::histogram::Histogram;
use crate::level::{
    lemma_level_brackets, lemma_level_ends, lemma_level_monotonic, lemma_level_positive, level_of,
    tone_level,
};
use crate::pixel::PixelCoord;
use crate::raster::{cell, fits_memory, lemma_cell_order, lemma_cell_row_end, Raster};

verus! {

/// Each element is smaller than the next.
pub open spec fn strictly_increasing(l: Seq<u64>) -> bool {
    forall|i: int, j: int| 0 <= i < j < l.len() ==> l[i] < l[j]
}

/// `l` holds the elements of `s`, each once, smallest first.
pub open spec fn is_ascending_listing(l: Seq<u64>, s: Set<u64>) -> bool {
    &&& strictly_increasing(l)
    &&& forall|v: u64| l.contains(v) <==> s.contains(v)
}

/// The elements of a finite set, smallest first.
pub open spec fn ascending(s: Set<u64>) -> Seq<u64> {
    choose|l: Seq<u64>| is_ascending_listing(l, s)
}

/// The clipping value for the distinct counts `l`, smallest first: the third
/// highest; where there are fewer than three, the highest; where there is
/// none, 1.
pub open spec fn clip_of(l: Seq<u64>) -> u64 {
    if l.len() == 0 {
        1
    } else if l.len() < 3 {
        l[l.len() - 1]
    } else {
        l[l.len() - 3]
    }
}

/// The level of the raster's cell in column `x` and row `y`: that of the
/// pixel's count where the histogram `m` has an entry for it, else zero.
pub open spec fn shade(m: Map<PixelCoord, u64>, x: int, y: int, clip: u64, max: u16) -> int {
    if 0 <= x <= u16::MAX && 0 <= y <= u16::MAX && m.contains_key(
        PixelCoord { x: x as u16, y: y as u16 },
    ) {
        level_of(m[PixelCoord { x: x as u16, y: y as u16 }] as int, clip as int, max as int)
    } else {
        0
    }
}

/// Where there are counts at all, the clipping value is one of them.
pub proof fn lemma_clip_is_a_count(l: Seq<u64>, s: Set<u64>)
    requires
        is_ascending_listing(l, s),
        l.len() > 0,
    ensures
        s.contains(clip_of(l)),
{
    if l.len() < 3 {
        assert(l.contains(l[l.len() - 1]));
    } else {
        assert(l.contains(l[l.len() - 3]));
    }
}

/// A cell whose pixel was never visited is dark.
pub proof fn lemma_unvisited_cell_is_dark(
    m: Map<PixelCoord, u64>,
    p: PixelCoord,
    clip: u64,
    max: u16,
)
    requires
        !m.contains_key(p),
    ensures
        shade(m, p.x as int, p.y as int, clip, max) == 0,
{
}

/// In a histogram whose counts are all at least one, every visited cell is
/// brighter than black on a scale of at least 15 bits.
pub proof fn lemma_visited_cell_is_lit(
    m: Map<PixelCoord, u64>,
    l: Seq<u64>,
    p: PixelCoord,
    max: u16,
)
    requires
        is_ascending_listing(l, m.values()),
        m.contains_key(p),
        forall|q: PixelCoord| m.contains_key(q) ==> #[trigger] m[q] >= 1,
        max >= 32768,
    ensures
        shade(m, p.x as int, p.y as int, clip_of(l), max) >= 1,
{
    assert(m.contains_value(m[p]));
    assert(m.values().contains(m[p]));
    assert(l.contains(m[p]));
    lemma_clip_is_a_count(l, m.values());
    let clip = clip_of(l);
    assert(m.contains_value(clip));
    let q = choose|q: PixelCoord| #[trigger] m.dom().contains(q) && m[q] == clip;
    assert(m.contains_key(q));
    assert(m[q] >= 1);
    lemma_level_positive(m[p] as int, clip as int, max as int);
}

/// A cell whose count is at least the clipping value is as bright as the
/// scale allows.
pub proof fn lemma_clipped_cell_is_brightest(
    m: Map<PixelCoord, u64>,
    p: PixelCoord,
    clip: u64,
    max: u16,
)
    requires
        m.contains_key(p),
        m[p] >= clip,
        clip >= 1,
    ensures
        shade(m, p.x as int, p.y as int, clip, max) == max,
{
    if max > 0 {
        lemma_level_ends(m[p] as int, clip as int, max as int);
    }
}

/// No cell is brighter than the scale allows.
pub proof fn lemma_shade_on_scale(m: Map<PixelCoord, u64>, x: int, y: int, clip: u64, max: u16)
    ensures
        0 <= shade(m, x, y, clip, max) <= max,
{
    if 0 <= x <= u16::MAX && 0 <= y <= u16::MAX && m.contains_key(
        PixelCoord { x: x as u16, y: y as u16 },
    ) && clip > 0 && max > 0 {
        lemma_level_brackets(
            m[PixelCoord { x: x as u16, y: y as u16 }] as int,
            clip as int,
            max as int,
        );
    }
}

/// Of two visited cells the one with the higher count is at least as bright.
pub proof fn lemma_shade_monotonic(
    m: Map<PixelCoord, u64>,
    p: PixelCoord,
    q: PixelCoord,
    clip: u64,
    max: u16,
)
    requires
        m.contains_key(p),
        m.contains_key(q),
        m[p] <= m[q],
    ensures
        shade(m, p.x as int, p.y as int, clip, max) <= shade(m, q.x as int, q.y as int, clip, max),
{
    lemma_level_monotonic(m[p] as int, m[q] as int, clip as int, max as int);
}

/// A set has at most one ascending listing.
pub proof fn lemma_ascending_unique(a: Seq<u64>, b: Seq<u64>, s: Set<u64>)
    requires
        is_ascending_listing(a, s),
        is_ascending_listing(b, s),
    ensures
        a == b,
    decreases a.len(),
{
    if a.len() == 0 {
        if b.len() > 0 {
            assert(b.contains(b[0]));
            assert(a.contains(b[0]));
        }
        assert(a =~= b);
    } else {
        let top = a.last();
        assert(a.contains(top));
        assert(b.contains(top));
        assert(b.len() > 0);
        assert(b.contains(b.last()));
        assert(a.contains(b.last()));
        assert(top == b.last());
        let rest = s.remove(top);
        let a0 = a.drop_last();
        let b0 = b.drop_last();
        assert forall|v: u64| a0.contains(v) <==> rest.contains(v) by {
            if a0.contains(v) {
                let i = choose|i: int| 0 <= i < a0.len() && a0[i] == v;
                assert(a[i] == v);
                assert(a.contains(v));
            }
            if rest.contains(v) {
                assert(a.contains(v));
                let i = choose|i: int| 0 <= i < a.len() && a[i] == v;
                assert(a0[i] == v);
            }
        }
        assert forall|v: u64| b0.contains(v) <==> rest.contains(v) by {
            if b0.contains(v) {
                let i = choose|i: int| 0 <= i < b0.len() && b0[i] == v;
                assert(b[i] == v);
                assert(b.contains(v));
            }
            if rest.contains(v) {
                assert(b.contains(v));
                let i = choose|i: int| 0 <= i < b.len() && b[i] == v;
                assert(b0[i] == v);
            }
        }
        lemma_ascending_unique(a0, b0, rest);
        assert(a =~= a0.push(top));
        assert(b =~= b0.push(top));
    }
}

/// Puts `value` at its place in an ascending run, unless it is there already.
fn insert_distinct(out: &mut Vec<u64>, value: u64)
    requires
        strictly_increasing(old(out)@),
    ensures
        strictly_increasing(final(out)@),
        forall|v: u64| final(out)@.contains(v) <==> (old(out)@.contains(v) || v == value),
{
    let mut lo: usize = 0;
    let mut hi: usize = out.len();
    while lo < hi
        invariant
            0 <= lo <= hi <= out@.len(),
            out@ == old(out)@,
            strictly_increasing(out@),
            forall|j: int| 0 <= j < lo ==> out@[j] < value,
            forall|j: int| hi <= j < out@.len() ==> out@[j] >= value,
        decreases hi - lo,
    {
        let mid: usize = lo + (hi - lo) / 2;
        if out[mid] < value {
            lo = mid + 1;
        } else {
            hi = mid;
        }
    }
    if lo < out.len() && out[lo] == value {
        assert(out@.contains(value));
        return ;
    }
    out.insert(lo, value);
    proof {
        let before = old(out)@;
        let after = out@;
        assert(after == before.insert(lo as int, value));
        assert forall|i: int, j: int| 0 <= i < j < after.len() implies after[i] < after[j] by {
            if i < lo && j > lo {
                assert(after[i] == before[i]);
                assert(after[j] == before[j - 1]);
            }
        }
        assert forall|v: u64| after.contains(v) <==> (before.contains(v) || v == value) by {
            if after.contains(v) {
                let i = choose|i: int| 0 <= i < after.len() && after[i] == v;
                if i < lo {
                    assert(before[i] == v);
                } else if i > lo {
                    assert(before[i - 1] == v);
                }
            }
            if before.contains(v) {
                let i = choose|i: int| 0 <= i < before.len() && before[i] == v;
                if i < lo {
                    assert(after[i] == v);
                } else {
                    assert(after[i + 1] == v);
                }
            }
            if v == value {
                assert(after[lo as int] == v);
            }
        }
    }
}

/// The distinct counts of a histogram, smallest first.
pub fn distinct_counts(hist: &Histogram) -> (r: Vec<u64>)
    ensures
        is_ascending_listing(r@, hist@.values()),
        r@ == ascending(hist@.values()),
{
    let l = hist.entries();
    let n = l.len();
    let mut out: Vec<u64> = Vec::new();
    let mut i: usize = 0;
    while i < n
        invariant
            n == l@.len(),
            0 <= i <= n,
            strictly_increasing(out@),
            forall|v: u64|
                out@.contains(v) <==> exists|j: int| 0 <= j < i && (#[trigger] l@[j]).1 == v,
        decreases n - i,
    {
        let ghost before = out@;
        insert_distinct(&mut out, l[i].1);
        proof {
            assert forall|v: u64|
                out@.contains(v) <==> exists|j: int|
                    0 <= j < i + 1 && (#[trigger] l@[j]).1 == v by {
                if out@.contains(v) {
                    if before.contains(v) {
                        let j = choose|j: int| 0 <= j < i && (#[trigger] l@[j]).1 == v;
                        assert(0 <= j < i + 1 && l@[j].1 == v);
                    } else {
                        assert(l@[i as int].1 == v);
                    }
                }
                if exists|j: int| 0 <= j < i + 1 && (#[trigger] l@[j]).1 == v {
                    let j = choose|j: int| 0 <= j < i + 1 && (#[trigger] l@[j]).1 == v;
                    if j < i {
                        assert(before.contains(v));
                    }
                }
            }
        }
        i = i + 1;
    }
    proof {
        let s = hist@.values();
        assert forall|v: u64| out@.contains(v) <==> s.contains(v) by {
            if out@.contains(v) {
                let j = choose|j: int| 0 <= j < n && (#[trigger] l@[j]).1 == v;
                assert(hist@.dom().contains(l@[j].0) && hist@[l@[j].0] == v);
                assert(hist@.contains_value(v));
            }
            if s.contains(v) {
                assert(hist@.contains_value(v));
                let p = choose|p: PixelCoord| #[trigger] hist@.dom().contains(p) && hist@[p] == v;
                assert(hist@.contains_key(p));
                let j = choose|j: int| 0 <= j < l@.len() && (#[trigger] l@[j]).0 == p;
                assert(l@[j].1 == v);
            }
        }
        assert(is_ascending_listing(out@, s));
        lemma_ascending_unique(out@, ascending(s), s);
    }
    out
}

/// The clipping value for a run of distinct counts, smallest first.
pub fn clip_value(distinct: &Vec<u64>) -> (clip: u64)
    ensures
        clip == clip_of(distinct@),
{
    let n = distinct.len();
    if n == 0 {
        1
    } else if n < 3 {
        distinct[n - 1]
    } else {
        distinct[n - 3]
    }
}

/// The raster of a histogram: `resolution` rows of `resolution` cells, each
/// with the level of its pixel's count on a scale from 0 to `max`, and zero
/// where the pixel was never visited. Entries outside the raster are skipped.
pub fn tone_map(hist: &Histogram, resolution: u32, max: u16) -> (r: Raster)
    requires
        fits_memory(resolution as int),
    ensures
        r.spec_resolution() == resolution,
        r@.len() == resolution * resolution,
        forall|x: int, y: int|
            0 <= x < resolution && 0 <= y < resolution ==> #[trigger] r.at(x, y) as int == shade(
                hist@,
                x,
                y,
                clip_of(ascending(hist@.values())),
                max,
            ),
        forall|x: int, y: int|
            0 <= x < resolution && 0 <= y < resolution ==> #[trigger] r.at(x, y) <= max,
{
    let distinct = distinct_counts(hist);
    let clip = clip_value(&distinct);
    let mut levels: Vec<u16> = Vec::new();
    let mut y: u32 = 0;
    while y < resolution
        invariant
            0 <= y <= resolution,
            levels@.len() == cell(resolution as int, 0, y as int),
            forall|xx: int, yy: int|
                0 <= xx < resolution && 0 <= yy < y ==> levels@[#[trigger] cell(
                    resolution as int,
                    xx,
                    yy,
                )] as int == shade(hist@, xx, yy, clip, max),
        decreases resolution - y,
    {
        let mut x: u32 = 0;
        while x < resolution
            invariant
                0 <= x <= resolution,
                0 <= y < resolution,
                levels@.len() == cell(resolution as int, x as int, y as int),
                forall|xx: int, yy: int|
                    0 <= xx < resolution && 0 <= yy < y ==> levels@[#[trigger] cell(
                        resolution as int,
                        xx,
                        yy,
                    )] as int == shade(hist@, xx, yy, clip, max),
                forall|xx: int|
                    0 <= xx < x ==> levels@[#[trigger] cell(resolution as int, xx, y as int)] as int
                        == shade(hist@, xx, y as int, clip, max),
            decreases resolution - x,
        {
            let level: u16 = if x <= 65535 && y <= 65535 {
                match hist.get(PixelCoord { x: x as u16, y: y as u16 }) {
                    Some(count) => tone_level(count, clip, max),
                    None => 0,
                }
            } else {
                0
            };
            proof {
                lemma_shade_on_scale(hist@, x as int, y as int, clip, max);
                assert forall|xx: int, yy: int| 0 <= xx < resolution && 0 <= yy < y implies cell(
                    resolution as int,
                    xx,
                    yy,
                ) < levels@.len() by {
                    lemma_cell_order(resolution as int, xx, yy, x as int, y as int);
                }
            }
            levels.push(level);
            x = x + 1;
        }
        proof {
            lemma_cell_row_end(resolution as int, y as int);
        }
        y = y + 1;
    }
    proof {
        assert(cell(resolution as int, 0, resolution as int) == resolution * resolution);
        assert forall|xx: int, yy: int| 0 <= xx < resolution && 0 <= yy < resolution implies levels@[cell(
            resolution as int,
            xx,
            yy,
        )] <= max by {
            lemma_shade_on_scale(hist@, xx, yy, clip, max);
        }
    }
    Raster::from_levels(resolution, levels)
}

} // verus!
